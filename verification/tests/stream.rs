#![allow(non_snake_case)]
use appender::error::ResourceError;
use appender::head::{ResourceHead, BUFFER_SIZE, HEAD_LENGTH};
use appender::store::{
    _findResourcesConfig, addResource, check_length, extract_record, record_header,
};
use appender::stream::{ExtractStep, Extraction, ReadRequest, RecordWalk, WalkStep};

const MAGIC: [u8; 16] = [
    0x89, b'O', b'v', b'e', b'r', b'l', b'a', b'y', b'D', b'a', b't', b'a', 0x0d, 0x0a, 0x1a, 0x0a,
];

fn read_at<'a>(host: &'a [u8], request: &ReadRequest) -> &'a [u8] {
    let from = std::cmp::min(request.at, host.len() as u64) as usize;
    let to = std::cmp::min(request.at.saturating_add(request.len as u64), host.len() as u64) as usize;
    &host[from..to]
}

fn extract(host: &[u8], id: &str, chunk: usize) -> Result<(ResourceHead, Vec<u8>), ResourceError> {
    let mut machine = Extraction::with_chunk(id, chunk);
    let mut written = Vec::new();
    loop {
        let request = machine.request();
        assert!(request.len <= std::cmp::max(chunk, HEAD_LENGTH));
        match machine.step(read_at(host, &request)) {
            ExtractStep::More => {}
            ExtractStep::Write(bytes) => written.extend_from_slice(&bytes),
            ExtractStep::Stored { head, last } => {
                written.extend_from_slice(&last);
                return Ok((head, written));
            }
            ExtractStep::Failed(e) => return Err(e),
        }
    }
}

fn walk(host: &[u8], chunk: usize) -> Vec<(u64, ResourceHead)> {
    let mut machine = RecordWalk::with_chunk(chunk);
    let mut found = Vec::new();
    loop {
        let request = machine.request();
        match machine.step(read_at(host, &request)) {
            WalkStep::More => {}
            WalkStep::Found { at, head } => found.push((at, head)),
            WalkStep::End => return found,
        }
    }
}

fn raw_record(version: &str, id: &str, length: &str, payload: &[u8], end: &[u8]) -> Vec<u8> {
    let fields = (
        MAGIC.to_vec(),
        version.to_string(),
        format!("{:^64}", id),
        format!("{:^255}", "n"),
        length.to_string(),
        length.to_string(),
        0u32,
    );
    let mut bytes = bincode::serialize(&fields).unwrap();
    bytes.extend_from_slice(payload);
    bytes.extend_from_slice(end);
    bytes
}

fn hosts() -> Vec<Vec<u8>> {
    let mut all = Vec::new();
    all.push(Vec::new());
    all.push(b"no record here".to_vec());
    let mut one = b"host".to_vec();
    addResource(&mut one, b"the payload", "p.bin", "k", None).unwrap();
    all.push(one.clone());
    let mut many = one.clone();
    addResource(&mut many, b"", "empty", "e", None).unwrap();
    addResource(&mut many, b"ODEN", "almost", "a", None).unwrap();
    addResource(&mut many, b"second with the same id", "q.bin", "k", None).unwrap();
    addResource(&mut many, &[0x89u8; 40], "bytes", "b", None).unwrap();
    addResource(&mut many, b"abcODENDdef", "marker inside", "m", None).unwrap();
    all.push(many.clone());
    let mut noisy = MAGIC.to_vec();
    noisy.extend_from_slice(b"...");
    noisy.extend_from_slice(&MAGIC);
    noisy.extend_from_slice(&[0xff; 450]);
    noisy.extend_from_slice(&many);
    noisy.extend_from_slice(&MAGIC);
    all.push(noisy);
    let mut cut = one.clone();
    cut.truncate(one.len() - 3);
    all.push(cut);
    all.push(raw_record("0.9.0", "k", "0000000000003", b"abc", b"ODEND"));
    all.push(raw_record("1.0.1", "k", "0000000000003", b"abc", b"ODEND"));
    all.push(raw_record("1.0.x", "k", "0000000000003", b"abc", b"ODEND"));
    all.push(raw_record("1.0.0", "k", "0000000000004", b"abc", b"ODEND"));
    all.push(raw_record("1.0.0", "k", "000000000000x", b"abc", b"ODEND"));
    all.push(raw_record("1.0.0", "k", "18446744073709551615", b"abc", b"ODEND"));
    all
}

#[test]
fn streamed_extraction_agrees_with_the_whole_host() {
    for host in hosts().iter() {
        for id in ["k", "e", "a", "b", "m", "absent", ""] {
            let whole = extract_record(host, id);
            for chunk in [1usize, 2, 3, 4, 5, 6, 7, 16, 100, 418, 419, 5000] {
                let streamed = extract(host, id, chunk);
                match (&whole, &streamed) {
                    (Ok(a), Ok((head, payload))) => {
                        assert_eq!(&a.payload, payload);
                        assert_eq!(a.head.to_bytes().unwrap(), head.to_bytes().unwrap());
                    }
                    (Err(a), Err(b)) => assert_eq!(a, b),
                    _ => panic!("id {:?}, chunk {}: the two disagree", id, chunk),
                }
            }
        }
    }
}

#[test]
fn streamed_walk_lists_every_record() {
    for host in hosts().iter() {
        let whole = _findResourcesConfig(host);
        for chunk in [1usize, 2, 3, 5, 15, 16, 17, 100, 418, 5000] {
            let streamed = walk(host, chunk);
            assert_eq!(streamed.len(), whole.len());
            for (a, (at, b)) in whole.iter().zip(streamed.iter()) {
                assert_eq!(a.to_bytes().unwrap(), b.to_bytes().unwrap());
                assert_eq!(&host[*at as usize..*at as usize + 16], &MAGIC);
            }
        }
    }
}

#[test]
fn streamed_walk_finds_records_in_their_order() {
    let mut host = b"host".to_vec();
    addResource(&mut host, b"one", "1", "first", None).unwrap();
    addResource(&mut host, b"two", "2", "second", None).unwrap();
    let found = walk(&host, 9);
    assert_eq!(found.len(), 2);
    assert_eq!(found[0].0, 4 + 8);
    assert_eq!(found[0].1.getId().trim(), "first");
    assert_eq!(found[1].0, (4 + 418 + 3 + 5 + 8) as u64);
    assert_eq!(found[1].1.getId().trim(), "second");
}

#[test]
fn streamed_extraction_hands_the_payload_out_in_pieces() {
    let payload: Vec<u8> = (0..1000u32).map(|i| (i % 251) as u8).collect();
    let mut host = b"host".to_vec();
    addResource(&mut host, &payload, "p", "k", None).unwrap();
    let mut machine = Extraction::with_chunk("k", 64);
    let mut pieces = 0;
    let mut written = Vec::new();
    let head = loop {
        let request = machine.request();
        match machine.step(read_at(&host, &request)) {
            ExtractStep::More => {}
            ExtractStep::Write(bytes) => {
                assert!(bytes.len() <= 64);
                pieces += 1;
                written.extend_from_slice(&bytes);
                // what was handed out is a part of the payload, never of the marker
                assert_eq!(&payload[..written.len()], &written[..]);
            }
            ExtractStep::Stored { head, last } => {
                written.extend_from_slice(&last);
                break head;
            }
            ExtractStep::Failed(e) => panic!("{:?}", e),
        }
    };
    assert!(pieces >= 15);
    assert_eq!(written, payload);
    assert_eq!(check_length(&head, written.len() as u64), Ok("p".to_string()));
    assert_eq!(check_length(&head, 999), Err(ResourceError::IncompleteResource));
}

#[test]
fn streamed_extraction_with_the_usual_chunks() {
    let mut host = vec![0u8; BUFFER_SIZE - 12];
    let payload = vec![b'x'; BUFFER_SIZE + BUFFER_SIZE / 2 - 3];
    addResource(&mut host, &payload, "big", "k", None).unwrap();
    let mut machine = Extraction::new("k");
    let mut written = Vec::new();
    loop {
        let request = machine.request();
        match machine.step(read_at(&host, &request)) {
            ExtractStep::More => {}
            ExtractStep::Write(bytes) => written.extend_from_slice(&bytes),
            ExtractStep::Stored { head, last } => {
                written.extend_from_slice(&last);
                assert_eq!(head.getName().trim(), "big");
                break;
            }
            ExtractStep::Failed(e) => panic!("{:?}", e),
        }
    }
    assert!(written == payload);
    let mut walker = RecordWalk::new();
    let mut found = 0;
    loop {
        let request = walker.request();
        match walker.step(read_at(&host, &request)) {
            WalkStep::More => {}
            WalkStep::Found { .. } => found += 1,
            WalkStep::End => break,
        }
    }
    assert_eq!(found, 1);
}

#[test]
fn header_of_a_record_is_made_for_its_length() {
    let bytes = record_header("k", "n.bin", 7, appender::head::CompressMode::Plain).unwrap();
    let head = ResourceHead::new("k", 7, 7, "n.bin", appender::head::CompressMode::Plain);
    assert_eq!(bytes, head.to_bytes().unwrap());
    assert_eq!(bytes.len(), HEAD_LENGTH);
    assert_eq!(
        record_header("k", "n", 10_000_000_000_000, appender::head::CompressMode::Plain),
        Err(ResourceError::HeaderOverflow)
    );
    assert_eq!(
        record_header(&"i".repeat(65), "n", 1, appender::head::CompressMode::Plain),
        Err(ResourceError::HeaderOverflow)
    );
    assert_eq!(
        record_header("k", &"n".repeat(256), 1, appender::head::CompressMode::Compress),
        Err(ResourceError::HeaderOverflow)
    );
}
