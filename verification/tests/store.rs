#![allow(non_snake_case)]
use appender::error::ResourceError;
use appender::head::{CompressMode, ResourceHead, BUFFER_SIZE, HEAD_LENGTH};
use appender::store::{
    _findResourcesConfig, addResource, append_record, check_size, exportResource, extract_record,
    find_record, is_sealed, read_header_at, read_payload, read_record, trailer_bytes,
    MAGIC_LENGTH, TRAILER_LENGTH,
};
use appender::util::decompressFile;

const MAGIC: [u8; 16] = [
    0x89, b'O', b'v', b'e', b'r', b'l', b'a', b'y', b'D', b'a', b't', b'a', 0x0d, 0x0a, 0x1a, 0x0a,
];

struct Fixture {
    id: &'static str,
    target: Vec<u8>,
    source: Vec<u8>,
    source_name: &'static str,
}

fn fixture() -> Fixture {
    Fixture {
        id: "1",
        target: b"MZ\x90\x00 this stands for a program \x00\x01\x02".to_vec(),
        source: b"the bytes of the resource \x00\xff\x10 and some more".to_vec(),
        source_name: "hh.exe",
    }
}

fn raw_record(version: &str, id: &str, name: &str, length: &str, size: &str, mode: u32, payload: &[u8], end: &[u8]) -> Vec<u8> {
    let fields = (
        MAGIC.to_vec(),
        version.to_string(),
        format!("{:^64}", id),
        format!("{:^255}", name),
        length.to_string(),
        size.to_string(),
        mode,
    );
    let mut bytes = bincode::serialize(&fields).unwrap();
    bytes.extend_from_slice(payload);
    bytes.extend_from_slice(end);
    bytes
}

#[test]
fn tests_addResourceTest() {
    let mut f = fixture();
    let before = f.target.clone();
    addResource(&mut f.target, &f.source, f.source_name, f.id, None).unwrap();
    let head = ResourceHead::new("1", f.source.len() as u64, f.source.len() as u64, "hh.exe", CompressMode::Plain);
    let mut expected = before;
    expected.extend_from_slice(&head.to_bytes().unwrap());
    expected.extend_from_slice(&f.source);
    expected.extend_from_slice(b"ODEND");
    assert_eq!(f.target, expected);
}

#[test]
fn tests_exportResourceTest() {
    let mut f = fixture();
    addResource(&mut f.target, &f.source, f.source_name, f.id, None).unwrap();
    let out = exportResource(&f.target, f.id).unwrap();
    assert_eq!(out.data, f.source);
    assert_eq!(out.name, "hh.exe");
}

#[test]
fn tests_autoTest() {
    let mut f = fixture();
    let untouched = f.target.clone();
    addResource(&mut f.target, &f.source, f.source_name, f.id, None).unwrap();
    assert_eq!(&f.target[..untouched.len()], &untouched[..]);
    let out = exportResource(&f.target, f.id).unwrap();
    assert_eq!(out.data, f.source);
    assert_eq!(out.name, f.source_name);
}

#[test]
fn test4() {
    let mut f = fixture();
    assert_eq!(_findResourcesConfig(&f.target).len(), 0);
    addResource(&mut f.target, &f.source, f.source_name, "first", None).unwrap();
    addResource(&mut f.target, b"second payload", "b.txt", "second", None).unwrap();
    let found = _findResourcesConfig(&f.target);
    assert_eq!(found.len(), 2);
    assert_eq!(found[0].getId().trim(), "first");
    assert_eq!(found[1].getId().trim(), "second");
}

#[test]
fn trailer_is_the_end_marker() {
    assert_eq!(trailer_bytes(), b"ODEND".to_vec());
    assert_eq!(TRAILER_LENGTH, 5);
    assert_eq!(MAGIC_LENGTH, 16);
}

#[test]
fn round_trip_of_many_payloads() {
    let payloads: Vec<Vec<u8>> = vec![
        vec![],
        vec![0],
        b"O".to_vec(),
        b"ODEN".to_vec(),
        b"DEND".to_vec(),
        b"xxODENxxOD".to_vec(),
        (0..=255u8).collect(),
        vec![0x89; 1000],
    ];
    for (i, payload) in payloads.iter().enumerate() {
        let mut host = b"host".to_vec();
        let id = format!("id{}", i);
        addResource(&mut host, payload, "p.bin", &id, None).unwrap();
        let out = exportResource(&host, &id).unwrap();
        assert_eq!(&out.data, payload);
        assert_eq!(out.name, "p.bin");
    }
}

#[test]
fn round_trip_on_an_empty_host() {
    let mut host = Vec::new();
    addResource(&mut host, b"payload", "n", "k", None).unwrap();
    assert_eq!(host.len(), HEAD_LENGTH + 7 + 5);
    assert_eq!(exportResource(&host, "k").unwrap().data, b"payload".to_vec());
}

#[test]
fn payload_with_an_end_marker_inside_is_incomplete() {
    let mut host = b"host".to_vec();
    addResource(&mut host, b"abcODENDdef", "n", "k", None).unwrap();
    assert_eq!(exportResource(&host, "k").err(), Some(ResourceError::IncompleteResource));
    // the stored bytes up to the first marker are what the record is read as
    assert_eq!(extract_record(&host, "k").unwrap().payload, b"abc".to_vec());
}

#[test]
fn stored_compressed_is_read_back_by_unpacking() {
    let mut host = b"host".to_vec();
    let source: Vec<u8> = b"compress me, compress me, compress me, compress me".to_vec();
    addResource(&mut host, &source, "c.txt", "z", Some(5)).unwrap();
    let found = extract_record(&host, "z").unwrap();
    assert_eq!(found.head.getCompress(), CompressMode::Compress);
    assert_eq!(found.head.getLength(), format!("{:0>13}", found.payload.len()));
    assert_eq!(found.head.getSize(), found.head.getLength());
    assert_eq!(decompressFile(&found.payload).unwrap(), source);
}

#[test]
fn export_measures_the_unpacked_payload_against_the_declared_size() {
    let source: Vec<u8> = b"compress me, compress me, compress me, compress me".to_vec();
    let mut host = Vec::new();
    addResource(&mut host, &source, "c.txt", "z", Some(9)).unwrap();
    let stored = extract_record(&host, "z").unwrap().payload;
    assert!(stored.len() != source.len());
    // the declared size is that of the stored bytes, which the unpacked payload does not have
    assert_eq!(exportResource(&host, "z").err(), Some(ResourceError::IncompleteResource));
    // a record whose declared size is that of the unpacked payload is exported
    let length = format!("{:0>13}", stored.len());
    let size = format!("{:0>13}", source.len());
    let host = raw_record("1.0.0", "z", "c.txt", &length, &size, 1, &stored, b"ODEND");
    let out = exportResource(&host, "z").unwrap();
    assert_eq!(out.data, source);
    assert_eq!(out.name, "c.txt");
}

#[test]
fn stored_bytes_that_are_no_stream_are_refused() {
    let host = raw_record("1.0.0", "z", "c.txt", "0000000000003", "0000000000003", 1, b"abc", b"ODEND");
    assert_eq!(exportResource(&host, "z").err(), Some(ResourceError::Compression));
}

#[test]
fn header_overflow_writes_nothing() {
    let mut host = b"host".to_vec();
    let long_id = "i".repeat(65);
    assert_eq!(addResource(&mut host, b"x", "n", &long_id, None), Err(ResourceError::HeaderOverflow));
    assert_eq!(host, b"host".to_vec());
    let long_name = "n".repeat(256);
    assert_eq!(append_record(&mut host, b"x", "i", &long_name, CompressMode::Plain), Err(ResourceError::HeaderOverflow));
    assert_eq!(host, b"host".to_vec());
    // 22 characters of three bytes each: 66 bytes
    let wide_id = "标".repeat(22);
    assert_eq!(addResource(&mut host, b"x", "n", &wide_id, None), Err(ResourceError::HeaderOverflow));
    assert_eq!(host, b"host".to_vec());
    // the budgets themselves fit
    assert_eq!(addResource(&mut host, b"x", &"n".repeat(255), &"i".repeat(64), None), Ok(()));
    assert_eq!(exportResource(&host, &"i".repeat(64)).unwrap().data, b"x".to_vec());
}

#[test]
fn absent_id_is_not_found() {
    let mut f = fixture();
    assert_eq!(exportResource(&f.target, "1").err(), Some(ResourceError::ResourceNotFound));
    addResource(&mut f.target, &f.source, f.source_name, "1", None).unwrap();
    assert_eq!(exportResource(&f.target, "2").err(), Some(ResourceError::ResourceNotFound));
    assert_eq!(exportResource(&f.target, "").err(), Some(ResourceError::ResourceNotFound));
    assert_eq!(exportResource(&f.target, " 1").err(), Some(ResourceError::ResourceNotFound));
    assert_eq!(exportResource(&[], "1").err(), Some(ResourceError::ResourceNotFound));
    assert!(find_record(&f.target, "2").is_none());
}

#[test]
fn incidental_signatures_are_passed_over() {
    let mut host = Vec::new();
    host.extend_from_slice(&MAGIC); // at offset 0: no room for a length before it
    host.extend_from_slice(b"....");
    host.extend_from_slice(&MAGIC); // garbage around it
    host.extend_from_slice(&[0xff; 500]);
    host.extend_from_slice(&[16, 0, 0, 0, 0, 0, 0, 0]);
    host.extend_from_slice(&MAGIC); // a header cut short by what follows
    host.extend_from_slice(&[5, 0, 0, 0, 0, 0, 0, 0]);
    host.extend_from_slice(b"1.0.0");
    host.extend_from_slice(&[0xff; 600]);
    assert_eq!(exportResource(&host, "1").err(), Some(ResourceError::ResourceNotFound));
    assert_eq!(_findResourcesConfig(&host).len(), 0);
    addResource(&mut host, b"real", "r", "1", None).unwrap();
    host.extend_from_slice(&MAGIC); // at the very end
    assert_eq!(exportResource(&host, "1").unwrap().data, b"real".to_vec());
    assert_eq!(_findResourcesConfig(&host).len(), 1);
}

#[test]
fn first_record_with_the_id_wins() {
    let mut host = b"host".to_vec();
    addResource(&mut host, b"one", "1.txt", "same", None).unwrap();
    addResource(&mut host, b"other", "o.txt", "other", None).unwrap();
    addResource(&mut host, b"two", "2.txt", "same", None).unwrap();
    let out = exportResource(&host, "same").unwrap();
    assert_eq!(out.data, b"one".to_vec());
    assert_eq!(out.name, "1.txt");
    assert_eq!(exportResource(&host, "other").unwrap().data, b"other".to_vec());
    let (at, head) = find_record(&host, "same").unwrap();
    assert_eq!(at, 4 + 8);
    assert_eq!(head.getName().trim(), "1.txt");
}

#[test]
fn older_and_newer_versions_are_refused_each_in_its_way() {
    let older = raw_record("0.9.0", "v", "n", "0000000000003", "0000000000003", 0, b"abc", b"ODEND");
    let r = exportResource(&older, "v");
    assert_eq!(r.err(), Some(ResourceError::VersionOlder { stored: "0.9.0".to_string() }));
    let newer = raw_record("1.0.1", "v", "n", "0000000000003", "0000000000003", 0, b"abc", b"ODEND");
    let r = exportResource(&newer, "v");
    assert_eq!(r.err(), Some(ResourceError::VersionNewer { stored: "1.0.1".to_string() }));
    let malformed = raw_record("1.0.x", "v", "n", "0000000000003", "0000000000003", 0, b"abc", b"ODEND");
    assert_eq!(exportResource(&malformed, "v").err(), Some(ResourceError::MalformedVersion));
    let same = raw_record("01.00", "v", "n", "0000000000003", "0000000000003", 0, b"abc", b"ODEND");
    assert_eq!(exportResource(&same, "v").unwrap().data, b"abc".to_vec());
}

#[test]
fn version_mismatch_does_not_fall_through_to_a_later_record() {
    let mut host = raw_record("2.0.0", "v", "n", "0000000000003", "0000000000003", 0, b"abc", b"ODEND");
    addResource(&mut host, b"good", "g", "v", None).unwrap();
    assert_eq!(
        exportResource(&host, "v").err(),
        Some(ResourceError::VersionNewer { stored: "2.0.0".to_string() })
    );
}

#[test]
fn corrupted_trailer_is_incomplete() {
    let mut f = fixture();
    addResource(&mut f.target, &f.source, f.source_name, "1", None).unwrap();
    let last = f.target.len() - 1;
    for at in last - 4..=last {
        let mut broken = f.target.clone();
        broken[at] ^= 0x20;
        assert_eq!(exportResource(&broken, "1").err(), Some(ResourceError::IncompleteResource));
    }
    let mut cut = f.target.clone();
    cut.truncate(last);
    assert_eq!(exportResource(&cut, "1").err(), Some(ResourceError::IncompleteResource));
    cut.truncate(last - 10);
    assert_eq!(exportResource(&cut, "1").err(), Some(ResourceError::IncompleteResource));
}

#[test]
fn declared_length_and_trailer_must_agree() {
    // the marker stands after three bytes, the header says four
    let host = raw_record("1.0.0", "v", "n", "0000000000004", "0000000000003", 0, b"abc", b"ODEND");
    assert_eq!(exportResource(&host, "v").err(), Some(ResourceError::IncompleteResource));
    // a length that is no number
    let host = raw_record("1.0.0", "v", "n", "00000000000ab", "0000000000003", 0, b"abc", b"ODEND");
    assert_eq!(exportResource(&host, "v").err(), Some(ResourceError::IncompleteResource));
    // a length beyond the end of the host
    let host = raw_record("1.0.0", "v", "n", "9999999999999", "0000000000003", 0, b"abc", b"ODEND");
    assert_eq!(exportResource(&host, "v").err(), Some(ResourceError::IncompleteResource));
    // a size other than that of the payload
    let host = raw_record("1.0.0", "v", "n", "0000000000003", "0000000000004", 0, b"abc", b"ODEND");
    assert_eq!(exportResource(&host, "v").err(), Some(ResourceError::IncompleteResource));
    // a size with spaces round it is trimmed before it is read
    let host = raw_record("1.0.0", "v", "n", "0000000000003", "      3      ", 0, b"abc", b"ODEND");
    assert_eq!(exportResource(&host, "v").unwrap().data, b"abc".to_vec());
}

#[test]
fn signature_across_a_chunk_boundary_is_found() {
    for shift in 0..(MAGIC_LENGTH + 8) {
        // the header starts `shift` bytes before the end of the first chunk
        let mut host = vec![0u8; BUFFER_SIZE - shift];
        addResource(&mut host, b"payload", "n", "edge", None).unwrap();
        let (at, _) = find_record(&host, "edge").unwrap();
        assert_eq!(at as usize, BUFFER_SIZE - shift + 8);
        assert_eq!(exportResource(&host, "edge").unwrap().data, b"payload".to_vec());
        assert_eq!(_findResourcesConfig(&host).len(), 1);
    }
}

#[test]
fn trailer_across_a_chunk_boundary_ends_the_payload() {
    for shift in 0..(TRAILER_LENGTH + 2) {
        let mut payload = vec![7u8; BUFFER_SIZE - shift];
        payload[0] = b'O';
        let mut host = b"host".to_vec();
        addResource(&mut host, &payload, "n", "edge", None).unwrap();
        let out = exportResource(&host, "edge").unwrap();
        assert_eq!(out.data.len(), payload.len());
        assert!(out.data == payload);
    }
}

#[test]
fn listing_returns_every_record_in_order() {
    let mut host = b"host".to_vec();
    for n in 0..6 {
        let found = _findResourcesConfig(&host);
        assert_eq!(found.len(), n);
        for (i, head) in found.iter().enumerate() {
            assert_eq!(head.getId().trim(), format!("id-{}", i));
            assert_eq!(head.getName().trim(), format!("file-{}.bin", i));
            assert_eq!(head.getLength(), format!("{:0>13}", i));
        }
        let payload = vec![b'p'; n];
        addResource(&mut host, &payload, &format!("file-{}.bin", n), &format!("id-{}", n), None).unwrap();
    }
}

#[test]
fn header_is_read_behind_the_signature() {
    let mut host = b"host".to_vec();
    addResource(&mut host, b"abc", "n", "k", None).unwrap();
    assert_eq!(read_header_at(&host, 12).unwrap().getId().trim(), "k");
    assert!(read_header_at(&host, 11).is_none());
    assert!(read_header_at(&host, 0).is_none());
    assert!(read_header_at(&host, 7).is_none());
    assert!(read_header_at(&host, host.len() as u64).is_none());
    assert!(read_header_at(&host, u64::MAX).is_none());
    let head = read_header_at(&host, 12).unwrap();
    assert!(is_sealed(&host, 12, &head));
    let found = read_record(&host, 12, head).unwrap();
    assert_eq!(found.payload, b"abc".to_vec());
}

#[test]
fn payload_is_read_up_to_the_first_marker() {
    assert_eq!(read_payload(b"abcODENDdefODEND", 0), Some(b"abc".to_vec()));
    assert_eq!(read_payload(b"abcODENDdefODEND", 4), Some(b"DENDdef".to_vec()));
    assert_eq!(read_payload(b"abcODENDdefODEND", 11), Some(vec![]));
    assert_eq!(read_payload(b"abcODENDdefODEND", 12), None);
    assert_eq!(read_payload(b"abcODENDdefODEND", 16), None);
    assert_eq!(read_payload(b"", 0), None);
}

#[test]
fn size_is_checked_against_the_header() {
    let head = ResourceHead::new("k", 3, 3, "  spaced.txt ", CompressMode::Plain);
    let out = check_size(&head, b"abc".to_vec()).unwrap();
    assert_eq!(out.name, "spaced.txt");
    assert_eq!(out.data, b"abc".to_vec());
    assert_eq!(check_size(&head, b"ab".to_vec()).err(), Some(ResourceError::IncompleteResource));
    assert_eq!(check_size(&head, vec![]).err(), Some(ResourceError::IncompleteResource));
}

#[test]
fn signature_inside_an_id_or_a_name_is_no_record() {
    // U+0249 ends in the first byte of the signature; the rest of the signature follows it
    let tricky = "\u{249}OverlayData\r\n\u{1a}\nx";
    assert!(tricky.as_bytes()[1..].starts_with(&MAGIC));
    let mut host = b"host".to_vec();
    addResource(&mut host, b"one", tricky, "first", None).unwrap();
    addResource(&mut host, b"two", "plain", tricky, None).unwrap();
    addResource(&mut host, b"", tricky, tricky, None).unwrap();
    addResource(&mut host, b"four", "last", "last", None).unwrap();
    assert_eq!(memchr::memmem::find_iter(&host, &MAGIC).count(), 8);
    let found = _findResourcesConfig(&host);
    assert_eq!(found.len(), 4);
    assert_eq!(found[0].getId().trim(), "first");
    assert_eq!(found[0].getName().trim(), tricky);
    assert_eq!(found[1].getId().trim(), tricky);
    assert_eq!(found[2].getId().trim(), tricky);
    assert_eq!(found[3].getId().trim(), "last");
    assert_eq!(exportResource(&host, "first").unwrap().data, b"one".to_vec());
    assert_eq!(exportResource(&host, tricky).unwrap().data, b"two".to_vec());
    assert_eq!(exportResource(&host, "last").unwrap().data, b"four".to_vec());
}

#[test]
fn compressed_append_stores_what_the_encoder_makes() {
    let source: Vec<u8> = b"compress me, compress me, compress me".to_vec();
    for grade in 0..=9u32 {
        let mut host = b"host".to_vec();
        assert_eq!(addResource(&mut host, &source, "c.txt", "z", Some(grade)), Ok(()));
        let packed = appender::util::compressionFile(&source, grade).unwrap();
        let head = ResourceHead::new("z", packed.len() as u64, packed.len() as u64, "c.txt", CompressMode::Compress);
        let mut expected = b"host".to_vec();
        expected.extend_from_slice(&head.to_bytes().unwrap());
        expected.extend_from_slice(&packed);
        expected.extend_from_slice(b"ODEND");
        assert_eq!(host, expected);
    }
}
