#![allow(non_snake_case)]
use appender::head::{
    headerLength, magic_bytes, mode_number, CompressMode, ResourceHead, HEAD_LENGTH, LENGTH_WIDTH,
    MAX_FIELD_VALUE, MAX_ID_LENGTH, MAX_LENGTH_SIZE, MAX_NAME_LENGTH,
};
use appender::error::ResourceError;
use appender::text::pad_center;
use appender::wire::LENGTH_PREFIX;

const MAGIC: [u8; 16] = [
    0x89, b'O', b'v', b'e', b'r', b'l', b'a', b'y', b'D', b'a', b't', b'a', 0x0d, 0x0a, 0x1a, 0x0a,
];

fn reference_bytes(id: &str, length: u64, size: u64, name: &str, mode: u32) -> Vec<u8> {
    let fields = (
        MAGIC.to_vec(),
        "1.0.0".to_string(),
        format!("{:^width$}", id, width = 64 - id.len() + id.chars().count()),
        format!("{:^width$}", name, width = 255 - name.len() + name.chars().count()),
        format!("{:0>13}", length),
        format!("{:0>13}", size),
        mode,
    );
    bincode::serialize(&fields).unwrap()
}

#[test]
fn tests_Test() {
    let resource = ResourceHead::new("1", 39278156, 100, "day01_21.zip", CompressMode::Plain);
    let bin = resource.to_bytes().unwrap();
    assert_eq!(bin.len(), 418);
    assert_eq!(bin, reference_bytes("1", 39278156, 100, "day01_21.zip", 0));
    assert_eq!(resource.getLength(), "0000039278156");
    assert_eq!(resource.getSize(), "0000000000100");
    assert_eq!(resource.getId().len(), 64);
    assert_eq!(resource.getId().trim(), "1");
    assert_eq!(resource.getName().trim(), "day01_21.zip");
    assert_eq!(format!("{:^length$}", "abcd", length = 5).as_bytes(), pad_center("abcd", 5).as_bytes());
    let text = "abcd";
    assert_eq!(
        format!("{:^length$}", text, length = 5 - text.len() + text.chars().count()).as_bytes(),
        &[97u8, 98, 99, 100, 32]
    );
    assert_eq!(pad_center(text, 5).as_bytes(), &[97u8, 98, 99, 100, 32]);
}

#[test]
fn tests_test2() {
    // A text and a mode, one after the other: the length of the text, then the mode's number.
    let bytes = bincode::serialize(&("".to_string(), mode_number(CompressMode::Compress))).unwrap();
    assert_eq!(bytes, vec![0u8, 0, 0, 0, 0, 0, 0, 0, 1, 0, 0, 0]);
    let head = ResourceHead::new("", 0, 0, "", CompressMode::Compress).to_bytes().unwrap();
    assert_eq!(&head[head.len() - 4..], &[1u8, 0, 0, 0]);
    assert_eq!(mode_number(CompressMode::Plain), 0);
}

#[test]
fn constants_describe_the_layout() {
    assert_eq!(MAX_LENGTH_SIZE, 1_099_511_627_776);
    assert_eq!(MAX_LENGTH_SIZE.to_string().len(), LENGTH_WIDTH);
    assert_eq!(MAX_FIELD_VALUE, 9_999_999_999_999);
    assert_eq!(MAX_ID_LENGTH, 64);
    assert_eq!(MAX_NAME_LENGTH, 255);
    assert_eq!(HEAD_LENGTH, 418);
    assert_eq!(headerLength(), 418);
    assert_eq!(ResourceHead::default().getLen(), 418);
    assert_eq!(LENGTH_PREFIX, 8);
}

#[test]
fn magic_is_the_signature() {
    assert_eq!(magic_bytes(), MAGIC.to_vec());
    let head = ResourceHead::default();
    assert_eq!(head.getHead(), &MAGIC.to_vec());
}

#[test]
fn signature_stands_behind_its_length() {
    let bytes = ResourceHead::new("abc", 7, 7, "a.bin", CompressMode::Plain).to_bytes().unwrap();
    assert_eq!(&bytes[..LENGTH_PREFIX], &[16u8, 0, 0, 0, 0, 0, 0, 0]);
    assert_eq!(&bytes[LENGTH_PREFIX..LENGTH_PREFIX + 16], &MAGIC);
    assert_eq!(memchr::memmem::find(&bytes, &MAGIC), Some(LENGTH_PREFIX));
}

#[test]
fn header_length_is_fixed() {
    let ids = ["", "1", "resource-with-a-long-id", &"x".repeat(64), "标识", "é"];
    let names = ["", "a", "file name.txt", &"n".repeat(255), "文件.zip"];
    let lengths = [0u64, 1, 9, 10, 39278156, MAX_LENGTH_SIZE, MAX_FIELD_VALUE];
    for id in ids.iter() {
        for name in names.iter() {
            for length in lengths.iter() {
                let head = ResourceHead::new(id, *length, *length, name, CompressMode::Plain);
                assert_eq!(head.getLen(), HEAD_LENGTH);
                assert_eq!(head.to_bytes().unwrap(), reference_bytes(id, *length, *length, name, 0));
            }
        }
    }
}

#[test]
fn header_of_an_oversized_length_is_longer() {
    let head = ResourceHead::new("1", MAX_FIELD_VALUE + 1, 0, "a", CompressMode::Plain);
    assert_eq!(head.getLength(), "10000000000000");
    assert_eq!(head.getLen(), HEAD_LENGTH + 1);
    let head = ResourceHead::new("1", 0, u64::MAX, "a", CompressMode::Plain);
    assert_eq!(head.getSize(), "18446744073709551615");
    assert_eq!(head.getLen(), HEAD_LENGTH + 7);
}

#[test]
fn padding_counts_bytes_not_characters() {
    let head = ResourceHead::new("标识", 1, 1, "文件.zip", CompressMode::Plain);
    assert_eq!(head.getId().len(), 64);
    assert_eq!(head.getId().chars().count(), 64 - 6 + 2);
    assert_eq!(head.getName().len(), 255);
    assert_eq!(head.getId().trim(), "标识");
    // 58 spaces: 29 on each side
    assert!(head.getId().starts_with(&" ".repeat(29)));
    assert!(head.getId().ends_with(&" ".repeat(29)));
}

#[test]
fn odd_padding_puts_the_extra_space_on_the_right() {
    let head = ResourceHead::new("1", 0, 0, "ab", CompressMode::Plain);
    // 63 spaces round the id: 31 before, 32 after
    assert_eq!(head.getId(), format!("{}1{}", " ".repeat(31), " ".repeat(32)));
    // 253 spaces round the name: 126 before, 127 after
    assert_eq!(head.getName(), format!("{}ab{}", " ".repeat(126), " ".repeat(127)));
}

#[test]
fn decoding_reverses_encoding() {
    let head = ResourceHead::new("id-7", 1234, 1234, "photo.png", CompressMode::Compress);
    let bytes = head.to_bytes().unwrap();
    let back = ResourceHead::from(&bytes).unwrap();
    assert_eq!(back.getHead(), head.getHead());
    assert_eq!(back.getVersion(), "1.0.0");
    assert_eq!(back.getId(), head.getId());
    assert_eq!(back.getName(), head.getName());
    assert_eq!(back.getLength(), "0000000001234");
    assert_eq!(back.getSize(), "0000000001234");
    assert_eq!(back.getCompress(), CompressMode::Compress);
    assert_eq!(back.to_bytes().unwrap(), bytes);
}

#[test]
fn decoding_ignores_what_follows_the_header() {
    let mut bytes = ResourceHead::new("a", 3, 3, "b", CompressMode::Plain).to_bytes().unwrap();
    bytes.extend_from_slice(b"xyzODEND");
    let back = ResourceHead::from(&bytes).unwrap();
    assert_eq!(back.getId().trim(), "a");
    assert_eq!(back.getCompress(), CompressMode::Plain);
}

#[test]
fn decoding_refuses_truncated_input() {
    let bytes = ResourceHead::new("a", 3, 3, "b", CompressMode::Plain).to_bytes().unwrap();
    for cut in [0usize, 1, 7, 8, 23, 24, 30, 100, 400, 414, 417] {
        let r = ResourceHead::from(&bytes[..cut]);
        assert_eq!(r.err(), Some(ResourceError::DecodeError), "cut at {}", cut);
    }
    assert!(ResourceHead::from(&bytes[..418]).is_ok());
}

#[test]
fn decoding_refuses_what_is_no_header() {
    // a length that points past the end
    let mut bytes = vec![0xffu8; 8];
    bytes.extend_from_slice(&MAGIC);
    assert_eq!(ResourceHead::from(&bytes).err(), Some(ResourceError::DecodeError));
    // a text that is not UTF-8
    let mut bytes = ResourceHead::default().to_bytes().unwrap();
    bytes[24 + 8] = 0xff;
    assert_eq!(ResourceHead::from(&bytes).err(), Some(ResourceError::DecodeError));
    // a mode that does not exist
    let mut bytes = ResourceHead::default().to_bytes().unwrap();
    bytes[414] = 2;
    assert_eq!(ResourceHead::from(&bytes).err(), Some(ResourceError::DecodeError));
    let mut bytes = ResourceHead::default().to_bytes().unwrap();
    bytes[417] = 1;
    assert_eq!(ResourceHead::from(&bytes).err(), Some(ResourceError::DecodeError));
}

#[test]
fn decoding_agrees_with_the_reference_decoder() {
    let bytes = reference_bytes("k", 42, 42, "n.txt", 1);
    let head = ResourceHead::from(&bytes).unwrap();
    let fields: (Vec<u8>, String, String, String, String, String, u32) =
        bincode::deserialize(&bytes).unwrap();
    assert_eq!(head.getHead(), &fields.0);
    assert_eq!(head.getVersion(), fields.1);
    assert_eq!(head.getId(), fields.2);
    assert_eq!(head.getName(), fields.3);
    assert_eq!(head.getLength(), fields.4);
    assert_eq!(head.getSize(), fields.5);
    assert_eq!(mode_number(head.getCompress()), fields.6);
}
