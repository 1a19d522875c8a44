#![allow(non_snake_case)]
use appender::error::{currentVersion, ResourceError};
use appender::util::{compressionFile, decompressFile};
use appender::validator::{is_valid_path, path_verdict};
use std::io::Write;

#[test]
fn CompressionTest() {
    let source: Vec<u8> = (0..20000u32).map(|i| (i % 7) as u8).collect();
    let packed = compressionFile(&source, 5).unwrap();
    assert!(packed.len() < source.len());
    assert_eq!(&packed[..3], &[0x1f, 0x8b, 8]);
    let plain = decompressFile(&packed).unwrap();
    assert_eq!(plain, source);
}

#[test]
fn test3() {
    let source = b"hh.exe stands here".to_vec();
    let packed = compressionFile(&source, 5).unwrap();
    assert!(packed != source);
    assert_eq!(decompressFile(&packed).unwrap(), source);
}

#[test]
fn every_level_restores_the_bytes() {
    let source: Vec<u8> = b"abcabcabcabc the same again abcabcabcabc".to_vec();
    for grade in 0..=9 {
        let packed = compressionFile(&source, grade).unwrap();
        assert_eq!(decompressFile(&packed).unwrap(), source);
    }
    assert_eq!(decompressFile(&compressionFile(&[], 6).unwrap()).unwrap(), Vec::<u8>::new());
}

#[test]
fn compression_is_the_reference_encoder() {
    let source = b"some bytes, some bytes, some bytes".to_vec();
    let mut encoder = flate2::write::GzEncoder::new(Vec::new(), flate2::Compression::new(3));
    encoder.write_all(&source).unwrap();
    assert_eq!(compressionFile(&source, 3).unwrap(), encoder.finish().unwrap());
}

#[test]
fn what_is_no_stream_is_refused() {
    assert_eq!(decompressFile(b"not a gzip stream"), Err(ResourceError::Compression));
    assert_eq!(decompressFile(b""), Err(ResourceError::Compression));
    let mut packed = compressionFile(b"payload payload payload", 5).unwrap();
    let n = packed.len();
    packed[n - 5] ^= 0xff; // the checksum
    assert_eq!(decompressFile(&packed), Err(ResourceError::Compression));
    packed.truncate(n - 9);
    assert_eq!(decompressFile(&packed), Err(ResourceError::Compression));
}

#[test]
fn existing_paths_are_valid() {
    assert_eq!(is_valid_path("/".to_string()), Ok(()));
    assert_eq!(is_valid_path(".".to_string()), Ok(()));
}

#[test]
fn missing_paths_are_refused() {
    let text = "The path does not exist, please make sure the entered directory exists";
    assert_eq!(is_valid_path("/no/such/path/anywhere-7f3a".to_string()), Err(text.to_string()));
    assert_eq!(is_valid_path("".to_string()), Err(text.to_string()));
    assert_eq!(path_verdict(false), Err(text.to_string()));
    assert_eq!(path_verdict(true), Ok(()));
}

#[test]
fn errors_have_their_texts() {
    assert_eq!(currentVersion(), "1.0.0");
    assert_eq!(
        ResourceError::HeaderOverflow.message(),
        "The resource information is not standard, please make sure that there are no Chinese symbols in the information"
    );
    assert_eq!(
        ResourceError::VersionOlder { stored: "0.9".to_string() }.message(),
        "Resource version does not match, the target resource version is 0.9, the current resource version is 1.0.0, please try to upgrade the program version"
    );
    assert_eq!(
        ResourceError::VersionNewer { stored: "2.0".to_string() }.message(),
        "Resource version does not match, the target resource version is 2.0, the current resource version is 1.0.0, please try to lower the program version"
    );
    assert_eq!(ResourceError::IncompleteResource.message(), "The resource to be exported is incomplete");
    assert_eq!(ResourceError::ResourceNotFound.message(), "Resource not found");
    assert_eq!(ResourceError::MalformedVersion.message(), "The resource version is not a dotted number");
    assert_eq!(ResourceError::DecodeError.message(), "The bytes do not hold a resource header");
    assert_eq!(
        ResourceError::Compression.message(),
        "The resource could not be compressed or decompressed"
    );
}
