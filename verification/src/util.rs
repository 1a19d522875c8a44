//! Compression of a payload as a whole, in the gzip format.
use crate::error::ResourceError;
use vstd::prelude::*;

verus! {

/// The gzip stream that the encoder makes of `data` at level `grade`, if
/// it makes one.
pub uninterp spec fn gz_encoded(data: Seq<u8>, grade: u32) -> Option<Seq<u8>>;

/// What the decoder makes of the gzip stream `data`, if it accepts it.
pub uninterp spec fn gz_decoded(data: Seq<u8>) -> Option<Seq<u8>>;

/// Writes `data` through `flate2::write::GzEncoder` into a vector, at the
/// level `grade` of `flate2::Compression::new`, and finishes the stream.
/// Whether a stream comes back, and which, depends on the bytes and the
/// level alone: the header that the encoder writes holds no time and no
/// system. Levels above 9 are left out: the encoder's back end does not
/// take all of them.
#[verifier::external_body]
fn gzip(data: &[u8], grade: u32) -> (r: Option<Vec<u8>>)
    requires
        grade <= 9,
    ensures
        r is Some <==> gz_encoded(data@, grade) is Some,
        r is Some ==> r.unwrap()@ == gz_encoded(data@, grade).unwrap(),
{
    let mut encoder = flate2::write::GzEncoder::new(Vec::new(), flate2::Compression::new(grade));
    std::io::Write::write_all(&mut encoder, data).ok()?;
    encoder.finish().ok()
}

/// Writes `data` through `flate2::write::GzDecoder` into a vector and
/// finishes the stream: the bytes come back where `data` is one gzip
/// stream that the decoder accepts, and nothing where it is not.
#[verifier::external_body]
fn gunzip(data: &[u8]) -> (r: Option<Vec<u8>>)
    ensures
        r is Some <==> gz_decoded(data@) is Some,
        r is Some ==> r.unwrap()@ == gz_decoded(data@).unwrap(),
{
    let mut decoder = flate2::write::GzDecoder::new(Vec::new());
    std::io::Write::write_all(&mut decoder, data).ok()?;
    decoder.finish().ok()
}

/// Compresses `data` at the level `compressionGrade`, from 0 (none) over 1
/// (fastest) to 9 (smallest).
pub fn compressionFile(data: &[u8], compressionGrade: u32) -> (r: Result<Vec<u8>, ResourceError>)
    requires
        compressionGrade <= 9,
    ensures
        r is Ok <==> gz_encoded(data@, compressionGrade) is Some,
        r is Ok ==> r.unwrap()@ == gz_encoded(data@, compressionGrade).unwrap(),
        r is Err ==> r.unwrap_err() == ResourceError::Compression,
{
    match gzip(data, compressionGrade) {
        Some(packed) => Ok(packed),
        None => Err(ResourceError::Compression),
    }
}

/// Restores what `compressionFile` compressed.
pub fn decompressFile(data: &[u8]) -> (r: Result<Vec<u8>, ResourceError>)
    ensures
        r is Ok <==> gz_decoded(data@) is Some,
        r is Ok ==> r.unwrap()@ == gz_decoded(data@).unwrap(),
        r is Err ==> r.unwrap_err() == ResourceError::Compression,
{
    match gunzip(data) {
        Some(plain) => Ok(plain),
        None => Err(ResourceError::Compression),
    }
}

} // verus!
