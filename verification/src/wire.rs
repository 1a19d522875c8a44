//! The binary encoding of the header's fields: integers are little-endian
//! and of fixed width, and a byte string or a text is its length in bytes,
//! as a 64-bit integer, followed by the bytes.
use vstd::bytes::*;
use vstd::prelude::*;
use vstd::string::*;
use vstd::utf8::*;

verus! {

/// The number of bytes that the length in front of a block takes.
pub const LENGTH_PREFIX: usize = 8;

#[verifier::external_type_specification]
#[verifier::external_body]
pub struct ExErrorKind(bincode::ErrorKind);

/// A block: the length of `bytes`, then `bytes`.
pub open spec fn block(bytes: Seq<u8>) -> Seq<u8> {
    spec_u64_to_le_bytes(bytes.len() as u64) + bytes
}

/// The block of the UTF-8 encoding of `s`.
pub open spec fn text_block(s: Seq<char>) -> Seq<u8> {
    block(encode_utf8(s))
}

/// The length that the first eight bytes of `data` give.
pub open spec fn block_len(data: Seq<u8>) -> int {
    spec_u64_from_le_bytes(data.subrange(0, 8)) as int
}

/// Whether `data` starts with a whole block.
pub open spec fn has_block(data: Seq<u8>) -> bool {
    data.len() >= 8 && block_len(data) <= data.len() - 8
}

/// The bytes of the block at the start of `data`, without their length.
pub open spec fn block_body(data: Seq<u8>) -> Seq<u8> {
    data.subrange(8, 8 + block_len(data))
}

/// What follows the block at the start of `data`.
pub open spec fn after_block(data: Seq<u8>) -> Seq<u8> {
    data.subrange(8 + block_len(data), data.len() as int)
}

/// The four bytes of `x`, the lowest first.
pub open spec fn le32(x: u32) -> Seq<u8> {
    seq![
        (x & 0xff) as u8,
        ((x >> 8) & 0xff) as u8,
        ((x >> 16) & 0xff) as u8,
        ((x >> 24) & 0xff) as u8,
    ]
}

/// The number whose four bytes, the lowest first, `s` starts with.
pub open spec fn from_le32(s: Seq<u8>) -> u32 {
    (s[0] as u32) | (s[1] as u32) << 8 | (s[2] as u32) << 16 | (s[3] as u32) << 24
}

/// Four bytes are read back as the number that they were written for.
pub proof fn lemma_le32(x: u32)
    ensures
        le32(x).len() == 4,
        from_le32(le32(x)) == x,
{
    let b0 = (x & 0xff) as u8;
    let b1 = ((x >> 8) & 0xff) as u8;
    let b2 = ((x >> 16) & 0xff) as u8;
    let b3 = ((x >> 24) & 0xff) as u8;
    assert((b0 as u32) | (b1 as u32) << 8 | (b2 as u32) << 16 | (b3 as u32) << 24 == x)
        by (bit_vector)
        requires
            b0 == (x & 0xff) as u8,
            b1 == ((x >> 8) & 0xff) as u8,
            b2 == ((x >> 16) & 0xff) as u8,
            b3 == ((x >> 24) & 0xff) as u8,
    ;
}

/// Whether `data` starts with a whole block that holds valid UTF-8.
pub open spec fn has_text(data: Seq<u8>) -> bool {
    has_block(data) && valid_utf8(block_body(data))
}

/// Calls `bincode::serialize` on a byte vector. Bincode writes a sequence
/// as its length, a little-endian `u64`, followed by its items, and a `u8`
/// as one byte; with no size limit set and a vector to write to it does
/// not fail.
#[verifier::external_body]
pub(crate) fn encode_bytes(v: &Vec<u8>) -> (r: Result<Vec<u8>, Box<bincode::ErrorKind>>)
    ensures
        r is Ok,
        r.unwrap()@ == block(v@),
{
    bincode::serialize(v)
}

/// Calls `bincode::serialize` on a text. Bincode writes a `str` as its
/// length in bytes, a little-endian `u64`, followed by its UTF-8 bytes;
/// with no size limit set and a vector to write to it does not fail.
#[verifier::external_body]
pub(crate) fn encode_text(s: &str) -> (r: Result<Vec<u8>, Box<bincode::ErrorKind>>)
    ensures
        r is Ok,
        r.unwrap()@ == text_block(s@),
{
    bincode::serialize(s)
}

/// Calls `bincode::serialize` on a `u32`, which bincode writes as four
/// bytes, little-endian; with no size limit set and a vector to write to
/// it does not fail.
#[verifier::external_body]
pub(crate) fn encode_u32(x: u32) -> (r: Result<Vec<u8>, Box<bincode::ErrorKind>>)
    ensures
        r is Ok,
        r.unwrap()@ == le32(x),
{
    bincode::serialize(&x)
}

/// Calls `bincode::deserialize` for a byte vector: it reads a little-endian
/// `u64` length and then that many bytes, fails where `data` ends before
/// them, and ignores what follows them.
#[verifier::external_body]
pub(crate) fn decode_bytes(data: &[u8]) -> (r: Result<Vec<u8>, Box<bincode::ErrorKind>>)
    ensures
        r is Ok <==> has_block(data@),
        r is Ok ==> r.unwrap()@ == block_body(data@),
{
    bincode::deserialize::<Vec<u8>>(data)
}

/// Calls `bincode::deserialize` for a text: it reads a little-endian `u64`
/// length and then that many bytes, fails where `data` ends before them or
/// where they are not valid UTF-8, and ignores what follows them.
#[verifier::external_body]
pub(crate) fn decode_text(data: &[u8]) -> (r: Result<String, Box<bincode::ErrorKind>>)
    ensures
        r is Ok <==> has_text(data@),
        r is Ok ==> r.unwrap()@ == decode_utf8(block_body(data@)),
{
    bincode::deserialize::<String>(data)
}

/// Calls `bincode::deserialize` for a `u32`: it reads four bytes,
/// little-endian, fails where `data` is shorter, and ignores what follows
/// them.
#[verifier::external_body]
pub(crate) fn decode_u32(data: &[u8]) -> (r: Result<u32, Box<bincode::ErrorKind>>)
    ensures
        r is Ok <==> data@.len() >= 4,
        r is Ok ==> r.unwrap() == from_le32(data@.subrange(0, 4)),
{
    bincode::deserialize::<u32>(data)
}

/// A block in front of other bytes is read back as it was written.
pub proof fn lemma_block_front(bytes: Seq<u8>, rest: Seq<u8>)
    requires
        bytes.len() <= u64::MAX,
    ensures
        has_block(block(bytes) + rest),
        block_len(block(bytes) + rest) == bytes.len(),
        block_body(block(bytes) + rest) == bytes,
        after_block(block(bytes) + rest) == rest,
        block(bytes).len() == 8 + bytes.len(),
{
    lemma_auto_spec_u64_to_from_le_bytes();
    let n = bytes.len() as u64;
    let data = block(bytes) + rest;
    assert(data.subrange(0, 8) =~= spec_u64_to_le_bytes(n));
    assert(data.subrange(8, 8 + bytes.len() as int) =~= bytes);
    assert(data.subrange(8 + bytes.len() as int, data.len() as int) =~= rest);
}

/// A text block in front of other bytes is read back as it was written.
pub proof fn lemma_text_front(s: Seq<char>, rest: Seq<u8>)
    requires
        encode_utf8(s).len() <= u64::MAX,
    ensures
        has_text(text_block(s) + rest),
        decode_utf8(block_body(text_block(s) + rest)) == s,
        after_block(text_block(s) + rest) == rest,
        text_block(s).len() == 8 + encode_utf8(s).len(),
{
    lemma_block_front(encode_utf8(s), rest);
    encode_utf8_valid_utf8(s);
    encode_utf8_decode_utf8(s);
}

} // verus!
