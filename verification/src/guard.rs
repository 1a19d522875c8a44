//! Why no header is read behind a signature that stands inside a text: the
//! first byte of the signature is a byte that, in UTF-8, only follows a
//! byte of 0x80 or more, and a length does not end in such a byte.
use crate::error::current_version;
use crate::head::{
    fits, lemma_length_field, lemma_version_bytes, mode_index, CompressMode, LENGTH_WIDTH,
    MAX_ID_LENGTH, MAX_NAME_LENGTH,
};
use crate::text::{byte_len, centered, lemma_centered_fills, zero_padded};
use crate::wire::{le32, text_block};
use vstd::bytes::*;
use vstd::prelude::*;
use vstd::utf8::*;

verus! {

/// The first byte of the signature.
pub const LEAD: u8 = 0x89;

/// Whether the byte `LEAD` stands in `s` only behind a byte of 0x80 or more.
pub open spec fn guarded(s: Seq<u8>) -> bool {
    forall|p: int| 0 <= p < s.len() && (#[trigger] s[p]) == LEAD ==> p >= 1 && s[p - 1] >= 0x80
}

/// Whether the byte `LEAD` does not stand in `s`.
pub open spec fn clear(s: Seq<u8>) -> bool {
    forall|p: int| 0 <= p < s.len() ==> (#[trigger] s[p]) != LEAD
}

/// Two guarded sequences make a guarded one.
pub proof fn lemma_guarded_concat(a: Seq<u8>, b: Seq<u8>)
    requires
        guarded(a),
        guarded(b),
    ensures
        guarded(a + b),
{
    let s = a + b;
    assert forall|p: int| 0 <= p < s.len() && (#[trigger] s[p]) == LEAD implies p >= 1 && s[p - 1]
        >= 0x80 by {
        if p < a.len() {
            assert(a[p] == LEAD);
        } else {
            assert(b[p - a.len()] == LEAD);
        }
    }
}

/// The encoding of one character is guarded: a byte of it that is no
/// first byte follows a byte of 0x80 or more, and no first byte is `LEAD`.
pub proof fn lemma_guarded_scalar(v: u32)
    ensures
        guarded(encode_scalar(v)),
{
    assert((v & 0x7F) as u8 != 0x89) by (bit_vector);
    assert(0xC0u8 | ((v >> 6) & 0x1F) as u8 >= 0xC0) by (bit_vector);
    assert(0xE0u8 | ((v >> 12) & 0x0F) as u8 >= 0xE0) by (bit_vector);
    assert(0xF0u8 | ((v >> 18) & 0x7) as u8 >= 0xF0) by (bit_vector);
    assert(0x80u8 | ((v >> 6) & 0x3F) as u8 >= 0x80) by (bit_vector);
    assert(0x80u8 | ((v >> 12) & 0x3F) as u8 >= 0x80) by (bit_vector);
    let s = encode_scalar(v);
    assert forall|p: int| 0 <= p < s.len() && (#[trigger] s[p]) == LEAD implies p >= 1 && s[p - 1]
        >= 0x80 by {
        if has_width_1_encoding(v) {
        } else if has_width_2_encoding(v) {
            assert(p == 0 || p == 1);
        } else if has_width_3_encoding(v) {
            assert(p == 0 || p == 1 || p == 2);
        } else {
            assert(p == 0 || p == 1 || p == 2 || p == 3);
        }
    }
}

/// The encoding of a text is guarded.
pub proof fn lemma_guarded_text(s: Seq<char>)
    ensures
        guarded(encode_utf8(s)),
    decreases s.len(),
{
    if s.len() > 0 {
        lemma_guarded_scalar(s[0] as u32);
        lemma_guarded_text(s.drop_first());
        lemma_guarded_concat(encode_scalar(s[0] as u32), encode_utf8(s.drop_first()));
    }
}

/// A length of at most 255 other than `LEAD` is written without that byte.
pub proof fn lemma_clear_length(n: u64)
    requires
        n <= 255,
        n != LEAD,
    ensures
        spec_u64_to_le_bytes(n).len() == 8,
        clear(spec_u64_to_le_bytes(n)),
{
    spec_u64_to_le_bytes_to_open(n);
    assert((n & 0xff) as u8 != 0x89 && ((n >> 8) & 0xff) as u8 == 0 && ((n >> 16) & 0xff) as u8
        == 0 && ((n >> 24) & 0xff) as u8 == 0 && ((n >> 32) & 0xff) as u8 == 0 && ((n >> 40)
        & 0xff) as u8 == 0 && ((n >> 48) & 0xff) as u8 == 0 && ((n >> 56) & 0xff) as u8 == 0)
        by (bit_vector)
        requires
            n <= 255,
            n != 0x89,
    ;
    let s = spec_u64_to_le_bytes_open(n);
    assert forall|p: int| 0 <= p < s.len() implies (#[trigger] s[p]) != LEAD by {
        assert(p == 0 || p == 1 || p == 2 || p == 3 || p == 4 || p == 5 || p == 6 || p == 7);
    }
}

/// The block of a text of at most 255 bytes, and not of 137, is guarded.
pub proof fn lemma_guarded_block(s: Seq<char>)
    requires
        byte_len(s) <= 255,
        byte_len(s) != LEAD,
    ensures
        guarded(text_block(s)),
{
    lemma_clear_length(byte_len(s) as u64);
    lemma_guarded_text(s);
    lemma_guarded_concat(spec_u64_to_le_bytes(byte_len(s) as u64), encode_utf8(s));
}

/// The number of a mode is written without the byte `LEAD`.
pub proof fn lemma_clear_mode(mode: CompressMode)
    ensures
        guarded(le32(mode_index(mode))),
{
    let x = mode_index(mode);
    assert((x & 0xff) as u8 != 0x89 && ((x >> 8) & 0xff) as u8 == 0 && ((x >> 16) & 0xff) as u8
        == 0 && ((x >> 24) & 0xff) as u8 == 0) by (bit_vector)
        requires
            x <= 1,
    ;
    let s = le32(x);
    assert forall|p: int| 0 <= p < s.len() implies (#[trigger] s[p]) != LEAD by {
        assert(p == 0 || p == 1 || p == 2 || p == 3);
    }
}

/// What follows the signature in the header of values that fit.
pub open spec fn fields_after_magic(
    id: Seq<char>,
    length: u64,
    size: u64,
    name: Seq<char>,
    mode: CompressMode,
) -> Seq<u8> {
    text_block(current_version()) + text_block(centered(id, MAX_ID_LENGTH as int)) + text_block(
        centered(name, MAX_NAME_LENGTH as int),
    ) + text_block(zero_padded(length as nat, LENGTH_WIDTH as int)) + text_block(
        zero_padded(size as nat, LENGTH_WIDTH as int),
    ) + le32(mode_index(mode))
}

/// What follows the signature in the header of values that fit is guarded.
pub proof fn lemma_guarded_fields(
    id: Seq<char>,
    length: u64,
    size: u64,
    name: Seq<char>,
    mode: CompressMode,
)
    requires
        fits(id, length, size, name),
    ensures
        guarded(fields_after_magic(id, length, size, name, mode)),
{
    let version = text_block(current_version());
    let the_id = text_block(centered(id, MAX_ID_LENGTH as int));
    let the_name = text_block(centered(name, MAX_NAME_LENGTH as int));
    let the_length = text_block(zero_padded(length as nat, LENGTH_WIDTH as int));
    let the_size = text_block(zero_padded(size as nat, LENGTH_WIDTH as int));
    lemma_version_bytes();
    lemma_centered_fills(id, MAX_ID_LENGTH as int);
    lemma_centered_fills(name, MAX_NAME_LENGTH as int);
    lemma_length_field(length);
    lemma_length_field(size);
    lemma_guarded_block(current_version());
    lemma_guarded_block(centered(id, MAX_ID_LENGTH as int));
    lemma_guarded_block(centered(name, MAX_NAME_LENGTH as int));
    lemma_guarded_block(zero_padded(length as nat, LENGTH_WIDTH as int));
    lemma_guarded_block(zero_padded(size as nat, LENGTH_WIDTH as int));
    lemma_clear_mode(mode);
    lemma_guarded_concat(version, the_id);
    lemma_guarded_concat(version + the_id, the_name);
    lemma_guarded_concat(version + the_id + the_name, the_length);
    lemma_guarded_concat(version + the_id + the_name + the_length, the_size);
    lemma_guarded_concat(
        version + the_id + the_name + the_length + the_size,
        le32(mode_index(mode)),
    );
}

/// A number of eight bytes whose last byte is 0x80 or more is at least two
/// to the power 63.
pub proof fn lemma_high_byte(s: Seq<u8>)
    requires
        s.len() == 8,
        s[7] >= 0x80,
    ensures
        spec_u64_from_le_bytes(s) >= 0x8000_0000_0000_0000,
{
    lemma_auto_spec_u64_to_from_le_bytes();
    let x = spec_u64_from_le_bytes(s);
    assert(spec_u64_to_le_bytes(x) == s);
    spec_u64_to_le_bytes_to_open(x);
    assert(spec_u64_to_le_bytes_open(x)[7] == ((x >> 56) & 0xff) as u8);
    assert(x >= 0x8000_0000_0000_0000) by (bit_vector)
        requires
            ((x >> 56) & 0xff) as u8 >= 0x80,
    ;
}

} // verus!
