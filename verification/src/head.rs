//! The record header: its fields, its fixed-width layout and its encoding.
use crate::error::{currentVersion, current_version, ResourceError};
use crate::text::{
    byte_len, centered, decimal, lemma_centered_fills, lemma_decimal_len, lemma_zero_padded_reads,
    pad_center, pad_decimal, pow10, zero_padded,
};
use crate::wire::{
    after_block, block, block_body, block_len, decode_bytes, decode_text, decode_u32, encode_bytes,
    encode_text, encode_u32, from_le32, has_block, has_text, le32, text_block, LENGTH_PREFIX,
};
use vstd::bytes::*;
use vstd::prelude::*;
use vstd::slice::slice_subrange;
use vstd::string::*;
use vstd::utf8::*;

verus! {

/// The size of the chunks in which a host is read (512 KiB).
pub const BUFFER_SIZE: usize = 1024 * 512;

/// The largest payload (1024 GiB); its decimal digits give the width of the
/// two length fields.
pub const MAX_LENGTH_SIZE: u64 = 1024 * 1024 * 1024 * 1024;

/// The width of the id field, in bytes.
pub const MAX_ID_LENGTH: usize = 64;

/// The width of the name field, in bytes.
pub const MAX_NAME_LENGTH: usize = 255;

/// The width of the two length fields, in digits.
pub const LENGTH_WIDTH: usize = 13;

/// The largest length that `LENGTH_WIDTH` digits write.
pub const MAX_FIELD_VALUE: u64 = 9_999_999_999_999;

/// The length of the encoding of a header whose fields fit their widths.
pub const HEAD_LENGTH: usize = 418;

/// How a payload is stored.
#[derive(Debug, PartialEq, Eq, Clone, Copy, Structural)]
pub enum CompressMode {
    /// As it is.
    Plain,
    /// Compressed.
    Compress,
}

/// The signature at the start of every header: a byte outside ASCII, the
/// word `OverlayData`, and `CR LF SUB LF`.
pub open spec fn magic() -> Seq<u8> {
    seq![
        0x89u8, 0x4f, 0x76, 0x65, 0x72, 0x6c, 0x61, 0x79, 0x44, 0x61, 0x74, 0x61, 0x0d, 0x0a, 0x1a,
        0x0a,
    ]
}

/// The signature at the start of every header.
pub fn magic_bytes() -> (m: Vec<u8>)
    ensures
        m@ == magic(),
{
    let m: Vec<u8> = vec![
        0x89u8, 0x4f, 0x76, 0x65, 0x72, 0x6c, 0x61, 0x79, 0x44, 0x61, 0x74, 0x61, 0x0d, 0x0a, 0x1a,
        0x0a,
    ];
    assert(m@ =~= magic());
    m
}

/// The fields of a header, as values.
pub struct HeadFields {
    pub magic: Seq<u8>,
    pub version: Seq<char>,
    pub id: Seq<char>,
    pub name: Seq<char>,
    pub length: Seq<char>,
    pub size: Seq<char>,
    pub mode: CompressMode,
}

/// The number that stands for a mode in the encoding.
pub open spec fn mode_index(m: CompressMode) -> u32 {
    match m {
        CompressMode::Plain => 0,
        CompressMode::Compress => 1,
    }
}

/// The mode that a number stands for.
pub open spec fn mode_of(index: u32) -> Option<CompressMode> {
    if index == 0 {
        Some(CompressMode::Plain)
    } else if index == 1 {
        Some(CompressMode::Compress)
    } else {
        None
    }
}

/// The encoding of a header: its fields one after the other, the signature
/// as a block of bytes, the five texts as blocks of UTF-8, and the mode as
/// a number of four bytes.
pub open spec fn wire(h: HeadFields) -> Seq<u8> {
    block(h.magic) + text_block(h.version) + text_block(h.id) + text_block(h.name) + text_block(
        h.length,
    ) + text_block(h.size) + le32(mode_index(h.mode))
}

/// The header that `data` starts with, if it starts with one. Bytes after
/// the header are ignored.
#[verifier::opaque]
pub open spec fn parse(data: Seq<u8>) -> Option<HeadFields> {
    let d1 = after_block(data);
    let d2 = after_block(d1);
    let d3 = after_block(d2);
    let d4 = after_block(d3);
    let d5 = after_block(d4);
    let d6 = after_block(d5);
    if has_block(data) && has_text(d1) && has_text(d2) && has_text(d3) && has_text(d4) && has_text(
        d5,
    ) && d6.len() >= 4 && mode_of(from_le32(d6.subrange(0, 4))) is Some {
        Some(
            HeadFields {
                magic: block_body(data),
                version: decode_utf8(block_body(d1)),
                id: decode_utf8(block_body(d2)),
                name: decode_utf8(block_body(d3)),
                length: decode_utf8(block_body(d4)),
                size: decode_utf8(block_body(d5)),
                mode: mode_of(from_le32(d6.subrange(0, 4))).unwrap(),
            },
        )
    } else {
        None
    }
}

/// The fields of the header that describes a payload: the id and the name
/// centred in their fields, the two lengths padded with zeros.
pub open spec fn head_fields(
    id: Seq<char>,
    length: u64,
    size: u64,
    name: Seq<char>,
    mode: CompressMode,
) -> HeadFields {
    HeadFields {
        magic: magic(),
        version: current_version(),
        id: centered(id, MAX_ID_LENGTH as int),
        name: centered(name, MAX_NAME_LENGTH as int),
        length: zero_padded(length as nat, LENGTH_WIDTH as int),
        size: zero_padded(size as nat, LENGTH_WIDTH as int),
        mode: mode,
    }
}

/// Whether an id and a name fit their fields.
pub open spec fn fits_text(id: Seq<char>, name: Seq<char>) -> bool {
    byte_len(id) <= MAX_ID_LENGTH && byte_len(name) <= MAX_NAME_LENGTH
}

/// Whether the values of a header fit their fields.
pub open spec fn fits(id: Seq<char>, length: u64, size: u64, name: Seq<char>) -> bool {
    fits_text(id, name) && length <= MAX_FIELD_VALUE && size <= MAX_FIELD_VALUE
}

/// A record header.
#[derive(Debug)]
pub struct ResourceHead {
    Head: Vec<u8>,
    Version: String,
    Id: String,
    Name: String,
    Length: String,
    Size: String,
    Compress: CompressMode,
}

impl View for ResourceHead {
    type V = HeadFields;

    closed spec fn view(&self) -> HeadFields {
        HeadFields {
            magic: self.Head@,
            version: self.Version@,
            id: self.Id@,
            name: self.Name@,
            length: self.Length@,
            size: self.Size@,
            mode: self.Compress,
        }
    }
}

/// Adds an encoded field to `out`.
fn append_part(out: &mut Vec<u8>, part: Result<Vec<u8>, Box<bincode::ErrorKind>>) -> (ok: bool)
    ensures
        ok == part is Ok,
        ok ==> final(out)@ == old(out)@ + part.unwrap()@,
        !ok ==> final(out)@ == old(out)@,
{
    match part {
        Ok(mut bytes) => {
            out.append(&mut bytes);
            true
        },
        Err(_) => false,
    }
}

/// Reads the text block at the start of `data`; returns the text and what
/// follows the block.
fn take_text<'a>(data: &'a [u8]) -> (r: Option<(String, &'a [u8])>)
    ensures
        r is Some <==> has_text(data@),
        r is Some ==> r.unwrap().0@ == decode_utf8(block_body(data@)) && r.unwrap().1@
            == after_block(data@),
{
    match decode_text(data) {
        Ok(text) => {
            proof {
                decode_utf8_encode_utf8(block_body(data@));
            }
            let total: usize = data.len();
            let used: usize = text.as_str().as_bytes().len();
            assert(used == block_len(data@));
            let rest = slice_subrange(data, LENGTH_PREFIX + used, total);
            Some((text, rest))
        },
        Err(_) => None,
    }
}

impl ResourceHead {
    /// The header of an empty payload without id or name.
    pub fn default() -> (r: Self)
        ensures
            r@ == head_fields(Seq::empty(), 0, 0, Seq::empty(), CompressMode::Plain),
            wire(r@).len() == HEAD_LENGTH,
    {
        proof {
            reveal_strlit("");
            assert(""@ =~= Seq::<char>::empty());
            assert(byte_len(Seq::<char>::empty()) == 0);
        }
        ResourceHead::new("", 0, 0, "", CompressMode::Plain)
    }

    /// The header of a payload of `length` bytes stored under `id`, with its
    /// file name. An id of more than `MAX_ID_LENGTH` bytes or a name of more
    /// than `MAX_NAME_LENGTH` bytes cannot be put in a header. Where the two
    /// lengths fit their field as well, the header has the one fixed length.
    pub fn new(id: &str, length: u64, size: u64, name: &str, CompressMode: CompressMode) -> (r:
        Self)
        requires
            fits_text(id@, name@),
        ensures
            r@ == head_fields(id@, length, size, name@, CompressMode),
            wire(r@).len() == HEAD_LENGTH <==> fits(id@, length, size, name@),
    {
        proof {
            lemma_head_length(id@, length, size, name@, CompressMode);
        }
        ResourceHead {
            Head: magic_bytes(),
            Id: pad_center(id, MAX_ID_LENGTH),
            Name: pad_center(name, MAX_NAME_LENGTH),
            Length: pad_decimal(length, LENGTH_WIDTH),
            Size: pad_decimal(size, LENGTH_WIDTH),
            Version: String::from_str(currentVersion()),
            Compress: CompressMode,
        }
    }

    /// The length of the header's encoding.
    pub fn getLen(&self) -> (n: usize)
        ensures
            n == wire(self@).len(),
    {
        match self.to_bytes() {
            Ok(bytes) => bytes.len(),
            Err(_) => 0,
        }
    }

    /// The signature that the header starts with.
    pub fn getHead(&self) -> (m: &Vec<u8>)
        ensures
            m@ == self@.magic,
    {
        &self.Head
    }

    /// The format version of the record.
    pub fn getVersion(&self) -> (v: &str)
        ensures
            v@ == self@.version,
    {
        self.Version.as_str()
    }

    /// The id of the record, as it stands in its field.
    pub fn getId(&self) -> (v: &str)
        ensures
            v@ == self@.id,
    {
        self.Id.as_str()
    }

    /// The file name of the payload, as it stands in its field.
    pub fn getName(&self) -> (v: &str)
        ensures
            v@ == self@.name,
    {
        self.Name.as_str()
    }

    /// The length of the payload as stored, as it stands in its field.
    pub fn getLength(&self) -> (v: &str)
        ensures
            v@ == self@.length,
    {
        self.Length.as_str()
    }

    /// The declared size of the payload, as it stands in its field.
    pub fn getSize(&self) -> (v: &str)
        ensures
            v@ == self@.size,
    {
        self.Size.as_str()
    }

    /// How the payload is stored.
    pub fn getCompress(&self) -> (m: CompressMode)
        ensures
            m == self@.mode,
    {
        self.Compress
    }

    /// The encoding of the header.
    pub fn to_bytes(&self) -> (r: Result<Vec<u8>, ResourceError>)
        ensures
            r is Ok,
            r.unwrap()@ == wire(self@),
    {
        let mut out: Vec<u8> = Vec::new();
        let ok = append_part(&mut out, encode_bytes(&self.Head)) && append_part(
            &mut out,
            encode_text(self.Version.as_str()),
        ) && append_part(&mut out, encode_text(self.Id.as_str())) && append_part(
            &mut out,
            encode_text(self.Name.as_str()),
        ) && append_part(&mut out, encode_text(self.Length.as_str())) && append_part(
            &mut out,
            encode_text(self.Size.as_str()),
        ) && append_part(&mut out, encode_u32(mode_number(self.Compress)));
        if !ok {
            return Err(ResourceError::DecodeError);
        }
        assert(out@ =~= wire(self@));
        Ok(out)
    }

    /// Reads the header that `data` starts with. Bytes after the header are
    /// ignored; data that is cut short or is no header is refused.
    pub fn from(data: &[u8]) -> (r: Result<Self, ResourceError>)
        ensures
            r is Ok <==> parse(data@) is Some,
            r is Ok ==> r.unwrap()@ == parse(data@).unwrap(),
            r is Err ==> r.unwrap_err() == ResourceError::DecodeError,
    {
        reveal(parse);
        let head = match decode_bytes(data) {
            Ok(bytes) => bytes,
            Err(_) => {
                return Err(ResourceError::DecodeError);
            },
        };
        let total: usize = data.len();
        assert(head@.len() == block_len(data@));
        let d1 = slice_subrange(data, LENGTH_PREFIX + head.len(), total);
        let (version, d2) = match take_text(d1) {
            Some(found) => found,
            None => {
                return Err(ResourceError::DecodeError);
            },
        };
        let (id, d3) = match take_text(d2) {
            Some(found) => found,
            None => {
                return Err(ResourceError::DecodeError);
            },
        };
        let (name, d4) = match take_text(d3) {
            Some(found) => found,
            None => {
                return Err(ResourceError::DecodeError);
            },
        };
        let (length, d5) = match take_text(d4) {
            Some(found) => found,
            None => {
                return Err(ResourceError::DecodeError);
            },
        };
        let (size, d6) = match take_text(d5) {
            Some(found) => found,
            None => {
                return Err(ResourceError::DecodeError);
            },
        };
        let index: u32 = match decode_u32(d6) {
            Ok(index) => index,
            Err(_) => {
                return Err(ResourceError::DecodeError);
            },
        };
        let mode = if index == 0 {
            CompressMode::Plain
        } else if index == 1 {
            CompressMode::Compress
        } else {
            return Err(ResourceError::DecodeError);
        };
        Ok(
            ResourceHead {
                Head: head,
                Version: version,
                Id: id,
                Name: name,
                Length: length,
                Size: size,
                Compress: mode,
            },
        )
    }
}

/// The length of every header whose fields fit their widths, taken from
/// the header of an empty payload.
pub fn headerLength() -> (n: usize)
    ensures
        n == HEAD_LENGTH,
{
    ResourceHead::default().getLen()
}

/// The number that stands for a mode in the encoding.
pub fn mode_number(m: CompressMode) -> (index: u32)
    ensures
        index == mode_index(m),
{
    match m {
        CompressMode::Plain => 0,
        CompressMode::Compress => 1,
    }
}

/// The two length fields are as wide as the largest payload length is long.
pub proof fn lemma_length_width()
    ensures
        decimal(MAX_LENGTH_SIZE as nat).len() == LENGTH_WIDTH,
        pow10(LENGTH_WIDTH as nat) == MAX_FIELD_VALUE + 1,
{
    reveal_with_fuel(pow10, 14);
    lemma_decimal_len(MAX_LENGTH_SIZE as nat, 13);
    lemma_decimal_len(MAX_LENGTH_SIZE as nat, 12);
}

/// The format version takes five bytes.
pub proof fn lemma_version_bytes()
    ensures
        byte_len(current_version()) == 5,
{
    reveal_strlit("1.0.0");
    let v = current_version();
    assert(v.len() == 5);
    assert forall|i: int| 0 <= i < v.len() implies '\0' <= #[trigger] v[i] <= '\u{7f}' by {
        assert(v[0] == '1' && v[1] == '.' && v[2] == '0' && v[3] == '.' && v[4] == '0');
    }
    is_ascii_chars_encode_utf8(v);
}

/// The length of a zero-padded number in bytes: the width of the field, or
/// the number of its digits where they are more.
pub proof fn lemma_length_field(n: u64)
    ensures
        byte_len(zero_padded(n as nat, LENGTH_WIDTH as int)) == LENGTH_WIDTH <==> n
            <= MAX_FIELD_VALUE,
        byte_len(zero_padded(n as nat, LENGTH_WIDTH as int)) >= LENGTH_WIDTH,
{
    lemma_length_width();
    lemma_decimal_len(n as nat, 13);
    lemma_zero_padded_reads(n as nat, 13);
    is_ascii_chars_encode_utf8(zero_padded(n as nat, 13));
}

/// The length of a header's encoding is the sum of the lengths of its
/// fields.
pub proof fn lemma_wire_length(h: HeadFields)
    ensures
        wire(h).len() == 8 + h.magic.len() + 8 + byte_len(h.version) + 8 + byte_len(h.id) + 8
            + byte_len(h.name) + 8 + byte_len(h.length) + 8 + byte_len(h.size) + 4,
{
    lemma_auto_spec_u64_to_from_le_bytes();
}

/// A header built from an id and a name that fit has the fixed length
/// exactly when the two lengths fit as well.
pub proof fn lemma_head_length(
    id: Seq<char>,
    length: u64,
    size: u64,
    name: Seq<char>,
    mode: CompressMode,
)
    requires
        fits_text(id, name),
    ensures
        wire(head_fields(id, length, size, name, mode)).len() == HEAD_LENGTH <==> fits(
            id,
            length,
            size,
            name,
        ),
        wire(head_fields(id, length, size, name, mode)).len() >= HEAD_LENGTH,
{
    let h = head_fields(id, length, size, name, mode);
    lemma_wire_length(h);
    lemma_version_bytes();
    lemma_centered_fills(id, MAX_ID_LENGTH as int);
    lemma_centered_fills(name, MAX_NAME_LENGTH as int);
    lemma_length_field(length);
    lemma_length_field(size);
}

} // verus!
