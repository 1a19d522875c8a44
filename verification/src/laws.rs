//! What holds of the store as a whole: of encoding and decoding, of
//! appending and exporting, and of listing.
use crate::error::current_version;
use crate::head::{
    fits, head_fields, lemma_head_length, lemma_wire_length, magic, mode_index, mode_of, parse,
    wire, CompressMode, HeadFields, HEAD_LENGTH, LENGTH_WIDTH, MAX_ID_LENGTH, MAX_NAME_LENGTH,
};
use crate::search::{absent, lemma_occurs_in_prefix, occurs_at};
use crate::store::{
    all_records, export_outcome, first_hit, header_at, is_hit, is_record_at, lemma_current_version,
    lemma_listing_gap, lemma_lookup, lemma_until_marker, listing, outcome_at, payload_start,
    record, sealed, size_holds, stored_payload, trailer, unpacked, until_marker, Export, Lookup,
    TRAILER_LENGTH,
};
use crate::text::{centered, is_space, lemma_trim_centered, lemma_zero_padded_reads, trim};
use crate::version::{is_version, sign_from, version_numbers, version_sign};
use crate::wire::{
    block, le32, lemma_block_front, lemma_le32, lemma_text_front, text_block, LENGTH_PREFIX,
};
use crate::guard::{fields_after_magic, lemma_guarded_fields, lemma_high_byte, LEAD};
use vstd::bytes::*;
use vstd::prelude::*;
use vstd::utf8::*;

verus! {

/// Decoding reverses encoding: a header's encoding, whatever follows it,
/// is read back as that header.
pub proof fn lemma_parse_wire(h: HeadFields, rest: Seq<u8>)
    requires
        wire(h).len() <= u64::MAX,
    ensures
        parse(wire(h) + rest) == Some(h),
{
    reveal(parse);
    lemma_wire_length(h);
    lemma_le32(mode_index(h.mode));
    let r6 = le32(mode_index(h.mode)) + rest;
    let r5 = text_block(h.size) + r6;
    let r4 = text_block(h.length) + r5;
    let r3 = text_block(h.name) + r4;
    let r2 = text_block(h.id) + r3;
    let r1 = text_block(h.version) + r2;
    let data = block(h.magic) + r1;
    assert(wire(h) + rest =~= data);
    lemma_block_front(h.magic, r1);
    lemma_text_front(h.version, r2);
    lemma_text_front(h.id, r3);
    lemma_text_front(h.name, r4);
    lemma_text_front(h.length, r5);
    lemma_text_front(h.size, r6);
    assert(r6.subrange(0, 4) =~= le32(mode_index(h.mode)));
    assert(mode_of(mode_index(h.mode)) == Some(h.mode));
}

/// A header as `append_record` writes it: it starts with the signature and
/// has the fixed length.
pub open spec fn canonical(h: HeadFields) -> bool {
    h.magic == magic() && wire(h).len() == HEAD_LENGTH
}

/// The header of values that fit is canonical.
pub proof fn lemma_fitting_head_is_canonical(
    id: Seq<char>,
    length: u64,
    size: u64,
    name: Seq<char>,
    mode: CompressMode,
)
    requires
        fits(id, length, size, name),
    ensures
        canonical(head_fields(id, length, size, name, mode)),
{
    lemma_head_length(id, length, size, name, mode);
}

/// The signature stands in a header's encoding behind its own length.
pub proof fn lemma_magic_in_wire(h: HeadFields)
    requires
        h.magic == magic(),
    ensures
        occurs_at(wire(h), magic(), LENGTH_PREFIX as int),
{
    let rest = text_block(h.version) + text_block(h.id) + text_block(h.name) + text_block(
        h.length,
    ) + text_block(h.size) + le32(mode_index(h.mode));
    assert(wire(h) =~= block(h.magic) + rest);
    lemma_block_front(h.magic, rest);
    assert(magic().len() == 16);
}

/// How a record lies in the host it was appended to: the header at the old
/// end of the host, then the payload, then the end marker.
pub proof fn lemma_record_layout(host: Seq<u8>, w: Seq<u8>, payload: Seq<u8>, marker: Seq<u8>)
    ensures
        ({
            let all = host + (w + payload + marker);
            let a = host.len() as int;
            let b = a + w.len();
            let c = b + payload.len();
            &&& all.len() == c + marker.len()
            &&& all.subrange(a, b) == w
            &&& all.subrange(b, all.len() as int) == payload + marker
            &&& all.subrange(c, c + marker.len()) == marker
        }),
{
    let all = host + (w + payload + marker);
    let a = host.len() as int;
    let b = a + w.len();
    let c = b + payload.len();
    assert(all.subrange(a, b) =~= w);
    assert(all.subrange(b, all.len() as int) =~= payload + marker);
    assert(all.subrange(c, c + marker.len()) =~= marker);
}

/// An occurrence inside a part of the data is an occurrence in the data.
pub proof fn lemma_occurs_in_part(data: Seq<u8>, from: int, to: int, pat: Seq<u8>, j: int)
    requires
        0 <= from <= to <= data.len(),
        occurs_at(data.subrange(from, to), pat, j),
    ensures
        occurs_at(data, pat, from + j),
{
    assert(data.subrange(from, to).subrange(j, j + pat.len()) =~= data.subrange(
        from + j,
        from + j + pat.len(),
    ));
}

/// Where a record is appended to a host, its signature stands
/// `LENGTH_PREFIX` bytes behind the old end of the host, its header is read
/// there, and its payload and end marker follow the header.
pub proof fn lemma_record_stands(host: Seq<u8>, h: HeadFields, payload: Seq<u8>)
    requires
        canonical(h),
    ensures
        occurs_at(host + record(h, payload), magic(), host.len() + LENGTH_PREFIX),
        header_at(host + record(h, payload), host.len() + LENGTH_PREFIX) == Some(h),
        (host + record(h, payload)).subrange(
            host.len() + HEAD_LENGTH,
            (host + record(h, payload)).len() as int,
        ) == payload + trailer(),
        occurs_at(host + record(h, payload), trailer(), host.len() + HEAD_LENGTH + payload.len()),
        (host + record(h, payload)).len() == host.len() + HEAD_LENGTH + payload.len()
            + TRAILER_LENGTH,
{
    let w = wire(h);
    let all = host + record(h, payload);
    lemma_record_layout(host, w, payload, trailer());
    lemma_magic_in_wire(h);
    lemma_occurs_in_part(all, host.len() as int, host.len() as int + w.len(), magic(), 8);
    assert(parse(w) == Some(h)) by {
        lemma_parse_wire(h, Seq::empty());
        assert(w + Seq::<u8>::empty() =~= w);
    }
    assert(trailer().len() == 5);
}

/// A version is neither lower nor higher than itself.
pub proof fn lemma_sign_reflexive(v: Seq<i32>, i: int)
    requires
        0 <= i,
    ensures
        sign_from(v, v, i) == 0,
    decreases v.len() - i,
{
    if i < v.len() {
        lemma_sign_reflexive(v, i + 1);
    }
}

/// The end marker starts with a byte that it does not hold again.
pub proof fn lemma_trailer_start()
    ensures
        trailer().len() == 5,
        trailer()[1] != trailer()[0],
        trailer()[2] != trailer()[0],
        trailer()[3] != trailer()[0],
        trailer()[4] != trailer()[0],
{
    let t = trailer();
    assert(t[0] == 0x4F && t[1] == 0x44 && t[2] == 0x45 && t[3] == 0x4E && t[4] == 0x44);
}

/// The end marker cannot start inside a payload and end inside the marker
/// that follows the payload.
pub proof fn lemma_no_straddle(payload: Seq<u8>, j: int)
    requires
        payload.len() - 5 < j < payload.len(),
        0 <= j,
    ensures
        !occurs_at(payload + trailer(), trailer(), j),
{
    lemma_trailer_start();
    let data = payload + trailer();
    let n = payload.len() as int;
    if occurs_at(data, trailer(), j) {
        let d = n - j;
        let window = data.subrange(j, j + 5);
        assert(window[d] == data[n]);
        assert(data[n] == trailer()[0]);
        assert(window[d] == trailer()[d]);
    }
}

/// A payload that does not hold the end marker ends at the marker that
/// follows it.
pub proof fn lemma_payload_ends(payload: Seq<u8>)
    requires
        absent(payload, trailer()),
    ensures
        until_marker(payload + trailer(), trailer()) == Some(payload),
{
    lemma_trailer_start();
    let data = payload + trailer();
    let n = payload.len() as int;
    assert(data.subrange(n, n + 5) =~= trailer());
    assert(data.subrange(0, n) =~= payload);
    assert forall|j: int| 0 <= j < n implies !occurs_at(data, trailer(), j) by {
        if j + 5 <= n {
            lemma_occurs_in_prefix(data, n, trailer(), j);
        } else {
            lemma_no_straddle(payload, j);
        }
    }
    lemma_until_marker(data, trailer(), n);
}

/// Whether `s` has no white space at its start or at its end.
pub open spec fn no_edge_space(s: Seq<char>) -> bool {
    s.len() > 0 ==> !is_space(s[0]) && !is_space(s.last())
}

/// Round trip. A payload that was appended under an id is what the export
/// of that id returns, bit for bit, stored as it is or compressed. This
/// holds where the values fit the header, the id has no white space at
/// either end, no record with the id stands before the new one, the bytes
/// as stored do not hold the end marker, and the payload has the size that
/// the header declares, which is that of the bytes as stored.
pub proof fn lemma_round_trip(
    host: Seq<u8>,
    source: Seq<u8>,
    stored: Seq<u8>,
    id: Seq<char>,
    name: Seq<char>,
    mode: CompressMode,
)
    requires
        stored.len() <= u64::MAX,
        fits(id, stored.len() as u64, stored.len() as u64, name),
        no_edge_space(id),
        absent(stored, trailer()),
        unpacked(mode, stored) == Some(source),
        source.len() == stored.len(),
        forall|j: int|
            0 <= j < host.len() + LENGTH_PREFIX ==> !#[trigger] is_hit(
                host + record(
                    head_fields(id, stored.len() as u64, stored.len() as u64, name, mode),
                    stored,
                ),
                id,
                j,
            ),
    ensures
        export_outcome(
            host + record(
                head_fields(id, stored.len() as u64, stored.len() as u64, name, mode),
                stored,
            ),
            id,
        ) == Export::Done(trim(centered(name, MAX_NAME_LENGTH as int)), source),
{
    let n = stored.len() as u64;
    let h = head_fields(id, n, n, name, mode);
    let all = host + record(h, stored);
    let at = host.len() + LENGTH_PREFIX;
    lemma_fitting_head_is_canonical(id, n, n, name, mode);
    lemma_record_stands(host, h, stored);
    lemma_trim_centered(id, MAX_ID_LENGTH as int);
    assert(is_hit(all, id, at));
    assert(first_hit(all, id, at));
    lemma_lookup(all, id, at);
    lemma_current_version();
    lemma_sign_reflexive(version_numbers(current_version()), 0);
    lemma_zero_padded_reads(n as nat, LENGTH_WIDTH as int);
    assert(payload_start(at) == host.len() + HEAD_LENGTH);
    assert(sealed(all, at));
    lemma_payload_ends(stored);
    assert(stored_payload(all, at) == stored);
    assert(outcome_at(all, at) == Lookup::Found(h, stored));
    assert(size_holds(h, source));
}

/// Version gate. Where the first record with the id has a version other
/// than this library's, the export fails, with the error that says in
/// which direction the version differs, and returns nothing of the payload.
pub proof fn lemma_version_gate(host: Seq<u8>, id: Seq<char>, at: int)
    requires
        first_hit(host, id, at),
        is_version(header_at(host, at).unwrap().version),
        version_sign(header_at(host, at).unwrap().version, current_version()) != 0,
    ensures
        version_sign(header_at(host, at).unwrap().version, current_version()) < 0
            ==> export_outcome(host, id) == Export::Older(header_at(host, at).unwrap().version),
        version_sign(header_at(host, at).unwrap().version, current_version()) > 0
            ==> export_outcome(host, id) == Export::Newer(header_at(host, at).unwrap().version),
{
    lemma_lookup(host, id, at);
}

/// Integrity gate. Where the end marker of the first record with the id
/// does not stand where the header says, the export fails as incomplete.
pub proof fn lemma_integrity_gate(host: Seq<u8>, id: Seq<char>, at: int)
    requires
        first_hit(host, id, at),
        is_version(header_at(host, at).unwrap().version),
        version_sign(header_at(host, at).unwrap().version, current_version()) == 0,
        !sealed(host, at),
    ensures
        export_outcome(host, id) == Export::Incomplete,
{
    lemma_lookup(host, id, at);
}

/// Not found. Where no header in the host has the id, the export fails as
/// not found, whatever stands around the signatures that the host holds.
pub proof fn lemma_not_found(host: Seq<u8>, id: Seq<char>)
    requires
        forall|j: int| !#[trigger] is_hit(host, id, j),
    ensures
        export_outcome(host, id) == Export::NotFound,
{
    assert(!exists|at: int| first_hit(host, id, at));
}

/// The records whose headers end inside the first `m` bytes of a host are
/// the records of those bytes alone.
pub proof fn lemma_listing_prefix(host: Seq<u8>, more: Seq<u8>, hi: int)
    requires
        hi <= 0 || hi - 1 - LENGTH_PREFIX + HEAD_LENGTH <= host.len(),
    ensures
        listing(host + more, 0, hi) == listing(host, 0, hi),
    decreases hi,
{
    if hi > 0 {
        lemma_listing_prefix(host, more, hi - 1);
        let j = hi - 1;
        let all = host + more;
        assert(all.subrange(0, host.len() as int) =~= host);
        lemma_occurs_in_prefix(all, host.len() as int, magic(), j);
        if j >= LENGTH_PREFIX {
            assert(all.subrange(j - LENGTH_PREFIX, j - LENGTH_PREFIX + HEAD_LENGTH)
                =~= host.subrange(j - LENGTH_PREFIX, j - LENGTH_PREFIX + HEAD_LENGTH));
        }
    }
}

/// Enumeration, one record at a time. Appending a record adds its header
/// at the end of the list and changes nothing else in it. This holds where
/// the new host holds no other header that ends behind the old host's end.
pub proof fn lemma_listing_grows(host: Seq<u8>, h: HeadFields, payload: Seq<u8>)
    requires
        canonical(h),
        forall|j: int|
            j - LENGTH_PREFIX + HEAD_LENGTH > host.len() && j != host.len() + LENGTH_PREFIX
                ==> !#[trigger] is_record_at(host + record(h, payload), j),
    ensures
        all_records(host + record(h, payload)) == all_records(host).push(h),
{
    let all = host + record(h, payload);
    let at = host.len() + LENGTH_PREFIX;
    let edge = if host.len() - HEAD_LENGTH + LENGTH_PREFIX + 1 > 0 {
        host.len() - HEAD_LENGTH + LENGTH_PREFIX + 1
    } else {
        0
    };
    lemma_record_stands(host, h, payload);
    assert(listing(all, 0, edge) == listing(host, 0, edge)) by {
        lemma_listing_prefix(host, record(h, payload), edge);
    }
    assert(listing(host, 0, host.len() as int) == listing(host, 0, edge)) by {
        assert forall|j: int| edge <= j < host.len() implies !#[trigger] is_record_at(host, j) by {
            assert(header_at(host, j) is None);
        }
        lemma_listing_gap(host, 0, edge, host.len() as int);
    }
    assert(listing(all, 0, at) == listing(all, 0, edge)) by {
        lemma_listing_gap(all, 0, edge, at);
    }
    assert(listing(all, 0, at + 1) == listing(all, 0, at).push(h)) by {
        assert(is_record_at(all, at));
    }
    assert(listing(all, 0, all.len() as int) == listing(all, 0, at + 1)) by {
        lemma_listing_gap(all, 0, at + 1, all.len() as int);
    }
}

/// Whether no header can be read behind a signature at the offset `j` of
/// `data`, whatever follows the data: there is no room for a length before
/// it, or the byte before it is one that no length of a header ends in.
pub open spec fn barred(data: Seq<u8>, j: int) -> bool {
    j < LENGTH_PREFIX || (j <= data.len() && data[j - 1] >= 0x80)
}

/// Whether every signature so near the end of a host that the header
/// behind it would not lie in the host as a whole is barred. A host that
/// holds no signature near its end is such a host.
pub open spec fn tail_barred(host: Seq<u8>) -> bool {
    forall|j: int|
        j - LENGTH_PREFIX + HEAD_LENGTH > host.len() && #[trigger] occurs_at(host, magic(), j)
            ==> barred(host, j)
}

/// Whether a record holds no signature behind which a header could be
/// read but the one of its own header: any other stands behind a byte of
/// 0x80 or more, as one inside an id or a name does.
pub open spec fn lone_header(rec: Seq<u8>) -> bool {
    forall|j: int|
        j != LENGTH_PREFIX && #[trigger] occurs_at(rec, magic(), j) ==> j >= 1 && rec[j - 1]
            >= 0x80
}

/// Behind a barred signature no header is read, whatever follows.
pub proof fn lemma_barred(data: Seq<u8>, more: Seq<u8>, j: int)
    requires
        barred(data, j),
    ensures
        header_at(data + more, j) is None,
        !is_record_at(data + more, j),
{
    let all = data + more;
    let start = j - LENGTH_PREFIX;
    if 0 <= start && start + HEAD_LENGTH <= all.len() {
        let window = all.subrange(start, start + HEAD_LENGTH);
        assert(window.subrange(0, 8)[7] == all[j - 1]);
        assert(all[j - 1] == data[j - 1]);
        lemma_high_byte(window.subrange(0, 8));
        reveal(parse);
    }
}

/// The first byte of a canonical header is the length of the signature,
/// a byte that the signature does not hold.
pub proof fn lemma_first_byte(h: HeadFields)
    requires
        canonical(h),
    ensures
        wire(h).len() > 0,
        wire(h)[0] == 16,
        forall|k: int| 0 <= k < magic().len() ==> magic()[k] != 16,
{
    let rest = text_block(h.version) + text_block(h.id) + text_block(h.name) + text_block(
        h.length,
    ) + text_block(h.size) + le32(mode_index(h.mode));
    assert(wire(h) =~= block(h.magic) + rest);
    assert(magic().len() == 16);
    spec_u64_to_le_bytes_to_open(16u64);
    assert((16u64 & 0xff) as u8 == 16) by (bit_vector);
    assert(spec_u64_to_le_bytes(16u64)[0] == 16);
}

/// A signature in a host with a record appended lies in the host or in the
/// record: it cannot start in the one and end in the other.
pub proof fn lemma_signature_in_joined(host: Seq<u8>, h: HeadFields, payload: Seq<u8>, j: int)
    requires
        canonical(h),
        occurs_at(host + record(h, payload), magic(), j),
    ensures
        (j + magic().len() <= host.len() && occurs_at(host, magic(), j)) || (j >= host.len()
            && occurs_at(record(h, payload), magic(), j - host.len())),
{
    let rec = record(h, payload);
    let all = host + rec;
    let n = host.len() as int;
    lemma_first_byte(h);
    assert(magic().len() == 16);
    if j + 16 <= n {
        assert(all.subrange(0, n) =~= host);
        lemma_occurs_in_prefix(all, n, magic(), j);
    } else if j >= n {
        assert(rec.subrange(j - n, j - n + 16) =~= all.subrange(j, j + 16));
    } else {
        let window = all.subrange(j, j + 16);
        assert(window[n - j] == all[n]);
        assert(all[n] == rec[0]);
        assert(rec[0] == wire(h)[0]);
        assert(window[n - j] == magic()[n - j]);
    }
}

/// Whatever the host, once a record with a lone header is appended to it
/// every signature near the end of the new host is barred.
pub proof fn lemma_tail_stays_barred(host: Seq<u8>, h: HeadFields, payload: Seq<u8>)
    requires
        canonical(h),
        lone_header(record(h, payload)),
    ensures
        tail_barred(host + record(h, payload)),
{
    let rec = record(h, payload);
    let all = host + rec;
    lemma_record_stands(host, h, payload);
    assert forall|j: int|
        j - LENGTH_PREFIX + HEAD_LENGTH > all.len() && #[trigger] occurs_at(
            all,
            magic(),
            j,
        ) implies barred(all, j) by {
        lemma_signature_in_joined(host, h, payload, j);
        assert(magic().len() == 16);
        assert(all[j - 1] == rec[j - host.len() - 1]);
    }
}

/// Where a record with a lone header is appended to a host whose tail is
/// barred, the only new header is that of the record.
pub proof fn lemma_no_other_header(host: Seq<u8>, h: HeadFields, payload: Seq<u8>)
    requires
        canonical(h),
        tail_barred(host),
        lone_header(record(h, payload)),
    ensures
        forall|j: int|
            j - LENGTH_PREFIX + HEAD_LENGTH > host.len() && j != host.len() + LENGTH_PREFIX
                ==> !#[trigger] is_record_at(host + record(h, payload), j),
{
    let rec = record(h, payload);
    let all = host + rec;
    assert forall|j: int|
        j - LENGTH_PREFIX + HEAD_LENGTH > host.len() && j != host.len()
            + LENGTH_PREFIX implies !#[trigger] is_record_at(all, j) by {
        if occurs_at(all, magic(), j) {
            lemma_signature_in_joined(host, h, payload, j);
            if j >= host.len() {
                assert(all[j - 1] == rec[j - host.len() - 1]);
                assert(barred(all, j));
                assert(all + Seq::<u8>::empty() =~= all);
                lemma_barred(all, Seq::empty(), j);
            } else {
                lemma_barred(host, rec, j);
            }
        }
    }
}

/// The host that `n` records appended one after the other to `base` make.
pub open spec fn grown(base: Seq<u8>, heads: Seq<HeadFields>, payloads: Seq<Seq<u8>>, n: int) -> Seq<
    u8,
>
    decreases n,
{
    if n <= 0 {
        base
    } else {
        grown(base, heads, payloads, n - 1) + record(heads[n - 1], payloads[n - 1])
    }
}

/// Enumeration completeness. A host to which records were appended lists
/// its own records and then the header of each appended record, in the
/// order in which they were appended: none is missing and none is added.
/// This holds where every signature near the end of the host to begin
/// with is barred, and each record has a lone header.
pub proof fn lemma_enumeration(
    base: Seq<u8>,
    heads: Seq<HeadFields>,
    payloads: Seq<Seq<u8>>,
    n: int,
)
    requires
        0 <= n <= heads.len(),
        heads.len() == payloads.len(),
        tail_barred(base),
        forall|k: int| 0 <= k < n ==> canonical(#[trigger] heads[k]),
        forall|k: int| 0 <= k < n ==> lone_header(record(#[trigger] heads[k], payloads[k])),
    ensures
        all_records(grown(base, heads, payloads, n)) == all_records(base) + heads.subrange(0, n),
        tail_barred(grown(base, heads, payloads, n)),
    decreases n,
{
    if n == 0 {
        assert(all_records(base) + heads.subrange(0, 0) =~= all_records(base));
    } else {
        lemma_enumeration(base, heads, payloads, n - 1);
        let before = grown(base, heads, payloads, n - 1);
        assert(canonical(heads[n - 1]));
        assert(lone_header(record(heads[n - 1], payloads[n - 1])));
        lemma_no_other_header(before, heads[n - 1], payloads[n - 1]);
        lemma_listing_grows(before, heads[n - 1], payloads[n - 1]);
        lemma_tail_stays_barred(before, heads[n - 1], payloads[n - 1]);
        assert((all_records(base) + heads.subrange(0, n - 1)).push(heads[n - 1]) =~= all_records(
            base,
        ) + heads.subrange(0, n));
    }
}

/// The first byte of the signature stands nowhere else in its first nine
/// bytes.
pub proof fn lemma_magic_start()
    ensures
        magic().len() == 16,
        magic()[1] != magic()[0],
        magic()[2] != magic()[0],
        magic()[3] != magic()[0],
        magic()[4] != magic()[0],
        magic()[5] != magic()[0],
        magic()[6] != magic()[0],
        magic()[7] != magic()[0],
        magic()[8] != magic()[0],
{
    let m = magic();
    assert(m[0] == 0x89 && m[1] == 0x4f && m[2] == 0x76 && m[3] == 0x65 && m[4] == 0x72 && m[5]
        == 0x6c && m[6] == 0x61 && m[7] == 0x79 && m[8] == 0x44);
}

/// A pattern that stands at offset 8 of some data does not stand at a
/// lower offset as well, where its first byte is not among its next eight.
pub proof fn lemma_no_early_start(data: Seq<u8>, m: Seq<u8>, k: int)
    requires
        m.len() == 16,
        occurs_at(data, m, 8),
        0 <= k < 8,
        m[8 - k] != m[0],
    ensures
        !occurs_at(data, m, k),
{
    assert(data.subrange(8, 24)[0] == data[8]);
    if occurs_at(data, m, k) {
        assert(data.subrange(k, k + 16)[8 - k] == data[8]);
    }
}

/// An occurrence in some data is an occurrence in the data with more
/// behind it.
pub proof fn lemma_occurs_in_front(data: Seq<u8>, more: Seq<u8>, pat: Seq<u8>, j: int)
    requires
        occurs_at(data, pat, j),
    ensures
        occurs_at(data + more, pat, j),
{
    assert((data + more).subrange(j, j + pat.len()) =~= data.subrange(j, j + pat.len()));
}

/// The signature does not start inside the length that stands in front of
/// it in a header.
pub proof fn lemma_signature_not_in_prefix(h: HeadFields, payload: Seq<u8>, k: int)
    requires
        canonical(h),
        0 <= k < LENGTH_PREFIX,
    ensures
        !occurs_at(record(h, payload), magic(), k),
{
    lemma_magic_start();
    let rec = record(h, payload);
    lemma_magic_in_wire(h);
    lemma_occurs_in_front(wire(h), payload + trailer(), magic(), 8);
    assert(rec =~= wire(h) + (payload + trailer()));
    if k == 0 {
        lemma_no_early_start(rec, magic(), 0);
    } else if k == 1 {
        lemma_no_early_start(rec, magic(), 1);
    } else if k == 2 {
        lemma_no_early_start(rec, magic(), 2);
    } else if k == 3 {
        lemma_no_early_start(rec, magic(), 3);
    } else if k == 4 {
        lemma_no_early_start(rec, magic(), 4);
    } else if k == 5 {
        lemma_no_early_start(rec, magic(), 5);
    } else if k == 6 {
        lemma_no_early_start(rec, magic(), 6);
    } else {
        lemma_no_early_start(rec, magic(), 7);
    }
}

/// Whether a record with an id stands at a signature does not depend on
/// what follows the header.
pub proof fn lemma_hit_in_prefix(host: Seq<u8>, more: Seq<u8>, id: Seq<char>, j: int)
    requires
        j - LENGTH_PREFIX + HEAD_LENGTH <= host.len(),
    ensures
        is_hit(host + more, id, j) == is_hit(host, id, j),
        is_record_at(host + more, j) == is_record_at(host, j),
{
    let all = host + more;
    assert(all.subrange(0, host.len() as int) =~= host);
    lemma_occurs_in_prefix(all, host.len() as int, magic(), j);
    if j >= LENGTH_PREFIX {
        assert(all.subrange(j - LENGTH_PREFIX, j - LENGTH_PREFIX + HEAD_LENGTH) =~= host.subrange(
            j - LENGTH_PREFIX,
            j - LENGTH_PREFIX + HEAD_LENGTH,
        ));
    }
}

/// A host that holds no record with an id, and whose tail is barred, holds
/// none before a record that is appended to it.
pub proof fn lemma_no_earlier_hit(
    host: Seq<u8>,
    h: HeadFields,
    payload: Seq<u8>,
    id: Seq<char>,
)
    requires
        canonical(h),
        tail_barred(host),
        forall|j: int| !#[trigger] is_hit(host, id, j),
    ensures
        forall|j: int|
            0 <= j < host.len() + LENGTH_PREFIX ==> !#[trigger] is_hit(
                host + record(h, payload),
                id,
                j,
            ),
{
    let rec = record(h, payload);
    let all = host + rec;
    assert forall|j: int| 0 <= j < host.len() + LENGTH_PREFIX implies !#[trigger] is_hit(
        all,
        id,
        j,
    ) by {
        if occurs_at(all, magic(), j) {
            lemma_signature_in_joined(host, h, payload, j);
            if j >= host.len() {
                lemma_signature_not_in_prefix(h, payload, j - host.len());
            } else if j - LENGTH_PREFIX + HEAD_LENGTH <= host.len() {
                lemma_hit_in_prefix(host, rec, id, j);
            } else {
                lemma_barred(host, rec, j);
            }
        }
    }
}

/// Round trip on a host that does not know the id. A payload that is
/// appended under an id to a host that holds no record with that id, and
/// whose tail is barred, is what the export of the id returns.
pub proof fn lemma_round_trip_on_fresh_host(
    host: Seq<u8>,
    source: Seq<u8>,
    stored: Seq<u8>,
    id: Seq<char>,
    name: Seq<char>,
    mode: CompressMode,
)
    requires
        stored.len() <= u64::MAX,
        fits(id, stored.len() as u64, stored.len() as u64, name),
        no_edge_space(id),
        absent(stored, trailer()),
        unpacked(mode, stored) == Some(source),
        source.len() == stored.len(),
        tail_barred(host),
        forall|j: int| !#[trigger] is_hit(host, id, j),
    ensures
        export_outcome(
            host + record(
                head_fields(id, stored.len() as u64, stored.len() as u64, name, mode),
                stored,
            ),
            id,
        ) == Export::Done(trim(centered(name, MAX_NAME_LENGTH as int)), source),
{
    let n = stored.len() as u64;
    let h = head_fields(id, n, n, name, mode);
    lemma_fitting_head_is_canonical(id, n, n, name, mode);
    lemma_no_earlier_hit(host, h, stored, id);
    lemma_round_trip(host, source, stored, id, name, mode);
}

/// The first byte of the signature stands nowhere else in it, and the
/// first byte of the end marker not among its last five bytes.
pub proof fn lemma_magic_rest()
    ensures
        magic().len() == 16,
        magic()[0] == LEAD,
        forall|k: int| 1 <= k < 16 ==> magic()[k] != LEAD,
        forall|k: int| 11 <= k < 16 ==> magic()[k] != trailer()[0],
{
    let m = magic();
    assert(m[0] == 0x89 && m[1] == 0x4f && m[2] == 0x76 && m[3] == 0x65 && m[4] == 0x72 && m[5]
        == 0x6c && m[6] == 0x61 && m[7] == 0x79 && m[8] == 0x44 && m[9] == 0x61 && m[10] == 0x74
        && m[11] == 0x61 && m[12] == 0x0d && m[13] == 0x0a && m[14] == 0x1a && m[15] == 0x0a);
    assert(trailer()[0] == 0x4F);
}

/// The bytes of a record of values that fit: the signature behind its
/// length, the other fields, the payload, the end marker.
pub proof fn lemma_record_parts(
    id: Seq<char>,
    length: u64,
    size: u64,
    name: Seq<char>,
    mode: CompressMode,
    payload: Seq<u8>,
)
    requires
        fits(id, length, size, name),
    ensures
        ({
            let rec = record(head_fields(id, length, size, name, mode), payload);
            let fields = fields_after_magic(id, length, size, name, mode);
            &&& rec.len() == HEAD_LENGTH + payload.len() + TRAILER_LENGTH
            &&& fields.len() == HEAD_LENGTH - 24
            &&& forall|j: int| 8 <= j < 24 ==> #[trigger] rec[j] == magic()[j - 8]
            &&& forall|j: int| 24 <= j < HEAD_LENGTH ==> #[trigger] rec[j] == fields[j - 24]
            &&& forall|j: int|
                HEAD_LENGTH <= j < HEAD_LENGTH + payload.len() ==> #[trigger] rec[j] == payload[j
                    - HEAD_LENGTH]
            &&& rec[HEAD_LENGTH + payload.len()] == trailer()[0]
        }),
{
    let h = head_fields(id, length, size, name, mode);
    let rec = record(h, payload);
    let fields = fields_after_magic(id, length, size, name, mode);
    lemma_head_length(id, length, size, name, mode);
    assert(magic().len() == 16);
    assert(trailer().len() == 5);
    lemma_block_front(magic(), fields);
    assert(wire(h) =~= block(magic()) + fields);
    assert(block(magic()) =~= spec_u64_to_le_bytes(16u64) + magic());
    lemma_auto_spec_u64_to_from_le_bytes();
}

/// A record of values that fit, with a payload that does not hold the
/// signature, has a lone header: a signature in its id or its name stands
/// behind a byte of 0x80 or more, and none lies across two of its parts.
pub proof fn lemma_written_record_is_lone(
    id: Seq<char>,
    length: u64,
    size: u64,
    name: Seq<char>,
    mode: CompressMode,
    payload: Seq<u8>,
)
    requires
        fits(id, length, size, name),
        absent(payload, magic()),
    ensures
        lone_header(record(head_fields(id, length, size, name, mode), payload)),
{
    let h = head_fields(id, length, size, name, mode);
    let rec = record(h, payload);
    let fields = fields_after_magic(id, length, size, name, mode);
    lemma_fitting_head_is_canonical(id, length, size, name, mode);
    lemma_record_parts(id, length, size, name, mode, payload);
    lemma_guarded_fields(id, length, size, name, mode);
    lemma_magic_rest();
    assert forall|j: int| j != LENGTH_PREFIX && #[trigger] occurs_at(rec, magic(), j) implies j
        >= 1 && rec[j - 1] >= 0x80 by {
        let window = rec.subrange(j, j + 16);
        assert(window[0] == rec[j]);
        if j < 8 {
            lemma_signature_not_in_prefix(h, payload, j);
        } else if j < 24 {
            assert(rec[j] == magic()[j - 8]);
        } else if j < HEAD_LENGTH {
            assert(rec[j] == fields[j - 24]);
            assert(fields[j - 24] == LEAD);
            assert(rec[j - 1] == fields[j - 25]);
        } else {
            let q = j - HEAD_LENGTH;
            if q + 16 <= payload.len() {
                assert forall|k: int| 0 <= k < 16 implies payload.subrange(q, q + 16)[k]
                    == window[k] by {
                    assert(rec[j + k] == payload[j + k - HEAD_LENGTH]);
                }
                assert(payload.subrange(q, q + 16) =~= window);
                assert(occurs_at(payload, magic(), q));
            } else {
                let k = payload.len() - q;
                assert(window[k] == rec[HEAD_LENGTH + payload.len()]);
            }
        }
    }
}

/// A host that does not hold the signature holds no record, and its tail
/// is barred.
pub proof fn lemma_clean_host(host: Seq<u8>)
    requires
        absent(host, magic()),
    ensures
        tail_barred(host),
        all_records(host) == Seq::<HeadFields>::empty(),
{
    if host.len() > 0 {
        lemma_listing_gap(host, 0, 0, host.len() as int);
    }
}

/// The headers that `append_record` writes for payloads stored under ids
/// with names and modes.
pub open spec fn written_heads(
    ids: Seq<Seq<char>>,
    names: Seq<Seq<char>>,
    modes: Seq<CompressMode>,
    payloads: Seq<Seq<u8>>,
) -> Seq<HeadFields> {
    Seq::new(
        payloads.len(),
        |k: int|
            head_fields(
                ids[k],
                payloads[k].len() as u64,
                payloads[k].len() as u64,
                names[k],
                modes[k],
            ),
    )
}

/// Enumeration of what was appended. A host that did not hold the
/// signature, and to which payloads that do not hold it were appended
/// under ids and names that fit, lists the headers of these records, in
/// the order in which they were appended: none is missing, none is there
/// twice, and none is added, whatever the ids and the names hold.
pub proof fn lemma_enumeration_of_appended(
    base: Seq<u8>,
    ids: Seq<Seq<char>>,
    names: Seq<Seq<char>>,
    modes: Seq<CompressMode>,
    payloads: Seq<Seq<u8>>,
    n: int,
)
    requires
        absent(base, magic()),
        0 <= n <= payloads.len(),
        ids.len() == payloads.len(),
        names.len() == payloads.len(),
        modes.len() == payloads.len(),
        forall|k: int|
            0 <= k < n ==> {
                &&& (#[trigger] payloads[k]).len() <= u64::MAX
                &&& fits(ids[k], payloads[k].len() as u64, payloads[k].len() as u64, names[k])
                &&& absent(payloads[k], magic())
            },
    ensures
        all_records(grown(base, written_heads(ids, names, modes, payloads), payloads, n))
            == written_heads(ids, names, modes, payloads).subrange(0, n),
{
    let heads = written_heads(ids, names, modes, payloads);
    lemma_clean_host(base);
    assert forall|k: int| 0 <= k < n implies canonical(#[trigger] heads[k]) by {
        let m = payloads[k].len() as u64;
        lemma_fitting_head_is_canonical(ids[k], m, m, names[k], modes[k]);
    }
    assert forall|k: int| 0 <= k < n implies lone_header(
        record(#[trigger] heads[k], payloads[k]),
    ) by {
        let m = payloads[k].len() as u64;
        lemma_written_record_is_lone(ids[k], m, m, names[k], modes[k], payloads[k]);
    }
    lemma_enumeration(base, heads, payloads, n);
    assert(Seq::<HeadFields>::empty() + heads.subrange(0, n) =~= heads.subrange(0, n));
}

} // verus!
