//! The store itself: records appended to a host, found again by id, and
//! listed.
use crate::error::{currentVersion, current_version, ResourceError};
use crate::head::{
    fits, head_fields, magic, magic_bytes, parse, wire, CompressMode, HeadFields, ResourceHead,
    BUFFER_SIZE, HEAD_LENGTH, MAX_ID_LENGTH, MAX_NAME_LENGTH,
};
use crate::search::{
    first_occurrence, lemma_occurrences_exact, lemma_occurrences_in_prefix, matches_at,
    occurrences, occurs_at, offsets, Scanner,
};
use crate::text::{
    all_digits, digits_value, parse_i32, parse_signed, parse_u64, read_u64, trim, trimmed,
    unsigned_body,
};
use crate::util::{compressionFile, decompressFile, gz_decoded, gz_encoded};
use crate::version::{compareVersion, is_version, split_dots, version_numbers, version_sign};
use crate::wire::LENGTH_PREFIX;
use std::cmp::Ordering;
use vstd::prelude::*;
use vstd::slice::{slice_subrange, slice_to_vec};
use vstd::string::*;

verus! {

/// The length of the signature.
pub const MAGIC_LENGTH: usize = 16;

/// The length of the end marker.
pub const TRAILER_LENGTH: usize = 5;

/// The marker at the end of every record: the letters `ODEND`.
pub open spec fn trailer() -> Seq<u8> {
    seq![0x4Fu8, 0x44, 0x45, 0x4E, 0x44]
}

/// The marker at the end of every record.
pub fn trailer_bytes() -> (t: Vec<u8>)
    ensures
        t@ == trailer(),
{
    let t: Vec<u8> = vec![0x4Fu8, 0x44, 0x45, 0x4E, 0x44];
    assert(t@ =~= trailer());
    t
}

/// A record: the header, the payload as stored, the end marker.
pub open spec fn record(head: HeadFields, payload: Seq<u8>) -> Seq<u8> {
    wire(head) + payload + trailer()
}

/// The header that a signature at offset `at` belongs to, if the bytes
/// around it are one. The signature stands behind its own length, so the
/// header starts `LENGTH_PREFIX` bytes before it; it takes `HEAD_LENGTH`
/// bytes, all of which the host must hold.
pub open spec fn header_at(host: Seq<u8>, at: int) -> Option<HeadFields> {
    let start = at - LENGTH_PREFIX;
    if 0 <= start && start + HEAD_LENGTH <= host.len() {
        parse(host.subrange(start, start + HEAD_LENGTH))
    } else {
        None
    }
}

/// Whether a record's header stands at the signature at offset `at`.
pub open spec fn is_record_at(host: Seq<u8>, at: int) -> bool {
    occurs_at(host, magic(), at) && header_at(host, at) is Some
}

/// Whether the record with the id `id` stands at the signature at `at`.
pub open spec fn is_hit(host: Seq<u8>, id: Seq<char>, at: int) -> bool {
    is_record_at(host, at) && trim(header_at(host, at).unwrap().id) == id
}

/// Whether the first record with the id `id` stands at the signature at `at`.
pub open spec fn first_hit(host: Seq<u8>, id: Seq<char>, at: int) -> bool {
    is_hit(host, id, at) && forall|j: int| 0 <= j < at ==> !is_hit(host, id, j)
}

/// Whether two texts are the same.
pub(crate) fn same_text(a: &str, b: &str) -> (r: bool)
    ensures
        r == (a@ == b@),
{
    let x = String::from_str(a);
    let y = String::from_str(b);
    x == y
}

/// Reads the header that the signature at offset `at` belongs to.
pub fn read_header_at(host: &[u8], at: u64) -> (r: Option<ResourceHead>)
    ensures
        r is Some <==> header_at(host@, at as int) is Some,
        r is Some ==> r.unwrap()@ == header_at(host@, at as int).unwrap(),
{
    let total: usize = host.len();
    if at < LENGTH_PREFIX as u64 || at > total as u64 {
        return None;
    }
    let start: usize = at as usize - LENGTH_PREFIX;
    if total - start < HEAD_LENGTH {
        return None;
    }
    match ResourceHead::from(slice_subrange(host, start, start + HEAD_LENGTH)) {
        Ok(head) => Some(head),
        Err(_) => None,
    }
}

/// Looks among the signatures at the offsets `found` for the first record
/// with the id `id`.
fn first_hit_among(
    host: &[u8],
    id: &str,
    found: &Vec<u64>,
    Ghost(lo): Ghost<int>,
    Ghost(hi): Ghost<int>,
) -> (r: Option<(u64, ResourceHead)>)
    requires
        offsets(found@) == occurrences(host@, magic(), lo, hi),
        forall|j: int| 0 <= j < lo ==> !is_hit(host@, id@, j),
    ensures
        r is None ==> forall|j: int| 0 <= j < hi ==> !is_hit(host@, id@, j),
        r is Some ==> first_hit(host@, id@, r.unwrap().0 as int) && r.unwrap().1@ == header_at(
            host@,
            r.unwrap().0 as int,
        ).unwrap(),
{
    let n: usize = found.len();
    let mut k: usize = 0;
    proof {
        lemma_occurrences_exact(host@, magic(), lo, hi);
    }
    while k < n
        invariant
            n == found@.len(),
            k <= n,
            offsets(found@) == occurrences(host@, magic(), lo, hi),
            forall|j: int| 0 <= j < lo ==> !is_hit(host@, id@, j),
            forall|i: int| 0 <= i < k ==> !is_hit(host@, id@, #[trigger] found@[i] as int),
        decreases n - k,
    {
        let at: u64 = found[k];
        match read_header_at(host, at) {
            Some(head) => {
                if same_text(trimmed(head.getId()), id) {
                    proof {
                        lemma_occurrences_exact(host@, magic(), lo, hi);
                        let occ = occurrences(host@, magic(), lo, hi);
                        assert(occ[k as int] == at);
                        assert forall|j: int| 0 <= j < at implies !is_hit(host@, id@, j) by {
                            if j >= lo && occurs_at(host@, magic(), j) {
                                assert(occ.contains(j));
                                let i = choose|i: int| 0 <= i < occ.len() && occ[i] == j;
                                if i >= k {
                                    assert(occ[k as int] <= occ[i]);
                                }
                                assert(found@[i] as int == occ[i]);
                            }
                        }
                    }
                    return Some((at, head));
                }
            },
            None => {},
        }
        k += 1;
    }
    proof {
        lemma_occurrences_exact(host@, magic(), lo, hi);
        let occ = occurrences(host@, magic(), lo, hi);
        assert forall|j: int| 0 <= j < hi implies !is_hit(host@, id@, j) by {
            if j >= lo && occurs_at(host@, magic(), j) {
                assert(occ.contains(j));
                let i = choose|i: int| 0 <= i < occ.len() && occ[i] == j;
                assert(found@[i] as int == occ[i]);
            }
        }
    }
    None
}

/// Finds the first record with the id `id`: the offset of its signature
/// and its header. The host is read in chunks of `BUFFER_SIZE` bytes; a
/// signature that lies across two chunks is found like any other.
pub fn find_record(host: &[u8], id: &str) -> (r: Option<(u64, ResourceHead)>)
    ensures
        r is None <==> forall|j: int| !is_hit(host@, id@, j),
        r is Some ==> first_hit(host@, id@, r.unwrap().0 as int) && r.unwrap().1@ == header_at(
            host@,
            r.unwrap().0 as int,
        ).unwrap(),
{
    let total: usize = host.len();
    let signature = magic_bytes();
    let mut scanner = Scanner::new(signature.as_slice());
    let mut at: usize = 0;
    while at < total
        invariant
            total == host@.len(),
            at <= total,
            scanner.wf(),
            scanner.pattern() == magic(),
            scanner.stream() == host@.subrange(0, at as int),
            forall|j: int| 0 <= j < at - MAGIC_LENGTH + 1 ==> !is_hit(host@, id@, j),
        decreases total - at,
    {
        let end: usize = if total - at < BUFFER_SIZE {
            total
        } else {
            at + BUFFER_SIZE
        };
        let chunk = slice_subrange(host, at, end);
        assert(host@.subrange(0, at as int) + chunk@ =~= host@.subrange(0, end as int));
        let found = scanner.feed(chunk);
        let ghost lo = if at - MAGIC_LENGTH + 1 > 0 {
            at - MAGIC_LENGTH + 1
        } else {
            0
        };
        let ghost hi = end - MAGIC_LENGTH + 1;
        proof {
            lemma_occurrences_in_prefix(host@, end as int, magic(), lo, hi);
        }
        match first_hit_among(host, id, &found, Ghost(lo), Ghost(hi)) {
            Some(hit) => {
                return Some(hit);
            },
            None => {},
        }
        at = end;
    }
    assert forall|j: int| !is_hit(host@, id@, j) by {
        if occurs_at(host@, magic(), j) {
            assert(0 <= j < total - MAGIC_LENGTH + 1);
        }
    }
    None
}

/// A record as it was found in a host: its header and its payload as stored.
#[derive(Debug)]
pub struct StoredResource {
    pub head: ResourceHead,
    pub payload: Vec<u8>,
}

/// The offset of the payload of the record whose signature stands at `at`.
pub open spec fn payload_start(at: int) -> int {
    at - LENGTH_PREFIX + HEAD_LENGTH
}

/// Whether the end marker stands where the header of the record at `at`
/// says that the payload ends.
pub open spec fn sealed(host: Seq<u8>, at: int) -> bool {
    match parse_u64(header_at(host, at).unwrap().length) {
        Some(length) => occurs_at(host, trailer(), payload_start(at) + length),
        None => false,
    }
}

/// The bytes of `data` before the first occurrence of `marker`, if it
/// occurs.
pub open spec fn until_marker(data: Seq<u8>, marker: Seq<u8>) -> Option<Seq<u8>> {
    if exists|k: int| first_occurrence(data, marker, k) {
        Some(data.subrange(0, choose|k: int| first_occurrence(data, marker, k)))
    } else {
        None
    }
}

/// The payload of the record at `at` as stored: the bytes from the end of
/// its header to the first end marker.
pub open spec fn stored_payload(host: Seq<u8>, at: int) -> Seq<u8> {
    until_marker(host.subrange(payload_start(at), host.len() as int), trailer()).unwrap()
}

/// What a search for a record comes to.
pub enum Lookup {
    /// No record has the id.
    NotFound,
    /// The version of the record is no dotted number.
    Malformed,
    /// The record has a lower version than this library's; the version.
    Older(Seq<char>),
    /// The record has a higher version than this library's; the version.
    Newer(Seq<char>),
    /// The end marker is not where the header says.
    Incomplete,
    /// The header and the payload as stored.
    Found(HeadFields, Seq<u8>),
}

/// What reading the record at the signature at `at` comes to: the version
/// is checked first, then the place of the end marker.
pub open spec fn outcome_at(host: Seq<u8>, at: int) -> Lookup {
    let head = header_at(host, at).unwrap();
    if !is_version(head.version) {
        Lookup::Malformed
    } else if version_sign(head.version, current_version()) < 0 {
        Lookup::Older(head.version)
    } else if version_sign(head.version, current_version()) > 0 {
        Lookup::Newer(head.version)
    } else if !sealed(host, at) {
        Lookup::Incomplete
    } else {
        Lookup::Found(head, stored_payload(host, at))
    }
}

/// What the search for the record with the id `id` comes to: the first
/// record with that id decides, whatever follows it.
pub open spec fn lookup(host: Seq<u8>, id: Seq<char>) -> Lookup {
    if exists|at: int| first_hit(host, id, at) {
        outcome_at(host, choose|at: int| first_hit(host, id, at))
    } else {
        Lookup::NotFound
    }
}

/// Whether `r` is the result that stands for `outcome`.
pub open spec fn reports(r: Result<StoredResource, ResourceError>, outcome: Lookup) -> bool {
    match outcome {
        Lookup::NotFound => r is Err && r.unwrap_err() == ResourceError::ResourceNotFound,
        Lookup::Malformed => r is Err && r.unwrap_err() == ResourceError::MalformedVersion,
        Lookup::Older(version) => r matches Err(ResourceError::VersionOlder { stored })
            && stored@ == version,
        Lookup::Newer(version) => r matches Err(ResourceError::VersionNewer { stored })
            && stored@ == version,
        Lookup::Incomplete => r is Err && r.unwrap_err() == ResourceError::IncompleteResource,
        Lookup::Found(head, payload) => r matches Ok(found) && found.head@ == head
            && found.payload@ == payload,
    }
}

/// This library's own version is a dotted number: 1, 0, 0.
pub proof fn lemma_current_version()
    ensures
        is_version(current_version()),
        version_numbers(current_version()) == seq![1i32, 0i32, 0i32],
{
    reveal_strlit("1.0.0");
    let v = current_version();
    let s0 = Seq::<char>::empty();
    let s1 = seq!['1'];
    let s2 = seq!['1', '.'];
    let s3 = seq!['1', '.', '0'];
    let s4 = seq!['1', '.', '0', '.'];
    let s5 = seq!['1', '.', '0', '.', '0'];
    assert(v =~= s5);
    assert(s1.drop_last() =~= s0);
    assert(s2.drop_last() =~= s1);
    assert(s3.drop_last() =~= s2);
    assert(s4.drop_last() =~= s3);
    assert(s5.drop_last() =~= s4);
    let one = seq!['1'];
    let zero = seq!['0'];
    assert(split_dots(s0) =~~= seq![s0]);
    assert(split_dots(s1) =~~= seq![one]);
    assert(split_dots(s2) =~~= seq![one, s0]);
    assert(split_dots(s3) =~~= seq![one, zero]);
    assert(split_dots(s4) =~~= seq![one, zero, s0]);
    assert(split_dots(s5) =~~= seq![one, zero, zero]);
    assert(one.drop_last() =~= s0);
    assert(zero.drop_last() =~= s0);
    assert(one[0] == '1' && zero[0] == '0');
    assert(all_digits(one) && all_digits(zero));
    assert(digits_value(s0) == 0);
    assert(digits_value(one) == 1);
    assert(digits_value(zero) == 0);
    assert(unsigned_body(one) == one && unsigned_body(zero) == zero);
    assert(parse_signed(one) == Some(1int));
    assert(parse_signed(zero) == Some(0int));
    assert(parse_i32(one) == Some(1i32));
    assert(parse_i32(zero) == Some(0i32));
    assert(version_numbers(v) =~= seq![1i32, 0i32, 0i32]);
}

/// The first occurrence of a marker is the only first one.
pub proof fn lemma_until_marker(data: Seq<u8>, marker: Seq<u8>, k: int)
    requires
        first_occurrence(data, marker, k),
    ensures
        until_marker(data, marker) == Some(data.subrange(0, k)),
{
    let c = choose|c: int| first_occurrence(data, marker, c);
    assert(c == k) by {
        if c < k {
            assert(!occurs_at(data, marker, c));
        }
        if k < c {
            assert(!occurs_at(data, marker, k));
        }
    }
}

/// The first record with an id is the only first one.
pub proof fn lemma_lookup(host: Seq<u8>, id: Seq<char>, at: int)
    requires
        first_hit(host, id, at),
    ensures
        lookup(host, id) == outcome_at(host, at),
{
    let c = choose|c: int| first_hit(host, id, c);
    assert(c == at) by {
        if c < at {
            assert(!is_hit(host, id, c));
        }
        if at < c {
            assert(!is_hit(host, id, at));
        }
    }
}

/// Checks the version of a record against this library's: only the same
/// version is read.
pub fn check_version(head: &ResourceHead) -> (r: Result<(), ResourceError>)
    ensures
        !is_version(head@.version) ==> r is Err && r.unwrap_err()
            == ResourceError::MalformedVersion,
        is_version(head@.version) && version_sign(head@.version, current_version()) < 0 ==> (r matches Err(
            ResourceError::VersionOlder { stored },
        ) && stored@ == head@.version),
        is_version(head@.version) && version_sign(head@.version, current_version()) > 0 ==> (r matches Err(
            ResourceError::VersionNewer { stored },
        ) && stored@ == head@.version),
        is_version(head@.version) && version_sign(head@.version, current_version()) == 0 ==> r is Ok,
{
    proof {
        lemma_current_version();
    }
    match compareVersion(head.getVersion(), currentVersion()) {
        Err(e) => Err(e),
        Ok(Ordering::Less) => Err(
            ResourceError::VersionOlder { stored: String::from_str(head.getVersion()) },
        ),
        Ok(Ordering::Greater) => Err(
            ResourceError::VersionNewer { stored: String::from_str(head.getVersion()) },
        ),
        Ok(Ordering::Equal) => Ok(()),
    }
}

/// Whether the end marker stands where the header of the record at `at`
/// says that the payload ends.
pub fn is_sealed(host: &[u8], at: u64, head: &ResourceHead) -> (r: bool)
    requires
        header_at(host@, at as int) == Some(head@),
    ensures
        r == sealed(host@, at as int),
{
    let total: usize = host.len();
    let marker = trailer_bytes();
    let start: usize = at as usize - LENGTH_PREFIX + HEAD_LENGTH;
    let room: u64 = (total - start) as u64;
    match read_u64(head.getLength()) {
        Some(length) => {
            if length > room || room - length < TRAILER_LENGTH as u64 {
                return false;
            }
            matches_at(host, marker.as_slice(), start + length as usize)
        },
        None => false,
    }
}

/// Reads the payload that starts at `start`: the bytes up to the first end
/// marker. The host is read in chunks of `BUFFER_SIZE` bytes; an end marker
/// that lies across two chunks ends the payload like any other.
pub fn read_payload(host: &[u8], start: usize) -> (r: Option<Vec<u8>>)
    requires
        start <= host@.len(),
    ensures
        r is Some <==> until_marker(host@.subrange(start as int, host@.len() as int), trailer())
            is Some,
        r is Some ==> r.unwrap()@ == until_marker(
            host@.subrange(start as int, host@.len() as int),
            trailer(),
        ).unwrap(),
{
    let total: usize = host.len();
    let marker = trailer_bytes();
    let ghost data = host@.subrange(start as int, total as int);
    let mut scanner = Scanner::new(marker.as_slice());
    let mut at: usize = start;
    while at < total
        invariant
            total == host@.len(),
            start <= at <= total,
            data == host@.subrange(start as int, total as int),
            scanner.wf(),
            scanner.pattern() == trailer(),
            scanner.stream() == data.subrange(0, at - start),
            forall|j: int| 0 <= j < at - start - TRAILER_LENGTH + 1 ==> !occurs_at(data, trailer(), j),
        decreases total - at,
    {
        let end: usize = if total - at < BUFFER_SIZE {
            total
        } else {
            at + BUFFER_SIZE
        };
        let chunk = slice_subrange(host, at, end);
        assert(data.subrange(0, at - start) + chunk@ =~= data.subrange(0, end - start));
        let found = scanner.feed(chunk);
        let ghost lo = if at - start - TRAILER_LENGTH + 1 > 0 {
            at - start - TRAILER_LENGTH + 1
        } else {
            0
        };
        let ghost hi = end - start - TRAILER_LENGTH + 1;
        proof {
            lemma_occurrences_in_prefix(data, end - start, trailer(), lo, hi);
            lemma_occurrences_exact(data, trailer(), lo, hi);
        }
        if found.len() > 0 {
            let k: u64 = found[0];
            proof {
                let occ = occurrences(data, trailer(), lo, hi);
                assert(occ[0] == k);
                assert forall|j: int| 0 <= j < k implies !occurs_at(data, trailer(), j) by {
                    if j >= lo && occurs_at(data, trailer(), j) {
                        assert(occ.contains(j));
                        let i = choose|i: int| 0 <= i < occ.len() && occ[i] == j;
                        if i > 0 {
                            assert(occ[0] < occ[i]);
                        }
                    }
                }
                lemma_until_marker(data, trailer(), k as int);
                assert(host@.subrange(start as int, start + k) =~= data.subrange(0, k as int));
            }
            return Some(slice_to_vec(slice_subrange(host, start, start + k as usize)));
        }
        proof {
            let occ = occurrences(data, trailer(), lo, hi);
            assert forall|j: int| 0 <= j < hi implies !occurs_at(data, trailer(), j) by {
                if j >= lo && occurs_at(data, trailer(), j) {
                    assert(occ.contains(j));
                }
            }
        }
        at = end;
    }
    proof {
        if exists|k: int| first_occurrence(data, trailer(), k) {
            let k = choose|k: int| first_occurrence(data, trailer(), k);
            assert(occurs_at(data, trailer(), k));
            assert(0 <= k < total - start - TRAILER_LENGTH + 1);
        }
    }
    None
}

/// Reads the record whose signature stands at `at` and whose header is
/// `head`: the version is checked against this library's, then the place
/// of the end marker, and the payload is read up to the first end marker.
pub fn read_record(host: &[u8], at: u64, head: ResourceHead) -> (r: Result<
    StoredResource,
    ResourceError,
>)
    requires
        header_at(host@, at as int) == Some(head@),
    ensures
        reports(r, outcome_at(host@, at as int)),
{
    match check_version(&head) {
        Err(e) => {
            return Err(e);
        },
        Ok(()) => {},
    }
    if !is_sealed(host, at, &head) {
        return Err(ResourceError::IncompleteResource);
    }
    let total: usize = host.len();
    let start: usize = at as usize - LENGTH_PREFIX + HEAD_LENGTH;
    proof {
        let data = host@.subrange(start as int, host@.len() as int);
        let length = parse_u64(head@.length).unwrap() as int;
        assert(data.subrange(length, length + TRAILER_LENGTH) =~= host@.subrange(
            start + length,
            start + length + TRAILER_LENGTH,
        ));
        assert(occurs_at(data, trailer(), length));
        lemma_first_exists(data, trailer(), length);
    }
    match read_payload(host, start) {
        Some(payload) => Ok(StoredResource { head, payload }),
        None => Err(ResourceError::IncompleteResource),
    }
}

/// Finds the first record with the id `id` and reads it. A signature
/// around which the bytes are no header is passed over; the first record
/// with the id decides, whatever follows it.
pub fn extract_record(host: &[u8], id: &str) -> (r: Result<StoredResource, ResourceError>)
    ensures
        reports(r, lookup(host@, id@)),
{
    match find_record(host, id) {
        Some((at, head)) => {
            proof {
                lemma_lookup(host@, id@, at as int);
            }
            read_record(host, at, head)
        },
        None => {
            assert(!exists|at: int| first_hit(host@, id@, at));
            Err(ResourceError::ResourceNotFound)
        },
    }
}

/// Where a marker occurs it has a first occurrence.
pub proof fn lemma_first_exists(data: Seq<u8>, marker: Seq<u8>, at: int)
    requires
        occurs_at(data, marker, at),
    ensures
        exists|k: int| first_occurrence(data, marker, k) && k <= at,
    decreases at,
{
    if forall|j: int| 0 <= j < at ==> !occurs_at(data, marker, j) {
        assert(first_occurrence(data, marker, at));
    } else {
        let j = choose|j: int| 0 <= j < at && occurs_at(data, marker, j);
        lemma_first_exists(data, marker, j);
    }
}

/// A payload as it leaves the store: the file name it was stored with and
/// its bytes.
#[derive(Debug)]
pub struct ExportedResource {
    pub name: String,
    pub data: Vec<u8>,
}

/// What an export comes to.
pub enum Export {
    /// No record has the id.
    NotFound,
    /// The version of the record is no dotted number.
    Malformed,
    /// The record has a lower version than this library's; the version.
    Older(Seq<char>),
    /// The record has a higher version than this library's; the version.
    Newer(Seq<char>),
    /// The end marker or the size is not what the header says.
    Incomplete,
    /// The stored bytes are no compressed stream.
    Damaged,
    /// The name of the payload and its bytes.
    Done(Seq<char>, Seq<u8>),
}

/// The payload that the stored bytes stand for.
pub open spec fn unpacked(mode: CompressMode, stored: Seq<u8>) -> Option<Seq<u8>> {
    match mode {
        CompressMode::Plain => Some(stored),
        CompressMode::Compress => gz_decoded(stored),
    }
}

/// Whether `data` has the size that the header declares.
pub open spec fn size_holds(head: HeadFields, data: Seq<u8>) -> bool {
    parse_u64(trim(head.size)) is Some && parse_u64(trim(head.size)).unwrap() == data.len()
}

/// What becomes of a record that was found: its payload is unpacked and
/// measured against the declared size.
pub open spec fn finish(head: HeadFields, stored: Seq<u8>) -> Export {
    match unpacked(head.mode, stored) {
        None => Export::Damaged,
        Some(data) => if size_holds(head, data) {
            Export::Done(trim(head.name), data)
        } else {
            Export::Incomplete
        },
    }
}

/// What the export of the record with the id `id` comes to.
pub open spec fn export_outcome(host: Seq<u8>, id: Seq<char>) -> Export {
    match lookup(host, id) {
        Lookup::NotFound => Export::NotFound,
        Lookup::Malformed => Export::Malformed,
        Lookup::Older(version) => Export::Older(version),
        Lookup::Newer(version) => Export::Newer(version),
        Lookup::Incomplete => Export::Incomplete,
        Lookup::Found(head, stored) => finish(head, stored),
    }
}

/// Whether `r` is the result that stands for `outcome`.
pub open spec fn delivers(r: Result<ExportedResource, ResourceError>, outcome: Export) -> bool {
    match outcome {
        Export::NotFound => r is Err && r.unwrap_err() == ResourceError::ResourceNotFound,
        Export::Malformed => r is Err && r.unwrap_err() == ResourceError::MalformedVersion,
        Export::Older(version) => r matches Err(ResourceError::VersionOlder { stored })
            && stored@ == version,
        Export::Newer(version) => r matches Err(ResourceError::VersionNewer { stored })
            && stored@ == version,
        Export::Incomplete => r is Err && r.unwrap_err() == ResourceError::IncompleteResource,
        Export::Damaged => r is Err && r.unwrap_err() == ResourceError::Compression,
        Export::Done(name, data) => r matches Ok(out) && out.name@ == name && out.data@ == data,
    }
}

/// Whether a header declares the size `length`.
pub open spec fn declares(head: HeadFields, length: int) -> bool {
    parse_u64(trim(head.size)) is Some && parse_u64(trim(head.size)).unwrap() == length
}

/// Measures the length of an unpacked payload against the size that its
/// header declares; returns the name that the header gives the payload.
pub fn check_length(head: &ResourceHead, length: u64) -> (r: Result<String, ResourceError>)
    ensures
        declares(head@, length as int) ==> r is Ok && r.unwrap()@ == trim(head@.name),
        !declares(head@, length as int) ==> r is Err && r.unwrap_err()
            == ResourceError::IncompleteResource,
{
    match read_u64(trimmed(head.getSize())) {
        Some(size) => {
            if size != length {
                return Err(ResourceError::IncompleteResource);
            }
            Ok(String::from_str(trimmed(head.getName())))
        },
        None => Err(ResourceError::IncompleteResource),
    }
}

/// Measures an unpacked payload against the size that its header declares
/// and names it as the header does.
pub fn check_size(head: &ResourceHead, data: Vec<u8>) -> (r: Result<
    ExportedResource,
    ResourceError,
>)
    ensures
        size_holds(head@, data@) ==> (r matches Ok(out) && out.name@ == trim(head@.name)
            && out.data@ == data@),
        !size_holds(head@, data@) ==> r is Err && r.unwrap_err()
            == ResourceError::IncompleteResource,
{
    match check_length(head, data.len() as u64) {
        Ok(name) => Ok(ExportedResource { name, data }),
        Err(e) => Err(e),
    }
}

/// Extracts the payload stored under `id`: the first record with that id
/// is read, its version and its end marker are checked, its payload is
/// unpacked where it was stored compressed, and the result is measured
/// against the declared size.
pub fn exportResource(host: &[u8], id: &str) -> (r: Result<ExportedResource, ResourceError>)
    ensures
        delivers(r, export_outcome(host@, id@)),
{
    let found = match extract_record(host, id) {
        Ok(found) => found,
        Err(e) => {
            return Err(e);
        },
    };
    let StoredResource { head, payload } = found;
    let data = match head.getCompress() {
        CompressMode::Plain => payload,
        CompressMode::Compress => match decompressFile(payload.as_slice()) {
            Ok(plain) => plain,
            Err(e) => {
                return Err(e);
            },
        },
    };
    check_size(&head, data)
}

/// The headers of the records whose signatures stand at the offsets in
/// `lo..hi`, in the order of the offsets.
pub open spec fn listing(host: Seq<u8>, lo: int, hi: int) -> Seq<HeadFields>
    decreases hi - lo,
{
    if hi <= lo {
        Seq::empty()
    } else if is_record_at(host, hi - 1) {
        listing(host, lo, hi - 1).push(header_at(host, hi - 1).unwrap())
    } else {
        listing(host, lo, hi - 1)
    }
}

/// The headers of all records in a host, in the order in which they stand.
pub open spec fn all_records(host: Seq<u8>) -> Seq<HeadFields> {
    listing(host, 0, host.len() as int)
}

/// The headers as values.
pub open spec fn heads(list: Seq<ResourceHead>) -> Seq<HeadFields> {
    list.map_values(|h: ResourceHead| h@)
}

/// A range without records adds nothing to the list.
pub proof fn lemma_listing_gap(host: Seq<u8>, lo: int, mid: int, hi: int)
    requires
        lo <= mid <= hi,
        forall|j: int| mid <= j < hi ==> !#[trigger] is_record_at(host, j),
    ensures
        listing(host, lo, hi) == listing(host, lo, mid),
    decreases hi - mid,
{
    if mid < hi {
        lemma_listing_gap(host, lo, mid, hi - 1);
    }
}

/// Adds to `out` the headers of the records at the signatures `found`.
fn records_among(
    host: &[u8],
    found: &Vec<u64>,
    out: &mut Vec<ResourceHead>,
    Ghost(lo): Ghost<int>,
    Ghost(hi): Ghost<int>,
)
    requires
        0 <= lo,
        offsets(found@) == occurrences(host@, magic(), lo, hi),
        heads(old(out)@) == listing(host@, 0, lo),
    ensures
        heads(final(out)@) == listing(host@, 0, if hi > lo { hi } else { lo }),
{
    let n: usize = found.len();
    let mut k: usize = 0;
    let ghost mut done: int = lo;
    let ghost occ = occurrences(host@, magic(), lo, hi);
    proof {
        lemma_occurrences_exact(host@, magic(), lo, hi);
        assert(offsets(found@).len() == found@.len());
        if n > 0 {
            assert(lo <= occ[0] < hi);
        }
    }
    while k < n
        invariant
            n == found@.len(),
            k <= n,
            0 <= lo <= done,
            n > 0 ==> done <= hi,
            k == 0 ==> done == lo,
            occ == occurrences(host@, magic(), lo, hi),
            offsets(found@) == occ,
            heads(out@) == listing(host@, 0, done),
            forall|i: int| 0 <= i < k ==> occ[i] < done,
            forall|i: int| k <= i < n ==> occ[i] >= done,
        decreases n - k,
    {
        let at: u64 = found[k];
        proof {
            lemma_occurrences_exact(host@, magic(), lo, hi);
            assert(occ[k as int] == at);
            assert forall|j: int| done <= j < at implies !occurs_at(host@, magic(), j) by {
                if occurs_at(host@, magic(), j) {
                    assert(occ.contains(j));
                    let i = choose|i: int| 0 <= i < occ.len() && occ[i] == j;
                    if i >= k {
                        assert(occ[k as int] <= occ[i]);
                    }
                }
            }
            lemma_listing_gap(host@, 0, done, at as int);
        }
        let ghost before = out@;
        match read_header_at(host, at) {
            Some(head) => {
                out.push(head);
                proof {
                    assert(heads(out@) =~= heads(before).push(head@));
                }
            },
            None => {},
        }
        proof {
            done = at + 1;
            assert forall|i: int| k + 1 <= i < n implies occ[i] >= done by {
                assert(occ[k as int] < occ[i]);
            }
        }
        k += 1;
    }
    proof {
        lemma_occurrences_exact(host@, magic(), lo, hi);
        if hi > done {
            assert forall|j: int| done <= j < hi implies !occurs_at(host@, magic(), j) by {
                if occurs_at(host@, magic(), j) {
                    assert(occ.contains(j));
                }
            }
            lemma_listing_gap(host@, 0, done, hi);
        } else if n == 0 {
            assert(done == lo);
        }
    }
}

/// The headers of all records in the host, in the order in which they
/// stand. The host is read in chunks of `BUFFER_SIZE` bytes; a signature
/// around which the bytes are no header is passed over.
pub fn _findResourcesConfig(host: &[u8]) -> (r: Vec<ResourceHead>)
    ensures
        heads(r@) == all_records(host@),
{
    let total: usize = host.len();
    let signature = magic_bytes();
    let mut scanner = Scanner::new(signature.as_slice());
    let mut out: Vec<ResourceHead> = Vec::new();
    let mut at: usize = 0;
    assert(heads(out@) =~= listing(host@, 0, 0));
    while at < total
        invariant
            total == host@.len(),
            at <= total,
            scanner.wf(),
            scanner.pattern() == magic(),
            scanner.stream() == host@.subrange(0, at as int),
            heads(out@) == listing(
                host@,
                0,
                if at - MAGIC_LENGTH + 1 > 0 {
                    at - MAGIC_LENGTH + 1
                } else {
                    0
                },
            ),
        decreases total - at,
    {
        let end: usize = if total - at < BUFFER_SIZE {
            total
        } else {
            at + BUFFER_SIZE
        };
        let chunk = slice_subrange(host, at, end);
        assert(host@.subrange(0, at as int) + chunk@ =~= host@.subrange(0, end as int));
        let found = scanner.feed(chunk);
        let ghost lo = if at - MAGIC_LENGTH + 1 > 0 {
            at - MAGIC_LENGTH + 1
        } else {
            0
        };
        let ghost hi = end - MAGIC_LENGTH + 1;
        proof {
            lemma_occurrences_in_prefix(host@, end as int, magic(), lo, hi);
        }
        records_among(host, &found, &mut out, Ghost(lo), Ghost(hi));
        at = end;
    }
    proof {
        let from = if total - MAGIC_LENGTH + 1 > 0 {
            total - MAGIC_LENGTH + 1
        } else {
            0
        };
        lemma_listing_gap(host@, 0, from, total as int);
    }
    out
}

/// What appending a record does: where the values fit the header, the
/// record stands at the end of the host; where they do not, the host is as
/// it was.
pub open spec fn appended(
    before: Seq<u8>,
    after: Seq<u8>,
    r: Result<(), ResourceError>,
    id: Seq<char>,
    name: Seq<char>,
    mode: CompressMode,
    payload: Seq<u8>,
) -> bool {
    if payload.len() <= u64::MAX && fits(id, payload.len() as u64, payload.len() as u64, name) {
        r is Ok && after == before + record(
            head_fields(id, payload.len() as u64, payload.len() as u64, name, mode),
            payload,
        )
    } else {
        r is Err && r.unwrap_err() == ResourceError::HeaderOverflow && after == before
    }
}

/// The encoding of the header of a record with a payload of `length`
/// bytes as stored, where the id, the name and the length fit the header.
pub fn record_header(id: &str, name: &str, length: u64, mode: CompressMode) -> (r: Result<
    Vec<u8>,
    ResourceError,
>)
    ensures
        fits(id@, length, length, name@) ==> r is Ok && r.unwrap()@ == wire(
            head_fields(id@, length, length, name@, mode),
        ),
        !fits(id@, length, length, name@) ==> r is Err && r.unwrap_err()
            == ResourceError::HeaderOverflow,
{
    if id.as_bytes().len() > MAX_ID_LENGTH || name.as_bytes().len() > MAX_NAME_LENGTH {
        return Err(ResourceError::HeaderOverflow);
    }
    let head = ResourceHead::new(id, length, length, name, mode);
    let bytes = match head.to_bytes() {
        Ok(bytes) => bytes,
        Err(e) => {
            return Err(e);
        },
    };
    if bytes.len() != HEAD_LENGTH {
        return Err(ResourceError::HeaderOverflow);
    }
    Ok(bytes)
}

/// Appends a record to the host: the header, the payload, the end marker.
/// Nothing is written where the id, the name or the length of the payload
/// does not fit the header.
pub fn append_record(
    target: &mut Vec<u8>,
    payload: &[u8],
    id: &str,
    name: &str,
    mode: CompressMode,
) -> (r: Result<(), ResourceError>)
    ensures
        appended(old(target)@, final(target)@, r, id@, name@, mode, payload@),
{
    let mut bytes = match record_header(id, name, payload.len() as u64, mode) {
        Ok(bytes) => bytes,
        Err(e) => {
            return Err(e);
        },
    };
    let marker = trailer_bytes();
    let ghost before = target@;
    let ghost head = bytes@;
    target.append(&mut bytes);
    target.extend_from_slice(payload);
    target.extend_from_slice(marker.as_slice());
    assert(target@ =~= before + (head + payload@ + trailer()));
    Ok(())
}

/// Stores `source` in the host under `id`, with its file name: as it is,
/// or compressed at the given level.
pub fn addResource(
    target: &mut Vec<u8>,
    source: &[u8],
    sourceName: &str,
    id: &str,
    compressionGrade: Option<u32>,
) -> (r: Result<(), ResourceError>)
    requires
        compressionGrade is Some ==> compressionGrade.unwrap() <= 9,
    ensures
        compressionGrade is None ==> appended(
            old(target)@,
            final(target)@,
            r,
            id@,
            sourceName@,
            CompressMode::Plain,
            source@,
        ),
        compressionGrade is Some ==> match gz_encoded(source@, compressionGrade.unwrap()) {
            Some(packed) => appended(
                old(target)@,
                final(target)@,
                r,
                id@,
                sourceName@,
                CompressMode::Compress,
                packed,
            ),
            None => r is Err && r.unwrap_err() == ResourceError::Compression && final(target)@
                == old(target)@,
        },
{
    match compressionGrade {
        Some(grade) => {
            let packed = match compressionFile(source, grade) {
                Ok(packed) => packed,
                Err(e) => {
                    return Err(e);
                },
            };
            append_record(target, packed.as_slice(), id, sourceName, CompressMode::Compress)
        },
        None => append_record(target, source, id, sourceName, CompressMode::Plain),
    }
}

} // verus!
