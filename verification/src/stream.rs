//! The store on a host that is read piece by piece. The caller holds the
//! file: it asks a machine what to read, reads it, and hands the bytes to
//! the machine's next step, which says what was found.
use crate::head::{magic, magic_bytes, HeadFields, ResourceHead, BUFFER_SIZE, HEAD_LENGTH};
use crate::search::{
    fresh_occurrences, lemma_occurrences_exact, lemma_occurrences_in_prefix, matches_at,
    occurrences, occurs_at, offsets, Scanner,
};
use crate::error::{current_version, ResourceError};
use crate::store::{
    all_records, check_version, first_hit, header_at, is_hit, is_record_at, lemma_listing_gap,
    lemma_lookup, lemma_until_marker, listing, lookup, outcome_at, payload_start, same_text,
    sealed, stored_payload, trailer, trailer_bytes, until_marker, Lookup, MAGIC_LENGTH,
    TRAILER_LENGTH,
};
use crate::text::{parse_u64, read_u64, trim, trimmed};
use crate::version::{is_version, version_sign};
use vstd::slice::{slice_subrange, slice_to_vec};
use vstd::string::*;
use crate::wire::LENGTH_PREFIX;
use vstd::prelude::*;

verus! {

/// A read that a machine asks for: up to `len` bytes of the host from the
/// offset `at`. Fewer bytes are read only where the host ends before them.
pub struct ReadRequest {
    pub at: u64,
    pub len: usize,
}

/// The bytes that answer a read of `len` bytes at `at` on `host`.
pub open spec fn answer(host: Seq<u8>, at: int, len: int) -> Seq<u8> {
    host.subrange(
        if at < host.len() {
            at
        } else {
            host.len() as int
        },
        if at + len < host.len() {
            at + len
        } else {
            host.len() as int
        },
    )
}

/// The offset up to which a host of which `pos` bytes were scanned has been
/// searched for signatures.
pub open spec fn searched(pos: int) -> int {
    if pos - MAGIC_LENGTH + 1 > 0 {
        pos - MAGIC_LENGTH + 1
    } else {
        0
    }
}

/// How a step moves the walk on, whatever the host: with a signature
/// pending, the bytes behind it are taken and one fewer is pending; else
/// the reply is a chunk, which is searched, or it is empty and the walk
/// ends.
pub open spec fn advanced(before: RecordWalk, after: RecordWalk, reply: Seq<u8>) -> bool {
    &&& after.chunk() == before.chunk()
    &&& if before.pending() > 0 {
        &&& after.pending() == before.pending() - 1
        &&& after.position() == before.position()
        &&& !after.ended()
    } else if reply.len() == 0 || before.position() + reply.len() > u64::MAX {
        &&& after.ended()
        &&& after.position() == before.position()
    } else {
        &&& after.position() == before.position() + reply.len()
        &&& !after.ended()
    }
}

/// What a step of the walk over a host's records comes to.
pub enum WalkStep {
    /// Nothing yet: the next read is to be made.
    More,
    /// A record: the offset of its signature and its header.
    Found { at: u64, head: ResourceHead },
    /// The host holds no further record.
    End,
}

/// The walk over the records of a host, in the order in which they stand.
/// It reads the host in chunks and, behind every signature that it finds,
/// the bytes of a header. It goes forward only.
pub struct RecordWalk {
    scanner: Scanner,
    chunk: usize,
    pos: u64,
    queue: Vec<u64>,
    next: usize,
    ended: bool,
    lo: Ghost<int>,
    yielded: Ghost<Seq<HeadFields>>,
}

impl RecordWalk {
    /// What holds of the walk whatever the host is.
    pub closed spec fn wf(&self) -> bool {
        &&& self.scanner.wf()
        &&& self.scanner.pattern() == magic()
        &&& self.scanner.stream().len() == self.pos
        &&& self.chunk > 0
        &&& self.next <= self.queue@.len()
    }

    /// Whether the walk has reached the end of the host.
    pub closed spec fn ended(&self) -> bool {
        self.ended
    }

    /// The number of bytes that the walk reads of the host at a time.
    pub closed spec fn chunk(&self) -> int {
        self.chunk as int
    }

    /// The number of bytes of the host that were searched for signatures.
    pub closed spec fn position(&self) -> int {
        self.pos as int
    }

    /// The number of signatures found in those bytes behind which the
    /// header is still to be read.
    pub closed spec fn pending(&self) -> int {
        self.queue@.len() - self.next
    }

    /// The headers found so far.
    pub closed spec fn yielded(&self) -> Seq<HeadFields> {
        self.yielded@
    }

    /// The offset below which every record of the host has been found.
    pub closed spec fn frontier(&self) -> int {
        if self.ended {
            self.pos as int
        } else if self.next < self.queue@.len() {
            self.queue@[self.next as int] as int
        } else {
            searched(self.pos as int)
        }
    }

    /// The bytes that the read asked for gives on `host`.
    pub closed spec fn wanted(&self, host: Seq<u8>) -> Seq<u8> {
        if self.next < self.queue@.len() {
            if self.queue@[self.next as int] >= LENGTH_PREFIX {
                answer(host, self.queue@[self.next as int] - LENGTH_PREFIX, HEAD_LENGTH as int)
            } else {
                Seq::empty()
            }
        } else {
            answer(host, self.pos as int, self.chunk as int)
        }
    }

    /// What holds of the walk on the host `host`, as long as every read was
    /// answered from it.
    pub closed spec fn inv(&self, host: Seq<u8>) -> bool {
        &&& self.wf()
        &&& host.len() <= u64::MAX
        &&& self.pos <= host.len()
        &&& self.scanner.stream() == host.subrange(0, self.pos as int)
        &&& 0 <= self.lo@ <= searched(self.pos as int)
        &&& offsets(self.queue@) == occurrences(
            host,
            magic(),
            self.lo@,
            searched(self.pos as int),
        )
        &&& self.ended ==> self.pos == host.len()
        &&& self.yielded@ == listing(host, 0, self.frontier())
    }

    /// A walk from the start of a host, which reads `chunk` bytes at a time.
    pub fn with_chunk(chunk: usize) -> (w: RecordWalk)
        requires
            chunk > 0,
        ensures
            w.wf(),
            !w.ended(),
            w.chunk() == chunk,
            w.position() == 0,
            w.pending() == 0,
            w.yielded() == Seq::<HeadFields>::empty(),
            w.frontier() == 0,
            forall|host: Seq<u8>| host.len() <= u64::MAX ==> #[trigger] w.inv(host),
    {
        let signature = magic_bytes();
        let w = RecordWalk {
            scanner: Scanner::new(signature.as_slice()),
            chunk,
            pos: 0,
            queue: Vec::new(),
            next: 0,
            ended: false,
            lo: Ghost(0),
            yielded: Ghost(Seq::empty()),
        };
        proof {
            assert forall|host: Seq<u8>| host.len() <= u64::MAX implies #[trigger] w.inv(host) by {
                assert(host.subrange(0, 0) =~= Seq::<u8>::empty());
                assert(offsets(w.queue@) =~= occurrences(host, magic(), 0, 0));
            }
        }
        w
    }

    /// A walk from the start of a host, which reads `BUFFER_SIZE` bytes at
    /// a time.
    pub fn new() -> (w: RecordWalk)
        ensures
            w.wf(),
            !w.ended(),
            w.chunk() == BUFFER_SIZE,
            w.position() == 0,
            w.pending() == 0,
            w.yielded() == Seq::<HeadFields>::empty(),
            w.frontier() == 0,
            forall|host: Seq<u8>| host.len() <= u64::MAX ==> #[trigger] w.inv(host),
    {
        RecordWalk::with_chunk(BUFFER_SIZE)
    }

    /// The read to make before the next step.
    pub fn request(&self) -> (r: ReadRequest)
        requires
            self.wf(),
        ensures
            self.pending() == 0 ==> r.at == self.position() && r.len == self.chunk(),
            self.pending() > 0 ==> r.len == HEAD_LENGTH || r.len == 0,
            forall|host: Seq<u8>| #[trigger] self.wanted(host) == answer(host, r.at as int, r.len as int),
    {
        if self.next < self.queue.len() {
            let at: u64 = self.queue[self.next];
            if at >= LENGTH_PREFIX as u64 {
                ReadRequest { at: at - LENGTH_PREFIX as u64, len: HEAD_LENGTH }
            } else {
                proof {
                    assert forall|host: Seq<u8>| #[trigger]
                        self.wanted(host) == answer(host, 0, 0) by {
                        assert(answer(host, 0, 0) =~= Seq::<u8>::empty());
                    }
                }
                ReadRequest { at: 0, len: 0 }
            }
        } else {
            ReadRequest { at: self.pos, len: self.chunk }
        }
    }

    /// What the walk knows on a host from which every read was answered:
    /// the headers found are those of the records below the frontier, and
    /// at the end they are all the records of the host.
    pub proof fn lemma_found_so_far(&self, host: Seq<u8>)
        requires
            self.inv(host),
        ensures
            self.yielded() == listing(host, 0, self.frontier()),
            0 <= self.frontier() <= host.len(),
            self.ended() ==> self.yielded() == all_records(host),
    {
        lemma_occurrences_exact(host, magic(), self.lo@, searched(self.pos as int));
        if !self.ended && self.next < self.queue@.len() {
            let occ = occurrences(host, magic(), self.lo@, searched(self.pos as int));
            assert(occ[self.next as int] == self.queue@[self.next as int]);
        }
    }

    /// Takes the bytes of the read that was asked for and says what they
    /// show: a record, nothing yet, or the end of the host. An empty chunk
    /// is the end of the host. Where every read is answered from one host,
    /// the records are found in the order in which they stand, each once,
    /// and none is passed over.
    pub fn step(&mut self, reply: &[u8]) -> (out: WalkStep)
        requires
            old(self).wf(),
            !old(self).ended(),
        ensures
            final(self).wf(),
            out is End <==> final(self).ended(),
            out is Found ==> old(self).pending() > 0,
            advanced(*old(self), *final(self), reply@),
            forall|host: Seq<u8>| #[trigger]
                old(self).inv(host) && reply@ == old(self).wanted(host) ==> {
                    &&& final(self).inv(host)
                    &&& old(self).frontier() <= final(self).frontier()
                    &&& match out {
                        WalkStep::Found { at, head } => {
                            &&& at == old(self).frontier()
                            &&& at < final(self).frontier()
                            &&& is_record_at(host, at as int)
                            &&& head@ == header_at(host, at as int).unwrap()
                            &&& final(self).yielded() == old(self).yielded().push(head@)
                            &&& forall|j: int|
                                at < j < final(self).frontier() ==> !#[trigger] is_record_at(
                                    host,
                                    j,
                                )
                        },
                        _ => {
                            &&& final(self).yielded() == old(self).yielded()
                            &&& forall|j: int|
                                old(self).frontier() <= j < final(self).frontier()
                                    ==> !#[trigger] is_record_at(host, j)
                        },
                    }
                },
    {
        let ghost before = *self;
        if self.next < self.queue.len() {
            let at: u64 = self.queue[self.next];
            let head = if at >= LENGTH_PREFIX as u64 && reply.len() == HEAD_LENGTH {
                match ResourceHead::from(reply) {
                    Ok(head) => Some(head),
                    Err(_) => None,
                }
            } else {
                None
            };
            self.next = self.next + 1;
            match head {
                Some(head) => {
                    proof {
                        self.yielded = Ghost(before.yielded@.push(head@));
                        assert forall|host: Seq<u8>| #[trigger]
                            before.inv(host) && reply@ == before.wanted(host) implies {
                            &&& self.inv(host)
                            &&& at < self.frontier()
                            &&& is_record_at(host, at as int)
                            &&& head@ == header_at(host, at as int).unwrap()
                            &&& forall|j: int|
                                at < j < self.frontier() ==> !#[trigger] is_record_at(host, j)
                        } by {
                            lemma_candidate(before, host, reply@);
                            lemma_past_candidate(before, *self, host);
                        }
                    }
                    WalkStep::Found { at, head }
                },
                None => {
                    proof {
                        assert forall|host: Seq<u8>| #[trigger]
                            before.inv(host) && reply@ == before.wanted(host) implies {
                            &&& self.inv(host)
                            &&& at < self.frontier()
                            &&& forall|j: int|
                                at <= j < self.frontier() ==> !#[trigger] is_record_at(host, j)
                        } by {
                            lemma_candidate(before, host, reply@);
                            lemma_past_candidate(before, *self, host);
                        }
                    }
                    WalkStep::More
                },
            }
        } else if reply.len() == 0 || reply.len() as u64 > u64::MAX - self.pos {
            self.ended = true;
            proof {
                assert forall|host: Seq<u8>| #[trigger]
                    before.inv(host) && reply@ == before.wanted(host) implies {
                    &&& self.inv(host)
                    &&& before.frontier() <= self.frontier()
                    &&& forall|j: int|
                        before.frontier() <= j < self.frontier() ==> !#[trigger] is_record_at(
                            host,
                            j,
                        )
                } by {
                    assert(self.pos == host.len());
                    lemma_listing_gap(host, 0, before.frontier(), host.len() as int);
                }
            }
            WalkStep::End
        } else {
            let found = self.scanner.feed(reply);
            self.pos = self.pos + reply.len() as u64;
            self.queue = found;
            self.next = 0;
            proof {
                self.lo = Ghost(before.frontier());
                assert forall|host: Seq<u8>| #[trigger]
                    before.inv(host) && reply@ == before.wanted(host) implies {
                    &&& self.inv(host)
                    &&& before.frontier() <= self.frontier()
                    &&& forall|j: int|
                        before.frontier() <= j < self.frontier() ==> !#[trigger] is_record_at(
                            host,
                            j,
                        )
                } by {
                    lemma_chunk(before, *self, host, reply@);
                }
            }
            WalkStep::More
        }
    }
}

/// What the bytes read behind a candidate show: with all of a header's
/// bytes, whether they are one; with fewer, that the host ends before a
/// header could.
proof fn lemma_candidate(w: RecordWalk, host: Seq<u8>, reply: Seq<u8>)
    requires
        w.inv(host),
        !w.ended,
        w.next < w.queue@.len(),
        reply == w.wanted(host),
    ensures
        occurs_at(host, magic(), w.queue@[w.next as int] as int),
        w.queue@[w.next as int] >= LENGTH_PREFIX && reply.len() == HEAD_LENGTH ==> header_at(
            host,
            w.queue@[w.next as int] as int,
        ) == crate::head::parse(reply),
        !(w.queue@[w.next as int] >= LENGTH_PREFIX && reply.len() == HEAD_LENGTH) ==> header_at(
            host,
            w.queue@[w.next as int] as int,
        ) is None,
{
    let at = w.queue@[w.next as int] as int;
    let occ = occurrences(host, magic(), w.lo@, searched(w.pos as int));
    lemma_occurrences_exact(host, magic(), w.lo@, searched(w.pos as int));
    assert(occ[w.next as int] == at);
    assert(magic().len() == 16);
}

/// Behind a candidate that was looked at, no record stands before the next
/// candidate, or before the end of what was searched.
proof fn lemma_past_candidate(before: RecordWalk, after: RecordWalk, host: Seq<u8>)
    requires
        before.inv(host),
        !before.ended,
        before.next < before.queue@.len(),
        after.scanner == before.scanner,
        after.chunk == before.chunk,
        after.pos == before.pos,
        after.queue == before.queue,
        after.next == before.next + 1,
        after.ended == before.ended,
        after.lo == before.lo,
        after.yielded@ == if is_record_at(host, before.queue@[before.next as int] as int) {
            before.yielded@.push(header_at(host, before.queue@[before.next as int] as int).unwrap())
        } else {
            before.yielded@
        },
    ensures
        after.inv(host),
        before.queue@[before.next as int] < after.frontier(),
        forall|j: int|
            before.queue@[before.next as int] < j < after.frontier() ==> !#[trigger] is_record_at(
                host,
                j,
            ),
{
    let at = before.queue@[before.next as int] as int;
    let lo = before.lo@;
    let hi = searched(before.pos as int);
    let occ = occurrences(host, magic(), lo, hi);
    lemma_occurrences_exact(host, magic(), lo, hi);
    assert(occ[before.next as int] == at);
    if after.next < after.queue@.len() {
        assert(occ[after.next as int] == after.queue@[after.next as int]);
    }
    assert forall|j: int| at < j < after.frontier() implies !#[trigger] is_record_at(host, j) by {
        if occurs_at(host, magic(), j) {
            assert(occ.contains(j));
            let i = choose|i: int| 0 <= i < occ.len() && occ[i] == j;
            if i <= before.next {
                assert(occ[i] <= occ[before.next as int]);
            } else if after.next < after.queue@.len() {
                assert(occ[after.next as int] <= occ[i]);
            }
        }
    }
    lemma_listing_gap(host, 0, at + 1, after.frontier());
}

/// What a further chunk shows: the signatures that end in it.
proof fn lemma_chunk(before: RecordWalk, after: RecordWalk, host: Seq<u8>, reply: Seq<u8>)
    requires
        before.inv(host),
        !before.ended,
        before.next >= before.queue@.len(),
        reply == before.wanted(host),
        reply.len() > 0,
        after.scanner.wf(),
        after.scanner.pattern() == magic(),
        after.scanner.stream() == before.scanner.stream() + reply,
        offsets(after.queue@) == fresh_occurrences(
            after.scanner.stream(),
            magic(),
            before.pos as int,
        ),
        after.chunk == before.chunk,
        after.pos == before.pos + reply.len(),
        after.next == 0,
        after.ended == before.ended,
        after.lo@ == before.frontier(),
        after.yielded == before.yielded,
    ensures
        after.inv(host),
        before.frontier() <= after.frontier(),
        forall|j: int|
            before.frontier() <= j < after.frontier() ==> !#[trigger] is_record_at(host, j),
{
    let lo = searched(before.pos as int);
    let hi = searched(after.pos as int);
    assert(magic().len() == 16);
    assert(host.subrange(0, before.pos as int) + reply =~= host.subrange(0, after.pos as int));
    if hi > 0 {
        lemma_occurrences_in_prefix(host, after.pos as int, magic(), lo, hi);
    }
    let occ = occurrences(host, magic(), lo, hi);
    lemma_occurrences_exact(host, magic(), lo, hi);
    if after.next < after.queue@.len() {
        assert(occ[0] == after.queue@[0]);
    }
    assert forall|j: int| lo <= j < after.frontier() implies !#[trigger] is_record_at(host, j) by {
        if occurs_at(host, magic(), j) {
            assert(occ.contains(j));
            let i = choose|i: int| 0 <= i < occ.len() && occ[i] == j;
            if i > 0 {
                assert(occ[0] < occ[i]);
            }
        }
    }
    lemma_listing_gap(host, 0, lo, after.frontier());
}

/// What a step of an extraction comes to.
pub enum ExtractStep {
    /// Nothing yet: the next read is to be made.
    More,
    /// Bytes of the payload, to be written behind those written before;
    /// then the next read is to be made.
    Write(Vec<u8>),
    /// The last bytes of the payload as stored, and the header of its
    /// record: the extraction is done.
    Stored { head: ResourceHead, last: Vec<u8> },
    /// The extraction has failed.
    Failed(ResourceError),
}

/// Where an extraction stands.
#[derive(Debug, PartialEq, Eq, Clone, Copy, Structural)]
pub enum Phase {
    /// It looks for the record.
    Seeking,
    /// It has the record and looks for the end marker where the header
    /// says it stands.
    Sealing,
    /// It copies the payload up to the first end marker.
    Copying,
    /// It is done.
    Finished,
}

/// Whether the version of a header is the one that this library reads.
pub open spec fn gate_open(head: HeadFields) -> bool {
    is_version(head.version) && version_sign(head.version, current_version()) == 0
}

/// Whether the error `e` is the one that stands for the outcome of a search.
pub open spec fn fails_as(e: ResourceError, outcome: Lookup) -> bool {
    match outcome {
        Lookup::NotFound => e == ResourceError::ResourceNotFound,
        Lookup::Malformed => e == ResourceError::MalformedVersion,
        Lookup::Older(version) => e matches ResourceError::VersionOlder { stored } && stored@
            == version,
        Lookup::Newer(version) => e matches ResourceError::VersionNewer { stored } && stored@
            == version,
        Lookup::Incomplete => e == ResourceError::IncompleteResource,
        Lookup::Found(_, _) => false,
    }
}

/// What a step of an extraction owes on a host from which the read was
/// answered: the bytes handed out are the next of the payload as stored,
/// the last of them complete it, and a failure is the one that the search
/// on that host comes to.
pub open spec fn step_holds(
    id: Seq<char>,
    before: Seq<u8>,
    after: Seq<u8>,
    out: ExtractStep,
    host: Seq<u8>,
) -> bool {
    match out {
        ExtractStep::More => after == before,
        ExtractStep::Write(bytes) => after == before + bytes@,
        ExtractStep::Stored { head, last } => lookup(host, id) == Lookup::Found(
            head@,
            before + last@,
        ),
        ExtractStep::Failed(e) => fails_as(e, lookup(host, id)),
    }
}

/// How a step moves an extraction on, whatever the host. In the search
/// the walk moves on. At the check of the end marker the reply must be the
/// marker. In the copy the reply is searched, together with the bytes held
/// back, for the end marker: what stands before the first one is handed
/// out and the extraction is done; without one, all is handed out but the
/// last four bytes, which are held back.
pub open spec fn moved(before: Extraction, after: Extraction, reply: Seq<u8>, out: ExtractStep) -> bool {
    match before.phase() {
        Phase::Seeking => {
            &&& advanced(before.walk(), after.walk(), reply)
            &&& out is More || out is Failed
            &&& out is More ==> after.phase() == Phase::Seeking || after.phase() == Phase::Sealing
            &&& after.walk().ended() ==> out == ExtractStep::Failed(
                ResourceError::ResourceNotFound,
            )
        },
        Phase::Sealing => if reply == trailer() {
            &&& out is More
            &&& after.phase() == Phase::Copying
            &&& after.chunk() == before.chunk()
            &&& after.payload_offset() == before.payload_offset()
            &&& after.seen() == Seq::<u8>::empty()
            &&& after.held() == Seq::<u8>::empty()
        } else {
            out == ExtractStep::Failed(ResourceError::IncompleteResource)
        },
        Phase::Copying => if reply.len() == 0 || before.payload_offset() + before.seen().len()
            + reply.len() > u64::MAX {
            out == ExtractStep::Failed(ResourceError::IncompleteResource)
        } else {
            let window = before.held() + reply;
            let found = fresh_occurrences(
                before.seen() + reply,
                trailer(),
                before.seen().len() as int,
            );
            if found.len() > 0 {
                out matches ExtractStep::Stored { head, last } && last@ == window.subrange(
                    0,
                    found[0] - (before.seen().len() - before.held().len()),
                )
            } else {
                &&& out matches ExtractStep::Write(bytes) && bytes@ + after.held() == window
                &&& after.phase() == Phase::Copying
                &&& after.chunk() == before.chunk()
                &&& after.payload_offset() == before.payload_offset()
                &&& after.seen() == before.seen() + reply
                &&& after.held().len() == if window.len() < 4 {
                    window.len()
                } else {
                    4
                }
            }
        },
        Phase::Finished => true,
    }
}

/// The extraction of the payload stored under an id from a host that is
/// read piece by piece: the walk to the first record with the id, the
/// check of its version and of its end marker, and the copy of the payload
/// up to the first end marker, of which the last bytes seen are held back
/// until it is known that no end marker starts in them.
pub struct Extraction {
    walk: RecordWalk,
    id: String,
    chunk: usize,
    phase: Phase,
    head: Option<ResourceHead>,
    at: u64,
    start: u64,
    length: u64,
    marker_scan: Scanner,
    fed: u64,
    held: Vec<u8>,
    written: Ghost<Seq<u8>>,
}

impl Extraction {
    /// What holds of the parts of the extraction in every phase.
    pub closed spec fn parts_wf(&self) -> bool {
        &&& self.walk.wf()
        &&& self.chunk > 0
        &&& self.marker_scan.wf()
        &&& self.marker_scan.pattern() == trailer()
    }

    /// What holds of the extraction whatever the host is.
    pub closed spec fn wf(&self) -> bool {
        &&& self.parts_wf()
        &&& self.phase == Phase::Seeking ==> !self.walk.ended()
        &&& self.phase == Phase::Sealing ==> self.head is Some && self.start + self.length
            <= u64::MAX
        &&& self.phase == Phase::Copying ==> {
            &&& self.head is Some
            &&& self.marker_scan.stream().len() == self.fed
            &&& self.start + self.fed <= u64::MAX
            &&& (self.held@.len() == 4 || self.held@.len() == self.fed)
            &&& self.held@.len() <= 4
            &&& self.held@.len() <= self.fed
        }
    }

    /// Whether the extraction is done.
    pub open spec fn finished(&self) -> bool {
        self.phase() == Phase::Finished
    }

    /// The id that is looked for.
    pub closed spec fn id(&self) -> Seq<char> {
        self.id@
    }

    /// The bytes of the payload that the steps so far have handed out.
    pub closed spec fn written(&self) -> Seq<u8> {
        self.written@
    }

    /// The number of bytes that the extraction reads of the payload at a
    /// time.
    pub closed spec fn chunk(&self) -> int {
        self.chunk as int
    }

    /// The length of the payload that the header of the record declares.
    pub closed spec fn declared(&self) -> int {
        self.length as int
    }

    /// Where the extraction stands.
    pub closed spec fn phase(&self) -> Phase {
        self.phase
    }

    /// The walk that looks for the record.
    pub closed spec fn walk(&self) -> RecordWalk {
        self.walk
    }

    /// The offset of the payload in the host, once the record is found.
    pub closed spec fn payload_offset(&self) -> int {
        self.start as int
    }

    /// The bytes that were read from the start of the payload on.
    pub closed spec fn seen(&self) -> Seq<u8> {
        self.marker_scan.stream()
    }

    /// The last of those bytes, which are held back.
    pub closed spec fn held(&self) -> Seq<u8> {
        self.held@
    }

    /// The bytes that the read asked for gives on `host`.
    pub closed spec fn wanted(&self, host: Seq<u8>) -> Seq<u8> {
        match self.phase {
            Phase::Seeking => self.walk.wanted(host),
            Phase::Sealing => answer(host, self.start + self.length, TRAILER_LENGTH as int),
            Phase::Copying => answer(host, self.start + self.fed, self.chunk as int),
            Phase::Finished => Seq::empty(),
        }
    }

    /// The part of the host from the start of the payload on.
    pub closed spec fn tail(&self, host: Seq<u8>) -> Seq<u8> {
        host.subrange(self.start as int, host.len() as int)
    }

    /// What holds of the record that was found.
    pub closed spec fn holds_record(&self, host: Seq<u8>) -> bool {
        &&& first_hit(host, self.id@, self.at as int)
        &&& self.head is Some
        &&& self.head.unwrap()@ == header_at(host, self.at as int).unwrap()
        &&& gate_open(self.head.unwrap()@)
        &&& self.start == payload_start(self.at as int)
    }

    /// What holds of the extraction on the host `host`, as long as every
    /// read was answered from it.
    pub closed spec fn inv(&self, host: Seq<u8>) -> bool {
        &&& self.wf()
        &&& host.len() <= u64::MAX
        &&& match self.phase {
            Phase::Seeking => {
                &&& self.walk.inv(host)
                &&& self.written@ == Seq::<u8>::empty()
                &&& forall|j: int|
                    0 <= j < self.walk.frontier() ==> !#[trigger] is_hit(host, self.id@, j)
            },
            Phase::Sealing => {
                &&& self.holds_record(host)
                &&& self.written@ == Seq::<u8>::empty()
                &&& parse_u64(self.head.unwrap()@.length) == Some(self.length)
            },
            Phase::Copying => {
                &&& self.holds_record(host)
                &&& sealed(host, self.at as int)
                &&& self.fed <= self.tail(host).len()
                &&& self.marker_scan.stream() == self.tail(host).subrange(0, self.fed as int)
                &&& self.held@ == self.tail(host).subrange(
                    self.fed - self.held@.len(),
                    self.fed as int,
                )
                &&& self.written@ == self.tail(host).subrange(0, self.fed - self.held@.len())
                &&& forall|j: int|
                    0 <= j && j + TRAILER_LENGTH <= self.fed ==> !#[trigger] occurs_at(
                        self.tail(host),
                        trailer(),
                        j,
                    )
            },
            Phase::Finished => true,
        }
    }

    /// An extraction of the payload stored under `id`, which reads `chunk`
    /// bytes at a time.
    pub fn with_chunk(id: &str, chunk: usize) -> (e: Extraction)
        requires
            chunk > 0,
        ensures
            e.wf(),
            e.phase() == Phase::Seeking,
            e.id() == id@,
            e.chunk() == chunk,
            e.walk().chunk() == chunk,
            e.walk().position() == 0,
            e.walk().pending() == 0,
            e.written() == Seq::<u8>::empty(),
            forall|host: Seq<u8>| host.len() <= u64::MAX ==> #[trigger] e.inv(host),
    {
        let marker = trailer_bytes();
        Extraction {
            walk: RecordWalk::with_chunk(chunk),
            id: String::from_str(id),
            chunk,
            phase: Phase::Seeking,
            head: None,
            at: 0,
            start: 0,
            length: 0,
            marker_scan: Scanner::new(marker.as_slice()),
            fed: 0,
            held: Vec::new(),
            written: Ghost(Seq::empty()),
        }
    }

    /// An extraction of the payload stored under `id`, which reads
    /// `BUFFER_SIZE` bytes at a time.
    pub fn new(id: &str) -> (e: Extraction)
        ensures
            e.wf(),
            e.phase() == Phase::Seeking,
            e.id() == id@,
            e.chunk() == BUFFER_SIZE,
            e.walk().chunk() == BUFFER_SIZE,
            e.walk().position() == 0,
            e.walk().pending() == 0,
            e.written() == Seq::<u8>::empty(),
            forall|host: Seq<u8>| host.len() <= u64::MAX ==> #[trigger] e.inv(host),
    {
        Extraction::with_chunk(id, BUFFER_SIZE)
    }

    /// The read to make before the next step.
    pub fn request(&self) -> (r: ReadRequest)
        requires
            self.wf(),
            !self.finished(),
        ensures
            self.phase() == Phase::Seeking && self.walk().pending() == 0 ==> r.at
                == self.walk().position() && r.len == self.walk().chunk(),
            self.phase() == Phase::Sealing ==> r.at == self.payload_offset() + self.declared()
                && r.len == TRAILER_LENGTH,
            self.phase() == Phase::Copying ==> r.at == self.payload_offset() + self.seen().len()
                && r.len == self.chunk(),
            forall|host: Seq<u8>| #[trigger] self.wanted(host) == answer(host, r.at as int, r.len as int),
    {
        match self.phase {
            Phase::Seeking => {
                let r = self.walk.request();
                proof {
                    assert forall|host: Seq<u8>| #[trigger]
                        self.wanted(host) == answer(host, r.at as int, r.len as int) by {
                        assert(self.walk.wanted(host) == answer(host, r.at as int, r.len as int));
                    }
                }
                r
            },
            Phase::Sealing => ReadRequest { at: self.start + self.length, len: TRAILER_LENGTH },
            _ => ReadRequest { at: self.start + self.fed, len: self.chunk },
        }
    }

    /// Ends the extraction with an error.
    fn fail(&mut self, e: ResourceError) -> (out: ExtractStep)
        requires
            old(self).parts_wf(),
        ensures
            final(self).wf(),
            final(self).finished(),
            final(self).written() == old(self).written(),
            final(self).id() == old(self).id(),
            final(self).walk == old(self).walk,
            out == ExtractStep::Failed(e),
    {
        self.phase = Phase::Finished;
        ExtractStep::Failed(e)
    }

    /// Takes the record that the walk has found, if it has the id looked
    /// for: checks its version and works out where its end marker must
    /// stand.
    fn take_record(&mut self, at: u64, head: ResourceHead) -> (out: ExtractStep)
        requires
            old(self).wf(),
            old(self).phase == Phase::Seeking,
        ensures
            final(self).wf(),
            final(self).id() == old(self).id(),
            final(self).written() == old(self).written(),
            final(self).walk == old(self).walk,
            out is More || out is Failed,
            out is Failed <==> final(self).finished(),
            trim(head@.id) != old(self).id() ==> out is More && final(self).phase == Phase::Seeking,
            out is More ==> final(self).phase == Phase::Seeking || final(self).phase
                == Phase::Sealing,
            forall|host: Seq<u8>|
                old(self).written() == Seq::<u8>::empty() && #[trigger] first_hit(
                    host,
                    old(self).id(),
                    at as int,
                ) && header_at(host, at as int) == Some(head@) && host.len() <= u64::MAX ==> {
                    &&& final(self).inv(host)
                    &&& out matches ExtractStep::Failed(e) ==> fails_as(
                        e,
                        lookup(host, old(self).id()),
                    )
                },
    {
        if !same_text(trimmed(head.getId()), self.id.as_str()) {
            return ExtractStep::More;
        }
        proof {
            assert forall|host: Seq<u8>| #[trigger]
                first_hit(host, self.id@, at as int) implies lookup(host, self.id@) == outcome_at(
                host,
                at as int,
            ) by {
                lemma_lookup(host, self.id@, at as int);
            }
            assert(trailer().len() == 5);
        }
        match check_version(&head) {
            Err(e) => {
                return self.fail(e);
            },
            Ok(()) => {},
        }
        let length: u64 = match read_u64(head.getLength()) {
            Some(length) => length,
            None => {
                return self.fail(ResourceError::IncompleteResource);
            },
        };
        if at < LENGTH_PREFIX as u64 || at - LENGTH_PREFIX as u64 > u64::MAX - HEAD_LENGTH as u64 {
            return self.fail(ResourceError::IncompleteResource);
        }
        let start: u64 = at - LENGTH_PREFIX as u64 + HEAD_LENGTH as u64;
        if length > u64::MAX - start {
            return self.fail(ResourceError::IncompleteResource);
        }
        self.at = at;
        self.start = start;
        self.length = length;
        self.head = Some(head);
        self.phase = Phase::Sealing;
        ExtractStep::More
    }

    /// Takes the bytes of the read that was asked for and says what is to
    /// be done with them. Where every read is answered from one host, the
    /// bytes handed out are, in their order, the payload as stored of the
    /// first record with the id, and a failure is the one that the search
    /// on that host comes to.
    pub fn step(&mut self, reply: &[u8]) -> (out: ExtractStep)
        requires
            old(self).wf(),
            !old(self).finished(),
        ensures
            final(self).wf(),
            final(self).id() == old(self).id(),
            (out is Stored || out is Failed) <==> final(self).finished(),
            moved(*old(self), *final(self), reply@, out),
            forall|host: Seq<u8>| #[trigger]
                old(self).inv(host) && reply@ == old(self).wanted(host) ==> final(self).inv(host)
                    && step_holds(
                    old(self).id(),
                    old(self).written(),
                    final(self).written(),
                    out,
                    host,
                ),
    {
        match self.phase {
            Phase::Seeking => self.seek(reply),
            Phase::Sealing => self.seal(reply),
            _ => self.copy(reply),
        }
    }

    /// The step of the search: the walk goes on, and a record that it
    /// finds is taken if it has the id.
    fn seek(&mut self, reply: &[u8]) -> (out: ExtractStep)
        requires
            old(self).wf(),
            old(self).phase == Phase::Seeking,
        ensures
            final(self).wf(),
            final(self).id() == old(self).id(),
            (out is Stored || out is Failed) <==> final(self).finished(),
            moved(*old(self), *final(self), reply@, out),
            forall|host: Seq<u8>| #[trigger]
                old(self).inv(host) && reply@ == old(self).wanted(host) ==> final(self).inv(host)
                    && step_holds(
                    old(self).id(),
                    old(self).written(),
                    final(self).written(),
                    out,
                    host,
                ),
    {
        let ghost before = *self;
        let found = self.walk.step(reply);
        let ghost walked = *self;
        match found {
            WalkStep::Found { at, head } => {
                let ghost seen = head@;
                let out = self.take_record(at, head);
                proof {
                    assert forall|host: Seq<u8>| #[trigger]
                        before.inv(host) && reply@ == before.wanted(host) implies self.inv(host)
                        && step_holds(before.id(), before.written(), self.written(), out, host) by {
                        assert(before.walk.inv(host) && reply@ == before.walk.wanted(host));
                        assert(walked.walk.inv(host));
                        assert(is_record_at(host, at as int));
                        assert(header_at(host, at as int) == Some(seen));
                        assert(forall|j: int|
                            0 <= j < at ==> !#[trigger] is_hit(host, before.id@, j));
                        if trim(seen.id) == before.id@ {
                            assert(is_hit(host, before.id@, at as int));
                            assert(first_hit(host, before.id@, at as int));
                        } else {
                            assert(!is_hit(host, before.id@, at as int));
                            lemma_search_goes_on(before, walked, *self, host, at as int);
                        }
                    }
                }
                out
            },
            WalkStep::More => {
                proof {
                    assert forall|host: Seq<u8>| #[trigger]
                        before.inv(host) && reply@ == before.wanted(host) implies self.inv(
                        host,
                    ) by {
                        assert(before.walk.inv(host) && reply@ == before.walk.wanted(host));
                    }
                }
                ExtractStep::More
            },
            WalkStep::End => {
                let out = self.fail(ResourceError::ResourceNotFound);
                proof {
                    assert forall|host: Seq<u8>| #[trigger]
                        before.inv(host) && reply@ == before.wanted(host) implies fails_as(
                        ResourceError::ResourceNotFound,
                        lookup(host, before.id()),
                    ) by {
                        assert(before.walk.inv(host) && reply@ == before.walk.wanted(host));
                        walked.walk.lemma_found_so_far(host);
                        assert forall|j: int| !#[trigger] is_hit(host, before.id@, j) by {
                            if is_hit(host, before.id@, j) {
                                assert(occurs_at(host, magic(), j));
                                assert(is_record_at(host, j));
                            }
                        }
                        assert(!exists|at: int| first_hit(host, before.id@, at));
                    }
                }
                out
            },
        }
    }

    /// The step of the check of the end marker: the bytes read where the
    /// header says that the payload ends must be the marker.
    fn seal(&mut self, reply: &[u8]) -> (out: ExtractStep)
        requires
            old(self).wf(),
            old(self).phase == Phase::Sealing,
        ensures
            final(self).wf(),
            final(self).id() == old(self).id(),
            (out is Stored || out is Failed) <==> final(self).finished(),
            moved(*old(self), *final(self), reply@, out),
            forall|host: Seq<u8>| #[trigger]
                old(self).inv(host) && reply@ == old(self).wanted(host) ==> final(self).inv(host)
                    && step_holds(
                    old(self).id(),
                    old(self).written(),
                    final(self).written(),
                    out,
                    host,
                ),
    {
        let ghost before = *self;
        let marker = trailer_bytes();
        if reply.len() == TRAILER_LENGTH && matches_at(reply, marker.as_slice(), 0) {
            self.marker_scan = Scanner::new(marker.as_slice());
            self.fed = 0;
            self.held = Vec::new();
            self.phase = Phase::Copying;
            proof {
                assert(trailer().len() == 5);
                assert(reply@.subrange(0, 5) =~= reply@);
                assert forall|host: Seq<u8>| #[trigger]
                    before.inv(host) && reply@ == before.wanted(host) implies self.inv(host) by {
                    lemma_sealing(before, host, reply@);
                    assert(self.tail(host).subrange(0, 0) =~= Seq::<u8>::empty());
                    assert(self.held@ =~= self.tail(host).subrange(0, 0));
                }
            }
            ExtractStep::More
        } else {
            let out = self.fail(ResourceError::IncompleteResource);
            proof {
                assert(trailer().len() == 5);
                if reply@.len() == 5 {
                    assert(reply@.subrange(0, 5) =~= reply@);
                }
                assert forall|host: Seq<u8>| #[trigger]
                    before.inv(host) && reply@ == before.wanted(host) implies fails_as(
                    ResourceError::IncompleteResource,
                    lookup(host, before.id()),
                ) by {
                    lemma_sealing(before, host, reply@);
                    lemma_lookup(host, before.id@, before.at as int);
                }
            }
            out
        }
    }

    /// The step of the copy: the chunk is searched for the end marker,
    /// together with the bytes held back, and what lies before the marker,
    /// or before the last bytes in which one could start, is handed out.
    fn copy(&mut self, reply: &[u8]) -> (out: ExtractStep)
        requires
            old(self).wf(),
            old(self).phase == Phase::Copying,
        ensures
            final(self).wf(),
            final(self).id() == old(self).id(),
            (out is Stored || out is Failed) <==> final(self).finished(),
            moved(*old(self), *final(self), reply@, out),
            forall|host: Seq<u8>| #[trigger]
                old(self).inv(host) && reply@ == old(self).wanted(host) ==> final(self).inv(host)
                    && step_holds(
                    old(self).id(),
                    old(self).written(),
                    final(self).written(),
                    out,
                    host,
                ),
    {
        let ghost before = *self;
        if reply.len() == 0 || reply.len() as u64 > u64::MAX - self.start - self.fed {
            let out = self.fail(ResourceError::IncompleteResource);
            proof {
                assert forall|host: Seq<u8>| #[trigger]
                    before.inv(host) && reply@ == before.wanted(host) implies false by {
                    lemma_copy_goes_on(before, host);
                }
            }
            return out;
        }
        let found = self.marker_scan.feed(reply);
        let mut window: Vec<u8> = Vec::new();
        window.extend_from_slice(self.held.as_slice());
        window.extend_from_slice(reply);
        let total: usize = window.len();
        let base: u64 = self.fed - self.held.len() as u64;
        let ghost lo = lower(before.fed as int);
        let ghost hi = before.fed + reply@.len() - 4;
        proof {
            assert(trailer().len() == 5);
            assert(window@ =~= before.held@ + reply@);
            lemma_occurrences_exact(self.marker_scan.stream(), trailer(), lo, hi);
            assert(offsets(found@).len() == found@.len());
        }
        if found.len() > 0 {
            let k: u64 = found[0];
            proof {
                assert(offsets(found@)[0] == k);
            }
            let cut: usize = (k - base) as usize;
            let last = slice_to_vec(slice_subrange(window.as_slice(), 0, cut));
            let head = self.head.take().unwrap();
            self.phase = Phase::Finished;
            proof {
                assert(offsets(found@) == fresh_occurrences(
                    before.seen() + reply@,
                    trailer(),
                    before.seen().len() as int,
                ));
                assert(last@ == (before.held() + reply@).subrange(
                    0,
                    k - (before.seen().len() - before.held().len()),
                ));
                assert forall|host: Seq<u8>| #[trigger]
                    before.inv(host) && reply@ == before.wanted(host) implies lookup(
                    host,
                    before.id(),
                ) == Lookup::Found(head@, before.written() + last@) by {
                    lemma_copy_found(before, host, reply@, k as int, last@);
                }
            }
            ExtractStep::Stored { head, last }
        } else {
            let keep: usize = if total < 4 {
                total
            } else {
                4
            };
            let bytes = slice_to_vec(slice_subrange(window.as_slice(), 0, total - keep));
            self.held = slice_to_vec(slice_subrange(window.as_slice(), total - keep, total));
            self.fed = self.fed + reply.len() as u64;
            proof {
                self.written = Ghost(before.written@ + bytes@);
                assert(bytes@ + self.held@ =~= window@);
                assert(offsets(found@).len() == 0);
                assert forall|host: Seq<u8>| #[trigger]
                    before.inv(host) && reply@ == before.wanted(host) implies self.inv(host) by {
                    lemma_copy_on(before, *self, host, reply@, bytes@);
                }
            }
            ExtractStep::Write(bytes)
        }
    }
}

/// The offset from which a stream that held `fed` bytes is searched for
/// end markers that end in the next chunk.
pub open spec fn lower(fed: int) -> int {
    if fed - 4 > 0 {
        fed - 4
    } else {
        0
    }
}

/// A record with another id is passed: the search goes on behind it.
proof fn lemma_search_goes_on(
    before: Extraction,
    walked: Extraction,
    after: Extraction,
    host: Seq<u8>,
    at: int,
)
    requires
        before.inv(host),
        before.phase == Phase::Seeking,
        walked.walk.inv(host),
        after.wf(),
        after.phase == Phase::Seeking,
        after.walk == walked.walk,
        after.id@ == before.id@,
        after.written@ == before.written@,
        at == before.walk.frontier(),
        at < walked.walk.frontier(),
        !is_hit(host, before.id@, at),
        forall|j: int| at < j < walked.walk.frontier() ==> !#[trigger] is_record_at(host, j),
    ensures
        after.inv(host),
{
    assert forall|j: int| 0 <= j < after.walk.frontier() implies !#[trigger] is_hit(
        host,
        after.id@,
        j,
    ) by {
        if j > at {
            assert(!is_record_at(host, j));
        }
    }
}

/// What the bytes read at the place of the end marker show.
proof fn lemma_sealing(e: Extraction, host: Seq<u8>, reply: Seq<u8>)
    requires
        e.inv(host),
        e.phase == Phase::Sealing,
        reply == e.wanted(host),
    ensures
        sealed(host, e.at as int) <==> reply == trailer(),
        first_hit(host, e.id@, e.at as int),
        outcome_at(host, e.at as int) == if sealed(host, e.at as int) {
            Lookup::Found(e.head.unwrap()@, stored_payload(host, e.at as int))
        } else {
            Lookup::Incomplete
        },
        e.start <= host.len(),
{
    assert(trailer().len() == 5);
    let place = e.start + e.length;
    if occurs_at(host, trailer(), place) {
        assert(reply =~= host.subrange(place, place + 5));
    }
}

/// The copy of a sealed record does not reach the end of the host before
/// it has seen the end marker.
proof fn lemma_copy_goes_on(e: Extraction, host: Seq<u8>)
    requires
        e.inv(host),
        e.phase == Phase::Copying,
    ensures
        e.wanted(host).len() > 0,
        e.start + e.fed + e.wanted(host).len() <= u64::MAX,
{
    assert(trailer().len() == 5);
    let data = e.tail(host);
    let length = parse_u64(e.head.unwrap()@.length).unwrap() as int;
    assert(occurs_at(host, trailer(), e.start + length));
    assert(data.subrange(length, length + 5) =~= host.subrange(
        e.start + length,
        e.start + length + 5,
    ));
    assert(occurs_at(data, trailer(), length));
}

/// What a further chunk of the payload shows.
proof fn lemma_copy_chunk(e: Extraction, host: Seq<u8>, reply: Seq<u8>)
    requires
        e.inv(host),
        e.phase == Phase::Copying,
        reply == e.wanted(host),
    ensures
        e.fed + reply.len() <= e.tail(host).len(),
        e.tail(host).subrange(0, e.fed as int) + reply == e.tail(host).subrange(
            0,
            e.fed + reply.len(),
        ),
        reply == e.tail(host).subrange(e.fed as int, e.fed + reply.len()),
        occurrences(
            e.tail(host).subrange(0, e.fed + reply.len()),
            trailer(),
            lower(e.fed as int),
            e.fed + reply.len() - 4,
        ) == occurrences(e.tail(host), trailer(), lower(e.fed as int), e.fed + reply.len() - 4),
        outcome_at(host, e.at as int) == Lookup::Found(
            e.head.unwrap()@,
            stored_payload(host, e.at as int),
        ),
        stored_payload(host, e.at as int) == until_marker(e.tail(host), trailer()).unwrap(),
        lookup(host, e.id@) == outcome_at(host, e.at as int),
{
    assert(trailer().len() == 5);
    let data = e.tail(host);
    let next = e.fed + reply.len();
    assert(reply =~= data.subrange(e.fed as int, next));
    assert(data.subrange(0, e.fed as int) + reply =~= data.subrange(0, next));
    if next - 4 > 0 {
        lemma_occurrences_in_prefix(data, next, trailer(), lower(e.fed as int), next - 4);
    }
    lemma_lookup(host, e.id@, e.at as int);
}

/// The end marker found first in a chunk ends the payload.
proof fn lemma_copy_found(e: Extraction, host: Seq<u8>, reply: Seq<u8>, k: int, last: Seq<u8>)
    requires
        e.inv(host),
        e.phase == Phase::Copying,
        reply == e.wanted(host),
        occurrences(
            e.marker_scan.stream() + reply,
            trailer(),
            lower(e.fed as int),
            e.fed + reply.len() - 4,
        ).len() > 0,
        occurrences(
            e.marker_scan.stream() + reply,
            trailer(),
            lower(e.fed as int),
            e.fed + reply.len() - 4,
        )[0] == k,
        e.fed - e.held@.len() <= k,
        k - (e.fed - e.held@.len()) <= (e.held@ + reply).len(),
        last == (e.held@ + reply).subrange(0, k - (e.fed - e.held@.len())),
    ensures
        lookup(host, e.id@) == Lookup::Found(e.head.unwrap()@, e.written@ + last),
{
    lemma_copy_chunk(e, host, reply);
    let data = e.tail(host);
    let lo = lower(e.fed as int);
    let hi = e.fed + reply.len() - 4;
    let base = e.fed - e.held@.len();
    let occ = occurrences(data, trailer(), lo, hi);
    lemma_occurrences_exact(data, trailer(), lo, hi);
    assert(occ[0] == k);
    assert forall|j: int| 0 <= j < k implies !occurs_at(data, trailer(), j) by {
        if j >= lo && occurs_at(data, trailer(), j) {
            assert(occ.contains(j));
            let i = choose|i: int| 0 <= i < occ.len() && occ[i] == j;
            if i > 0 {
                assert(occ[0] < occ[i]);
            }
        }
    }
    lemma_until_marker(data, trailer(), k);
    assert(e.held@ + reply =~= data.subrange(base, e.fed + reply.len()));
    assert(e.written@ + last =~= data.subrange(0, k));
}

/// A chunk without an end marker is handed out, but for its last bytes.
proof fn lemma_copy_on(
    before: Extraction,
    after: Extraction,
    host: Seq<u8>,
    reply: Seq<u8>,
    bytes: Seq<u8>,
)
    requires
        before.inv(host),
        before.phase == Phase::Copying,
        reply == before.wanted(host),
        after.wf(),
        after.phase == Phase::Copying,
        after.id == before.id,
        after.head == before.head,
        after.at == before.at,
        after.start == before.start,
        after.fed == before.fed + reply.len(),
        after.marker_scan.stream() == before.marker_scan.stream() + reply,
        occurrences(
            before.marker_scan.stream() + reply,
            trailer(),
            lower(before.fed as int),
            before.fed + reply.len() - 4,
        ).len() == 0,
        after.held@.len() <= (before.held@ + reply).len(),
        bytes == (before.held@ + reply).subrange(
            0,
            (before.held@ + reply).len() - after.held@.len(),
        ),
        after.held@ == (before.held@ + reply).subrange(
            (before.held@ + reply).len() - after.held@.len(),
            (before.held@ + reply).len() as int,
        ),
        after.written@ == before.written@ + bytes,
    ensures
        after.inv(host),
{
    lemma_copy_chunk(before, host, reply);
    let data = before.tail(host);
    assert(after.tail(host) == data);
    let lo = lower(before.fed as int);
    let hi = before.fed + reply.len() - 4;
    let base = before.fed - before.held@.len();
    let occ = occurrences(data, trailer(), lo, hi);
    lemma_occurrences_exact(data, trailer(), lo, hi);
    assert forall|j: int| 0 <= j && j + TRAILER_LENGTH <= after.fed implies !#[trigger] occurs_at(
        data,
        trailer(),
        j,
    ) by {
        if j >= lo && occurs_at(data, trailer(), j) {
            assert(occ.contains(j));
        }
    }
    assert(before.held@ + reply =~= data.subrange(base, after.fed as int));
    assert(after.held@ =~= data.subrange(after.fed - after.held@.len(), after.fed as int));
    assert(after.written@ =~= data.subrange(0, after.fed - after.held@.len()));
}

} // verus!
