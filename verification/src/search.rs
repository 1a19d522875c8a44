//! Byte-pattern search: single-buffer search and a streaming scanner that
//! finds every occurrence of a pattern in a stream fed chunk by chunk.
use vstd::prelude::*;
use vstd::slice::{slice_subrange, slice_to_vec};

verus! {

/// `pat` occurs in `data` at offset `i`.
pub open spec fn occurs_at(data: Seq<u8>, pat: Seq<u8>, i: int) -> bool {
    &&& 0 <= i
    &&& i + pat.len() <= data.len()
    &&& data.subrange(i, i + pat.len()) == pat
}

/// `i` is the offset of the first occurrence of `pat` in `data`.
pub open spec fn first_occurrence(data: Seq<u8>, pat: Seq<u8>, i: int) -> bool {
    &&& occurs_at(data, pat, i)
    &&& forall|j: int| 0 <= j < i ==> !occurs_at(data, pat, j)
}

/// `pat` occurs nowhere in `data`.
pub open spec fn absent(data: Seq<u8>, pat: Seq<u8>) -> bool {
    forall|j: int| !occurs_at(data, pat, j)
}

/// What a single-buffer search returns: the first occurrence, if there is one.
pub open spec fn is_search_result(data: Seq<u8>, pat: Seq<u8>, r: Option<usize>) -> bool {
    match r {
        Some(i) => first_occurrence(data, pat, i as int),
        None => absent(data, pat),
    }
}

/// Calls `memchr::memmem::Finder::find`, which returns the index of the
/// first occurrence of the needle in the haystack, or `None` when the needle
/// does not occur. An empty needle occurs at index 0.
#[verifier::external_body]
pub(crate) fn memmem_find(haystack: &[u8], needle: &[u8]) -> (r: Option<usize>)
    ensures
        is_search_result(haystack@, needle@, r),
{
    memchr::memmem::Finder::new(needle).find(haystack)
}

/// Whether `needle` stands in `haystack` at offset `at`.
pub(crate) fn matches_at(haystack: &[u8], needle: &[u8], at: usize) -> (r: bool)
    requires
        at + needle@.len() <= haystack@.len(),
    ensures
        r == occurs_at(haystack@, needle@, at as int),
{
    let n = needle.len();
    let total = haystack.len();
    let mut k: usize = 0;
    while k < n
        invariant
            n == needle@.len(),
            at + n <= haystack@.len(),
            total == haystack@.len(),
            k <= n,
            forall|j: int| 0 <= j < k ==> haystack@[at + j] == needle@[j],
        decreases n - k,
    {
        if haystack[at + k] != needle[k] {
            proof {
                let w = haystack@.subrange(at as int, at + n);
                assert(w[k as int] == haystack@[at + k]);
            }
            return false;
        }
        k += 1;
    }
    proof {
        assert(haystack@.subrange(at as int, at + n) =~= needle@);
    }
    true
}

/// Plain window-by-window search for the first occurrence of `needle`.
pub fn _find_subsequence(haystack: &[u8], needle: &[u8]) -> (r: Option<usize>)
    requires
        needle@.len() > 0,
    ensures
        is_search_result(haystack@, needle@, r),
{
    let n = needle.len();
    if haystack.len() < n {
        return None;
    }
    let last = haystack.len() - n;
    let mut i: usize = 0;
    while i <= last
        invariant
            n == needle@.len(),
            n > 0,
            last + n == haystack@.len(),
            haystack@.len() <= usize::MAX,
            i <= last + 1,
            forall|j: int| 0 <= j < i ==> !occurs_at(haystack@, needle@, j),
        decreases last + 1 - i,
    {
        if matches_at(haystack, needle, i) {
            return Some(i);
        }
        i += 1;
    }
    None
}

/// The offsets in `lo..hi` at which `pat` occurs in `data`, in ascending order.
pub open spec fn occurrences(data: Seq<u8>, pat: Seq<u8>, lo: int, hi: int) -> Seq<int>
    decreases hi - lo,
{
    if hi <= lo {
        Seq::empty()
    } else if occurs_at(data, pat, hi - 1) {
        occurrences(data, pat, lo, hi - 1).push(hi - 1)
    } else {
        occurrences(data, pat, lo, hi - 1)
    }
}

/// Every offset at which `pat` occurs in `data`, in ascending order.
pub open spec fn all_occurrences(data: Seq<u8>, pat: Seq<u8>) -> Seq<int> {
    occurrences(data, pat, 0, data.len() - pat.len() + 1)
}

/// The occurrences that become visible when a stream that held `before`
/// bytes has grown to `stream`: those that end after byte `before`.
pub open spec fn fresh_occurrences(stream: Seq<u8>, pat: Seq<u8>, before: int) -> Seq<int> {
    occurrences(
        stream,
        pat,
        if before - pat.len() + 1 > 0 { before - pat.len() + 1 } else { 0 },
        stream.len() - pat.len() + 1,
    )
}

/// Offsets as mathematical integers.
pub open spec fn offsets(found: Seq<u64>) -> Seq<int> {
    found.map_values(|o: u64| o as int)
}

/// A range without occurrences adds nothing.
pub proof fn lemma_occurrences_gap(data: Seq<u8>, pat: Seq<u8>, lo: int, mid: int, hi: int)
    requires
        lo <= mid <= hi,
        forall|j: int| mid <= j < hi ==> !occurs_at(data, pat, j),
    ensures
        occurrences(data, pat, lo, hi) == occurrences(data, pat, lo, mid),
    decreases hi - mid,
{
    if mid < hi {
        lemma_occurrences_gap(data, pat, lo, mid, hi - 1);
    }
}

/// Occurrences over adjacent ranges concatenate.
pub proof fn lemma_occurrences_split(data: Seq<u8>, pat: Seq<u8>, lo: int, mid: int, hi: int)
    requires
        lo <= mid <= hi,
    ensures
        occurrences(data, pat, lo, hi) == occurrences(data, pat, lo, mid) + occurrences(
            data,
            pat,
            mid,
            hi,
        ),
    decreases hi - mid,
{
    if mid < hi {
        lemma_occurrences_split(data, pat, lo, mid, hi - 1);
        let a = occurrences(data, pat, lo, mid);
        let b = occurrences(data, pat, mid, hi - 1);
        if occurs_at(data, pat, hi - 1) {
            assert((a + b).push(hi - 1) =~= a + b.push(hi - 1));
        }
    } else {
        assert(occurrences(data, pat, lo, mid) + Seq::<int>::empty() =~= occurrences(
            data,
            pat,
            lo,
            mid,
        ));
    }
}

/// The listed offsets are exactly the occurrences in range, strictly ascending.
pub proof fn lemma_occurrences_exact(data: Seq<u8>, pat: Seq<u8>, lo: int, hi: int)
    ensures
        forall|k: int|
            0 <= k < occurrences(data, pat, lo, hi).len() ==> {
                let o = #[trigger] occurrences(data, pat, lo, hi)[k];
                lo <= o < hi && occurs_at(data, pat, o)
            },
        forall|j: int, k: int|
            0 <= j < k < occurrences(data, pat, lo, hi).len() ==> occurrences(data, pat, lo, hi)[j]
                < occurrences(data, pat, lo, hi)[k],
        forall|o: int|
            lo <= o < hi && occurs_at(data, pat, o) ==> occurrences(data, pat, lo, hi).contains(o),
    decreases hi - lo,
{
    if hi > lo {
        lemma_occurrences_exact(data, pat, lo, hi - 1);
        let prev = occurrences(data, pat, lo, hi - 1);
        let cur = occurrences(data, pat, lo, hi);
        assert forall|o: int| lo <= o < hi && occurs_at(data, pat, o) implies cur.contains(o) by {
            if o == hi - 1 {
                assert(cur[cur.len() - 1] == o);
            } else {
                assert(prev.contains(o));
                let k = choose|k: int| 0 <= k < prev.len() && prev[k] == o;
                assert(cur[k] == o);
            }
        }
    }
}

/// Bytes appended to the data do not change the occurrences that end inside it.
pub proof fn lemma_occurrences_prefix(
    data: Seq<u8>,
    more: Seq<u8>,
    pat: Seq<u8>,
    lo: int,
    hi: int,
)
    requires
        0 <= lo,
        hi - 1 + pat.len() <= data.len(),
    ensures
        occurrences(data + more, pat, lo, hi) == occurrences(data, pat, lo, hi),
    decreases hi - lo,
{
    if hi > lo {
        lemma_occurrences_prefix(data, more, pat, lo, hi - 1);
        let i = hi - 1;
        assert((data + more).subrange(i, i + pat.len()) =~= data.subrange(i, i + pat.len()));
    }
}

/// An occurrence that ends inside the first `m` bytes is an occurrence in
/// those bytes alone, and the other way round.
pub proof fn lemma_occurs_in_prefix(data: Seq<u8>, m: int, pat: Seq<u8>, j: int)
    requires
        0 <= m <= data.len(),
        j + pat.len() <= m,
    ensures
        occurs_at(data.subrange(0, m), pat, j) == occurs_at(data, pat, j),
{
    if 0 <= j {
        assert(data.subrange(0, m).subrange(j, j + pat.len()) =~= data.subrange(
            j,
            j + pat.len(),
        ));
    }
}

/// The occurrences that end inside the first `m` bytes are the occurrences
/// in those bytes alone.
pub proof fn lemma_occurrences_in_prefix(data: Seq<u8>, m: int, pat: Seq<u8>, lo: int, hi: int)
    requires
        0 <= m <= data.len(),
        hi - 1 + pat.len() <= m,
    ensures
        occurrences(data.subrange(0, m), pat, lo, hi) == occurrences(data, pat, lo, hi),
    decreases hi - lo,
{
    if hi > lo {
        lemma_occurrences_in_prefix(data, m, pat, lo, hi - 1);
        lemma_occurs_in_prefix(data, m, pat, hi - 1);
    }
}

/// A streaming pattern matcher. It is fed a stream chunk by chunk and reports
/// every occurrence of its pattern, also one that lies across two or more
/// chunks, by its offset from the first byte it was fed.
pub struct Scanner {
    pattern: Vec<u8>,
    carry: Vec<u8>,
    consumed: u64,
    stream: Ghost<Seq<u8>>,
}

impl Scanner {
    /// The scanner holds the tail of the stream it has seen.
    pub closed spec fn wf(&self) -> bool {
        &&& self.pattern@.len() > 0
        &&& self.stream@.len() == self.consumed
        &&& self.carry@.len() <= self.stream@.len()
        &&& self.carry@.len() <= self.pattern@.len() - 1
        &&& (self.carry@.len() == self.stream@.len() || self.carry@.len() == self.pattern@.len()
            - 1)
        &&& self.carry@ == self.stream@.subrange(
            self.stream@.len() - self.carry@.len(),
            self.stream@.len() as int,
        )
    }

    /// All bytes fed so far.
    pub closed spec fn stream(&self) -> Seq<u8> {
        self.stream@
    }

    /// The pattern searched for.
    pub closed spec fn pattern(&self) -> Seq<u8> {
        self.pattern@
    }

    /// A scanner for `pattern` at the start of a stream.
    pub fn new(pattern: &[u8]) -> (s: Scanner)
        requires
            pattern@.len() > 0,
        ensures
            s.wf(),
            s.pattern() == pattern@,
            s.stream() == Seq::<u8>::empty(),
    {
        let s = Scanner {
            pattern: slice_to_vec(pattern),
            carry: Vec::new(),
            consumed: 0,
            stream: Ghost(Seq::empty()),
        };
        assert(s.carry@ =~= s.stream@.subrange(0, 0));
        s
    }

    /// The number of bytes fed so far.
    pub fn position(&self) -> (n: u64)
        requires
            self.wf(),
        ensures
            n == self.stream().len(),
    {
        self.consumed
    }

    /// Takes the next chunk of the stream and returns, in ascending order,
    /// the offsets of the occurrences that end in this chunk.
    pub fn feed(&mut self, chunk: &[u8]) -> (found: Vec<u64>)
        requires
            old(self).wf(),
            old(self).stream().len() + chunk@.len() <= u64::MAX,
        ensures
            final(self).wf(),
            final(self).pattern() == old(self).pattern(),
            final(self).stream() == old(self).stream() + chunk@,
            offsets(found@) == fresh_occurrences(
                final(self).stream(),
                final(self).pattern(),
                old(self).stream().len() as int,
            ),
    {
        let n: usize = self.pattern.len();
        let ghost before = self.stream@;
        let ghost after = self.stream@ + chunk@;
        let ghost pat = self.pattern@;
        let mut window: Vec<u8> = Vec::new();
        window.extend_from_slice(self.carry.as_slice());
        window.extend_from_slice(chunk);
        let base: u64 = self.consumed - self.carry.len() as u64;
        let total: usize = window.len();
        assert(window@ =~= after.subrange(base as int, after.len() as int));
        let mut found: Vec<u64> = Vec::new();
        let mut pos: usize = 0;
        assert(offsets(found@) =~= occurrences(after, pat, base as int, base + pos));
        while total >= n && pos <= total - n
            invariant
                n == pat.len(),
                n > 0,
                pat == self.pattern@,
                total == window@.len(),
                base + total == after.len(),
                after.len() <= u64::MAX,
                window@ == after.subrange(base as int, after.len() as int),
                pos <= total,
                pos == 0 || pos + n <= total + 1,
                offsets(found@) == occurrences(after, pat, base as int, base + pos),
            ensures
                pos <= total,
                pos == 0 || pos + n <= total + 1,
                offsets(found@) == occurrences(after, pat, base as int, base + pos),
                forall|j: int| base + pos <= j ==> !occurs_at(after, pat, j),
            decreases total - pos,
        {
            let rest = slice_subrange(window.as_slice(), pos, total);
            match memmem_find(rest, self.pattern.as_slice()) {
                None => {
                    proof {
                        assert forall|j: int| base + pos <= j implies !occurs_at(after, pat, j) by {
                            if occurs_at(after, pat, j) {
                                let w = j - base - pos;
                                assert(rest@.subrange(w, w + n) =~= after.subrange(j, j + n));
                                assert(occurs_at(rest@, pat, w));
                            }
                        }
                    }
                    break ;
                },
                Some(i) => {
                    let at: usize = pos + i;
                    proof {
                        assert(rest@.subrange(i as int, i + n) =~= after.subrange(
                            base + at,
                            base + at + n,
                        ));
                        assert forall|j: int| base + pos <= j < base + at implies !occurs_at(
                            after,
                            pat,
                            j,
                        ) by {
                            let w = j - base - pos;
                            assert(rest@.subrange(w, w + n) =~= after.subrange(j, j + n));
                            if occurs_at(after, pat, j) {
                                assert(occurs_at(rest@, pat, w));
                            }
                        }
                        lemma_occurrences_gap(after, pat, base as int, base + pos, base + at);
                        assert(offsets(found@.push((base + at) as u64)) =~= offsets(found@).push(
                            base + at,
                        ));
                    }
                    found.push(base + at as u64);
                    pos = at + 1;
                },
            }
        }
        proof {
            let hi = after.len() - n + 1;
            if base + pos <= hi {
                lemma_occurrences_gap(after, pat, base as int, base + pos, hi);
            } else {
                assert(pos == 0);
            }
        }
        let keep: usize = if total < n - 1 {
            total
        } else {
            n - 1
        };
        self.carry = slice_to_vec(slice_subrange(window.as_slice(), total - keep, total));
        self.consumed = self.consumed + chunk.len() as u64;
        self.stream = Ghost(after);
        assert(self.carry@ =~= after.subrange(after.len() - keep, after.len() as int));
        found
    }
}

/// Scans `data` in chunks of `chunk_size` bytes and returns the offset of
/// every occurrence of `pattern`, in ascending order. The result does not
/// depend on the chunk size: an occurrence split between chunks is found at
/// its offset like any other.
pub fn find_all(data: &[u8], pattern: &[u8], chunk_size: usize) -> (found: Vec<u64>)
    requires
        pattern@.len() > 0,
        chunk_size > 0,
    ensures
        offsets(found@) == all_occurrences(data@, pattern@),
{
    let total: usize = data.len();
    let mut scanner = Scanner::new(pattern);
    let mut found: Vec<u64> = Vec::new();
    let mut at: usize = 0;
    assert(offsets(found@) =~= all_occurrences(data@.subrange(0, 0), pattern@));
    while at < total
        invariant
            total == data@.len(),
            chunk_size > 0,
            at <= total,
            scanner.wf(),
            scanner.pattern() == pattern@,
            scanner.stream() == data@.subrange(0, at as int),
            offsets(found@) == all_occurrences(data@.subrange(0, at as int), pattern@),
        decreases total - at,
    {
        let end: usize = if total - at < chunk_size {
            total
        } else {
            at + chunk_size
        };
        let chunk = slice_subrange(data, at, end);
        let ghost before = data@.subrange(0, at as int);
        let ghost after = data@.subrange(0, end as int);
        assert(before + chunk@ =~= after);
        let mut fresh = scanner.feed(chunk);
        proof {
            let n = pattern@.len() as int;
            let lo = if at - n + 1 > 0 {
                at - n + 1
            } else {
                0
            };
            let hi = end - n + 1;
            lemma_occurrences_prefix(before, chunk@, pattern@, 0, at - n + 1);
            if lo <= hi {
                lemma_occurrences_split(after, pattern@, 0, lo, hi);
            }
            assert(offsets(found@ + fresh@) =~= offsets(found@) + offsets(fresh@));
        }
        found.append(&mut fresh);
        at = end;
    }
    assert(data@.subrange(0, total as int) =~= data@);
    found
}

} // verus!
