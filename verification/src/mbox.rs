//! Delimiter matching: a single forward pass over a byte slice that looks for
//! a fixed marker.
//!
//! The pass keeps one counter, the number of leading marker bytes it currently
//! holds matched. A byte that continues the marker raises the counter, any
//! other byte drops it to zero, and the byte that dropped it is not looked at
//! again. The pass therefore reports only real occurrences, but it can walk
//! past one that begins inside a failed partial match. [`progress`] and
//! [`scan_match`] say exactly what it reports; the lemmas relate that to the
//! occurrences of the marker.

use vstd::prelude::*;

verus! {

/// The marker that separates two messages of a mailbox: two line feeds, then
/// `From` and a space.
pub const FROM_BYTES: [u8; 7] = [10, 10, 70, 114, 111, 109, 32];

/// The line feed byte.
pub const LINE_FEED: u8 = 10;

/// `FROM_BYTES` as a sequence.
pub open spec fn from_marker() -> Seq<u8> {
    seq![10u8, 10u8, 70u8, 114u8, 111u8, 109u8, 32u8]
}

/// The marker is found in `s` at offset `p`.
pub open spec fn occurs_at(s: Seq<u8>, pattern: Seq<u8>, p: int) -> bool {
    &&& 0 <= p
    &&& p + pattern.len() <= s.len()
    &&& s.subrange(p, p + pattern.len()) == pattern
}

/// The number of leading bytes of `pattern` that the pass holds matched once
/// it has read the first `i` bytes of `s`.
pub open spec fn progress(s: Seq<u8>, pattern: Seq<u8>, i: int) -> int
    decreases i,
{
    if i <= 0 {
        0
    } else {
        let held = progress(s, pattern, i - 1);
        if held < pattern.len() && s[i - 1] == pattern[held] {
            held + 1
        } else {
            0
        }
    }
}

/// What the pass reports when it resumes at byte `i`: the start of the first
/// full match that ends after `i`.
pub open spec fn scan_from(s: Seq<u8>, pattern: Seq<u8>, i: int) -> Option<int>
    decreases s.len() - i,
{
    if i < 0 || i >= s.len() {
        None
    } else if progress(s, pattern, i + 1) == pattern.len() {
        Some(i + 1 - pattern.len())
    } else {
        scan_from(s, pattern, i + 1)
    }
}

/// What the pass reports on `s`: the offset at which its first full match
/// starts, if it completes one.
pub open spec fn scan_match(s: Seq<u8>, pattern: Seq<u8>) -> Option<int> {
    scan_from(s, pattern, 0)
}

/// The counter never exceeds the number of bytes read nor the marker's length,
/// and the bytes just read are the marker's first `progress` bytes.
pub proof fn lemma_progress_is_prefix(s: Seq<u8>, pattern: Seq<u8>, i: int)
    requires
        0 <= i <= s.len(),
    ensures
        0 <= progress(s, pattern, i) <= i,
        progress(s, pattern, i) <= pattern.len(),
        s.subrange(i - progress(s, pattern, i), i) == pattern.take(progress(s, pattern, i)),
    decreases i,
{
    if i > 0 {
        lemma_progress_is_prefix(s, pattern, i - 1);
    }
}

/// A report of the pass that resumes at `i` is the least end of a full match
/// after `i`; no report means that no match ends after `i`.
pub proof fn lemma_scan_from_is_first(s: Seq<u8>, pattern: Seq<u8>, i: int)
    requires
        0 <= i <= s.len(),
    ensures
        match scan_from(s, pattern, i) {
            Some(p) => {
                &&& i < p + pattern.len() <= s.len()
                &&& progress(s, pattern, p + pattern.len()) == pattern.len()
                &&& forall|j: int|
                    i < j < p + pattern.len() ==> progress(s, pattern, j) != pattern.len()
            },
            None => forall|j: int| i < j <= s.len() ==> progress(s, pattern, j) != pattern.len(),
        },
    decreases s.len() - i,
{
    if i < s.len() && progress(s, pattern, i + 1) != pattern.len() {
        lemma_scan_from_is_first(s, pattern, i + 1);
    }
}

/// Every report is a real occurrence of the marker.
pub proof fn lemma_match_is_occurrence(s: Seq<u8>, pattern: Seq<u8>)
    ensures
        scan_match(s, pattern) matches Some(p) ==> occurs_at(s, pattern, p),
{
    lemma_scan_from_is_first(s, pattern, 0);
    if let Some(p) = scan_match(s, pattern) {
        lemma_progress_is_prefix(s, pattern, p + pattern.len());
        assert(pattern.take(pattern.len() as int) =~= pattern);
    }
}

/// The counter depends on the bytes read so far and on nothing behind them.
pub proof fn lemma_progress_of_prefix(s: Seq<u8>, more: Seq<u8>, pattern: Seq<u8>, i: int)
    requires
        0 <= i <= s.len(),
    ensures
        progress(s + more, pattern, i) == progress(s, pattern, i),
    decreases i,
{
    if i > 0 {
        lemma_progress_of_prefix(s, more, pattern, i - 1);
    }
}

/// Bytes that are appended do not change a report, and where there was no
/// report the pass goes on into them as if it had started there.
pub proof fn lemma_scan_from_of_prefix(s: Seq<u8>, more: Seq<u8>, pattern: Seq<u8>, i: int)
    requires
        0 <= i <= s.len(),
    ensures
        scan_from(s, pattern, i) is Some ==> scan_from(s + more, pattern, i) == scan_from(
            s,
            pattern,
            i,
        ),
        scan_from(s, pattern, i) is None ==> scan_from(s + more, pattern, i) == scan_from(
            s + more,
            pattern,
            s.len() as int,
        ),
    decreases s.len() - i,
{
    if i < s.len() {
        lemma_progress_of_prefix(s, more, pattern, i + 1);
        lemma_scan_from_of_prefix(s, more, pattern, i + 1);
    }
}

/// A match that the pass reports on a sequence it reports on every longer one
/// that begins with it.
pub proof fn lemma_match_of_prefix(s: Seq<u8>, more: Seq<u8>, pattern: Seq<u8>)
    ensures
        scan_match(s, pattern) is Some ==> scan_match(s + more, pattern) == scan_match(
            s,
            pattern,
        ),
{
    lemma_scan_from_of_prefix(s, more, pattern, 0);
}

/// From an occurrence that the pass reaches with its counter at zero, the
/// counter rises by one with every byte.
proof fn lemma_progress_through_occurrence(s: Seq<u8>, pattern: Seq<u8>, q: int, k: int)
    requires
        occurs_at(s, pattern, q),
        progress(s, pattern, q) == 0,
        0 <= k <= pattern.len(),
    ensures
        progress(s, pattern, q + k) == k,
    decreases k,
{
    if k > 0 {
        lemma_progress_through_occurrence(s, pattern, q, k - 1);
    }
}

/// The pass reports the earliest occurrence of the marker whenever it
/// reaches that occurrence with its counter at zero, that is, with no
/// partial match under way.
pub proof fn lemma_fresh_occurrence_is_found(s: Seq<u8>, pattern: Seq<u8>, q: int)
    requires
        pattern.len() >= 1,
        occurs_at(s, pattern, q),
        forall|earlier: int| 0 <= earlier < q ==> !occurs_at(s, pattern, earlier),
        progress(s, pattern, q) == 0,
    ensures
        scan_match(s, pattern) == Some(q),
{
    let end = q + pattern.len();
    lemma_progress_through_occurrence(s, pattern, q, pattern.len() as int);
    assert forall|j: int| 0 < j < end implies progress(s, pattern, j) != pattern.len() by {
        if j <= q {
            lemma_progress_is_prefix(s, pattern, j);
            if progress(s, pattern, j) == pattern.len() {
                assert(pattern.take(pattern.len() as int) =~= pattern);
                assert(occurs_at(s, pattern, j - pattern.len()));
            }
        } else {
            lemma_progress_through_occurrence(s, pattern, q, j - q);
        }
    }
    lemma_scan_from_is_first(s, pattern, 0);
}

/// The least offset from `i` on at which the marker occurs in `s`.
pub open spec fn occurrence_from(s: Seq<u8>, pattern: Seq<u8>, i: int) -> Option<int>
    decreases s.len() - i + 1,
{
    if i < 0 || i + pattern.len() > s.len() {
        None
    } else if occurs_at(s, pattern, i) {
        Some(i)
    } else {
        occurrence_from(s, pattern, i + 1)
    }
}

/// The least offset at which the marker occurs in `s`.
pub open spec fn earliest_occurrence(s: Seq<u8>, pattern: Seq<u8>) -> Option<int> {
    occurrence_from(s, pattern, 0)
}

/// `occurrence_from` gives an occurrence with none between `i` and it, and
/// nothing only where there is none from `i` on.
pub proof fn lemma_occurrence_from_is_least(s: Seq<u8>, pattern: Seq<u8>, i: int)
    requires
        0 <= i,
    ensures
        match occurrence_from(s, pattern, i) {
            Some(q) => {
                &&& i <= q
                &&& occurs_at(s, pattern, q)
                &&& forall|r: int| i <= r < q ==> !occurs_at(s, pattern, r)
            },
            None => forall|r: int| i <= r ==> !occurs_at(s, pattern, r),
        },
    decreases s.len() - i + 1,
{
    if i + pattern.len() <= s.len() && !occurs_at(s, pattern, i) {
        lemma_occurrence_from_is_least(s, pattern, i + 1);
    }
}

/// A counter above zero was one less a byte earlier.
proof fn lemma_progress_back(s: Seq<u8>, pattern: Seq<u8>, i: int, k: int)
    requires
        0 <= k <= progress(s, pattern, i),
        0 <= i,
    ensures
        progress(s, pattern, i - k) == progress(s, pattern, i) - k,
    decreases k,
{
    if k > 0 {
        lemma_progress_back(s, pattern, i, k - 1);
    }
}

/// The pass and the occurrences of the marker: where the marker does not
/// occur the pass reports nothing, and where it does the pass reports the
/// earliest occurrence if and only if it reaches that occurrence with its
/// counter at zero.
pub proof fn lemma_match_is_earliest_iff_fresh(s: Seq<u8>, pattern: Seq<u8>)
    requires
        pattern.len() >= 1,
    ensures
        match earliest_occurrence(s, pattern) {
            Some(q) => scan_match(s, pattern) == Some(q) <==> progress(s, pattern, q) == 0,
            None => scan_match(s, pattern) is None,
        },
{
    lemma_occurrence_from_is_least(s, pattern, 0);
    lemma_match_is_occurrence(s, pattern);
    if let Some(q) = earliest_occurrence(s, pattern) {
        if progress(s, pattern, q) == 0 {
            lemma_fresh_occurrence_is_found(s, pattern, q);
        }
        if scan_match(s, pattern) == Some(q) {
            lemma_scan_from_is_first(s, pattern, 0);
            lemma_progress_back(s, pattern, q + pattern.len(), pattern.len() as int);
        }
    }
}

/// A marker of one byte is found wherever it first occurs: the pass reports
/// the least offset that holds the byte, and nothing where no offset does.
pub proof fn lemma_single_byte_match(s: Seq<u8>, pattern: Seq<u8>)
    requires
        pattern.len() == 1,
    ensures
        match scan_match(s, pattern) {
            Some(p) => {
                &&& 0 <= p < s.len()
                &&& s[p] == pattern[0]
                &&& forall|j: int| 0 <= j < p ==> s[j] != pattern[0]
            },
            None => forall|j: int| 0 <= j < s.len() ==> s[j] != pattern[0],
        },
{
    lemma_scan_from_is_first(s, pattern, 0);
    let report = scan_match(s, pattern);
    let bound = match report {
        Some(p) => p,
        None => s.len() as int,
    };
    if let Some(p) = report {
        lemma_progress_is_prefix(s, pattern, p);
    }
    assert forall|j: int| 0 <= j < bound implies s[j] != pattern[0] by {
        lemma_progress_is_prefix(s, pattern, j);
        assert(progress(s, pattern, j + 1) != 1);
    }
}

/// Looks for the first full match of `pattern` in `slice`, in one forward pass
/// that falls back to the marker's first byte on every mismatch.
pub fn find_marker(slice: &[u8], pattern: &[u8]) -> (found: Option<usize>)
    requires
        pattern@.len() >= 1,
    ensures
        match found {
            Some(p) => scan_match(slice@, pattern@) == Some(p as int),
            None => scan_match(slice@, pattern@) is None,
        },
        found matches Some(p) ==> occurs_at(slice@, pattern@, p as int),
{
    let match_len: usize = pattern.len();
    let mut progress: usize = 0;
    let mut i: usize = 0;
    while i < slice.len()
        invariant
            i <= slice@.len(),
            match_len == pattern@.len(),
            match_len >= 1,
            progress == self::progress(slice@, pattern@, i as int),
            progress < match_len,
            scan_match(slice@, pattern@) == scan_from(slice@, pattern@, i as int),
        decreases slice@.len() - i,
    {
        proof {
            lemma_progress_is_prefix(slice@, pattern@, i as int);
        }
        if slice[i] == pattern[progress] {
            progress += 1;
            if progress == match_len {
                proof {
                    lemma_match_is_occurrence(slice@, pattern@);
                }
                return Some(i + 1 - match_len);
            }
        } else {
            progress = 0;
        }
        i += 1;
    }
    None
}

/// Looks for the byte sequence of two line feeds, `From` and a space.
pub fn find_from(slice: &[u8]) -> (found: Option<usize>)
    ensures
        match found {
            Some(p) => scan_match(slice@, from_marker()) == Some(p as int),
            None => scan_match(slice@, from_marker()) is None,
        },
        found matches Some(p) ==> occurs_at(slice@, from_marker(), p as int),
{
    let pattern: [u8; 7] = FROM_BYTES;
    find_marker(slice, pattern.as_slice())
}

/// `bytes` begins with `prefix`.
pub open spec fn begins_with(bytes: Seq<u8>, prefix: Seq<u8>) -> bool {
    prefix.len() <= bytes.len() && bytes.take(prefix.len() as int) == prefix
}

/// Tells whether `bytes` begins with `prefix`.
pub fn starts_with(bytes: &[u8], prefix: &[u8]) -> (yes: bool)
    ensures
        yes == begins_with(bytes@, prefix@),
{
    if bytes.len() < prefix.len() {
        return false;
    }
    let mut i: usize = 0;
    while i < prefix.len()
        invariant
            i <= prefix@.len() <= bytes@.len(),
            bytes@.take(i as int) == prefix@.take(i as int),
        decreases prefix@.len() - i,
    {
        if bytes[i] != prefix[i] {
            return false;
        }
        i += 1;
    }
    assert(prefix@.take(prefix@.len() as int) =~= prefix@);
    true
}

/// What ends a record: a marker, and how many of its leading bytes stand
/// between two records. The bytes of the marker behind those belong to the
/// record that follows, so every record but the first begins with them.
pub struct Marker {
    pattern: Vec<u8>,
    separator: usize,
}

impl Marker {
    /// The bytes that are looked for.
    pub closed spec fn pattern(&self) -> Seq<u8> {
        self.pattern@
    }

    /// The number of leading bytes of the marker that lie between two
    /// records.
    pub closed spec fn separator(&self) -> nat {
        self.separator as nat
    }

    /// The separator is at least one byte and no longer than the marker.
    pub open spec fn wf(&self) -> bool {
        1 <= self.separator() <= self.pattern().len()
    }

    /// The bytes of the marker with which the next record begins.
    pub open spec fn head(&self) -> Seq<u8> {
        self.pattern().skip(self.separator() as int)
    }

    /// A marker of one's own choice; none where `separator` is zero or
    /// longer than `pattern`.
    pub fn new(pattern: Vec<u8>, separator: usize) -> (made: Option<Marker>)
        ensures
            made is Some <==> 1 <= separator <= pattern@.len(),
            made matches Some(marker) ==> marker.wf() && marker.pattern() == pattern@
                && marker.separator() == separator,
    {
        if 1 <= separator && separator <= pattern.len() {
            Some(Marker { pattern, separator })
        } else {
            None
        }
    }

    /// The marker between two messages of a mailbox. The two line feeds lie
    /// between the messages; `From` and the space begin the next one.
    pub fn mbox() -> (marker: Marker)
        ensures
            marker.wf(),
            marker.pattern() == from_marker(),
            marker.separator() == 2,
    {
        let bytes: [u8; 7] = FROM_BYTES;
        let pattern: Vec<u8> = vstd::slice::slice_to_vec(bytes.as_slice());
        Marker { pattern, separator: 2 }
    }

    /// The marker between two lines: the line feed, all of which lies
    /// between them.
    pub fn line_feed() -> (marker: Marker)
        ensures
            marker.wf(),
            marker.pattern() == seq![LINE_FEED],
            marker.separator() == 1,
    {
        let pattern: Vec<u8> = vec![LINE_FEED];
        Marker { pattern, separator: 1 }
    }

    /// The bytes that are looked for.
    pub fn bytes(&self) -> (pattern: &[u8])
        ensures
            pattern@ == self.pattern(),
    {
        self.pattern.as_slice()
    }

    /// The number of bytes to drop behind a record.
    pub fn separator_len(&self) -> (count: usize)
        ensures
            count == self.separator(),
    {
        self.separator
    }
}

} // verus!
