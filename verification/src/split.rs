//! Splitting a sequence of bytes at a marker: the records that the marker
//! ends, what is left behind the last of them, and where the cuts lie.

use crate::mbox::{
    earliest_occurrence, lemma_match_is_earliest_iff_fresh, lemma_match_is_occurrence,
    lemma_match_of_prefix, lemma_occurrence_from_is_least, lemma_scan_from_is_first,
    lemma_scan_from_of_prefix, lemma_single_byte_match, occurs_at, progress, scan_match,
};
use vstd::prelude::*;

verus! {

/// Where the first record of `s` ends, if a marker ends it: the offset that
/// the pass reports, where the marker's separator fits behind it.
pub open spec fn first_cut(s: Seq<u8>, pattern: Seq<u8>, separator: nat) -> Option<int> {
    match scan_match(s, pattern) {
        Some(p) => if 0 <= p && 1 <= separator && p + separator <= s.len() {
            Some(p)
        } else {
            None
        },
        None => None,
    }
}

/// The records of `s` that a marker ends, in the order in which they stand.
/// The search for the next marker begins behind the separator of the last.
pub open spec fn delimited(s: Seq<u8>, pattern: Seq<u8>, separator: nat) -> Seq<Seq<u8>>
    decreases s.len(),
{
    match first_cut(s, pattern, separator) {
        Some(p) => seq![s.take(p)] + delimited(s.skip(p + separator), pattern, separator),
        None => Seq::empty(),
    }
}

/// What is left of `s` behind the separator of its last marker.
pub open spec fn remainder(s: Seq<u8>, pattern: Seq<u8>, separator: nat) -> Seq<u8>
    decreases s.len(),
{
    match first_cut(s, pattern, separator) {
        Some(p) => remainder(s.skip(p + separator), pattern, separator),
        None => s,
    }
}

/// The records one after the other, each with `separator` behind it.
pub open spec fn joined(records: Seq<Seq<u8>>, separator: Seq<u8>) -> Seq<u8>
    decreases records.len(),
{
    if records.len() == 0 {
        Seq::empty()
    } else {
        records[0] + separator + joined(records.skip(1), separator)
    }
}

/// A cut lies at an occurrence of the marker, and the separator behind it is
/// the front of that occurrence.
pub proof fn lemma_cut_is_occurrence(s: Seq<u8>, pattern: Seq<u8>, separator: nat)
    requires
        separator <= pattern.len(),
    ensures
        first_cut(s, pattern, separator) matches Some(p) ==> {
            &&& occurs_at(s, pattern, p)
            &&& s.subrange(p, p + separator) == pattern.take(separator as int)
        },
{
    lemma_match_is_occurrence(s, pattern);
    if let Some(p) = first_cut(s, pattern, separator) {
        assert(s.subrange(p, p + separator) =~= s.subrange(p, p + pattern.len()).take(
            separator as int,
        ));
    }
}

/// What is left behind the last cut holds no further cut.
pub proof fn lemma_remainder_has_no_cut(s: Seq<u8>, pattern: Seq<u8>, separator: nat)
    ensures
        first_cut(remainder(s, pattern, separator), pattern, separator) is None,
    decreases s.len(),
{
    if let Some(p) = first_cut(s, pattern, separator) {
        lemma_remainder_has_no_cut(s.skip(p + separator), pattern, separator);
    }
}

/// What is left behind the last cut is no longer than the sequence.
pub proof fn lemma_remainder_is_suffix(s: Seq<u8>, pattern: Seq<u8>, separator: nat)
    ensures
        remainder(s, pattern, separator).len() <= s.len(),
    decreases s.len(),
{
    if let Some(p) = first_cut(s, pattern, separator) {
        lemma_remainder_is_suffix(s.skip(p + separator), pattern, separator);
    }
}

/// Behind a cut the rest of the marker is left over: where the separator is
/// shorter than the marker, taking records never leaves a sequence empty.
pub proof fn lemma_head_is_left(s: Seq<u8>, pattern: Seq<u8>, separator: nat)
    requires
        1 <= separator <= pattern.len(),
        first_cut(s, pattern, separator) is Some,
    ensures
        remainder(s, pattern, separator).len() >= pattern.len() - separator,
    decreases s.len(),
{
    let p = first_cut(s, pattern, separator).unwrap();
    let rest = s.skip(p + separator);
    lemma_match_is_occurrence(s, pattern);
    assert(occurs_at(s, pattern, p));
    if first_cut(rest, pattern, separator) is Some {
        lemma_head_is_left(rest, pattern, separator);
    } else {
        assert(remainder(rest, pattern, separator) == rest);
        assert(rest.len() == s.len() - p - separator);
    }
}

/// Joining two runs of records one after the other joins the whole.
pub proof fn lemma_joined_concat(front: Seq<Seq<u8>>, back: Seq<Seq<u8>>, separator: Seq<u8>)
    ensures
        joined(front + back, separator) == joined(front, separator) + joined(back, separator),
    decreases front.len(),
{
    if front.len() == 0 {
        assert(front + back =~= back);
        assert(joined(front, separator) + joined(back, separator) =~= joined(back, separator));
    } else {
        lemma_joined_concat(front.skip(1), back, separator);
        assert((front + back).skip(1) =~= front.skip(1) + back);
        assert(joined(front + back, separator) =~= joined(front, separator) + joined(
            back,
            separator,
        ));
    }
}

/// The records of a sequence, each with the separator behind it, and what is
/// left behind the last of them are the sequence: no byte is lost and none
/// comes twice.
pub proof fn lemma_split_reassembles(s: Seq<u8>, pattern: Seq<u8>, separator: nat)
    requires
        separator <= pattern.len(),
    ensures
        joined(delimited(s, pattern, separator), pattern.take(separator as int)) + remainder(
            s,
            pattern,
            separator,
        ) == s,
    decreases s.len(),
{
    let gap = pattern.take(separator as int);
    match first_cut(s, pattern, separator) {
        Some(p) => {
            let rest = s.skip(p + separator);
            lemma_cut_is_occurrence(s, pattern, separator);
            lemma_split_reassembles(rest, pattern, separator);
            let later = delimited(rest, pattern, separator);
            assert((seq![s.take(p)] + later).skip(1) =~= later);
            assert(s.take(p) + gap + rest =~= s);
            assert(joined(delimited(s, pattern, separator), gap) + remainder(s, pattern, separator)
                =~= s.take(p) + gap + (joined(later, gap) + remainder(rest, pattern, separator)));
        },
        None => {
            assert(Seq::<u8>::empty() + s =~= s);
        },
    }
}

/// Splitting a sequence that grew: the records found before it grew stay,
/// and the search goes on in what was left of it and the bytes that came.
pub proof fn lemma_split_of_prefix(
    s: Seq<u8>,
    more: Seq<u8>,
    pattern: Seq<u8>,
    separator: nat,
)
    requires
        1 <= separator <= pattern.len(),
    ensures
        delimited(s + more, pattern, separator) == delimited(s, pattern, separator) + delimited(
            remainder(s, pattern, separator) + more,
            pattern,
            separator,
        ),
        remainder(s + more, pattern, separator) == remainder(
            remainder(s, pattern, separator) + more,
            pattern,
            separator,
        ),
    decreases s.len(),
{
    match first_cut(s, pattern, separator) {
        Some(p) => {
            lemma_match_of_prefix(s, more, pattern);
            lemma_split_of_prefix(s.skip(p + separator), more, pattern, separator);
            assert((s + more).skip(p + separator) =~= s.skip(p + separator) + more);
            assert((s + more).take(p) =~= s.take(p));
            assert(delimited(s + more, pattern, separator) =~= delimited(s, pattern, separator)
                + delimited(remainder(s, pattern, separator) + more, pattern, separator));
        },
        None => {
            lemma_match_is_occurrence(s, pattern);
            assert(delimited(s + more, pattern, separator) =~= delimited(s, pattern, separator)
                + delimited(s + more, pattern, separator));
        },
    }
}

/// A cut of a sequence that lies within its first bytes is a cut of those
/// bytes.
pub proof fn lemma_cut_within_prefix(s: Seq<u8>, more: Seq<u8>, pattern: Seq<u8>, separator: nat)
    requires
        1 <= separator <= pattern.len(),
        first_cut(s + more, pattern, separator) matches Some(p) && p + pattern.len() <= s.len(),
    ensures
        first_cut(s, pattern, separator) == first_cut(s + more, pattern, separator),
{
    lemma_scan_from_of_prefix(s, more, pattern, 0);
    lemma_scan_from_is_first(s + more, pattern, s.len() as int);
    lemma_match_is_occurrence(s, pattern);
}

/// The offsets in `s` of the markers that end its records, from left to
/// right.
pub open spec fn cuts(s: Seq<u8>, pattern: Seq<u8>, separator: nat) -> Seq<int>
    decreases s.len(),
{
    match first_cut(s, pattern, separator) {
        Some(p) => seq![p] + cuts(s.skip(p + separator), pattern, separator).map_values(
            |q: int| q + p + separator,
        ),
        None => Seq::empty(),
    }
}

/// Where record `i` begins: at the front, or behind the separator of the
/// marker before it.
pub open spec fn record_start(cuts: Seq<int>, separator: nat, i: int) -> int {
    if i <= 0 {
        0
    } else {
        cuts[i - 1] + separator
    }
}

/// There are as many records as cuts.
pub proof fn lemma_as_many_records_as_cuts(s: Seq<u8>, pattern: Seq<u8>, separator: nat)
    ensures
        delimited(s, pattern, separator).len() == cuts(s, pattern, separator).len(),
    decreases s.len(),
{
    if let Some(p) = first_cut(s, pattern, separator) {
        lemma_as_many_records_as_cuts(s.skip(p + separator), pattern, separator);
    }
}

/// Cut `i` lies at an occurrence of the marker, not before the separator of
/// the cut before it, and record `i` is what stands between the two.
pub proof fn lemma_record_at_cut(s: Seq<u8>, pattern: Seq<u8>, separator: nat, i: int)
    requires
        1 <= separator <= pattern.len(),
        0 <= i < cuts(s, pattern, separator).len(),
    ensures
        i < delimited(s, pattern, separator).len(),
        occurs_at(s, pattern, cuts(s, pattern, separator)[i]),
        0 <= record_start(cuts(s, pattern, separator), separator, i) <= cuts(
            s,
            pattern,
            separator,
        )[i],
        delimited(s, pattern, separator)[i] == s.subrange(
            record_start(cuts(s, pattern, separator), separator, i),
            cuts(s, pattern, separator)[i],
        ),
    decreases i,
{
    let p = first_cut(s, pattern, separator).unwrap();
    let offset = p + separator;
    let rest = s.skip(offset);
    let here = cuts(s, pattern, separator);
    let there = cuts(rest, pattern, separator);
    let records = delimited(s, pattern, separator);
    let later = delimited(rest, pattern, separator);
    lemma_cut_is_occurrence(s, pattern, separator);
    lemma_as_many_records_as_cuts(s, pattern, separator);
    assert(here == seq![p] + there.map_values(|q: int| q + p + separator));
    assert(records == seq![s.take(p)] + later);
    if i == 0 {
        assert(here[0] == p);
        assert(records[0] == s.take(p));
        assert(s.take(p) =~= s.subrange(0, p));
    } else {
        lemma_record_at_cut(rest, pattern, separator, i - 1);
        let q = there[i - 1];
        let from = record_start(there, separator, i - 1);
        assert(here[i] == q + offset);
        assert(records[i] == later[i - 1]);
        assert(record_start(here, separator, i) == from + offset) by {
            if i > 1 {
                assert(here[i - 1] == there[i - 2] + offset);
            }
        }
        assert(rest.subrange(q, q + pattern.len()) =~= s.subrange(
            q + offset,
            q + offset + pattern.len(),
        ));
        assert(rest.subrange(from, q) =~= s.subrange(from + offset, q + offset));
    }
}

/// What is left over stands behind the separator of the last cut.
pub proof fn lemma_remainder_behind_last_cut(s: Seq<u8>, pattern: Seq<u8>, separator: nat)
    requires
        1 <= separator <= pattern.len(),
    ensures
        0 <= record_start(
            cuts(s, pattern, separator),
            separator,
            cuts(s, pattern, separator).len() as int,
        ) <= s.len(),
        remainder(s, pattern, separator) == s.skip(
            record_start(
                cuts(s, pattern, separator),
                separator,
                cuts(s, pattern, separator).len() as int,
            ),
        ),
    decreases s.len(),
{
    match first_cut(s, pattern, separator) {
        Some(p) => {
            let offset = p + separator;
            let rest = s.skip(offset);
            let here = cuts(s, pattern, separator);
            let there = cuts(rest, pattern, separator);
            lemma_remainder_behind_last_cut(rest, pattern, separator);
            let end = record_start(there, separator, there.len() as int);
            assert(here == seq![p] + there.map_values(|q: int| q + p + separator));
            assert(record_start(here, separator, here.len() as int) == end + offset) by {
                if there.len() > 0 {
                    assert(here[here.len() - 1] == there[there.len() - 1] + offset);
                }
            }
            assert(rest.skip(end) =~= s.skip(end + offset));
        },
        None => {
            assert(s.skip(0) =~= s);
        },
    }
}

/// One record for each marker that the pass reports, in the order of the
/// input: each marker is an occurrence of the pattern, each lies behind
/// the separator of the one before it, record `i` is what stands between
/// marker `i` and the marker before it, and what stands behind the last
/// marker is left over.
pub proof fn lemma_records_follow_cuts(s: Seq<u8>, pattern: Seq<u8>, separator: nat)
    requires
        1 <= separator <= pattern.len(),
    ensures
        delimited(s, pattern, separator).len() == cuts(s, pattern, separator).len(),
        forall|i: int|
            #![trigger cuts(s, pattern, separator)[i]]
            0 <= i < cuts(s, pattern, separator).len() ==> {
                &&& occurs_at(s, pattern, cuts(s, pattern, separator)[i])
                &&& record_start(cuts(s, pattern, separator), separator, i) <= cuts(
                    s,
                    pattern,
                    separator,
                )[i]
                &&& delimited(s, pattern, separator)[i] == s.subrange(
                    record_start(cuts(s, pattern, separator), separator, i),
                    cuts(s, pattern, separator)[i],
                )
            },
        remainder(s, pattern, separator) == s.skip(
            record_start(
                cuts(s, pattern, separator),
                separator,
                cuts(s, pattern, separator).len() as int,
            ),
        ),
{
    let here = cuts(s, pattern, separator);
    lemma_as_many_records_as_cuts(s, pattern, separator);
    lemma_remainder_behind_last_cut(s, pattern, separator);
    assert forall|i: int| 0 <= i < here.len() implies {
        &&& occurs_at(s, pattern, #[trigger] here[i])
        &&& record_start(here, separator, i) <= here[i]
        &&& delimited(s, pattern, separator)[i] == s.subrange(
            record_start(here, separator, i),
            here[i],
        )
    } by {
        lemma_record_at_cut(s, pattern, separator, i);
    }
}

/// A marker of one byte ends a record wherever it stands: the cuts are the
/// offsets that hold the byte, all of them, so an input with so many line
/// feeds has as many lines before its last.
pub proof fn lemma_single_byte_cuts_everywhere(s: Seq<u8>, pattern: Seq<u8>)
    requires
        pattern.len() == 1,
    ensures
        forall|q: int|
            0 <= q < s.len() && s[q] == pattern[0] ==> cuts(s, pattern, 1).contains(q),
        forall|i: int|
            0 <= i < cuts(s, pattern, 1).len() ==> {
                &&& 0 <= #[trigger] cuts(s, pattern, 1)[i] < s.len()
                &&& s[cuts(s, pattern, 1)[i]] == pattern[0]
            },
        forall|i: int, j: int|
            0 <= i < j < cuts(s, pattern, 1).len() ==> cuts(s, pattern, 1)[i] < cuts(
                s,
                pattern,
                1,
            )[j],
    decreases s.len(),
{
    let here = cuts(s, pattern, 1);
    lemma_single_byte_match(s, pattern);
    match first_cut(s, pattern, 1) {
        Some(p) => {
            let rest = s.skip(p + 1);
            let there = cuts(rest, pattern, 1);
            lemma_single_byte_cuts_everywhere(rest, pattern);
            assert forall|q: int| 0 <= q < s.len() && s[q] == pattern[0] implies here.contains(
                q,
            ) by {
                if q == p {
                    assert(here[0] == p);
                } else {
                    assert(rest[q - p - 1] == s[q]);
                    let i = choose|i: int| 0 <= i < there.len() && there[i] == q - p - 1;
                    assert(here[i + 1] == q);
                }
            }
            assert forall|i: int| 0 <= i < here.len() implies {
                &&& 0 <= #[trigger] here[i] < s.len()
                &&& s[here[i]] == pattern[0]
            } by {
                if i > 0 {
                    assert(here[i] == there[i - 1] + p + 1);
                    assert(rest[there[i - 1]] == s[here[i]]);
                }
            }
            assert forall|i: int, j: int| 0 <= i < j < here.len() implies here[i] < here[j] by {
                assert(here[j] == there[j - 1] + p + 1);
                if i > 0 {
                    assert(here[i] == there[i - 1] + p + 1);
                }
            }
        },
        None => {},
    }
}

/// The offsets of the markers in `s`, from left to right, each the earliest
/// occurrence of the pattern behind the separator of the one before it.
pub open spec fn markers(s: Seq<u8>, pattern: Seq<u8>, separator: nat) -> Seq<int>
    decreases s.len(),
{
    match earliest_occurrence(s, pattern) {
        Some(q) => if 0 <= q && 1 <= separator && q + separator <= s.len() {
            seq![q] + markers(s.skip(q + separator), pattern, separator).map_values(
                |r: int| r + q + separator,
            )
        } else {
            Seq::empty()
        },
        None => Seq::empty(),
    }
}

/// The pass reaches every marker of `s` with its counter at zero: no marker
/// begins inside a partial match that fails. The search begins anew behind
/// the separator of each marker.
pub open spec fn reached_fresh(s: Seq<u8>, pattern: Seq<u8>, separator: nat) -> bool
    decreases s.len(),
{
    match earliest_occurrence(s, pattern) {
        Some(q) => if 0 <= q && 1 <= separator && q + separator <= s.len() {
            progress(s, pattern, q) == 0 && reached_fresh(
                s.skip(q + separator),
                pattern,
                separator,
            )
        } else {
            true
        },
        None => true,
    }
}

/// An input with so many markers has as many records before its last, cut
/// at those markers, if and only if the pass reaches each marker with its
/// counter at zero. On any other input the pass walks past a marker, and a
/// record holds it.
pub proof fn lemma_cuts_are_markers_iff_fresh(s: Seq<u8>, pattern: Seq<u8>, separator: nat)
    requires
        1 <= separator <= pattern.len(),
    ensures
        reached_fresh(s, pattern, separator) <==> cuts(s, pattern, separator) == markers(
            s,
            pattern,
            separator,
        ),
    decreases s.len(),
{
    lemma_match_is_earliest_iff_fresh(s, pattern);
    lemma_occurrence_from_is_least(s, pattern, 0);
    lemma_match_is_occurrence(s, pattern);
    let here = cuts(s, pattern, separator);
    let all = markers(s, pattern, separator);
    if let Some(q) = earliest_occurrence(s, pattern) {
        let rest = s.skip(q + separator);
        let found = markers(rest, pattern, separator);
        assert(all[0] == q);
        if progress(s, pattern, q) == 0 {
            let there = cuts(rest, pattern, separator);
            lemma_cuts_are_markers_iff_fresh(rest, pattern, separator);
            if here == all {
                assert(there.len() == found.len()) by {
                    assert(here.len() == there.len() + 1);
                    assert(all.len() == found.len() + 1);
                }
                assert forall|i: int| 0 <= i < there.len() implies there[i] == found[i] by {
                    assert(here[i + 1] == there[i] + q + separator);
                    assert(all[i + 1] == found[i] + q + separator);
                }
                assert(there =~= found);
            }
        } else {
            if let Some(p) = first_cut(s, pattern, separator) {
                assert(here[0] == p);
            }
        }
    }
}

} // verus!
