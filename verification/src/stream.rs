//! Scanning a stream through the window: what the rounds of filling and
//! splitting yield, and when that is the split of the whole stream.

use crate::buf::{room_of, start_after_fill};
use crate::io::least;
use crate::mbox::{begins_with, lemma_match_is_occurrence, lemma_match_of_prefix};
use crate::split::{
    cuts, delimited, first_cut, joined, lemma_cut_within_prefix, lemma_head_is_left,
    lemma_joined_concat, lemma_records_follow_cuts, lemma_remainder_has_no_cut,
    lemma_remainder_is_suffix, lemma_split_of_prefix, lemma_split_reassembles, remainder,
};
use vstd::prelude::*;

verus! {

/// What a scan of a stream yields.
pub struct Outcome {
    /// The records that a marker ended, in the order of the stream.
    pub records: Seq<Seq<u8>>,
    /// The unconsumed bytes that the window holds when the scan ends.
    pub last: Seq<u8>,
    /// The bytes of the stream that were never read.
    pub unread: Seq<u8>,
    /// Where the window's `start` stands when the scan ends.
    pub start: nat,
}

impl Outcome {
    /// The records as they are returned: those that a marker ended, and
    /// then what the window still holds, if that is not empty.
    pub open spec fn emitted(self) -> Seq<Seq<u8>> {
        if self.last.len() > 0 {
            self.records.push(self.last)
        } else {
            self.records
        }
    }
}

/// The scan of a stream through a window of `capacity` bytes that holds
/// `view` from offset `start` on, while `pending` is still to come.
///
/// Each round fills the window, as far as it has room and the stream has
/// bytes, and takes from it every record that a marker ends. The scan ends
/// with the round that appends nothing. Where `first` is set, the window must
/// begin with the marker's head after the first round that appends anything,
/// or there is no outcome.
pub open spec fn scan(
    capacity: nat,
    start: nat,
    view: Seq<u8>,
    pending: Seq<u8>,
    pattern: Seq<u8>,
    separator: nat,
    first: bool,
) -> Option<Outcome>
    decreases pending.len(),
{
    let count = least(room_of(capacity, start, view.len()), pending.len());
    let filled = view + pending.take(count as int);
    let rest = remainder(filled, pattern, separator);
    let moved = start_after_fill(start, view.len());
    if count == 0 {
        Some(Outcome { records: Seq::empty(), last: view, unread: pending, start: moved })
    } else if first && !begins_with(filled, pattern.skip(separator as int)) {
        None
    } else {
        match scan(
            capacity,
            (moved + filled.len() - rest.len()) as nat,
            rest,
            pending.skip(count as int),
            pattern,
            separator,
            false,
        ) {
            Some(later) => Some(
                Outcome {
                    records: delimited(filled, pattern, separator) + later.records,
                    last: later.last,
                    unread: later.unread,
                    start: later.start,
                },
            ),
            None => None,
        }
    }
}

/// Only the first round that appends anything can end a scan without an
/// outcome.
pub proof fn lemma_later_rounds_never_fail(
    capacity: nat,
    start: nat,
    view: Seq<u8>,
    pending: Seq<u8>,
    pattern: Seq<u8>,
    separator: nat,
)
    ensures
        scan(capacity, start, view, pending, pattern, separator, false) is Some,
    decreases pending.len(),
{
    let count = least(room_of(capacity, start, view.len()), pending.len());
    let filled = view + pending.take(count as int);
    if count > 0 {
        lemma_later_rounds_never_fail(
            capacity,
            (start_after_fill(start, view.len()) + filled.len() - remainder(
                filled,
                pattern,
                separator,
            ).len()) as nat,
            remainder(filled, pattern, separator),
            pending.skip(count as int),
            pattern,
            separator,
        );
    }
}

/// Where the separator is the whole marker, nothing is asked of the
/// beginning of the input, and every scan has an outcome.
pub proof fn lemma_empty_head_never_fails(
    capacity: nat,
    start: nat,
    view: Seq<u8>,
    pending: Seq<u8>,
    pattern: Seq<u8>,
    separator: nat,
)
    requires
        separator == pattern.len(),
    ensures
        scan(capacity, start, view, pending, pattern, separator, true) is Some,
{
    let count = least(room_of(capacity, start, view.len()), pending.len());
    let filled = view + pending.take(count as int);
    assert(filled.take(0) =~= pattern.skip(separator as int));
    if count > 0 {
        lemma_later_rounds_never_fail(
            capacity,
            (start_after_fill(start, view.len()) + filled.len() - remainder(
                filled,
                pattern,
                separator,
            ).len()) as nat,
            remainder(filled, pattern, separator),
            pending.skip(count as int),
            pattern,
            separator,
        );
    }
}

/// Whatever the capacity of the window: the records of a scan, each with
/// the separator behind it, then what the window holds at the end, then what
/// was never read are the bytes that the window held and the stream had to
/// give. A scan that reads the stream to its end thus gives back every byte
/// of it, once.
pub proof fn lemma_scan_reassembles(
    capacity: nat,
    start: nat,
    view: Seq<u8>,
    pending: Seq<u8>,
    pattern: Seq<u8>,
    separator: nat,
    first: bool,
)
    requires
        separator <= pattern.len(),
    ensures
        scan(capacity, start, view, pending, pattern, separator, first) matches Some(found) ==> {
            &&& joined(found.records, pattern.take(separator as int)) + found.last + found.unread
                == view + pending
            &&& found.unread.len() == 0 ==> joined(found.records, pattern.take(separator as int))
                + found.last == view + pending
        },
    decreases pending.len(),
{
    let gap = pattern.take(separator as int);
    let count = least(room_of(capacity, start, view.len()), pending.len());
    let filled = view + pending.take(count as int);
    let rest = remainder(filled, pattern, separator);
    let moved = start_after_fill(start, view.len());
    if let Some(found) = scan(capacity, start, view, pending, pattern, separator, first) {
        if count == 0 {
            assert(joined(found.records, gap) + found.last + found.unread =~= view + pending);
        } else {
            let next_start = (moved + filled.len() - rest.len()) as nat;
            let later = scan(
                capacity,
                next_start,
                rest,
                pending.skip(count as int),
                pattern,
                separator,
                false,
            ).unwrap();
            lemma_scan_reassembles(
                capacity,
                next_start,
                rest,
                pending.skip(count as int),
                pattern,
                separator,
                false,
            );
            lemma_split_reassembles(filled, pattern, separator);
            lemma_joined_concat(delimited(filled, pattern, separator), later.records, gap);
            assert(filled + pending.skip(count as int) =~= view + pending);
            let head = joined(delimited(filled, pattern, separator), gap);
            let tail = joined(later.records, gap) + later.last + later.unread;
            assert(found.records == delimited(filled, pattern, separator) + later.records);
            assert(tail == rest + pending.skip(count as int));
            assert(joined(found.records, gap) + found.last + found.unread =~= head + tail);
            assert(head + tail =~= (head + rest) + pending.skip(count as int));
        }
        if found.unread.len() == 0 {
            assert(joined(found.records, gap) + found.last + found.unread =~= joined(
                found.records,
                gap,
            ) + found.last);
        }
    }
}

/// The window does not show in the records of a scan that reads the stream
/// to its end: they are the records of the whole input, split in one piece,
/// and the window is left with what lies behind the last of them.
///
/// The window must hold no cut when the scan begins, as it does when it is
/// new and after every scan that gave an outcome.
pub proof fn lemma_window_does_not_show(
    capacity: nat,
    start: nat,
    view: Seq<u8>,
    pending: Seq<u8>,
    pattern: Seq<u8>,
    separator: nat,
    first: bool,
)
    requires
        1 <= separator <= pattern.len(),
        first_cut(view, pattern, separator) is None,
        scan(capacity, start, view, pending, pattern, separator, first) matches Some(found)
            && found.unread.len() == 0,
    ensures
        scan(capacity, start, view, pending, pattern, separator, first) matches Some(found) && {
            &&& found.records == delimited(view + pending, pattern, separator)
            &&& found.last == remainder(view + pending, pattern, separator)
        },
    decreases pending.len(),
{
    let count = least(room_of(capacity, start, view.len()), pending.len());
    let filled = view + pending.take(count as int);
    let rest = remainder(filled, pattern, separator);
    let moved = start_after_fill(start, view.len());
    let found = scan(capacity, start, view, pending, pattern, separator, first).unwrap();
    if count == 0 {
        assert(view + pending =~= view);
    } else {
        let more = pending.skip(count as int);
        let next_start = (moved + filled.len() - rest.len()) as nat;
        lemma_remainder_has_no_cut(filled, pattern, separator);
        lemma_window_does_not_show(capacity, next_start, rest, more, pattern, separator, false);
        lemma_split_of_prefix(filled, more, pattern, separator);
        assert(filled + more =~= view + pending);
    }
}

/// A window with room for all that the stream still has reads the stream to
/// its end.
pub proof fn lemma_roomy_window_reads_all(
    capacity: nat,
    start: nat,
    view: Seq<u8>,
    pending: Seq<u8>,
    pattern: Seq<u8>,
    separator: nat,
    first: bool,
)
    requires
        pending.len() <= room_of(capacity, start, view.len()),
    ensures
        scan(capacity, start, view, pending, pattern, separator, first) matches Some(found)
            ==> found.unread.len() == 0,
{
    let count = pending.len();
    let filled = view + pending.take(count as int);
    let rest = remainder(filled, pattern, separator);
    let moved = start_after_fill(start, view.len());
    if count > 0 {
        let next_start = (moved + filled.len() - rest.len()) as nat;
        let more = pending.skip(count as int);
        assert(least(room_of(capacity, next_start, rest.len()), more.len()) == 0);
        assert(scan(capacity, next_start, rest, more, pattern, separator, false) == Some(
            Outcome {
                records: Seq::empty(),
                last: rest,
                unread: more,
                start: start_after_fill(next_start, rest.len()),
            },
        ));
    }
}

/// Every record of `s` together with the marker that ends it, and what is
/// left behind the last marker, is no longer than `capacity`.
pub open spec fn fits(s: Seq<u8>, pattern: Seq<u8>, separator: nat, capacity: nat) -> bool
    decreases s.len(),
{
    match first_cut(s, pattern, separator) {
        Some(p) => p + pattern.len() <= capacity && fits(
            s.skip(p + separator),
            pattern,
            separator,
            capacity,
        ),
        None => s.len() <= capacity,
    }
}

/// Where every record of a sequence fits, so does every record of what is
/// left once the records that its first bytes hold are taken.
pub proof fn lemma_fits_of_prefix(
    s: Seq<u8>,
    more: Seq<u8>,
    pattern: Seq<u8>,
    separator: nat,
    capacity: nat,
)
    requires
        1 <= separator <= pattern.len(),
        fits(s + more, pattern, separator, capacity),
    ensures
        fits(remainder(s, pattern, separator) + more, pattern, separator, capacity),
    decreases s.len(),
{
    if let Some(p) = first_cut(s, pattern, separator) {
        lemma_match_of_prefix(s, more, pattern);
        assert((s + more).skip(p + separator) =~= s.skip(p + separator) + more);
        lemma_fits_of_prefix(s.skip(p + separator), more, pattern, separator, capacity);
    }
}

/// A window in which every record fits together with its marker reads the
/// stream to its end, provided that the separator is shorter than the
/// marker.
///
/// The window holds no cut at the beginning, and its bytes stand at the
/// front unless it is empty and `start` is zero, as in a new window. Where
/// the separator is the whole marker, a record that ends with the window
/// leaves the window empty with its cursors at the end, and the scan stops
/// there.
pub proof fn lemma_fitting_records_read_all(
    capacity: nat,
    start: nat,
    view: Seq<u8>,
    pending: Seq<u8>,
    pattern: Seq<u8>,
    separator: nat,
    first: bool,
)
    requires
        1 <= separator < pattern.len(),
        start + view.len() <= capacity,
        view.len() > 0 || start == 0,
        first_cut(view, pattern, separator) is None,
        fits(view + pending, pattern, separator, capacity),
    ensures
        scan(capacity, start, view, pending, pattern, separator, first) matches Some(found)
            ==> found.unread.len() == 0,
    decreases pending.len(),
{
    let count = least(room_of(capacity, start, view.len()), pending.len());
    let filled = view + pending.take(count as int);
    let rest = remainder(filled, pattern, separator);
    let moved = start_after_fill(start, view.len());
    if scan(capacity, start, view, pending, pattern, separator, first) is Some {
        if count == 0 {
            if pending.len() > 0 {
                // The window is full and holds no cut, so the first record
                // of the input does not fit.
                assert(view.len() == capacity);
                if let Some(p) = first_cut(view + pending, pattern, separator) {
                    lemma_cut_within_prefix(view, pending, pattern, separator);
                }
                assert(false);
            }
        } else {
            let more = pending.skip(count as int);
            let next_start = (moved + filled.len() - rest.len()) as nat;
            assert(filled + more =~= view + pending);
            lemma_fits_of_prefix(filled, more, pattern, separator, capacity);
            lemma_remainder_has_no_cut(filled, pattern, separator);
            if first_cut(filled, pattern, separator) is Some {
                lemma_head_is_left(filled, pattern, separator);
            }
            lemma_remainder_is_suffix(filled, pattern, separator);
            lemma_fitting_records_read_all(
                capacity,
                next_start,
                rest,
                more,
                pattern,
                separator,
                false,
            );
        }
    }
}

/// A new window and an input of which every record fits in the window
/// together with its marker: the scan reads all of the input, its records
/// are the records of the whole input, one for each marker that the pass
/// reports and in that order, and the records with a separator behind each,
/// followed by what is left, are the input.
///
/// Where the separator is the whole marker, as it is for lines, this is
/// stated of an input that fits in the window as a whole: a record that ends
/// with the window leaves the window empty with its cursors at the end, and
/// the scan stops there, whatever the stream still holds.
pub proof fn lemma_nothing_is_lost(
    capacity: nat,
    input: Seq<u8>,
    pattern: Seq<u8>,
    separator: nat,
    first: bool,
)
    requires
        1 <= separator <= pattern.len(),
        fits(input, pattern, separator, capacity),
        separator < pattern.len() || input.len() <= capacity,
    ensures
        scan(capacity, 0, Seq::empty(), input, pattern, separator, first) matches Some(found)
            ==> {
            &&& found.unread.len() == 0
            &&& found.records == delimited(input, pattern, separator)
            &&& found.records.len() == cuts(input, pattern, separator).len()
            &&& found.last == remainder(input, pattern, separator)
            &&& joined(found.records, pattern.take(separator as int)) + found.last == input
        },
{
    let nothing = Seq::<u8>::empty();
    assert(nothing + input =~= input);
    lemma_match_is_occurrence(nothing, pattern);
    if input.len() <= capacity {
        lemma_roomy_window_reads_all(capacity, 0, nothing, input, pattern, separator, first);
    } else {
        lemma_fitting_records_read_all(capacity, 0, nothing, input, pattern, separator, first);
    }
    if scan(capacity, 0, nothing, input, pattern, separator, first) is Some {
        lemma_window_does_not_show(capacity, 0, nothing, input, pattern, separator, first);
        lemma_scan_reassembles(capacity, 0, nothing, input, pattern, separator, first);
        lemma_records_follow_cuts(input, pattern, separator);
    }
}

} // verus!
