//! The sliding window: a fixed region of bytes with two cursors that delimit
//! the bytes that were read and not yet consumed.

use crate::io::{is_rest_of, least, read_handling_short, ByteSource};
use bytes::BytesMut;
use vstd::prelude::*;

verus! {

#[verifier::external_type_specification]
#[verifier::external_body]
pub struct ExBytesMut(BytesMut);

/// The bytes that a `BytesMut` holds, from its first to its last.
pub uninterp spec fn held(bytes: BytesMut) -> Seq<u8>;

/// `BytesMut::zeroed`: a region of `size` bytes, each of them zero. The
/// region is allocated as a vector, which cannot be longer than `isize::MAX`.
#[verifier::external_body]
fn zeroed(size: usize) -> (bytes: BytesMut)
    requires
        size <= isize::MAX,
    ensures
        held(bytes) == Seq::new(size as nat, |i: int| 0u8),
{
    BytesMut::zeroed(size)
}

/// `Clone::clone` of `BytesMut`: a region of its own that holds the same
/// bytes.
#[verifier::external_body]
fn duplicate(bytes: &BytesMut) -> (copy: BytesMut)
    ensures
        held(copy) == held(*bytes),
{
    bytes.clone()
}

/// `Deref::deref` of `BytesMut`: the held bytes as a slice.
#[verifier::external_body]
fn as_slice(bytes: &BytesMut) -> (slice: &[u8])
    ensures
        slice@ == held(*bytes),
{
    std::ops::Deref::deref(bytes)
}

/// `DerefMut::deref_mut` of `BytesMut`: the held bytes as a slice that can be
/// written through. What the slice holds when the borrow ends is what the
/// region holds from then on; its length cannot change.
#[verifier::external_body]
fn as_mut_slice(bytes: &mut BytesMut) -> (slice: &mut [u8])
    ensures
        slice@ == held(*old(bytes)),
        held(*final(bytes)) == final(slice)@,
        final(slice)@.len() == slice@.len(),
{
    std::ops::DerefMut::deref_mut(bytes)
}

/// `copy_from_slice` of a slice: overwrites `target` with the bytes of
/// `source`, which must be as long.
#[verifier::external_body]
fn copy_from_slice(target: &mut [u8], source: &[u8])
    requires
        old(target)@.len() == source@.len(),
    ensures
        final(target)@ == source@,
{
    target.copy_from_slice(source)
}

/// The room that `fill` has for new bytes in a window of `capacity` bytes
/// that holds `available` unconsumed bytes from offset `start` on. Unconsumed
/// bytes are moved to the front first; where there are none, the cursors stay
/// where they are and only the storage behind them is free.
pub open spec fn room_of(capacity: nat, start: nat, available: nat) -> nat {
    if available > 0 {
        (capacity - available) as nat
    } else {
        (capacity - start) as nat
    }
}

/// Where `start` stands once `fill` has made room.
pub open spec fn start_after_fill(start: nat, available: nat) -> nat {
    if available > 0 {
        0
    } else {
        start
    }
}

/// What a call of `fill` found.
#[derive(PartialEq, Eq, Structural, Debug, Clone, Copy)]
pub enum Status {
    /// At least one new byte was appended.
    Success,
    /// No byte was appended.
    EndOfFile,
}

/// A window over a byte source: `capacity` bytes of storage, of which those
/// from `start` up to `end` were read and are not yet consumed.
pub struct Buf {
    inner: BytesMut,
    start: usize,
    end: usize,
}

impl View for Buf {
    type V = Seq<u8>;

    /// The bytes that were read and are not yet consumed.
    closed spec fn view(&self) -> Seq<u8> {
        held(self.inner).subrange(self.start as int, self.end as int)
    }
}

impl Buf {
    /// The cursors lie inside the storage, `start` not after `end`.
    pub closed spec fn wf(&self) -> bool {
        self.start <= self.end <= held(self.inner).len()
    }

    /// The fixed length of the storage.
    pub closed spec fn capacity(&self) -> nat {
        held(self.inner).len()
    }

    /// The offset of the first byte that is not yet consumed.
    pub closed spec fn spec_start(&self) -> usize {
        self.start
    }

    /// The offset one past the last byte that was read.
    pub closed spec fn spec_end(&self) -> usize {
        self.end
    }

    /// The number of bytes that were read and are not yet consumed.
    pub open spec fn spec_available(&self) -> nat {
        (self.spec_end() - self.spec_start()) as nat
    }

    /// The room that `fill` has for new bytes.
    pub open spec fn room(&self) -> nat {
        room_of(self.capacity(), self.spec_start() as nat, self@.len())
    }

    /// The number of bytes that `fill` appends from a source that holds
    /// `pending`: as many as there is room for, or all that the source has.
    pub open spec fn appended(&self, pending: Seq<u8>) -> nat {
        least(self.room(), pending.len())
    }

    /// What `fill` finds with a source that holds `pending`.
    pub open spec fn finds(&self, pending: Seq<u8>) -> Status {
        if self.appended(pending) == 0 {
            Status::EndOfFile
        } else {
            Status::Success
        }
    }

    /// In a well-formed window the view is as long as the cursors are apart.
    pub proof fn lemma_view_len(&self)
        requires
            self.wf(),
        ensures
            self@.len() == self.spec_end() - self.spec_start(),
            self.spec_start() <= self.spec_end() <= self.capacity(),
    {
    }

    /// Constructs a window of `size` bytes with nothing read.
    pub fn new(size: usize) -> (buf: Self)
        requires
            size <= isize::MAX,
        ensures
            buf.wf(),
            buf.capacity() == size,
            buf.spec_start() == 0,
            buf.spec_end() == 0,
            buf@ == Seq::<u8>::empty(),
    {
        Buf { inner: zeroed(size), start: 0, end: 0 }
    }

    /// Moves any unconsumed bytes to the beginning of the storage and fills
    /// the rest with what `reader` hands out in one or more reads, until the
    /// storage is full or the source is at its end.
    ///
    /// `EndOfFile` says that not one byte was appended: the source is at its
    /// end, or the window had no room. When the source fails the window shows
    /// what it showed before, and the bytes read in this call are lost.
    pub fn fill<S: ByteSource>(&mut self, reader: &mut S) -> (result: Result<
        Status,
        std::io::Error,
    >)
        requires
            old(self).wf(),
        ensures
            final(self).wf(),
            final(self).capacity() == old(self).capacity(),
            final(self).spec_start() == start_after_fill(
                old(self).spec_start() as nat,
                old(self)@.len(),
            ),
            old(reader).reliable() ==> result is Ok && final(reader).reliable(),
            old(reader).fault() matches Some(error) ==> result == Err::<Status, std::io::Error>(
                error,
            ),
            match result {
                Ok(status) => {
                    let count = old(self).appended(old(reader).pending());
                    &&& status == old(self).finds(old(reader).pending())
                    &&& final(self)@ == old(self)@ + old(reader).pending().take(count as int)
                    &&& final(reader).pending() == old(reader).pending().skip(count as int)
                },
                Err(_) => {
                    &&& final(self)@ == old(self)@
                    &&& is_rest_of(final(reader).pending(), old(reader).pending())
                },
            },
    {
        if self.available() > 0 && self.start > 0 {
            move_data_to_beginning(self);
        }
        let end: usize = self.end;
        let storage: &mut [u8] = as_mut_slice(&mut self.inner);
        assert(storage@.len() == storage.len());
        let (_, target) = storage.split_at_mut(end);
        match read_handling_short(reader, target) {
            Err(e) => Err(e),
            Ok(count) => {
                if count == 0 {
                    Ok(Status::EndOfFile)
                } else {
                    self.end += count;
                    Ok(Status::Success)
                }
            },
        }
    }

    /// The offset of the first byte that is not yet consumed.
    #[verifier::when_used_as_spec(spec_start)]
    pub fn start(&self) -> (offset: usize)
        ensures
            offset == self.spec_start(),
    {
        self.start
    }

    /// The offset one past the last byte that was read.
    #[verifier::when_used_as_spec(spec_end)]
    pub fn end(&self) -> (offset: usize)
        ensures
            offset == self.spec_end(),
    {
        self.end
    }

    /// The number of bytes that were read and are not yet consumed.
    pub fn available(&self) -> (count: usize)
        requires
            self.wf(),
        ensures
            count == self@.len(),
            count == self.spec_available(),
    {
        self.end - self.start
    }

    /// The bytes that were read and are not yet consumed. Neither cursor
    /// moves.
    pub fn peek(&self) -> (bytes: &[u8])
        requires
            self.wf(),
        ensures
            bytes@ == self@,
    {
        let all: &[u8] = as_slice(&self.inner);
        vstd::slice::slice_subrange(all, self.start, self.end)
    }

    /// Marks the first `count` unconsumed bytes as consumed.
    ///
    /// No more can be consumed than the window shows. A caller that is not
    /// verified and asks for more is stopped before a cursor moves.
    pub fn consume(&mut self, count: usize)
        requires
            old(self).wf(),
            count <= old(self)@.len(),
        ensures
            final(self).wf(),
            final(self)@ == old(self)@.skip(count as int),
            final(self).capacity() == old(self).capacity(),
            final(self).spec_start() == old(self).spec_start() + count,
            final(self).spec_end() == old(self).spec_end(),
    {
        vstd::pervasive::runtime_assert(count <= self.end - self.start);
        self.start += count;
    }
}

/// Moves the unconsumed bytes to the front of the storage. Their values and
/// their order stay as they are.
pub fn move_data_to_beginning(buf: &mut Buf)
    requires
        old(buf).wf(),
    ensures
        final(buf).wf(),
        final(buf)@ == old(buf)@,
        final(buf).capacity() == old(buf).capacity(),
        final(buf).spec_start() == 0,
        final(buf).spec_end() == old(buf)@.len(),
{
    let start: usize = buf.start;
    let end: usize = buf.end;
    let copy_count: usize = end - start;
    let ghost before = held(buf.inner);
    if copy_count <= start {
        // The bytes to move and the place they go to do not overlap: one
        // copy from a snapshot does it.
        let snapshot: BytesMut = duplicate(&buf.inner);
        let source: &[u8] = vstd::slice::slice_subrange(as_slice(&snapshot), start, end);
        let storage: &mut [u8] = as_mut_slice(&mut buf.inner);
        let (target, _) = storage.split_at_mut(copy_count);
        copy_from_slice(target, source);
    } else {
        // They overlap: copy byte by byte, from the lowest offset up, so
        // that no byte is overwritten before it was read.
        let storage: &mut [u8] = as_mut_slice(&mut buf.inner);
        let mut i: usize = 0;
        while i < copy_count
            invariant
                i <= copy_count,
                copy_count == end - start,
                end <= before.len(),
                storage@.len() == before.len(),
                forall|j: int| 0 <= j < i ==> storage@[j] == before[j + start],
                forall|j: int| i + start <= j < end ==> storage@[j] == before[j],
            decreases copy_count - i,
        {
            storage[i] = storage[i + start];
            i += 1;
        }
    }
    buf.start = 0;
    buf.end = copy_count;
}

/// The end of the stream is for good: once a fill has found `EndOfFile`, a
/// later fill from the same source finds `EndOfFile` again.
///
/// `before` is the window that was filled and `after` the window as that
/// fill left it; `later` is `after` with `consumed` more bytes consumed, and
/// `pending` is what the source holds. This is stated for a source at its
/// end, and for a source that still holds bytes where none or all of the
/// window was consumed in between. Where the first fill found the window
/// full and a part of it was consumed since, the later fill has room and
/// appends.
pub proof fn lemma_end_of_file_stays(
    before: Buf,
    after: Buf,
    later: Buf,
    pending: Seq<u8>,
    consumed: nat,
)
    requires
        before.wf(),
        after.wf(),
        later.wf(),
        before.finds(pending) == Status::EndOfFile,
        after.capacity() == before.capacity(),
        after@ == before@,
        after.spec_start() == start_after_fill(before.spec_start() as nat, before@.len()),
        consumed <= after@.len(),
        later.capacity() == after.capacity(),
        later@ == after@.skip(consumed as int),
        later.spec_start() == after.spec_start() + consumed,
        pending.len() == 0 || consumed == 0 || consumed == after@.len(),
    ensures
        later.finds(pending) == Status::EndOfFile,
{
}

} // verus!
