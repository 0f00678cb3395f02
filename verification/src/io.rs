//! Byte sources, and the reader that shields the window from short reads.

use vstd::prelude::*;

verus! {

#[verifier::external_type_specification]
#[verifier::external_body]
pub struct ExIoError(std::io::Error);

/// `rest` is what is left of `whole` after some of its first bytes.
pub open spec fn is_rest_of(rest: Seq<u8>, whole: Seq<u8>) -> bool {
    exists|k: int| 0 <= k <= whole.len() && rest == #[trigger] whole.skip(k)
}

/// What is left of a rest is a rest of the whole.
pub proof fn lemma_rest_of_rest(last: Seq<u8>, rest: Seq<u8>, whole: Seq<u8>)
    requires
        is_rest_of(last, rest),
        is_rest_of(rest, whole),
    ensures
        is_rest_of(last, whole),
{
    let j = choose|j: int| 0 <= j <= whole.len() && rest == #[trigger] whole.skip(j);
    let k = choose|k: int| 0 <= k <= rest.len() && last == #[trigger] rest.skip(k);
    assert(last =~= whole.skip(j + k));
}

/// Something that hands out a finite stream of bytes, a few at a time.
///
/// What is proved of the window and of the scans holds of every source that
/// keeps to what `read` states. The sources of this crate are verified
/// against it.
pub trait ByteSource {
    /// The bytes that the source has not handed out yet, in the order in
    /// which it will.
    spec fn pending(&self) -> Seq<u8>;

    /// The failure that the next read meets, if it meets one.
    spec fn fault(&self) -> Option<std::io::Error>;

    /// The source will not fail, neither now nor later.
    spec fn reliable(&self) -> bool;

    /// Writes the next bytes of the stream to the front of `buf` and returns
    /// how many. It may write fewer than `buf` has room for. It returns zero
    /// only when `buf` is empty or the stream is at its end, and the end is
    /// for good. A failure takes nothing from the stream.
    fn read(&mut self, buf: &mut [u8]) -> (produced: Result<usize, std::io::Error>)
        ensures
            final(buf)@.len() == old(buf)@.len(),
            old(self).reliable() ==> produced is Ok && final(self).reliable(),
            old(self).fault() matches Some(error) ==> produced == Err::<usize, std::io::Error>(
                error,
            ),
            old(self).fault() is None ==> produced is Ok,
            match produced {
                Ok(count) => {
                    &&& count <= old(buf)@.len()
                    &&& count <= old(self).pending().len()
                    &&& final(buf)@.take(count as int) == old(self).pending().take(count as int)
                    &&& final(self).pending() == old(self).pending().skip(count as int)
                    &&& count == 0 ==> old(buf)@.len() == 0 || old(self).pending().len() == 0
                },
                Err(_) => final(self).pending() == old(self).pending(),
            },
    ;
}

/// The smaller of two lengths.
pub open spec fn least(a: nat, b: nat) -> nat {
    if a <= b {
        a
    } else {
        b
    }
}

/// A variant of `read` that handles short reads: it repeats the read on the
/// part of `buf` that is still unfilled until `buf` is full or the source is
/// at its end, and returns the total. A failure of the source ends it at once;
/// what was read before the failure is not reported.
pub fn read_handling_short<S: ByteSource>(reader: &mut S, buf: &mut [u8]) -> (total: Result<
    usize,
    std::io::Error,
>)
    ensures
        final(buf)@.len() == old(buf)@.len(),
        old(reader).reliable() ==> total is Ok && final(reader).reliable(),
        old(reader).fault() matches Some(error) ==> total == Err::<usize, std::io::Error>(error),
        match total {
            Ok(count) => {
                &&& count == least(old(buf)@.len(), old(reader).pending().len())
                &&& final(buf)@.take(count as int) == old(reader).pending().take(count as int)
                &&& final(reader).pending() == old(reader).pending().skip(count as int)
            },
            Err(_) => is_rest_of(final(reader).pending(), old(reader).pending()),
        },
{
    let mut this_count: usize = match reader.read(buf) {
        Ok(count) => count,
        Err(e) => {
            assert(reader.pending() == old(reader).pending().skip(0));
            return Err(e);
        },
    };
    let mut total_count: usize = this_count;
    while this_count > 0 && total_count < buf.len()
        invariant
            buf@.len() == old(buf)@.len(),
            total_count <= buf@.len(),
            total_count <= old(reader).pending().len(),
            buf@.take(total_count as int) == old(reader).pending().take(total_count as int),
            reader.pending() == old(reader).pending().skip(total_count as int),
            old(reader).reliable() ==> reader.reliable(),
            old(reader).fault() is None,
            this_count == 0 ==> total_count == buf@.len() || reader.pending().len() == 0,
        decreases buf@.len() - total_count, this_count,
    {
        let (_, tail) = buf.split_at_mut(total_count);
        this_count = match reader.read(tail) {
            Ok(count) => count,
            Err(e) => {
                return Err(e);
            },
        };
        proof {
            let stream = old(reader).pending();
            assert(stream.take(total_count + this_count) =~= stream.take(total_count as int)
                + stream.skip(total_count as int).take(this_count as int));
        }
        total_count += this_count;
    }
    Ok(total_count)
}

/// A byte source over bytes in memory. It never fails, and it can be told to
/// hand out no more than so many bytes in one read.
pub struct MemorySource {
    data: Vec<u8>,
    position: usize,
    limit: usize,
}

impl MemorySource {
    /// The most bytes that one read hands out.
    pub closed spec fn limit(&self) -> nat {
        if self.limit == 0 {
            1
        } else {
            self.limit as nat
        }
    }

    /// A source that will hand out `data` from its first byte on, as many
    /// bytes in one read as the reader has room for.
    pub fn new(data: Vec<u8>) -> (source: Self)
        ensures
            source.pending() == data@,
            source.limit() == usize::MAX,
    {
        MemorySource { data, position: 0, limit: usize::MAX }
    }

    /// A source that will hand out `data` from its first byte on, at most
    /// `limit` bytes in one read; a limit of zero stands for one byte.
    pub fn with_short_reads(data: Vec<u8>, limit: usize) -> (source: Self)
        ensures
            source.pending() == data@,
            source.limit() == (if limit == 0 {
                1
            } else {
                limit
            }),
    {
        MemorySource { data, position: 0, limit }
    }
}

impl ByteSource for MemorySource {
    closed spec fn pending(&self) -> Seq<u8> {
        if self.position <= self.data@.len() {
            self.data@.skip(self.position as int)
        } else {
            Seq::empty()
        }
    }

    open spec fn fault(&self) -> Option<std::io::Error> {
        None
    }

    open spec fn reliable(&self) -> bool {
        true
    }

    /// Hands out as many bytes as `buf` has room for, the limit allows and
    /// the stream still has.
    fn read(&mut self, buf: &mut [u8]) -> (produced: Result<usize, std::io::Error>)
        ensures
            produced matches Ok(count) && count == least(
                least(old(buf)@.len(), old(self).limit()),
                old(self).pending().len(),
            ),
            final(self).limit() == old(self).limit(),
    {
        let left: usize = if self.position <= self.data.len() {
            self.data.len() - self.position
        } else {
            0
        };
        let room: usize = if self.limit == 0 {
            1
        } else {
            self.limit
        };
        let wanted: usize = if buf.len() < room {
            buf.len()
        } else {
            room
        };
        let count: usize = if wanted < left {
            wanted
        } else {
            left
        };
        let mut i: usize = 0;
        while i < count
            invariant
                i <= count,
                count <= buf@.len(),
                count > 0 ==> self.position + count <= self.data@.len() <= usize::MAX,
                buf@.len() == old(buf)@.len(),
                *self == *old(self),
                forall|j: int| 0 <= j < i ==> buf@[j] == self.data@[self.position + j],
            decreases count - i,
        {
            buf[i] = self.data[self.position + i];
            i += 1;
        }
        self.position += count;
        Ok(count)
    }
}

/// A byte source that fails: its first read returns the error it was made
/// with. It holds no bytes, so every later read returns zero.
pub struct FailingSource {
    error: Option<std::io::Error>,
}

impl FailingSource {
    /// A source whose first read fails with `error`.
    pub fn new(error: std::io::Error) -> (source: Self)
        ensures
            source.pending() == Seq::<u8>::empty(),
            source.fault() == Some(error),
            !source.reliable(),
    {
        FailingSource { error: Some(error) }
    }
}

impl ByteSource for FailingSource {
    closed spec fn pending(&self) -> Seq<u8> {
        Seq::empty()
    }

    closed spec fn fault(&self) -> Option<std::io::Error> {
        self.error
    }

    open spec fn reliable(&self) -> bool {
        self.fault() is None
    }

    /// Fails once, and returns zero from then on.
    fn read(&mut self, buf: &mut [u8]) -> (produced: Result<usize, std::io::Error>)
        ensures
            produced matches Ok(count) ==> count == 0,
            final(self).reliable(),
            final(buf)@ == old(buf)@,
    {
        match self.error.take() {
            Some(error) => Err(error),
            None => Ok(0),
        }
    }
}

} // verus!
