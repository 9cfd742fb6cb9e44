use vstd::prelude::*;
use crate::source::{ByteStream, PollSource, ReadPoll, ReadSource, SeekSource};

verus! {

/// Where a seek is measured from, and by how much.
#[derive(Clone, Copy, Debug, PartialEq, Eq, Structural)]
pub enum SeekFrom {
    /// An offset from the start.
    Start(u64),
    /// An offset from the end.
    End(i64),
    /// An offset from the current position.
    Current(i64),
}

/// `t` brought into `[0, len]`.
pub open spec fn clamp(t: int, len: int) -> int {
    if t < 0 {
        0
    } else if t > len {
        len
    } else {
        t
    }
}

/// Where [`BytesReader::seek`] lands in a slice of `len` bytes read up to
/// `index`: the target of `from`, held within the slice.
pub open spec fn clamped_target(len: int, index: int, from: SeekFrom) -> int {
    match from {
        SeekFrom::Start(s) => clamp(s as int, len),
        SeekFrom::End(e) => clamp(len + e, len),
        SeekFrom::Current(c) => clamp(index + c, len),
    }
}

/// Reads and seeks within a borrowed byte slice.
#[derive(Debug)]
pub struct BytesReader<'a> {
    buf: &'a [u8],
    index: usize,
}

impl<'a> BytesReader<'a> {
    #[verifier::type_invariant]
    spec fn index_in_bounds(&self) -> bool {
        self.index <= self.buf@.len()
    }

    /// The bytes read from.
    pub closed spec fn bytes(&self) -> Seq<u8> {
        self.buf@
    }

    /// How many bytes have been read or skipped.
    pub closed spec fn index(&self) -> nat {
        self.index as nat
    }

    /// A reader at the start of `buf`.
    pub fn new(buf: &'a [u8]) -> (r: BytesReader<'a>)
        ensures
            r.bytes() == buf@,
            r.index() == 0,
    {
        BytesReader { buf, index: 0 }
    }

    /// Whether the slice holds no byte.
    pub fn is_empty(&self) -> (r: bool)
        ensures
            r == (self.bytes().len() == 0),
    {
        self.buf.len() == 0
    }

    /// The number of bytes in the slice.
    pub fn len(&self) -> (r: usize)
        ensures
            r == self.bytes().len(),
    {
        self.buf.len()
    }

    /// The position in the slice.
    pub fn pos(&self) -> (r: usize)
        ensures
            r == self.index(),
            r <= self.bytes().len(),
    {
        proof {
            use_type_invariant(self);
        }
        self.index
    }

    /// Moves the position; a target outside the slice is brought to its
    /// nearest end. Returns the new position.
    pub fn seek(&mut self, from: SeekFrom) -> (r: Result<u64, std::io::Error>)
        ensures
            final(self).bytes() == old(self).bytes(),
            final(self).index() == clamped_target(
                old(self).bytes().len() as int,
                old(self).index() as int,
                from,
            ),
            r is Ok && r->Ok_0 == final(self).index(),
    {
        proof {
            use_type_invariant(&*self);
        }
        let len = self.buf.len() as i128;
        let target: i128 = match from {
            SeekFrom::Start(s) => s as i128,
            SeekFrom::End(e) => len + e as i128,
            SeekFrom::Current(c) => self.index as i128 + c as i128,
        };
        let at: usize = if target < 0 {
            0
        } else if target > len {
            self.buf.len()
        } else {
            target as usize
        };
        self.index = at;
        Ok(at as u64)
    }

    fn copy_out(&mut self, buf: &mut [u8]) -> (n: usize)
        ensures
            final(self).bytes() == old(self).bytes(),
            final(buf)@.len() == old(buf)@.len(),
            final(self).index() == old(self).index() + n,
            read_outcome_of(old(self), final(self), old(buf)@, final(buf)@, n as int),
    {
        proof {
            use_type_invariant(&*self);
        }
        let avail = self.buf.len() - self.index;
        let n = if avail < buf.len() {
            avail
        } else {
            buf.len()
        };
        let start = self.index;
        let total = self.buf.len();
        let mut i: usize = 0;
        while i < n
            invariant
                i <= n,
                n <= buf@.len(),
                start + n <= total,
                total == self.buf@.len(),
                buf@.len() == old(buf)@.len(),
                buf@ == self.buf@.subrange(start as int, start + i) + old(buf)@.skip(i as int),
            decreases n - i,
        {
            buf[i] = self.buf[start + i];
            i = i + 1;
            assert(buf@ =~= self.buf@.subrange(start as int, start + i) + old(buf)@.skip(i as int));
        }
        self.index = start + n;
        proof {
            let u = old(self).buf@.skip(start as int);
            assert(u.take(n as int) =~= self.buf@.subrange(start as int, start + n));
            assert(self.buf@.skip(self.index as int) =~= u.skip(n as int));
        }
        n
    }
}

/// [`read_outcome`](crate::source::read_outcome) between two states of a
/// [`BytesReader`].
spec fn read_outcome_of(
    before_reader: &BytesReader,
    after_reader: &BytesReader,
    before: Seq<u8>,
    after: Seq<u8>,
    n: int,
) -> bool {
    crate::source::read_outcome(
        before_reader.unread(),
        after_reader.unread(),
        before,
        after,
        n,
    )
}

impl<'a> ByteStream for BytesReader<'a> {
    open spec fn data(&self) -> Seq<u8> {
        self.bytes()
    }

    open spec fn unread(&self) -> Seq<u8> {
        self.bytes().skip(self.index() as int)
    }

    open spec fn infallible(&self) -> bool {
        true
    }

    open spec fn always_ready(&self) -> bool {
        true
    }
}

impl<'a> ReadSource for BytesReader<'a> {
    fn read(&mut self, buf: &mut [u8]) -> (r: Result<usize, std::io::Error>)
        ensures
            r is Ok,
            final(self).index() == old(self).index() + r->Ok_0,
    {
        let n = self.copy_out(buf);
        Ok(n)
    }
}

impl<'a> SeekSource for BytesReader<'a> {
    fn seek_start(&mut self, offset: u64) -> (r: Result<u64, std::io::Error>)
        ensures
            r is Ok,
            final(self).index() == offset,
    {
        self.seek(SeekFrom::Start(offset))
    }

    fn seek_end(&mut self) -> (r: Result<u64, std::io::Error>)
        ensures
            r is Ok,
            final(self).index() == final(self).bytes().len(),
    {
        self.seek(SeekFrom::End(0))
    }
}

impl<'a, C> PollSource<C> for BytesReader<'a> {
    fn poll_read(&mut self, _cx: &mut C, buf: &mut [u8]) -> (r: ReadPoll)
        ensures
            r matches ReadPoll::Ready(Ok(n)) && final(self).index() == old(self).index() + n,
    {
        let n = self.copy_out(buf);
        ReadPoll::Ready(Ok(n))
    }
}

} // verus!
