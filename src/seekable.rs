use vstd::prelude::*;
use crate::bytes::SeekFrom;
use crate::source::{
    all_infallible, joined, lemma_joined_first, lemma_joined_push, lemma_joined_split,
    lemma_joined_take_step, read_outcome, ByteStream, Producer, SeekSource, VecSource,
};

verus! {

/// Why an operation on a [`MultiSeekReaders`] failed.
#[derive(Debug)]
pub enum StreamError {
    /// A resource failed to read or seek; its error is passed on as it came.
    Underlying(std::io::Error),
    /// The target of a seek lies before the start or past the end.
    InvalidSeek,
    /// A composite was requested over no resource at all.
    EmptyConstruction,
}

/// The content of each resource, in order.
pub open spec fn contents<R: ByteStream>(readers: Seq<R>) -> Seq<Seq<u8>> {
    readers.map_values(|r: R| r.data())
}

/// Where a seek lands in a stream of `len` bytes positioned at `position`,
/// or `None` where the seek is invalid. A forward move from the current
/// position stops at the end; a backward one may not pass the start.
pub open spec fn seek_target(len: int, position: int, from: SeekFrom) -> Option<int> {
    match from {
        SeekFrom::Start(s) => if s <= len {
            Some(s as int)
        } else {
            None
        },
        SeekFrom::End(e) => if e <= 0 && len + e >= 0 {
            Some(len + e)
        } else {
            None
        },
        SeekFrom::Current(c) => if position + c < 0 {
            None
        } else if position + c > len {
            Some(len)
        } else {
            Some(position + c)
        },
    }
}

/// Where part `i` of a concatenation starts.
pub open spec fn start_of(parts: Seq<Seq<u8>>, i: int) -> int {
    joined(parts.take(i)).len() as int
}

/// Seen from inside part `i`, at `pos` bytes into it, the rest of the
/// concatenation is the rest of part `i` and then every later part.
pub proof fn lemma_joined_at(parts: Seq<Seq<u8>>, i: int, pos: int)
    requires
        0 <= i < parts.len(),
        0 <= pos <= parts[i].len(),
    ensures
        joined(parts).skip(start_of(parts, i) + pos) == parts[i].skip(pos) + joined(
            parts.skip(i + 1),
        ),
        start_of(parts, i + 1) == start_of(parts, i) + parts[i].len(),
        start_of(parts, i + 1) <= joined(parts).len(),
{
    lemma_joined_split(parts, i);
    lemma_joined_first(parts.skip(i));
    assert(parts.skip(i).drop_first() =~= parts.skip(i + 1));
    lemma_joined_take_step(parts, i);
    let a = joined(parts.take(i));
    let b = joined(parts.skip(i + 1));
    assert(joined(parts) == a + parts[i] + b);
    assert((a + parts[i] + b).skip(a.len() + pos) =~= parts[i].skip(pos) + b);
}

/// The last part ends where the concatenation does.
pub proof fn lemma_joined_end(parts: Seq<Seq<u8>>)
    ensures
        start_of(parts, parts.len() as int) == joined(parts).len(),
{
    assert(parts.take(parts.len() as int) =~= parts);
}

/// One resource with its length, probed once.
pub struct Inner<R> {
    buf: R,
    len: u64,
}

impl<R: SeekSource> Inner<R> {
    /// The resource held.
    pub closed spec fn resource(&self) -> R {
        self.buf
    }

    /// The length recorded for it.
    pub closed spec fn length(&self) -> nat {
        self.len as nat
    }

    /// Probes the length of `buf` by seeking to its end, then rewinds it.
    pub fn new(buf: R) -> (r: Result<Inner<R>, std::io::Error>)
        ensures
            r matches Ok(s) ==> s.resource().data() == buf.data() && s.length()
                == buf.data().len() && s.resource().unread() == buf.data()
                && s.resource().infallible() == buf.infallible(),
            buf.infallible() ==> r is Ok,
    {
        let mut buf = buf;
        let len = match buf.seek_end() {
            Ok(l) => l,
            Err(e) => return Err(e),
        };
        match buf.seek_start(0) {
            Ok(_) => {},
            Err(e) => return Err(e),
        }
        assert(buf.data().skip(0) =~= buf.data());
        Ok(Inner { buf, len })
    }

    /// The resource held.
    pub fn get(&self) -> (r: &R)
        ensures
            *r == self.resource(),
    {
        &self.buf
    }

    /// The length recorded for the resource.
    pub fn len(&self) -> (r: u64)
        ensures
            r == self.length(),
    {
        self.len
    }

    /// Gives the resource back.
    pub fn inner(self) -> (r: R)
        ensures
            r == self.resource(),
    {
        self.buf
    }
}

/// Joins seekable resources into one stream that reads and seeks across
/// them. Each resource's length is probed once, when it is added; a resource
/// of length zero is dropped then.
pub struct MultiSeekReaders<R> {
    slots: Vec<Inner<R>>,
    index: usize,
    pos: u64,
    len: u64,
    synced: bool,
}

impl<R: SeekSource> MultiSeekReaders<R> {
    /// The content of each stored resource, in order.
    pub closed spec fn parts(&self) -> Seq<Seq<u8>> {
        self.slots@.map_values(|s: Inner<R>| s.buf.data())
    }

    /// The content of the whole stream.
    pub open spec fn data(&self) -> Seq<u8> {
        joined(self.parts())
    }

    /// The position in the whole stream.
    pub closed spec fn position(&self) -> nat {
        (start_of(self.parts(), self.index as int) + self.pos) as nat
    }

    /// The bytes from the position to the end.
    pub open spec fn unread(&self) -> Seq<u8> {
        self.data().skip(self.position() as int)
    }

    /// Every stored resource is non-empty and its recorded length is its
    /// own; the position lies within the resource it points into; and
    /// unless a failure left it unknown, that resource sits where the
    /// position says.
    pub closed spec fn wf(&self) -> bool {
        &&& self.index <= self.slots@.len()
        &&& self.len == self.data().len()
        &&& forall|i: int|
            0 <= i < self.slots@.len() ==> #[trigger] self.slots@[i].len
                == self.slots@[i].buf.data().len() && self.slots@[i].len > 0
        &&& self.index == self.slots@.len() ==> self.pos == 0
        &&& self.index < self.slots@.len() ==> self.pos <= self.slots@[self.index as int].len
        &&& (self.index < self.slots@.len() && self.synced) ==> self.slots@[self.index as int].buf.unread()
            == self.slots@[self.index as int].buf.data().skip(self.pos as int)
    }

    /// Every stored resource is infallible.
    pub closed spec fn infallible(&self) -> bool {
        forall|i: int| 0 <= i < self.slots@.len() ==> #[trigger] self.slots@[i].buf.infallible()
    }

    /// The position lies within the stream, and every stored resource is
    /// non-empty.
    pub proof fn lemma_bounds(&self)
        requires
            self.wf(),
        ensures
            self.position() <= self.data().len(),
            forall|i: int| 0 <= i < self.parts().len() ==> #[trigger] self.parts()[i].len() > 0,
    {
        self.lemma_position_bound();
        assert forall|i: int| 0 <= i < self.parts().len() implies #[trigger] self.parts()[i].len()
            > 0 by {
            assert(self.slots@[i].len == self.parts()[i].len());
        }
    }

    proof fn lemma_position_bound(&self)
        requires
            self.wf(),
        ensures
            self.position() <= self.data().len(),
            self.index < self.slots@.len() ==> self.unread() == self.parts()[self.index as int].skip(
                self.pos as int,
            ) + joined(self.parts().skip(self.index + 1)),
            self.index == self.slots@.len() ==> self.unread().len() == 0,
    {
        let parts = self.parts();
        if self.index < self.slots@.len() {
            assert(self.slots@[self.index as int].len == parts[self.index as int].len());
            lemma_joined_at(parts, self.index as int, self.pos as int);
        } else {
            lemma_joined_end(parts);
        }
    }

    fn slot_read(&mut self, i: usize, buf: &mut [u8]) -> (r: Result<usize, std::io::Error>)
        requires
            i < old(self).slots@.len(),
        ensures
            final(self).slots@.len() == old(self).slots@.len(),
            forall|j: int|
                0 <= j < old(self).slots@.len() && j != i ==> final(self).slots@[j] == old(self).slots@[j],
            final(self).slots@[i as int].len == old(self).slots@[i as int].len,
            final(self).slots@[i as int].buf.data() == old(self).slots@[i as int].buf.data(),
            final(self).parts() == old(self).parts(),
            final(self).index == old(self).index,
            final(self).pos == old(self).pos,
            final(self).len == old(self).len,
            final(self).synced == old(self).synced,
            final(buf)@.len() == old(buf)@.len(),
            final(self).infallible() == old(self).infallible(),
            old(self).slots@[i as int].buf.infallible() ==> r is Ok,
            r is Ok ==> read_outcome(
                old(self).slots@[i as int].buf.unread(),
                final(self).slots@[i as int].buf.unread(),
                old(buf)@,
                final(buf)@,
                r->Ok_0 as int,
            ),
    {
        let r = self.slots[i].buf.read(buf);
        assert(self.parts() =~= old(self).parts());
        assert(self.infallible() == old(self).infallible()) by {
            if old(self).infallible() {
                assert forall|j: int| 0 <= j < self.slots@.len() implies #[trigger] self.slots@[j].buf.infallible() by {
                    assert(old(self).slots@[j].buf.infallible());
                }
            }
            if self.infallible() {
                assert forall|j: int| 0 <= j < old(self).slots@.len() implies #[trigger] old(self).slots@[j].buf.infallible() by {
                    assert(self.slots@[j].buf.infallible());
                }
            }
        }
        r
    }

    fn slot_seek(&mut self, i: usize, offset: u64) -> (r: Result<u64, std::io::Error>)
        requires
            i < old(self).slots@.len(),
            offset <= old(self).slots@[i as int].buf.data().len(),
        ensures
            final(self).slots@.len() == old(self).slots@.len(),
            forall|j: int|
                0 <= j < old(self).slots@.len() && j != i ==> final(self).slots@[j] == old(self).slots@[j],
            final(self).slots@[i as int].len == old(self).slots@[i as int].len,
            final(self).slots@[i as int].buf.data() == old(self).slots@[i as int].buf.data(),
            final(self).parts() == old(self).parts(),
            final(self).index == old(self).index,
            final(self).pos == old(self).pos,
            final(self).len == old(self).len,
            final(self).synced == old(self).synced,
            final(self).infallible() == old(self).infallible(),
            old(self).slots@[i as int].buf.infallible() ==> r is Ok,
            r is Ok ==> final(self).slots@[i as int].buf.unread() == final(self).slots@[i as int].buf.data().skip(offset as int),
    {
        let r = self.slots[i].buf.seek_start(offset);
        assert(self.parts() =~= old(self).parts());
        assert(self.infallible() == old(self).infallible()) by {
            if old(self).infallible() {
                assert forall|j: int| 0 <= j < self.slots@.len() implies #[trigger] self.slots@[j].buf.infallible() by {
                    assert(old(self).slots@[j].buf.infallible());
                }
            }
            if self.infallible() {
                assert forall|j: int| 0 <= j < old(self).slots@.len() implies #[trigger] old(self).slots@[j].buf.infallible() by {
                    assert(self.slots@[j].buf.infallible());
                }
            }
        }
        r
    }

    /// Reads into the front of `buf`, crossing from one resource into the
    /// next until `buf` is full or the stream ends. A resource that returns
    /// fewer bytes than it was offered is not read again before a seek.
    pub fn read(&mut self, buf: &mut [u8]) -> (r: Result<usize, StreamError>)
        requires
            old(self).wf(),
        ensures
            final(self).wf(),
            final(self).parts() == old(self).parts(),
            final(buf)@.len() == old(buf)@.len(),
            r is Ok ==> read_outcome(
                old(self).unread(),
                final(self).unread(),
                old(buf)@,
                final(buf)@,
                r->Ok_0 as int,
            ),
            r is Err ==> r->Err_0 is Underlying,
            old(buf)@.len() == 0 ==> r matches Ok(0),
            old(buf)@.len() == 0 ==> *final(self) == *old(self),
            old(self).parts().len() == 0 ==> r matches Ok(0),
            final(self).infallible() == old(self).infallible(),
            old(self).infallible() ==> r is Ok,
    {
        let ghost u0 = self.unread();
        proof {
            self.lemma_position_bound();
            assert(u0.take(0) + old(buf)@.skip(0) =~= old(buf)@);
            assert(u0.skip(0) =~= u0);
        }
        let n_slots = self.slots.len();
        let mut filled: usize = 0;
        while filled < buf.len() && self.index < n_slots
            invariant
                self.wf(),
                self.parts() == old(self).parts(),
                n_slots == self.slots@.len(),
                filled <= buf@.len(),
                buf@.len() == old(buf)@.len(),
                filled <= u0.len(),
                buf@ == u0.take(filled as int) + old(buf)@.skip(filled as int),
                self.unread() == u0.skip(filled as int),
                self.infallible() == old(self).infallible(),
                old(buf)@.len() == 0 ==> *self == *old(self),
                n_slots == 0 ==> filled == 0,
            decreases n_slots - self.index, buf@.len() - filled,
        {
            let i = self.index;
            let ghost parts = self.parts();
            proof {
                assert(self.slots@[i as int].len == parts[i as int].len());
            }
            if !self.synced {
                let ghost pre = self.slots@;
                let at = self.pos;
                match self.slot_seek(i, at) {
                    Ok(_) => {
                        self.synced = true;
                    },
                    Err(e) => return Err(StreamError::Underlying(e)),
                }
                assert forall|j: int| 0 <= j < self.slots@.len() implies #[trigger] self.slots@[j].len
                    == self.slots@[j].buf.data().len() && self.slots@[j].len > 0 by {
                    if j != i {
                        assert(self.slots@[j] == pre[j]);
                    }
                }
            }
            proof {
                self.lemma_position_bound();
            }
            let ghost pos0 = self.pos;
            let ghost slot_unread = self.slots@[i as int].buf.unread();
            let ghost before = buf@;
            let ghost pre = self.slots@;
            let want = buf.len() - filled;
            let got = {
                let (_head, tail) = buf.split_at_mut(filled);
                match self.slot_read(i, tail) {
                    Ok(n) => n,
                    Err(e) => {
                        self.synced = false;
                        return Err(StreamError::Underlying(e));
                    },
                }
            };
            proof {
                assert forall|j: int| 0 <= j < self.slots@.len() implies #[trigger] self.slots@[j].len
                    == self.slots@[j].buf.data().len() && self.slots@[j].len > 0 by {
                    if j != i {
                        assert(self.slots@[j] == pre[j]);
                    }
                }
                let rest = joined(parts.skip(i + 1));
                assert(u0.skip(filled as int) == slot_unread + rest);
                assert(got <= slot_unread.len());
                assert(u0.skip(filled as int).len() == u0.len() - filled);
                assert((slot_unread + rest).len() == slot_unread.len() + rest.len());
                assert(filled + got <= u0.len());
                assert(slot_unread.take(got as int) =~= u0.skip(filled as int).take(got as int));
                assert(u0.take(filled as int) + u0.skip(filled as int).take(got as int)
                    =~= u0.take(filled + got));
                assert(before.take(filled as int) =~= u0.take(filled as int));
                assert(buf@ =~= u0.take(filled + got) + old(buf)@.skip(filled + got));
                assert(u0.skip(filled as int).skip(got as int) =~= u0.skip(filled + got));
                lemma_joined_at(parts, i as int, pos0 + got);
                assert(slot_unread.skip(got as int) =~= parts[i as int].skip(pos0 + got));
            }
            filled = filled + got;
            self.pos = self.pos + got as u64;
            if got < want || self.pos == self.slots[i].len {
                self.index = i + 1;
                self.pos = 0;
                self.synced = false;
                proof {
                    lemma_joined_at(parts, i as int, pos0 as int);
                    if i + 1 == n_slots {
                        lemma_joined_end(parts);
                    }
                }
            }
        }
        proof {
            self.lemma_position_bound();
            assert(u0.skip(filled as int).len() == u0.len() - filled);
        }
        Ok(filled)
    }

    /// Sums the lengths of the resources before the current one, then adds
    /// the position within it.
    fn position_now(&self) -> (r: u64)
        requires
            self.wf(),
        ensures
            r == self.position(),
            r <= self.len,
    {
        let ghost parts = self.parts();
        let mut total: u64 = 0;
        let mut i: usize = 0;
        while i < self.index
            invariant
                i <= self.index,
                self.wf(),
                parts == self.parts(),
                total == start_of(parts, i as int),
            decreases self.index - i,
        {
            proof {
                assert(self.slots@[i as int].len == parts[i as int].len());
                lemma_joined_at(parts, i as int, 0);
            }
            total = total + self.slots[i].len;
            i = i + 1;
        }
        proof {
            self.lemma_position_bound();
        }
        total + self.pos
    }

    /// Positions the stream at `target`, inside the resource that holds
    /// that offset, or at the end of the last one for the full length.
    fn locate(&mut self, target: u64) -> (r: Result<u64, StreamError>)
        requires
            old(self).wf(),
            target <= old(self).data().len(),
        ensures
            final(self).wf(),
            final(self).parts() == old(self).parts(),
            r is Ok ==> r->Ok_0 == target && final(self).position() == target,
            r is Err ==> r->Err_0 is Underlying && final(self).position() == old(self).position(),
            final(self).infallible() == old(self).infallible(),
            old(self).infallible() ==> r is Ok,
    {
        let ghost parts = self.parts();
        let n = self.slots.len();
        if n == 0 {
            proof {
                lemma_joined_end(parts);
                assert(parts.take(0) =~= parts);
            }
            return Ok(target);
        }
        let mut i: usize = 0;
        let mut count: u64 = 0;
        while i + 1 < n && self.slots[i].len <= target - count
            invariant
                self.wf(),
                parts == self.parts(),
                n == self.slots@.len(),
                i < n,
                count == start_of(parts, i as int),
                count <= target,
            decreases n - i,
        {
            proof {
                assert(self.slots@[i as int].len == parts[i as int].len());
                lemma_joined_at(parts, i as int, 0);
            }
            count = count + self.slots[i].len;
            i = i + 1;
        }
        proof {
            assert(self.slots@[i as int].len == parts[i as int].len());
            lemma_joined_at(parts, i as int, 0);
            if i + 1 == n {
                lemma_joined_end(parts);
            }
        }
        let local = target - count;
        let ghost pre = self.slots@;
        match self.slot_seek(i, local) {
            Ok(_) => {
                self.index = i;
                self.pos = local;
                self.synced = true;
            },
            Err(e) => {
                self.synced = false;
                assert forall|j: int| 0 <= j < self.slots@.len() implies #[trigger] self.slots@[j].len
                    == self.slots@[j].buf.data().len() && self.slots@[j].len > 0 by {
                    if j != i {
                        assert(self.slots@[j] == pre[j]);
                    }
                }
                return Err(StreamError::Underlying(e));
            },
        }
        assert forall|j: int| 0 <= j < self.slots@.len() implies #[trigger] self.slots@[j].len
            == self.slots@[j].buf.data().len() && self.slots@[j].len > 0 by {
            if j != i {
                assert(self.slots@[j] == pre[j]);
            }
        }
        Ok(target)
    }

    /// Moves to the position that `from` names and returns it. A seek
    /// before the start or past the end fails with
    /// [`StreamError::InvalidSeek`], except that a forward move from the
    /// current position stops at the end. `Current(0)` only reports the
    /// position.
    pub fn seek(&mut self, from: SeekFrom) -> (r: Result<u64, StreamError>)
        requires
            old(self).wf(),
        ensures
            final(self).wf(),
            final(self).parts() == old(self).parts(),
            seek_target(old(self).data().len() as int, old(self).position() as int, from) is None
                <==> r matches Err(StreamError::InvalidSeek),
            r is Ok ==> r->Ok_0 == seek_target(
                old(self).data().len() as int,
                old(self).position() as int,
                from,
            )->Some_0 && final(self).position() == r->Ok_0,
            r matches Err(StreamError::Underlying(_)) ==> final(self).position() == old(self).position(),
            !(r matches Err(StreamError::EmptyConstruction)),
            from == SeekFrom::Current(0) ==> r is Ok && *final(self) == *old(self),
            r matches Err(StreamError::InvalidSeek) ==> *final(self) == *old(self),
            final(self).infallible() == old(self).infallible(),
            old(self).infallible() && seek_target(
                old(self).data().len() as int,
                old(self).position() as int,
                from,
            ) is Some ==> r is Ok,
    {
        let len = self.len;
        match from {
            SeekFrom::Start(s) => {
                if s > len {
                    Err(StreamError::InvalidSeek)
                } else {
                    self.locate(s)
                }
            },
            SeekFrom::End(e) => {
                if e > 0 {
                    return Err(StreamError::InvalidSeek);
                }
                let back: u64 = if e == 0 {
                    0
                } else {
                    (-(e + 1)) as u64 + 1
                };
                if back > len {
                    Err(StreamError::InvalidSeek)
                } else {
                    self.locate(len - back)
                }
            },
            SeekFrom::Current(c) => {
                let at = self.position_now();
                if c == 0 {
                    Ok(at)
                } else if c > 0 {
                    let forward = c as u64;
                    let target = if forward > len - at {
                        len
                    } else {
                        at + forward
                    };
                    self.locate(target)
                } else {
                    let back: u64 = (-(c + 1)) as u64 + 1;
                    if back > at {
                        Err(StreamError::InvalidSeek)
                    } else {
                        self.locate(at - back)
                    }
                }
            },
        }
    }

    /// The length of the whole stream.
    pub fn multi_stream_len(&self) -> (r: u64)
        requires
            self.wf(),
        ensures
            r == self.data().len(),
    {
        self.len
    }

    /// The length of the whole stream.
    pub fn len(&self) -> (r: u64)
        requires
            self.wf(),
        ensures
            r == self.data().len(),
    {
        self.len
    }

    /// The position in the whole stream.
    pub fn pos(&self) -> (r: u64)
        requires
            self.wf(),
        ensures
            r == self.position(),
            r <= self.data().len(),
    {
        self.position_now()
    }

    /// Whether no resource is stored.
    pub fn is_empty(&self) -> (r: bool)
        requires
            self.wf(),
        ensures
            r == (self.parts().len() == 0),
    {
        self.slots.len() == 0
    }

    /// Whether the position is at the end of the stream.
    pub fn is_end(&self) -> (r: bool)
        requires
            self.wf(),
        ensures
            r == (self.position() == self.data().len()),
    {
        self.position_now() == self.len
    }

    /// Adds `value` after the stored resources. Its length is probed by
    /// seeking to its end and back to its start; a resource of length zero
    /// is then dropped. The position does not move.
    pub fn push(&mut self, value: R) -> (r: Result<(), StreamError>)
        requires
            old(self).wf(),
            old(self).data().len() + value.data().len() <= u64::MAX,
        ensures
            final(self).wf(),
            final(self).position() == old(self).position(),
            r is Ok ==> final(self).parts() == if value.data().len() == 0 {
                old(self).parts()
            } else {
                old(self).parts().push(value.data())
            },
            r is Err ==> r->Err_0 is Underlying && final(self).parts() == old(self).parts(),
            value.infallible() ==> r is Ok,
            old(self).infallible() && value.infallible() ==> final(self).infallible(),
            r is Err ==> final(self).infallible() == old(self).infallible(),
    {
        let ghost parts = self.parts();
        let slot = match Inner::new(value) {
            Ok(s) => s,
            Err(e) => return Err(StreamError::Underlying(e)),
        };
        if slot.len > 0 {
            proof {
                lemma_joined_push(parts, slot.buf.data());
            }
            self.len = self.len + slot.len;
            self.slots.push(slot);
            proof {
                if old(self).infallible() && value.infallible() {
                    assert forall|j: int| 0 <= j < self.slots@.len() implies #[trigger] self.slots@[j].buf.infallible() by {
                        if j < old(self).slots@.len() {
                            assert(self.slots@[j] == old(self).slots@[j]);
                        }
                    }
                }
                assert(self.parts() =~= parts.push(slot.buf.data()));
                assert(self.parts().take(self.index as int) =~= parts.take(self.index as int));
                assert(slot.buf.data().skip(0) =~= slot.buf.data());
            }
        }
        Ok(())
    }

    /// Joins `readers` in their order, probing each one's length and
    /// dropping those of length zero. An empty list is refused.
    pub fn new(readers: Vec<R>) -> (r: Result<MultiSeekReaders<R>, StreamError>)
        requires
            joined(contents(readers@)).len() <= u64::MAX,
        ensures
            readers@.len() == 0 <==> r matches Err(StreamError::EmptyConstruction),
            r matches Ok(s) ==> s.wf() && s.data() == joined(contents(readers@)) && s.position()
                == 0,
            r is Err && readers@.len() > 0 ==> r->Err_0 is Underlying,
            readers@.len() > 0 && all_infallible(readers@) ==> r is Ok,
            all_infallible(readers@) ==> (r matches Ok(s) ==> s.infallible()),
    {
        if readers.len() == 0 {
            return Err(StreamError::EmptyConstruction);
        }
        let ghost all = readers@;
        let ghost parts = contents(all);
        let mut source = VecSource::new(readers);
        let mut joined_so_far = MultiSeekReaders {
            slots: Vec::new(),
            index: 0,
            pos: 0,
            len: 0,
            synced: true,
        };
        let ghost mut k: int = 0;
        proof {
            assert(joined_so_far.parts() =~= Seq::<Seq<u8>>::empty());
            assert(parts.take(0) =~= Seq::<Seq<u8>>::empty());
            assert(all.skip(0) =~= all);
        }
        while !source.is_empty()
            invariant
                0 <= k <= all.len(),
                all == readers@,
                all.len() > 0,
                parts == contents(all),
                joined(parts).len() <= u64::MAX,
                joined_so_far.wf(),
                joined_so_far.data() == joined(parts.take(k)),
                joined_so_far.position() == 0,
                source.upcoming() == all.skip(k),
                all_infallible(all) ==> joined_so_far.infallible(),
            decreases source.upcoming().len(),
        {
            let next = source.next_reader().unwrap();
            proof {
                assert(next == all[k]);
                if all_infallible(all) {
                    assert(all[k].infallible());
                }
                lemma_joined_take_step(parts, k);
                lemma_joined_split(parts, k + 1);
            }
            let ghost before = joined_so_far.parts();
            match joined_so_far.push(next) {
                Ok(()) => {},
                Err(e) => {
                    assert(e is Underlying);
                    return Err(e);
                },
            }
            proof {
                if all[k].data().len() == 0 {
                    assert(joined(parts.take(k)) + parts[k] =~= joined(parts.take(k)));
                } else {
                    lemma_joined_push(before, all[k].data());
                }
                assert(all.skip(k).drop_first() =~= all.skip(k + 1));
                k = k + 1;
            }
        }
        proof {
            assert(parts.take(k) =~= parts);
        }
        Ok(joined_so_far)
    }
}

/// Once the position is at the end of the stream, which a seek to the full
/// length reaches, nothing is left to read: the next read returns zero.
pub proof fn lemma_end_reads_nothing<R: SeekSource>(s: MultiSeekReaders<R>)
    requires
        s.wf(),
        s.position() == s.data().len(),
    ensures
        s.unread().len() == 0,
        forall|rest: Seq<u8>, before: Seq<u8>, after: Seq<u8>, n: int|
            read_outcome(s.unread(), rest, before, after, n) ==> n == 0 && after == before,
{
    assert forall|rest: Seq<u8>, before: Seq<u8>, after: Seq<u8>, n: int|
        read_outcome(s.unread(), rest, before, after, n) implies n == 0 && after == before by {
        assert(before.skip(0) =~= before);
    }
}

/// Asking for the current position moves nothing and reports it.
pub proof fn lemma_current_zero_reports_position(len: int, position: int)
    requires
        0 <= position <= len,
    ensures
        seek_target(len, position, SeekFrom::Current(0)) == Some(position),
{
}

} // verus!
