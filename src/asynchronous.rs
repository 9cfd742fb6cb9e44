use vstd::prelude::*;
use crate::sequential::MultiReaders;
use crate::source::{
    all_ready, joined, lemma_all_ready_step, lemma_read_outcome_unique, lemma_unreads_first,
    read_outcome, unreads, ByteStream, PollSource, Producer, ReadPoll, ReadSource, VecSource,
};

verus! {

/// The poll-based form of [`MultiReaders`](crate::MultiReaders).
///
/// Bytes taken from the resources during a read that is not yet complete are
/// kept in a staging buffer owned by the reader, so a `Pending` result loses
/// nothing and hands the caller nothing; they reach the caller's buffer only
/// with the `Ready` result that completes the read.
pub struct AsyncMultiReaders<R, P> {
    current: Option<R>,
    source: P,
    staging: Vec<u8>,
    filled: usize,
}

impl<R: ByteStream, P: Producer<R>> AsyncMultiReaders<R, P> {
    /// The resource being read, if one is held, then those still to come.
    pub closed spec fn pending(&self) -> Seq<R> {
        match self.current {
            Some(r) => seq![r] + self.source.upcoming(),
            None => self.source.upcoming(),
        }
    }

    /// The bytes taken from the resources but not yet handed to the caller.
    pub closed spec fn staged(&self) -> Seq<u8> {
        self.staging@.take(self.filled as int)
    }

    /// The staged bytes lie within the staging buffer.
    pub closed spec fn wf(&self) -> bool {
        self.filled <= self.staging@.len()
    }

    /// The bytes that later reads deliver, in order: the staged ones, then
    /// those still in the resources.
    pub open spec fn unread(&self) -> Seq<u8> {
        self.staged() + joined(unreads(self.pending()))
    }

    /// A reader over the resources that `source` hands out; nothing is
    /// pulled yet.
    pub fn from_iter(source: P) -> (r: AsyncMultiReaders<R, P>)
        ensures
            r.wf(),
            r.pending() == source.upcoming(),
            r.staged().len() == 0,
    {
        AsyncMultiReaders { current: None, source, staging: Vec::new(), filled: 0 }
    }

    /// Polls for bytes into the front of `buf`.
    ///
    /// Each poll goes on from where the last one stopped: it pulls resources
    /// as needed and polls the current one into the staging buffer, moving
    /// on whenever one delivers fewer bytes than it was offered, until the
    /// staging buffer holds as many bytes as `buf` or every resource is
    /// exhausted. Then the staged bytes are copied to `buf` and `Ready` is
    /// returned. A resource's `Pending` is passed on with `buf` untouched
    /// and the staged bytes kept. On a failure the staged bytes are
    /// dropped.
    pub fn poll_read<C>(&mut self, cx: &mut C, buf: &mut [u8]) -> (r: ReadPoll) where
        R: PollSource<C>,
        requires
            old(self).wf(),
        ensures
            final(self).wf(),
            final(buf)@.len() == old(buf)@.len(),
            r matches ReadPoll::Ready(Ok(n)) ==> read_outcome(
                old(self).unread(),
                final(self).unread(),
                old(buf)@,
                final(buf)@,
                n as int,
            ),
            r is Pending ==> final(self).unread() == old(self).unread(),
            r is Pending ==> final(buf)@ == old(buf)@,
            r matches ReadPoll::Ready(Err(_)) ==> final(self).staged().len() == 0,
            r matches ReadPoll::Ready(Err(_)) ==> final(buf)@ == old(buf)@,
            old(buf)@.len() == 0 ==> r matches ReadPoll::Ready(Ok(0)),
            old(buf)@.len() == 0 ==> *final(self) == *old(self),
            old(self).pending().len() == 0 ==> r matches ReadPoll::Ready(Ok(_)),
            r is Pending ==> old(self).pending().len() > 0,
            all_ready(old(self).pending()) ==> r matches ReadPoll::Ready(Ok(_)),
            all_ready(old(self).pending()) ==> all_ready(final(self).pending()),
    {
        let ghost u0 = self.unread();
        if buf.len() == 0 {
            proof {
                assert(u0.take(0) + old(buf)@.skip(0) =~= old(buf)@);
                assert(u0.skip(0) =~= u0);
            }
            return ReadPoll::Ready(Ok(0));
        }
        let want = buf.len();
        if self.filled < want {
            self.staging.resize(want, 0);
            assert(self.staging@.take(self.filled as int) =~= u0.take(self.filled as int));
        }
        while self.filled < want
            invariant
                self.wf(),
                want == buf@.len(),
                self.filled < want ==> self.staging@.len() == want,
                self.unread() == u0,
                u0 == old(self).unread(),
                buf@ == old(buf)@,
                self.pending().len() <= old(self).pending().len(),
                all_ready(old(self).pending()) ==> all_ready(self.pending()),
            ensures
                self.filled >= want || self.unread() == self.staged(),
            decreases 2 * self.source.upcoming().len() + if self.current is Some {
                1int
            } else {
                0int
            },
        {
            if self.current.is_none() {
                let ghost up = self.source.upcoming();
                self.current = self.source.next_reader();
                match self.current {
                    None => {
                        proof {
                            assert(unreads(self.pending()) =~= Seq::<Seq<u8>>::empty());
                            assert(self.staged() + Seq::<u8>::empty() =~= self.staged());
                        }
                        break;
                    },
                    Some(_) => {
                        assert(self.pending() =~= up);
                    },
                }
            }
            let ghost r0 = self.current->Some_0;
            let ghost up = self.source.upcoming();
            let ghost stage0 = self.staging@;
            let ghost staged0 = self.staged();
            proof {
                lemma_unreads_first(r0, up);
                assert(self.pending() == seq![r0] + up);
                assert(self.pending()[0] == r0);
            }
            let ghost was_ready = all_ready(seq![r0] + up);
            let at = self.filled;
            let offered = want - at;
            let polled = {
                let whole = self.staging.as_mut_slice();
                let (_head, tail) = whole.split_at_mut(at);
                match &mut self.current {
                    Some(r) => r.poll_read(cx, tail),
                    None => ReadPoll::Ready(Ok(0)),
                }
            };
            let ghost r1 = self.current->Some_0;
            proof {
                if was_ready {
                    lemma_all_ready_step(r0, r1, up);
                }
                lemma_unreads_first(r1, up);
                assert(self.staging@.take(at as int) =~= stage0.take(at as int));
            }
            match polled {
                ReadPoll::Pending => {
                    proof {
                        assert(self.staged() == staged0);
                        assert(self.pending() == seq![r1] + up);
                        assert(r1.unread() == r0.unread());
                    }
                    return ReadPoll::Pending;
                },
                ReadPoll::Ready(Err(e)) => {
                    self.staging.clear();
                    self.filled = 0;
                    assert(self.staged() =~= Seq::<u8>::empty());
                    return ReadPoll::Ready(Err(e));
                },
                ReadPoll::Ready(Ok(n)) => {
                    proof {
                        let ur = r0.unread();
                        let rest = joined(unreads(up));
                        let grown = self.staging@.take(at + n);
                        assert(grown =~= staged0 + ur.take(n as int));
                        assert(ur =~= ur.take(n as int) + ur.skip(n as int));
                        assert(grown + (ur.skip(n as int) + rest) =~= staged0 + (ur + rest));
                        assert(self.pending() == seq![r1] + up);
                    }
                    self.filled = at + n;
                    if n < offered {
                        self.current = None;
                        proof {
                            assert(r1.unread() =~= Seq::<u8>::empty());
                            assert(Seq::<u8>::empty() + joined(unreads(up)) =~= joined(
                                unreads(up),
                            ));
                        }
                    } else {
                        break;
                    }
                },
            }
        }
        let k: usize = if self.filled < want {
            self.filled
        } else {
            want
        };
        let ghost stage = self.staging@;
        let ghost staged = self.staged();
        let mut j: usize = 0;
        while j < k
            invariant
                j <= k,
                k <= want,
                want == buf@.len(),
                want == old(buf)@.len(),
                k <= self.filled,
                self.wf(),
                self.staging@ == stage,
                buf@ == stage.take(j as int) + old(buf)@.skip(j as int),
            decreases k - j,
        {
            buf[j] = self.staging[j];
            j = j + 1;
            assert(buf@ =~= stage.take(j as int) + old(buf)@.skip(j as int));
        }
        let ghost rest = joined(unreads(self.pending()));
        if k == self.filled {
            self.staging.clear();
            self.filled = 0;
        } else {
            let kept = self.staging.split_off(k);
            self.staging = kept;
            self.filled = self.filled - k;
        }
        proof {
            assert(stage.take(k as int) =~= staged.take(k as int));
            assert(u0 == staged + rest);
            assert(u0.take(k as int) =~= staged.take(k as int));
            assert(self.staged() =~= staged.skip(k as int));
            assert(u0.skip(k as int) =~= self.staged() + rest);
        }
        ReadPoll::Ready(Ok(k))
    }
}

impl<R: ByteStream> AsyncMultiReaders<R, VecSource<R>> {
    /// A reader over `readers`, in their order.
    pub fn from_vec(readers: Vec<R>) -> (r: AsyncMultiReaders<R, VecSource<R>>)
        ensures
            r.wf(),
            r.pending() == readers@,
            r.staged().len() == 0,
    {
        AsyncMultiReaders::from_iter(VecSource::new(readers))
    }
}

/// A poll-based reader and a blocking one built over the same resources
/// hold the same unread bytes, so by [`lemma_read_outcome_unique`] every
/// completed read delivers the same bytes from both, in the same order;
/// a `Pending` result changes neither the unread bytes nor the buffer.
pub proof fn lemma_async_matches_sync<R: ReadSource, P: Producer<R>, Q: Producer<R>>(
    sync: MultiReaders<R, P>,
    poll: AsyncMultiReaders<R, Q>,
)
    requires
        sync.pending() == poll.pending(),
        poll.staged().len() == 0,
    ensures
        sync.unread() == poll.unread(),
{
    assert(poll.staged() + joined(unreads(poll.pending())) =~= joined(unreads(poll.pending())));
}

} // verus!
