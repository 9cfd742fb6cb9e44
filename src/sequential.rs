use vstd::prelude::*;
use crate::source::{
    all_infallible, joined, lemma_unreads_first, present, read_outcome, unreads, Flatten, Producer, ReadSource,
    VecSource,
};

verus! {

/// Joins resources pulled one at a time from a [`Producer`] into one
/// stream. A resource is pulled only when the one before it is exhausted.
pub struct MultiReaders<R, P> {
    current: Option<R>,
    source: P,
}

impl<R, P: Producer<R>> MultiReaders<R, P> {
    /// The resource being read, if one is held, then those still to come.
    pub closed spec fn pending(&self) -> Seq<R> {
        match self.current {
            Some(r) => seq![r] + self.source.upcoming(),
            None => self.source.upcoming(),
        }
    }

    /// A stream over the resources that `source` hands out; nothing is
    /// pulled yet.
    pub fn from_iter(source: P) -> (r: MultiReaders<R, P>)
        ensures
            r.pending() == source.upcoming(),
    {
        MultiReaders { current: None, source }
    }
}

impl<R, P: Producer<Option<R>>> MultiReaders<Option<R>, P> {
    /// A stream over the resources present among the optional ones that
    /// this stream holds, in the same order; the absent ones are skipped.
    pub fn flatten(self) -> (r: MultiReaders<R, Flatten<P>>)
        ensures
            r.pending() == present(self.pending()),
    {
        let ghost up = self.source.upcoming();
        let ghost held = self.current;
        proof {
            if held is Some {
                assert((seq![held->Some_0] + up).drop_first() =~= up);
            }
        }
        let current = match self.current {
            Some(Some(r)) => Some(r),
            _ => None,
        };
        MultiReaders { current, source: Flatten::new(self.source) }
    }
}

impl<R: ReadSource, P: Producer<R>> MultiReaders<R, P> {
    /// The bytes that later reads deliver, in order.
    pub open spec fn unread(&self) -> Seq<u8> {
        joined(unreads(self.pending()))
    }

    /// Reads into the front of `buf`, moving on to the next resource
    /// whenever one returns fewer bytes than it was offered, until `buf` is
    /// full or every resource is exhausted. An empty `buf` pulls nothing.
    pub fn read(&mut self, buf: &mut [u8]) -> (r: Result<usize, std::io::Error>)
        ensures
            final(buf)@.len() == old(buf)@.len(),
            old(buf)@.len() == 0 ==> r matches Ok(0),
            old(buf)@.len() == 0 ==> final(self).pending() == old(self).pending(),
            old(self).pending().len() == 0 ==> r matches Ok(0),
            old(self).pending().len() == 0 ==> final(self).pending().len() == 0,
            all_infallible(old(self).pending()) ==> r is Ok,
            all_infallible(old(self).pending()) ==> all_infallible(final(self).pending()),
            r is Ok && r->Ok_0 < old(buf)@.len() ==> final(self).pending().len() == 0,
            r is Ok ==> read_outcome(
                old(self).unread(),
                final(self).unread(),
                old(buf)@,
                final(buf)@,
                r->Ok_0 as int,
            ),
    {
        let ghost u0 = self.unread();
        proof {
            assert(u0.take(0) + old(buf)@.skip(0) =~= old(buf)@);
            assert(u0.skip(0) =~= u0);
        }
        let mut filled: usize = 0;
        while filled < buf.len()
            invariant
                filled <= buf@.len(),
                buf@.len() == old(buf)@.len(),
                filled <= u0.len(),
                buf@ == u0.take(filled as int) + old(buf)@.skip(filled as int),
                self.unread() == u0.skip(filled as int),
                u0 == old(self).unread(),
                self.pending().len() <= old(self).pending().len(),
                all_infallible(old(self).pending()) ==> all_infallible(self.pending()),
                old(buf)@.len() == 0 ==> self.pending() == old(self).pending(),
            ensures
                filled == buf@.len() || (filled == u0.len() && self.pending().len() == 0),
            decreases 2 * self.source.upcoming().len() + if self.current is Some {
                1int
            } else {
                0int
            },
        {
            if self.current.is_none() {
                let ghost up = self.source.upcoming();
                self.current = self.source.next_reader();
                match self.current {
                    None => {
                        proof {
                            assert(unreads(self.pending()) =~= Seq::<Seq<u8>>::empty());
                            assert(u0.skip(filled as int).len() == u0.len() - filled);
                        }
                        break;
                    },
                    Some(_) => {
                        assert(self.pending() =~= up);
                    },
                }
            }
            let ghost r0 = self.current->Some_0;
            let ghost up = self.source.upcoming();
            let ghost before = buf@;
            proof {
                lemma_unreads_first(r0, up);
                assert(self.pending() == seq![r0] + up);
                assert(self.pending()[0] == r0);
            }
            let want = buf.len() - filled;
            let got = {
                let (_head, tail) = buf.split_at_mut(filled);
                match &mut self.current {
                    Some(r) => match r.read(tail) {
                        Ok(n) => n,
                        Err(e) => return Err(e),
                    },
                    None => {
                        return Ok(filled);
                    },
                }
            };
            let ghost r1 = self.current->Some_0;
            proof {
                let rest = joined(unreads(up));
                let ur = r0.unread();
                assert(u0.skip(filled as int) == ur + rest);
                assert(u0.skip(filled as int).len() == u0.len() - filled);
                assert(got <= ur.len());
                assert(ur.take(got as int) =~= u0.skip(filled as int).take(got as int));
                assert(u0.take(filled as int) + u0.skip(filled as int).take(got as int) =~= u0.take(
                    filled + got,
                ));
                assert(before.take(filled as int) =~= u0.take(filled as int));
                assert(buf@ =~= u0.take(filled + got) + old(buf)@.skip(filled + got));
                assert(u0.skip(filled as int).skip(got as int) =~= u0.skip(filled + got));
                lemma_unreads_first(r1, up);
                assert((ur + rest).skip(got as int) =~= ur.skip(got as int) + rest);
                assert(self.pending() == seq![r1] + up);
                if all_infallible(old(self).pending()) {
                    assert(r0.infallible()) by {
                        assert((seq![r0] + up)[0] == r0);
                    }
                    assert forall|j: int| 0 <= j < self.pending().len() implies #[trigger] self.pending()[j].infallible() by {
                        if j > 0 {
                            assert(self.pending()[j] == (seq![r0] + up)[j]);
                        }
                    }
                }
            }
            filled = filled + got;
            if got < want {
                self.current = None;
                proof {
                    assert(r1.unread() =~= Seq::<u8>::empty());
                    assert(Seq::<u8>::empty() + joined(unreads(up)) =~= joined(unreads(up)));
                    if all_infallible(old(self).pending()) {
                        assert forall|j: int| 0 <= j < up.len() implies #[trigger] up[j].infallible() by {
                            assert(up[j] == (seq![r1] + up)[j + 1]);
                        }
                    }
                }
            } else {
                break;
            }
        }
        Ok(filled)
    }
}

impl<R> MultiReaders<R, VecSource<R>> {
    /// A stream over no resource yet.
    pub fn new() -> (r: MultiReaders<R, VecSource<R>>)
        ensures
            r.pending() == Seq::<R>::empty(),
    {
        MultiReaders::from_iter(VecSource::new(Vec::new()))
    }

    /// A stream over `readers`, in their order.
    pub fn from_vec(readers: Vec<R>) -> (r: MultiReaders<R, VecSource<R>>)
        ensures
            r.pending() == readers@,
    {
        MultiReaders::from_iter(VecSource::new(readers))
    }

    /// Adds a resource after all the others.
    pub fn push(&mut self, reader: R)
        ensures
            final(self).pending() == old(self).pending().push(reader),
    {
        self.source.push(reader);
        proof {
            if self.current is Some {
                assert(self.pending() =~= old(self).pending().push(reader));
            }
        }
    }
}

} // verus!
