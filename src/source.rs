use vstd::prelude::*;

verus! {

/// `std::io::Error` is carried through as an opaque value.
#[verifier::external_type_specification]
#[verifier::external_body]
pub struct ExIoError(std::io::Error);

/// The concatenation of a sequence of byte sequences, in order.
pub open spec fn joined(parts: Seq<Seq<u8>>) -> Seq<u8>
    decreases parts.len(),
{
    if parts.len() == 0 {
        Seq::empty()
    } else {
        joined(parts.drop_last()) + parts.last()
    }
}

/// The concatenation splits at any index into what comes before and what
/// comes after it.
pub proof fn lemma_joined_split(parts: Seq<Seq<u8>>, i: int)
    requires
        0 <= i <= parts.len(),
    ensures
        joined(parts) == joined(parts.take(i)) + joined(parts.skip(i)),
    decreases parts.len(),
{
    if i == parts.len() {
        assert(parts.take(i) =~= parts);
        assert(parts.skip(i) =~= Seq::<Seq<u8>>::empty());
        assert(joined(parts) + Seq::<u8>::empty() =~= joined(parts));
    } else {
        let front = parts.drop_last();
        lemma_joined_split(front, i);
        assert(front.take(i) =~= parts.take(i));
        assert(parts.skip(i).drop_last() =~= front.skip(i));
        assert(parts.skip(i).last() == parts.last());
        assert(joined(parts) =~= joined(parts.take(i)) + joined(parts.skip(i)));
    }
}

/// The concatenation is the first part followed by the rest.
pub proof fn lemma_joined_first(parts: Seq<Seq<u8>>)
    requires
        parts.len() > 0,
    ensures
        joined(parts) == parts[0] + joined(parts.drop_first()),
{
    lemma_joined_split(parts, 1);
    let one = parts.take(1);
    assert(one.drop_last() =~= Seq::<Seq<u8>>::empty());
    assert(joined(one.drop_last()) == Seq::<u8>::empty());
    assert(one.last() == parts[0]);
    assert(joined(one) =~= parts[0]);
    assert(parts.skip(1) =~= parts.drop_first());
}

/// Appending a part appends its bytes.
pub proof fn lemma_joined_push(parts: Seq<Seq<u8>>, x: Seq<u8>)
    ensures
        joined(parts.push(x)) == joined(parts) + x,
{
    assert(parts.push(x).drop_last() =~= parts);
}

/// The concatenation up to index `i + 1` adds part `i`.
pub proof fn lemma_joined_take_step(parts: Seq<Seq<u8>>, i: int)
    requires
        0 <= i < parts.len(),
    ensures
        joined(parts.take(i + 1)) == joined(parts.take(i)) + parts[i],
{
    assert(parts.take(i + 1) =~= parts.take(i).push(parts[i]));
    lemma_joined_push(parts.take(i), parts[i]);
}

/// What a successful read of `n` bytes into a buffer does: the buffer goes
/// from `before` to `after`, and the bytes not yet read go from `unread` to
/// `rest`. The read takes as many bytes as both the buffer and the source
/// allow, so a short count means the source has nothing more.
pub open spec fn read_outcome(
    unread: Seq<u8>,
    rest: Seq<u8>,
    before: Seq<u8>,
    after: Seq<u8>,
    n: int,
) -> bool {
    &&& n == vstd::math::min(before.len() as int, unread.len() as int)
    &&& after == unread.take(n) + before.skip(n)
    &&& rest == unread.skip(n)
}

/// Reading a stream in calls of any sizes hands out its bytes in order:
/// what was delivered before a read, then what was still unread, equals
/// what was delivered after it, then what is still unread. A read that
/// delivers nothing into a non-empty buffer happens only once nothing is
/// left, so at that point the delivered bytes are the whole stream.
pub proof fn lemma_read_keeps_concatenation(
    delivered: Seq<u8>,
    unread: Seq<u8>,
    rest: Seq<u8>,
    before: Seq<u8>,
    after: Seq<u8>,
    n: int,
)
    requires
        read_outcome(unread, rest, before, after, n),
    ensures
        delivered + unread == (delivered + after.take(n)) + rest,
        n == 0 && before.len() > 0 ==> unread.len() == 0,
{
    assert(after.take(n) =~= unread.take(n));
    assert(unread =~= unread.take(n) + unread.skip(n));
    assert(delivered + unread =~= (delivered + after.take(n)) + rest);
}

/// A read is determined by the unread bytes and the buffer: two reads of
/// the same bytes into the same buffer deliver the same bytes and leave the
/// same rest, whichever reader performs them.
pub proof fn lemma_read_outcome_unique(
    unread: Seq<u8>,
    before: Seq<u8>,
    rest1: Seq<u8>,
    after1: Seq<u8>,
    n1: int,
    rest2: Seq<u8>,
    after2: Seq<u8>,
    n2: int,
)
    requires
        read_outcome(unread, rest1, before, after1, n1),
        read_outcome(unread, rest2, before, after2, n2),
    ensures
        n1 == n2,
        after1 == after2,
        rest1 == rest2,
{
}

/// The model shared by every byte resource.
///
/// The contracts of the traits below are obligations on each implementation,
/// stated over this model. Verus holds an implementation written in verified
/// code to them. One written outside it keeps the default model: no content,
/// no unread byte, and neither infallible nor always ready. Its reads do not
/// match that model, so what is proved of the bytes a composite delivers
/// does not describe such a resource; what is proved without reading a
/// resource still holds (a read into an empty buffer, an exhausted source,
/// the validation of a seek), and no success is promised for it.
pub trait ByteStream {
    /// The whole content of the resource. Reading and seeking move within
    /// it; they never change it.
    closed spec fn data(&self) -> Seq<u8> {
        Seq::empty()
    }

    /// The bytes that later reads deliver, in order.
    closed spec fn unread(&self) -> Seq<u8> {
        Seq::empty()
    }

    /// Whether every read and seek of the resource succeeds.
    closed spec fn infallible(&self) -> bool {
        false
    }

    /// Whether every poll of the resource concludes at once, never
    /// answering `Pending`.
    closed spec fn always_ready(&self) -> bool {
        false
    }
}

/// Every resource in `readers` is infallible.
pub open spec fn all_infallible<R: ByteStream>(readers: Seq<R>) -> bool {
    forall|i: int| 0 <= i < readers.len() ==> #[trigger] readers[i].infallible()
}

/// Every resource in `readers` is infallible and always ready.
pub open spec fn all_ready<R: ByteStream>(readers: Seq<R>) -> bool {
    forall|i: int|
        0 <= i < readers.len() ==> #[trigger] readers[i].infallible() && readers[i].always_ready()
}

/// When the first resource of a list that is all ready is replaced by one
/// that is ready in the same ways, the list stays all ready, and so does its
/// tail.
pub proof fn lemma_all_ready_step<R: ByteStream>(first: R, next: R, rest: Seq<R>)
    requires
        all_ready(seq![first] + rest),
        next.infallible() == first.infallible(),
        next.always_ready() == first.always_ready(),
    ensures
        first.infallible() && first.always_ready(),
        all_ready(rest),
        all_ready(seq![next] + rest),
{
    assert((seq![first] + rest)[0] == first);
    assert forall|j: int| 0 <= j < rest.len() implies #[trigger] rest[j].infallible()
        && rest[j].always_ready() by {
        assert(rest[j] == (seq![first] + rest)[j + 1]);
    }
    assert forall|j: int| 0 <= j < rest.len() + 1 implies #[trigger] (seq![next] + rest)[j].infallible()
        && (seq![next] + rest)[j].always_ready() by {
        if j > 0 {
            assert((seq![next] + rest)[j] == rest[j - 1]);
        }
    }
}

/// The bytes that each resource still has to deliver, in order.
pub open spec fn unreads<R: ByteStream>(readers: Seq<R>) -> Seq<Seq<u8>> {
    readers.map_values(|r: R| r.unread())
}

/// What a list of resources still has to deliver is what the first one has,
/// then what the others have.
pub proof fn lemma_unreads_first<R: ByteStream>(first: R, rest: Seq<R>)
    ensures
        joined(unreads(seq![first] + rest)) == first.unread() + joined(unreads(rest)),
{
    let all = seq![first] + rest;
    lemma_joined_first(unreads(all));
    assert(unreads(all).drop_first() =~= unreads(rest));
}

/// A resource that can be read sequentially.
pub trait ReadSource: ByteStream {
    /// Reads into the front of `buf`, as many bytes as `buf` holds or as
    /// remain, and returns how many.
    fn read(&mut self, buf: &mut [u8]) -> (r: Result<usize, std::io::Error>)
        ensures
            final(self).data() == old(self).data(),
            final(self).infallible() == old(self).infallible(),
            final(self).always_ready() == old(self).always_ready(),
            final(buf)@.len() == old(buf)@.len(),
            old(self).infallible() ==> r is Ok,
            r is Ok ==> read_outcome(
                old(self).unread(),
                final(self).unread(),
                old(buf)@,
                final(buf)@,
                r->Ok_0 as int,
            ),
    ;
}

/// A resource that can also be positioned anywhere within its content.
pub trait SeekSource: ReadSource {
    /// Moves to `offset` bytes from the start.
    fn seek_start(&mut self, offset: u64) -> (r: Result<u64, std::io::Error>)
        requires
            offset <= old(self).data().len(),
        ensures
            final(self).data() == old(self).data(),
            final(self).infallible() == old(self).infallible(),
            final(self).always_ready() == old(self).always_ready(),
            old(self).infallible() ==> r is Ok,
            r is Ok ==> r->Ok_0 == offset && final(self).unread() == final(self).data().skip(
                offset as int,
            ),
    ;

    /// Moves to the end and returns the length of the content.
    fn seek_end(&mut self) -> (r: Result<u64, std::io::Error>)
        ensures
            final(self).data() == old(self).data(),
            final(self).infallible() == old(self).infallible(),
            final(self).always_ready() == old(self).always_ready(),
            old(self).infallible() ==> r is Ok,
            r is Ok ==> r->Ok_0 == final(self).data().len() && final(self).unread().len() == 0,
    ;
}

/// The outcome of one poll of a non-blocking read.
pub enum ReadPoll {
    /// The read concluded: a byte count, zero at the end, or a failure.
    Ready(Result<usize, std::io::Error>),
    /// Nothing is available yet; the caller is woken to poll again.
    Pending,
}

/// A resource read by polling, under a scheduler context of type `C`.
pub trait PollSource<C>: ByteStream {
    /// Polls for bytes into the front of `buf`. A `Pending` result consumes
    /// nothing.
    fn poll_read(&mut self, cx: &mut C, buf: &mut [u8]) -> (r: ReadPoll)
        ensures
            final(self).data() == old(self).data(),
            final(self).infallible() == old(self).infallible(),
            final(self).always_ready() == old(self).always_ready(),
            final(buf)@.len() == old(buf)@.len(),
            old(self).infallible() ==> !(r matches ReadPoll::Ready(Err(_))),
            old(self).always_ready() ==> !(r is Pending),
            r is Pending ==> final(self).unread() == old(self).unread(),
            r matches ReadPoll::Ready(Ok(n)) ==> read_outcome(
                old(self).unread(),
                final(self).unread(),
                old(buf)@,
                final(buf)@,
                n as int,
            ),
    ;
}

/// A finite, single-pass supply of resources, handed out in order.
pub trait Producer<R> {
    /// The resources still to come. A producer written outside verified
    /// code keeps the empty default.
    closed spec fn upcoming(&self) -> Seq<R> {
        Seq::empty()
    }

    /// Hands out the next resource, or `None` once all are gone.
    fn next_reader(&mut self) -> (r: Option<R>)
        ensures
            old(self).upcoming().len() == 0 ==> r is None && final(self).upcoming().len() == 0,
            old(self).upcoming().len() > 0 ==> r == Some(old(self).upcoming()[0])
                && final(self).upcoming() == old(self).upcoming().drop_first(),
    ;
}

/// A [`Producer`] over resources that are all at hand.
pub struct VecSource<R> {
    queue: std::collections::VecDeque<R>,
}

impl<R> VecSource<R> {
    /// Takes the resources in the order of `readers`.
    pub fn new(readers: Vec<R>) -> (r: VecSource<R>)
        ensures
            r.upcoming() == readers@,
    {
        let mut readers = readers;
        let ghost all = readers@;
        let mut queue: std::collections::VecDeque<R> = std::collections::VecDeque::new();
        while readers.len() > 0
            invariant
                readers@ + queue@ == all,
            decreases readers.len(),
        {
            let r = readers.pop().unwrap();
            queue.push_front(r);
            assert(readers@ + queue@ =~= all);
        }
        assert(queue@ =~= all);
        VecSource { queue }
    }

    /// Adds a resource after all the others.
    pub fn push(&mut self, reader: R)
        ensures
            final(self).upcoming() == old(self).upcoming().push(reader),
    {
        self.queue.push_back(reader);
    }

    /// Whether no resource is left.
    pub fn is_empty(&self) -> (r: bool)
        ensures
            r == (self.upcoming().len() == 0),
    {
        self.queue.len() == 0
    }
}

impl<R> Producer<R> for VecSource<R> {
    closed spec fn upcoming(&self) -> Seq<R> {
        self.queue@
    }

    fn next_reader(&mut self) -> (r: Option<R>) {
        self.queue.pop_front()
    }
}

/// The values present in `items`, in order.
pub open spec fn present<R>(items: Seq<Option<R>>) -> Seq<R>
    decreases items.len(),
{
    if items.len() == 0 {
        Seq::empty()
    } else {
        match items[0] {
            Some(r) => seq![r] + present(items.drop_first()),
            None => present(items.drop_first()),
        }
    }
}

/// A [`Producer`] that hands out the resources present among those of an
/// inner producer of optional resources, skipping the absent ones.
pub struct Flatten<P> {
    inner: P,
}

impl<P> Flatten<P> {
    /// Skips the absent resources among those that `inner` hands out.
    pub fn new<R>(inner: P) -> (r: Flatten<P>) where P: Producer<Option<R>>
        ensures
            r.upcoming() == present(inner.upcoming()),
    {
        Flatten { inner }
    }
}

impl<R, P: Producer<Option<R>>> Producer<R> for Flatten<P> {
    closed spec fn upcoming(&self) -> Seq<R> {
        present(self.inner.upcoming())
    }

    fn next_reader(&mut self) -> (r: Option<R>) {
        loop
            invariant
                present(self.inner.upcoming()) == present(old(self).inner.upcoming()),
            decreases self.inner.upcoming().len(),
        {
            match self.inner.next_reader() {
                None => {
                    return None;
                },
                Some(Some(r)) => {
                    return Some(r);
                },
                Some(None) => {},
            }
        }
    }
}

} // verus!
