//! Regrouping a stream into chunks of events that share a key.

use vstd::prelude::*;
use vstd::std_specs::iter::IteratorSpec;

use crate::datum::Datum;
use crate::partitioners::partitioner::Partitioner;
use crate::query::source_size_hint;

verus! {

/// A partition key and a run of events that share it.
#[derive(PartialEq, Debug)]
pub struct Chunk<K, E> {
    pub key: K,
    pub elements: Vec<E>,
}

impl<K, E> View for Chunk<K, E> {
    type V = (K, Seq<E>);

    open spec fn view(&self) -> (K, Seq<E>) {
        (self.key, self.elements@)
    }
}

/// The index of the first buffer with the key `k`, or the number of buffers
/// where there is none.
pub open spec fn position<K, E>(bufs: Seq<(K, Seq<E>)>, k: K) -> int
    decreases bufs.len(),
{
    if bufs.len() == 0 {
        0
    } else if bufs[0].0 == k {
        0
    } else {
        1 + position(bufs.drop_first(), k)
    }
}

/// The events that wait under the key `k`.
pub open spec fn pending<K, E>(bufs: Seq<(K, Seq<E>)>, k: K) -> Seq<E> {
    if position(bufs, k) < bufs.len() {
        bufs[position(bufs, k)].1
    } else {
        Seq::empty()
    }
}

/// The buffers after the event `e` with the key `k` was added: at the end of
/// the buffer of `k`, or in a new last buffer where `k` had none.
pub open spec fn added<K, E>(bufs: Seq<(K, Seq<E>)>, k: K, e: E) -> Seq<(K, Seq<E>)> {
    let i = position(bufs, k);
    if i < bufs.len() {
        bufs.update(i, (k, bufs[i].1.push(e)))
    } else {
        bufs.push((k, seq![e]))
    }
}

/// The number of events in all buffers.
pub open spec fn total<K, E>(bufs: Seq<(K, Seq<E>)>) -> nat
    decreases bufs.len(),
{
    if bufs.len() == 0 {
        0
    } else {
        total(bufs.drop_last()) + bufs.last().1.len()
    }
}

/// The events of `events` whose key is `k`, in their order.
pub open spec fn of_key<P: Partitioner>(p: P, events: Seq<P::Event>, k: P::T) -> Seq<P::Event>
    decreases events.len(),
{
    if events.len() == 0 {
        Seq::empty()
    } else if p.spec_key(events[0]) == k {
        seq![events[0]] + of_key(p, events.drop_first(), k)
    } else {
        of_key(p, events.drop_first(), k)
    }
}

/// What one step of partitioning gives.
pub struct Partitioned<K, E> {
    /// The chunk handed out, if any.
    pub chunk: Option<(K, Seq<E>)>,
    /// The buffers afterwards.
    pub buffers: Seq<(K, Seq<E>)>,
    /// The number of events taken from the stream.
    pub taken: nat,
}

/// One step of partitioning the stream `events` with the buffers `bufs`.
///
/// Events are added to the buffers of their keys, one after the other. A
/// buffer that reaches `chunk_max_size` events is handed out. Else, when the
/// buffers together hold `total_size_limit` events, the oldest buffer is
/// handed out. When the stream is at its end, the oldest buffer is handed out,
/// until none is left.
pub open spec fn partition_next<P: Partitioner>(
    p: P,
    chunk_max_size: usize,
    total_size_limit: usize,
    bufs: Seq<(P::T, Seq<P::Event>)>,
    events: Seq<P::Event>,
) -> Partitioned<P::T, P::Event>
    decreases events.len(),
{
    if events.len() == 0 {
        if bufs.len() == 0 {
            Partitioned { chunk: None, buffers: bufs, taken: 0 }
        } else {
            Partitioned { chunk: Some(bufs[0]), buffers: bufs.remove(0), taken: 0 }
        }
    } else {
        let k = p.spec_key(events[0]);
        let i = position(bufs, k);
        let b2 = added(bufs, k, events[0]);
        if b2[i].1.len() >= chunk_max_size {
            Partitioned { chunk: Some(b2[i]), buffers: b2.remove(i), taken: 1 }
        } else if total(b2) >= total_size_limit {
            Partitioned { chunk: Some(b2[0]), buffers: b2.remove(0), taken: 1 }
        } else {
            let rest = partition_next(
                p,
                chunk_max_size,
                total_size_limit,
                b2,
                events.drop_first(),
            );
            Partitioned { chunk: rest.chunk, buffers: rest.buffers, taken: rest.taken + 1 }
        }
    }
}

/// The buffers are as partitioning keeps them: no key twice, no buffer empty
/// or full, every event under its own key.
pub open spec fn buffers_ok<P: Partitioner>(
    p: P,
    chunk_max_size: usize,
    bufs: Seq<(P::T, Seq<P::Event>)>,
) -> bool {
    &&& forall|i: int, j: int| 0 <= i < j < bufs.len() ==> (#[trigger] bufs[i]).0 != (
    #[trigger] bufs[j]).0
    &&& forall|i: int| 0 <= i < bufs.len() ==> 0 < (#[trigger] bufs[i]).1.len() < chunk_max_size
    &&& forall|i: int, j: int|
        0 <= i < bufs.len() && 0 <= j < bufs[i].1.len() ==> p.spec_key(
            #[trigger] bufs[i].1[j],
        ) == bufs[i].0
}

/// `position` gives the first buffer with the key, if there is one.
pub proof fn lemma_position<K, E>(bufs: Seq<(K, Seq<E>)>, k: K)
    ensures
        0 <= position(bufs, k) <= bufs.len(),
        position(bufs, k) < bufs.len() ==> bufs[position(bufs, k)].0 == k,
        forall|j: int| 0 <= j < position(bufs, k) ==> (#[trigger] bufs[j]).0 != k,
    decreases bufs.len(),
{
    if bufs.len() > 0 && bufs[0].0 != k {
        let t = bufs.drop_first();
        lemma_position(t, k);
        assert forall|j: int| 0 <= j < position(bufs, k) implies (#[trigger] bufs[j]).0 != k by {
            if j > 0 {
                assert(t[j - 1].0 != k);
            }
        }
    }
}

/// An index before which no buffer has the key, and which is the end or has
/// the key, is the key's position.
pub proof fn lemma_position_found<K, E>(bufs: Seq<(K, Seq<E>)>, k: K, i: int)
    requires
        0 <= i <= bufs.len(),
        forall|j: int| 0 <= j < i ==> (#[trigger] bufs[j]).0 != k,
        i < bufs.len() ==> bufs[i].0 == k,
    ensures
        position(bufs, k) == i,
{
    lemma_position(bufs, k);
    let p = position(bufs, k);
    if p < i {
        assert(bufs[p].0 != k);
    }
}

/// A new buffer adds its events to the number of buffered events.
pub proof fn lemma_total_push<K, E>(bufs: Seq<(K, Seq<E>)>, x: (K, Seq<E>))
    ensures
        total(bufs.push(x)) == total(bufs) + x.1.len(),
{
    assert(bufs.push(x).drop_last() =~= bufs);
}

/// A changed buffer changes the number of buffered events by the difference
/// of its lengths.
pub proof fn lemma_total_update<K, E>(bufs: Seq<(K, Seq<E>)>, i: int, x: (K, Seq<E>))
    requires
        0 <= i < bufs.len(),
    ensures
        total(bufs.update(i, x)) == total(bufs) - bufs[i].1.len() + x.1.len(),
    decreases bufs.len(),
{
    let u = bufs.update(i, x);
    let front = bufs.drop_last();
    if i == bufs.len() - 1 {
        assert(u.drop_last() =~= front);
        assert(u.last() == x);
    } else {
        lemma_total_update(front, i, x);
        assert(u.drop_last() =~= front.update(i, x));
        assert(u.last() == bufs.last());
    }
}

/// A removed buffer takes its events from the number of buffered events.
pub proof fn lemma_total_remove<K, E>(bufs: Seq<(K, Seq<E>)>, i: int)
    requires
        0 <= i < bufs.len(),
    ensures
        total(bufs.remove(i)) == total(bufs) - bufs[i].1.len(),
    decreases bufs.len(),
{
    let r = bufs.remove(i);
    let front = bufs.drop_last();
    if i == bufs.len() - 1 {
        assert(r =~= front);
    } else {
        lemma_total_remove(front, i);
        assert(r.drop_last() =~= front.remove(i));
        assert(r.last() == bufs.last());
    }
}

/// Adding an event adds one to the number of buffered events.
pub proof fn lemma_total_added<K, E>(bufs: Seq<(K, Seq<E>)>, k: K, e: E)
    ensures
        total(added(bufs, k, e)) == total(bufs) + 1,
{
    lemma_position(bufs, k);
    let i = position(bufs, k);
    if i < bufs.len() {
        lemma_total_update(bufs, i, (k, bufs[i].1.push(e)));
    } else {
        lemma_total_push(bufs, (k, seq![e]));
    }
}

/// A step of partitioning takes no more events than the stream has.
pub proof fn lemma_partition_taken<P: Partitioner>(
    p: P,
    chunk_max_size: usize,
    total_size_limit: usize,
    bufs: Seq<(P::T, Seq<P::Event>)>,
    events: Seq<P::Event>,
)
    ensures
        partition_next(p, chunk_max_size, total_size_limit, bufs, events).taken <= events.len(),
    decreases events.len(),
{
    if events.len() > 0 {
        let k = p.spec_key(events[0]);
        lemma_partition_taken(
            p,
            chunk_max_size,
            total_size_limit,
            added(bufs, k, events[0]),
            events.drop_first(),
        );
    }
}

/// The number of events in a chunk; none where there is no chunk.
pub open spec fn chunk_len<K, E>(chunk: Option<(K, Seq<E>)>) -> nat {
    match chunk {
        Some(c) => c.1.len(),
        None => 0,
    }
}

/// A step of partitioning neither loses nor adds an event: what the buffers
/// and the chunk hold afterwards is what the buffers held before and what was
/// taken from the stream.
pub proof fn lemma_partition_count<P: Partitioner>(
    p: P,
    chunk_max_size: usize,
    total_size_limit: usize,
    bufs: Seq<(P::T, Seq<P::Event>)>,
    events: Seq<P::Event>,
)
    ensures
        ({
            let m = partition_next(p, chunk_max_size, total_size_limit, bufs, events);
            total(m.buffers) + chunk_len(m.chunk) == total(bufs) + m.taken
        }),
    decreases events.len(),
{
    if events.len() == 0 {
        if bufs.len() > 0 {
            lemma_total_remove(bufs, 0);
        }
    } else {
        let k = p.spec_key(events[0]);
        let i = position(bufs, k);
        let b2 = added(bufs, k, events[0]);
        lemma_position(bufs, k);
        lemma_total_added(bufs, k, events[0]);
        if b2[i].1.len() >= chunk_max_size {
            lemma_total_remove(b2, i);
        } else if total(b2) >= total_size_limit {
            lemma_total_remove(b2, 0);
        } else {
            lemma_partition_count(p, chunk_max_size, total_size_limit, b2, events.drop_first());
        }
    }
}

/// A step of partitioning that hands out a chunk takes an event from the
/// stream or a buffer from the buffers; one that hands out none leaves
/// neither an event nor a buffer.
pub proof fn lemma_partition_progress<P: Partitioner>(
    p: P,
    chunk_max_size: usize,
    total_size_limit: usize,
    bufs: Seq<(P::T, Seq<P::Event>)>,
    events: Seq<P::Event>,
)
    ensures
        ({
            let m = partition_next(p, chunk_max_size, total_size_limit, bufs, events);
            &&& m.taken <= events.len()
            &&& m.chunk is Some && m.taken == 0 ==> events.len() == 0 && m.buffers.len()
                < bufs.len()
            &&& m.chunk is None ==> m.buffers.len() == 0 && m.taken == events.len()
        }),
    decreases events.len(),
{
    if events.len() > 0 {
        let k = p.spec_key(events[0]);
        lemma_partition_progress(
            p,
            chunk_max_size,
            total_size_limit,
            added(bufs, k, events[0]),
            events.drop_first(),
        );
    }
}

/// An iterator that regroups the events of another iterator into chunks of
/// events that share a key.
pub struct PartitionIterator<'a, J, Part> where J: Iterator, Part: Partitioner<Event = J::Item> {
    iter: J,
    partitioner: &'a Part,
    chunk_max_size: usize,
    waiting: Vec<Chunk<Part::T, J::Item>>,
    total_size: usize,
    total_size_limit: usize,
    exhausted: bool,
}

impl<'a, J, Part> PartitionIterator<'a, J, Part> where
    J: Iterator,
    Part: Partitioner<Event = J::Item>,
 {
    /// The iterator that the events come from.
    pub closed spec fn source(&self) -> J {
        self.iter
    }

    /// The partitioner that keys the events.
    pub closed spec fn spec_partitioner(&self) -> Part {
        *self.partitioner
    }

    /// The number of events at which a chunk is handed out.
    pub closed spec fn spec_chunk_max_size(&self) -> usize {
        self.chunk_max_size
    }

    /// The number of buffered events at which the oldest buffer is handed
    /// out.
    pub closed spec fn spec_total_size_limit(&self) -> usize {
        self.total_size_limit
    }

    /// The events that wait for their chunk, by key, oldest key first.
    pub closed spec fn buffers(&self) -> Seq<(Part::T, Seq<J::Item>)> {
        Seq::new(self.waiting@.len(), |i: int| self.waiting@[i]@)
    }

    /// A bound on the number of events that can still be taken from the
    /// source: 0 once the source was seen at its end.
    pub closed spec fn fuel(&self) -> nat {
        if self.exhausted {
            0
        } else {
            1 + self.iter.decrease()->0
        }
    }

    /// The iterator is in a state that `partition_by` and `next` leave it in,
    /// where `rest` is what its source still has to give.
    pub closed spec fn wf(&self, rest: Seq<J::Item>) -> bool {
        &&& self.exhausted ==> rest.len() == 0
        &&& self.iter.obeys_prophetic_iter_laws()
        &&& self.iter.decrease() is Some
        &&& self.partitioner.wf()
        &&& self.chunk_max_size > 0
        &&& self.total_size_limit > 0
        &&& buffers_ok(*self.partitioner, self.chunk_max_size, self.buffers())
        &&& self.total_size == total(self.buffers())
        &&& self.total_size < self.total_size_limit
    }

    /// Makes the iterator over the events of `iter`.
    pub fn new(
        iter: J,
        partitioner: &'a Part,
        chunk_max_size: usize,
        total_size_limit: usize,
    ) -> (r: Self)
        requires
            chunk_max_size > 0,
            total_size_limit > 0,
            iter.obeys_prophetic_iter_laws(),
            iter.decrease() is Some,
            partitioner.wf(),
        ensures
            r.wf(iter.remaining()),
            r.source() == iter,
            r.spec_partitioner() == *partitioner,
            r.spec_chunk_max_size() == chunk_max_size,
            r.spec_total_size_limit() == total_size_limit,
            r.buffers() == Seq::<(Part::T, Seq<J::Item>)>::empty(),
    {
        let r = PartitionIterator {
            iter,
            partitioner,
            chunk_max_size,
            waiting: Vec::new(),
            total_size: 0,
            total_size_limit,
            exhausted: false,
        };
        assert(r.buffers() =~= Seq::<(Part::T, Seq<J::Item>)>::empty());
        r
    }

    /// The index of the buffer of `key`, or the number of buffers where it
    /// has none.
    fn find(&self, key: &Part::T) -> (i: usize)
        ensures
            i == position(self.buffers(), *key),
            i <= self.waiting@.len(),
    {
        let mut i: usize = 0;
        while i < self.waiting.len()
            invariant
                i <= self.waiting@.len(),
                forall|j: int| 0 <= j < i ==> (#[trigger] self.buffers()[j]).0 != *key,
            ensures
                i <= self.waiting@.len(),
                forall|j: int| 0 <= j < i ==> (#[trigger] self.buffers()[j]).0 != *key,
                i < self.waiting@.len() ==> self.buffers()[i as int].0 == *key,
            decreases self.waiting@.len() - i,
        {
            if self.waiting[i].key.same(key) {
                break ;
            }
            i += 1;
        }
        proof {
            lemma_position_found(self.buffers(), *key, i as int);
        }
        i
    }

    /// Takes the buffer at index `i` out and hands it over as a chunk.
    fn take_chunk(&mut self, i: usize) -> (chunk: Chunk<Part::T, J::Item>)
        requires
            i < old(self).buffers().len(),
            old(self).total_size == total(old(self).buffers()),
        ensures
            chunk@ == old(self).buffers()[i as int],
            final(self).buffers() == old(self).buffers().remove(i as int),
            final(self).total_size == total(final(self).buffers()),
            final(self).total_size == old(self).total_size - chunk.elements@.len(),
            final(self).iter == old(self).iter,
            final(self).partitioner == old(self).partitioner,
            final(self).chunk_max_size == old(self).chunk_max_size,
            final(self).total_size_limit == old(self).total_size_limit,
            final(self).exhausted == old(self).exhausted,
    {
        proof {
            lemma_total_remove(self.buffers(), i as int);
        }
        let chunk = self.waiting.remove(i);
        proof {
            assert(self.buffers() =~= old(self).buffers().remove(i as int));
        }
        self.total_size = self.total_size - chunk.elements.len();
        chunk
    }

    /// What the source says of the number of events it still has. It is a
    /// hint on the number of chunks at best.
    pub fn size_hint(&self) -> (usize, Option<usize>) {
        source_size_hint(&self.iter)
    }

    /// The next chunk, or `None` when the stream is at its end and no event
    /// waits any more.
    pub fn next(&mut self) -> (r: Option<Chunk<Part::T, J::Item>>)
        requires
            old(self).wf(old(self).source().remaining()),
        ensures
            final(self).wf(final(self).source().remaining()),
            r is Some ==> final(self).fuel() < old(self).fuel() || (final(self).fuel()
                == old(self).fuel() && final(self).buffers().len() < old(self).buffers().len()),
            final(self).spec_partitioner() == old(self).spec_partitioner(),
            final(self).spec_chunk_max_size() == old(self).spec_chunk_max_size(),
            final(self).spec_total_size_limit() == old(self).spec_total_size_limit(),
            ({
                let m = partition_next(
                    old(self).spec_partitioner(),
                    old(self).spec_chunk_max_size(),
                    old(self).spec_total_size_limit(),
                    old(self).buffers(),
                    old(self).source().remaining(),
                );
                &&& m.taken <= old(self).source().remaining().len()
                &&& final(self).buffers() == m.buffers
                &&& final(self).source().remaining() == old(self).source().remaining().skip(
                    m.taken as int,
                )
                &&& match r {
                    Some(c) => m.chunk == Some(c@),
                    None => m.chunk is None,
                }
                &&& forall|i: int|
                    0 <= i < m.taken ==> old(self).spec_partitioner().defined(
                        #[trigger] old(self).source().remaining()[i],
                    )
            }),
            r matches Some(c) ==> 0 < c.elements@.len() <= old(self).spec_chunk_max_size(),
            r matches Some(c) ==> forall|j: int|
                0 <= j < c.elements@.len() ==> old(self).spec_partitioner().spec_key(
                    #[trigger] c.elements@[j],
                ) == c.key,
            forall|k: Part::T| #[trigger]
                keeps_order(
                    old(self).spec_partitioner(),
                    old(self).buffers(),
                    old(self).source().remaining(),
                    partition_next(
                        old(self).spec_partitioner(),
                        old(self).spec_chunk_max_size(),
                        old(self).spec_total_size_limit(),
                        old(self).buffers(),
                        old(self).source().remaining(),
                    ),
                    k,
                ),
    {
        let ghost all = self.iter.remaining();
        let ghost b0 = self.buffers();
        let ghost p = *self.partitioner;
        let ghost m0 = partition_next(p, self.chunk_max_size, self.total_size_limit, b0, all);
        let ghost n: nat = 0;
        proof {
            assert(all.skip(0) =~= all);
            lemma_partition_taken(p, self.chunk_max_size, self.total_size_limit, b0, all);
            assert forall|k: Part::T| #[trigger] keeps_order(p, b0, all, m0, k) by {
                lemma_partition_keeps_order(
                    p,
                    self.chunk_max_size,
                    self.total_size_limit,
                    b0,
                    all,
                    k,
                );
            }
        }
        let ghost pulled = false;
        while !self.exhausted
            invariant
                self.wf(self.iter.remaining()),
                self.fuel() <= old(self).fuel(),
                pulled ==> self.fuel() < old(self).fuel(),
                self.partitioner == old(self).partitioner,
                self.chunk_max_size == old(self).chunk_max_size,
                self.total_size_limit == old(self).total_size_limit,
                p == *self.partitioner,
                b0 == old(self).buffers(),
                all == old(self).iter.remaining(),
                forall|k: Part::T| #[trigger] keeps_order(p, b0, all, m0, k),
                forall|i: int| 0 <= i < n ==> p.defined(#[trigger] all[i]),
                n <= all.len(),
                self.iter.remaining() == all.skip(n as int),
                m0 == partition_next(
                    p,
                    old(self).chunk_max_size,
                    old(self).total_size_limit,
                    b0,
                    all,
                ),
                ({
                    let m = partition_next(
                        p,
                        self.chunk_max_size,
                        self.total_size_limit,
                        self.buffers(),
                        all.skip(n as int),
                    );
                    &&& m.chunk == m0.chunk
                    &&& m.buffers == m0.buffers
                    &&& m.taken + n == m0.taken
                    &&& m.taken <= all.len() - n
                }),
            ensures
                self.wf(self.iter.remaining()),
                self.exhausted,
                self.fuel() <= old(self).fuel(),
                self.partitioner == old(self).partitioner,
                self.chunk_max_size == old(self).chunk_max_size,
                self.total_size_limit == old(self).total_size_limit,
                forall|i: int| 0 <= i < n ==> p.defined(#[trigger] all[i]),
                n == all.len(),
                self.iter.remaining() == all.skip(n as int),
                ({
                    let m = partition_next(
                        p,
                        self.chunk_max_size,
                        self.total_size_limit,
                        self.buffers(),
                        Seq::<J::Item>::empty(),
                    );
                    &&& m.chunk == m0.chunk
                    &&& m.buffers == m0.buffers
                    &&& n == m0.taken
                }),
            decreases self.iter.decrease()->0,
        {
            let ghost bufs = self.buffers();
            let ghost rest = all.skip(n as int);
            match self.iter.next() {
                None => {
                    proof {
                        assert(rest =~= Seq::<J::Item>::empty());
                    }
                    self.exhausted = true;
                    break ;
                },
                Some(x) => {
                    proof {
                        pulled = true;
                    }
                    let key = self.partitioner.partition_key(&x);
                    let i = self.find(&key);
                    let ghost b2 = added(bufs, key, x);
                    proof {
                        assert(rest.len() > 0);
                        assert(rest[0] == x);
                        assert(rest.drop_first() =~= all.skip(n as int + 1));
                        lemma_position(bufs, key);
                        lemma_total_added(bufs, key, x);
                        lemma_partition_taken(
                            p,
                            self.chunk_max_size,
                            self.total_size_limit,
                            b2,
                            all.skip(n as int + 1),
                        );
                    }
                    if i < self.waiting.len() {
                        self.waiting[i].elements.push(x);
                    } else {
                        let mut elements = Vec::new();
                        elements.push(x);
                        self.waiting.push(Chunk { key, elements });
                    }
                    self.total_size = self.total_size + 1;
                    proof {
                        assert(self.buffers() =~= b2);
                        lemma_added_ok(p, self.chunk_max_size, bufs, x);
                        n = n + 1;
                    }
                    if self.waiting[i].elements.len() >= self.chunk_max_size {
                        let chunk = self.take_chunk(i);
                        proof {
                            lemma_removed_ok(p, self.chunk_max_size, b2, i as int);
                        }
                        return Some(chunk);
                    }
                    if self.total_size >= self.total_size_limit {
                        let chunk = self.take_chunk(0);
                        proof {
                            lemma_removed_ok(p, self.chunk_max_size, b2, 0);
                        }
                        return Some(chunk);
                    }
                },
            }
        }
        proof {
            assert(all.skip(n as int) =~= Seq::<J::Item>::empty());
        }
        if self.waiting.len() > 0 {
            let ghost bufs = self.buffers();
            let chunk = self.take_chunk(0);
            proof {
                lemma_removed_ok(p, self.chunk_max_size, bufs, 0);
            }
            return Some(chunk);
        }
        None
    }
}

/// Gives every iterator the method `partition_by`.
pub trait PartitionIterTool: Iterator + Sized {
    /// Regroups the events of this iterator into chunks of at most
    /// `chunk_max_size` events that share a key of `partitioner`, with at most
    /// `total_size_limit` events waiting at a time.
    fn partition_by<'a, P>(
        self,
        partitioner: &'a P,
        chunk_max_size: usize,
        total_size_limit: usize,
    ) -> (r: PartitionIterator<'a, Self, P>) where P: Partitioner<Event = Self::Item>
        requires
            chunk_max_size > 0,
            total_size_limit > 0,
            self.obeys_prophetic_iter_laws(),
            self.decrease() is Some,
            partitioner.wf(),
        ensures
            r.wf(self.remaining()),
            r.source() == self,
            r.spec_partitioner() == *partitioner,
            r.spec_chunk_max_size() == chunk_max_size,
            r.spec_total_size_limit() == total_size_limit,
            r.buffers() == Seq::<(P::T, Seq<Self::Item>)>::empty(),
    ;
}

impl<T: Iterator> PartitionIterTool for T {
    fn partition_by<'a, P>(
        self,
        partitioner: &'a P,
        chunk_max_size: usize,
        total_size_limit: usize,
    ) -> (r: PartitionIterator<'a, Self, P>) where P: Partitioner<Event = Self::Item> {
        PartitionIterator::new(self, partitioner, chunk_max_size, total_size_limit)
    }
}

/// Adding an event under its key keeps the buffers as they should be, but
/// that the buffer of the key may now be full.
pub proof fn lemma_added_ok<P: Partitioner>(
    p: P,
    chunk_max_size: usize,
    bufs: Seq<(P::T, Seq<P::Event>)>,
    e: P::Event,
)
    requires
        chunk_max_size > 0,
        buffers_ok(p, chunk_max_size, bufs),
    ensures
        ({
            let k = p.spec_key(e);
            let b2 = added(bufs, k, e);
            let i = position(bufs, k);
            &&& 0 <= i < b2.len()
            &&& b2[i].0 == k
            &&& 0 < b2[i].1.len() <= chunk_max_size
            &&& forall|a: int, b: int| 0 <= a < b < b2.len() ==> (#[trigger] b2[a]).0 != (
            #[trigger] b2[b]).0
            &&& forall|a: int| 0 <= a < b2.len() && a != i ==> 0 < (#[trigger] b2[a]).1.len()
                < chunk_max_size
            &&& forall|a: int, b: int|
                0 <= a < b2.len() && 0 <= b < b2[a].1.len() ==> p.spec_key(#[trigger] b2[a].1[b])
                    == b2[a].0
        }),
{
    let k = p.spec_key(e);
    let b2 = added(bufs, k, e);
    let i = position(bufs, k);
    lemma_position(bufs, k);
    assert forall|a: int, b: int| 0 <= a < b < b2.len() implies (#[trigger] b2[a]).0 != (
    #[trigger] b2[b]).0 by {
        if i < bufs.len() {
            assert(bufs[a].0 != bufs[b].0);
        } else {
            if b < bufs.len() {
                assert(bufs[a].0 != bufs[b].0);
            } else {
                assert(bufs[a].0 != k);
            }
        }
    }
    assert forall|a: int| 0 <= a < b2.len() && a != i implies 0 < (#[trigger] b2[a]).1.len()
        < chunk_max_size by {
        assert(0 < bufs[a].1.len() < chunk_max_size);
    }
    if i < bufs.len() {
        assert(0 < bufs[i].1.len() < chunk_max_size);
        assert(b2[i] == (k, bufs[i].1.push(e)));
    } else {
        assert(b2[i] == (k, seq![e]));
    }
    assert(0 < b2[i].1.len() <= chunk_max_size);
    assert forall|a: int, b: int| 0 <= a < b2.len() && 0 <= b < b2[a].1.len() implies p.spec_key(
        #[trigger] b2[a].1[b],
    ) == b2[a].0 by {
        if a == i {
            if i < bufs.len() {
                if b < bufs[i].1.len() {
                    assert(b2[a].1[b] == bufs[i].1[b]);
                    assert(p.spec_key(bufs[i].1[b]) == bufs[i].0);
                } else {
                    assert(b2[a].1[b] == e);
                }
            } else {
                assert(b2[a].1[b] == e);
            }
        } else {
            assert(b2[a] == bufs[a]);
            assert(p.spec_key(bufs[a].1[b]) == bufs[a].0);
        }
    }
}

/// Taking out the one buffer that may be full leaves the buffers as they
/// should be.
pub proof fn lemma_removed_ok<P: Partitioner>(
    p: P,
    chunk_max_size: usize,
    b2: Seq<(P::T, Seq<P::Event>)>,
    i: int,
)
    requires
        0 <= i < b2.len(),
        forall|a: int, b: int| 0 <= a < b < b2.len() ==> (#[trigger] b2[a]).0 != (
        #[trigger] b2[b]).0,
        forall|a: int| 0 <= a < b2.len() && a != i ==> 0 < (#[trigger] b2[a]).1.len()
            < chunk_max_size,
        forall|a: int, b: int|
            0 <= a < b2.len() && 0 <= b < b2[a].1.len() ==> p.spec_key(#[trigger] b2[a].1[b])
                == b2[a].0,
    ensures
        buffers_ok(p, chunk_max_size, b2.remove(i)),
{
    let r = b2.remove(i);
    assert forall|a: int, b: int| 0 <= a < b < r.len() implies (#[trigger] r[a]).0 != (
    #[trigger] r[b]).0 by {
        let a2 = if a < i {
            a
        } else {
            a + 1
        };
        let b3 = if b < i {
            b
        } else {
            b + 1
        };
        assert(b2[a2].0 != b2[b3].0);
    }
    assert forall|a: int| 0 <= a < r.len() implies 0 < (#[trigger] r[a]).1.len()
        < chunk_max_size by {
        let a2 = if a < i {
            a
        } else {
            a + 1
        };
        assert(0 < b2[a2].1.len() < chunk_max_size);
    }
    assert forall|a: int, b: int| 0 <= a < r.len() && 0 <= b < r[a].1.len() implies p.spec_key(
        #[trigger] r[a].1[b],
    ) == r[a].0 by {
        let a2 = if a < i {
            a
        } else {
            a + 1
        };
        assert(p.spec_key(b2[a2].1[b]) == b2[a2].0);
    }
}

/// The events of a chunk that belong to the key `k`: all of them where the
/// chunk has that key, none otherwise.
pub open spec fn chunk_part<K, E>(chunk: Option<(K, Seq<E>)>, k: K) -> Seq<E> {
    match chunk {
        Some(c) => if c.0 == k {
            c.1
        } else {
            Seq::empty()
        },
        None => Seq::empty(),
    }
}

/// For the key `k`, the step `m` from the buffers `bufs` over the stream
/// `events` has neither lost, added nor reordered an event: what waited
/// before, followed by what was taken from the stream, is what the chunk
/// holds, followed by what waits afterwards.
pub open spec fn keeps_order<P: Partitioner>(
    p: P,
    bufs: Seq<(P::T, Seq<P::Event>)>,
    events: Seq<P::Event>,
    m: Partitioned<P::T, P::Event>,
    k: P::T,
) -> bool {
    pending(bufs, k) + of_key(p, events.take(m.taken as int), k) == chunk_part(m.chunk, k)
        + pending(m.buffers, k)
}

/// What waits under a key after an event was added.
pub proof fn lemma_pending_added<K, E>(bufs: Seq<(K, Seq<E>)>, ke: K, e: E, k: K)
    ensures
        pending(added(bufs, ke, e), k) == if k == ke {
            pending(bufs, k).push(e)
        } else {
            pending(bufs, k)
        },
{
    let b2 = added(bufs, ke, e);
    let i = position(bufs, ke);
    lemma_position(bufs, ke);
    lemma_position(bufs, k);
    if i < bufs.len() {
        if k == ke {
            lemma_position_found(b2, k, i);
        } else {
            let j = position(bufs, k);
            assert forall|a: int| 0 <= a < j implies (#[trigger] b2[a]).0 != k by {
                assert(bufs[a].0 != k);
            }
            lemma_position_found(b2, k, j);
        }
    } else {
        if k == ke {
            assert forall|a: int| 0 <= a < bufs.len() implies (#[trigger] b2[a]).0 != k by {
                assert(bufs[a].0 != k);
            }
            lemma_position_found(b2, k, bufs.len() as int);
            assert(pending(bufs, k).push(e) =~= seq![e]);
        } else {
            let j = position(bufs, k);
            assert forall|a: int| 0 <= a < j implies (#[trigger] b2[a]).0 != k by {
                assert(bufs[a].0 != k);
            }
            if j < bufs.len() {
                lemma_position_found(b2, k, j);
            } else {
                lemma_position_found(b2, k, b2.len() as int);
            }
        }
    }
}

/// What waits under a key after a buffer was taken out.
pub proof fn lemma_pending_removed<K, E>(bufs: Seq<(K, Seq<E>)>, i: int, k: K)
    requires
        0 <= i < bufs.len(),
        forall|a: int, b: int| 0 <= a < b < bufs.len() ==> (#[trigger] bufs[a]).0 != (
        #[trigger] bufs[b]).0,
    ensures
        bufs[i].0 == k ==> pending(bufs, k) == bufs[i].1 && pending(bufs.remove(i), k)
            == Seq::<E>::empty(),
        bufs[i].0 != k ==> pending(bufs.remove(i), k) == pending(bufs, k),
{
    let r = bufs.remove(i);
    lemma_position(bufs, k);
    let j = position(bufs, k);
    if bufs[i].0 == k {
        if j < i {
            assert(bufs[j].0 != bufs[i].0);
        }
        assert(j == i);
        assert forall|a: int| 0 <= a < r.len() implies (#[trigger] r[a]).0 != k by {
            if a < i {
                assert(bufs[a].0 != bufs[i].0);
            } else {
                assert(bufs[i].0 != bufs[a + 1].0);
            }
        }
        lemma_position_found(r, k, r.len() as int);
    } else {
        if j < i {
            assert forall|a: int| 0 <= a < j implies (#[trigger] r[a]).0 != k by {
                assert(bufs[a].0 != k);
            }
            lemma_position_found(r, k, j);
        } else {
            assert forall|a: int| 0 <= a < j - 1 implies (#[trigger] r[a]).0 != k by {
                if a < i {
                    assert(bufs[a].0 != k);
                } else {
                    assert(bufs[a + 1].0 != k);
                }
            }
            lemma_position_found(r, k, j - 1);
        }
    }
}

/// Partitioning preserves the order of the events of every key: a step
/// neither loses, adds nor reorders an event of the key `k`.
pub proof fn lemma_partition_keeps_order<P: Partitioner>(
    p: P,
    chunk_max_size: usize,
    total_size_limit: usize,
    bufs: Seq<(P::T, Seq<P::Event>)>,
    events: Seq<P::Event>,
    k: P::T,
)
    requires
        chunk_max_size > 0,
        buffers_ok(p, chunk_max_size, bufs),
    ensures
        keeps_order(
            p,
            bufs,
            events,
            partition_next(p, chunk_max_size, total_size_limit, bufs, events),
            k,
        ),
    decreases events.len(),
{
    let m = partition_next(p, chunk_max_size, total_size_limit, bufs, events);
    if events.len() == 0 {
        assert(events.take(0) =~= Seq::<P::Event>::empty());
        if bufs.len() > 0 {
            lemma_pending_removed(bufs, 0, k);
        }
        assert(pending(bufs, k) + Seq::<P::Event>::empty() =~= pending(bufs, k));
        assert(chunk_part(m.chunk, k) + pending(m.buffers, k) =~= pending(bufs, k));
    } else {
        let e = events[0];
        let ke = p.spec_key(e);
        let i = position(bufs, ke);
        let b2 = added(bufs, ke, e);
        lemma_added_ok(p, chunk_max_size, bufs, e);
        lemma_pending_added(bufs, ke, e, k);
        let one = if ke == k {
            seq![e]
        } else {
            Seq::<P::Event>::empty()
        };
        assert(pending(bufs, k) + one =~= pending(b2, k));
        if b2[i].1.len() >= chunk_max_size || total(b2) >= total_size_limit {
            let j = if b2[i].1.len() >= chunk_max_size {
                i
            } else {
                0
            };
            lemma_pending_removed(b2, j, k);
            assert(events.take(1) =~= seq![e]);
            assert(seq![e].drop_first() =~= Seq::<P::Event>::empty());
            assert(of_key(p, seq![e], k) =~= one) by {
                reveal_with_fuel(of_key, 2);
            }
            assert(chunk_part(m.chunk, k) + pending(m.buffers, k) =~= pending(b2, k));
        } else {
            let tail = events.drop_first();
            lemma_partition_keeps_order(p, chunk_max_size, total_size_limit, b2, tail, k);
            lemma_partition_taken(p, chunk_max_size, total_size_limit, b2, tail);
            let rest = partition_next(p, chunk_max_size, total_size_limit, b2, tail);
            let taken = events.take(m.taken as int);
            assert(taken[0] == e);
            assert(taken.drop_first() =~= tail.take(rest.taken as int));
            assert(of_key(p, taken, k) =~= one + of_key(p, tail.take(rest.taken as int), k));
            assert(pending(bufs, k) + (one + of_key(p, tail.take(rest.taken as int), k)) =~= (
            pending(bufs, k) + one) + of_key(p, tail.take(rest.taken as int), k));
        }
    }
}

/// A step of partitioning leaves the buffers as they should be, and hands
/// out a chunk that is neither empty nor longer than `chunk_max_size`, with
/// every event under the chunk's key.
pub proof fn lemma_partition_next_ok<P: Partitioner>(
    p: P,
    chunk_max_size: usize,
    total_size_limit: usize,
    bufs: Seq<(P::T, Seq<P::Event>)>,
    events: Seq<P::Event>,
)
    requires
        chunk_max_size > 0,
        buffers_ok(p, chunk_max_size, bufs),
    ensures
        ({
            let m = partition_next(p, chunk_max_size, total_size_limit, bufs, events);
            &&& buffers_ok(p, chunk_max_size, m.buffers)
            &&& m.chunk matches Some(c) ==> 0 < c.1.len() <= chunk_max_size && forall|j: int|
                0 <= j < c.1.len() ==> p.spec_key(#[trigger] c.1[j]) == c.0
        }),
    decreases events.len(),
{
    if events.len() == 0 {
        if bufs.len() > 0 {
            lemma_removed_ok(p, chunk_max_size, bufs, 0);
            assert(0 < bufs[0].1.len() < chunk_max_size);
            assert forall|j: int| 0 <= j < bufs[0].1.len() implies p.spec_key(
                #[trigger] bufs[0].1[j],
            ) == bufs[0].0 by {}
        }
    } else {
        let k = p.spec_key(events[0]);
        let i = position(bufs, k);
        let b2 = added(bufs, k, events[0]);
        lemma_added_ok(p, chunk_max_size, bufs, events[0]);
        if b2[i].1.len() >= chunk_max_size {
            lemma_removed_ok(p, chunk_max_size, b2, i);
            assert forall|j: int| 0 <= j < b2[i].1.len() implies p.spec_key(#[trigger] b2[i].1[j])
                == b2[i].0 by {}
        } else if total(b2) >= total_size_limit {
            lemma_removed_ok(p, chunk_max_size, b2, 0);
            assert(0 < b2[0].1.len() <= chunk_max_size);
            assert forall|j: int| 0 <= j < b2[0].1.len() implies p.spec_key(#[trigger] b2[0].1[j])
                == b2[0].0 by {}
        } else {
            lemma_partition_next_ok(p, chunk_max_size, total_size_limit, b2, events.drop_first());
        }
    }
}

/// All chunks that partitioning hands out from the buffers `bufs` over the
/// stream `events`, step by step, until none is left.
pub open spec fn partition_all<P: Partitioner>(
    p: P,
    chunk_max_size: usize,
    total_size_limit: usize,
    bufs: Seq<(P::T, Seq<P::Event>)>,
    events: Seq<P::Event>,
) -> Seq<(P::T, Seq<P::Event>)>
    decreases events.len(), bufs.len(),
{
    let m = partition_next(p, chunk_max_size, total_size_limit, bufs, events);
    match m.chunk {
        None => Seq::empty(),
        Some(c) => {
            proof {
                lemma_partition_progress(p, chunk_max_size, total_size_limit, bufs, events);
            }
            seq![c] + partition_all(
                p,
                chunk_max_size,
                total_size_limit,
                m.buffers,
                events.skip(m.taken as int),
            )
        },
    }
}

/// The events of the chunks `chunks` that have the key `k`, chunk after
/// chunk.
pub open spec fn chunks_of_key<K, E>(chunks: Seq<(K, Seq<E>)>, k: K) -> Seq<E>
    decreases chunks.len(),
{
    if chunks.len() == 0 {
        Seq::empty()
    } else {
        chunk_part(Some(chunks[0]), k) + chunks_of_key(chunks.drop_first(), k)
    }
}

/// The events of a key in two streams, one after the other, are those in
/// the first and then those in the second.
pub proof fn lemma_of_key_concat<P: Partitioner>(
    p: P,
    xs: Seq<P::Event>,
    ys: Seq<P::Event>,
    k: P::T,
)
    ensures
        of_key(p, xs + ys, k) == of_key(p, xs, k) + of_key(p, ys, k),
    decreases xs.len(),
{
    if xs.len() == 0 {
        assert(xs + ys =~= ys);
        assert(of_key(p, xs, k) + of_key(p, ys, k) =~= of_key(p, ys, k));
    } else {
        lemma_of_key_concat(p, xs.drop_first(), ys, k);
        assert((xs + ys).drop_first() =~= xs.drop_first() + ys);
        assert((xs + ys)[0] == xs[0]);
        if p.spec_key(xs[0]) == k {
            assert(seq![xs[0]] + (of_key(p, xs.drop_first(), k) + of_key(p, ys, k)) =~= (seq![
                xs[0],
            ] + of_key(p, xs.drop_first(), k)) + of_key(p, ys, k));
        }
    }
}

/// Partitioning preserves the order within a key: the events of the key `k`
/// come out, chunk after chunk, as they waited and then as they stood in the
/// stream. And no chunk is empty, longer than `chunk_max_size`, or holds an
/// event of another key than its own.
pub proof fn lemma_partition_all<P: Partitioner>(
    p: P,
    chunk_max_size: usize,
    total_size_limit: usize,
    bufs: Seq<(P::T, Seq<P::Event>)>,
    events: Seq<P::Event>,
    k: P::T,
)
    requires
        chunk_max_size > 0,
        buffers_ok(p, chunk_max_size, bufs),
    ensures
        ({
            let all = partition_all(p, chunk_max_size, total_size_limit, bufs, events);
            &&& chunks_of_key(all, k) == pending(bufs, k) + of_key(p, events, k)
            &&& forall|i: int|
                0 <= i < all.len() ==> 0 < (#[trigger] all[i]).1.len() <= chunk_max_size
            &&& forall|i: int, j: int|
                0 <= i < all.len() && 0 <= j < all[i].1.len() ==> p.spec_key(
                    #[trigger] all[i].1[j],
                ) == all[i].0
        }),
    decreases events.len(), bufs.len(),
{
    let m = partition_next(p, chunk_max_size, total_size_limit, bufs, events);
    let all = partition_all(p, chunk_max_size, total_size_limit, bufs, events);
    lemma_partition_progress(p, chunk_max_size, total_size_limit, bufs, events);
    lemma_partition_keeps_order(p, chunk_max_size, total_size_limit, bufs, events, k);
    lemma_partition_next_ok(p, chunk_max_size, total_size_limit, bufs, events);
    let taken = events.take(m.taken as int);
    let left = events.skip(m.taken as int);
    assert(events =~= taken + left);
    lemma_of_key_concat(p, taken, left, k);
    match m.chunk {
        None => {
            assert(left =~= Seq::<P::Event>::empty());
            lemma_position(m.buffers, k);
            assert(pending(bufs, k) + of_key(p, events, k) =~= Seq::<P::Event>::empty());
        },
        Some(c) => {
            lemma_partition_all(p, chunk_max_size, total_size_limit, m.buffers, left, k);
            let rest = partition_all(p, chunk_max_size, total_size_limit, m.buffers, left);
            assert(all == seq![c] + rest);
            assert(all.drop_first() =~= rest);
            assert(chunks_of_key(all, k) =~= pending(bufs, k) + of_key(p, events, k)) by {
                assert(chunks_of_key(all, k) == chunk_part(Some(c), k) + chunks_of_key(rest, k));
                assert(chunk_part(Some(c), k) + (pending(m.buffers, k) + of_key(p, left, k)) =~= (
                chunk_part(Some(c), k) + pending(m.buffers, k)) + of_key(p, left, k));
                assert((pending(bufs, k) + of_key(p, taken, k)) + of_key(p, left, k) =~= pending(
                    bufs,
                    k,
                ) + (of_key(p, taken, k) + of_key(p, left, k)));
            }
            assert forall|i: int| 0 <= i < all.len() implies 0 < (#[trigger] all[i]).1.len()
                <= chunk_max_size by {
                if i > 0 {
                    assert(all[i] == rest[i - 1]);
                }
            }
            assert forall|i: int, j: int|
                0 <= i < all.len() && 0 <= j < all[i].1.len() implies p.spec_key(
                #[trigger] all[i].1[j],
            ) == all[i].0 by {
                if i > 0 {
                    assert(all[i] == rest[i - 1]);
                    assert(p.spec_key(rest[i - 1].1[j]) == rest[i - 1].0);
                }
            }
        },
    }
}

} // verus!
