//! The query driver: it feeds a stream, partition by partition, through a
//! pattern, and hands out one projected value for every interval that the
//! pattern classifies.

use vstd::prelude::*;
use vstd::std_specs::iter::IteratorSpec;

use crate::datum::Datum;
use crate::partitioners::partition_iterator::{
    lemma_partition_count, lemma_partition_progress, partition_next, total, Chunk,
    PartitionIterTool, PartitionIterator,
};
use crate::partitioners::partitioner::Partitioner;
use crate::pattern::Pattern;
use crate::projections::projection::Projection;
use crate::queue::{
    beheaded, join_all, lemma_beheaded_ordered, lemma_join_all_ordered, ordered, within, Idx,
    IdxValue, PQueue,
};

verus! {

/// The number of events that a query lets wait for their chunk.
pub const TOTAL_SIZE_LIMIT: usize = 1000;

/// A query: a pattern, the projection of what it finds, and the partitioner
/// that splits the stream.
pub struct SimpleMachineMapper<Proj, Pat, Part> {
    projection: Proj,
    rule: Pat,
    partitioner: Part,
}

/// What a query keeps for one partition.
pub struct Partition<Proj: Projection, Pat: Pattern, K> {
    key: K,
    state: Pat::State,
    start_idx: Idx,
    results: PQueue<Pat::T>,
    projection_state: Proj::State,
}

/// What a `Partition` holds: the key, the state of the pattern, the index of
/// the partition's next event, the intervals that wait to be handed out, and
/// the state of the projection.
pub struct PartitionModel<K, PSV, T, JSV> {
    pub key: K,
    pub state: PSV,
    pub start_idx: Idx,
    pub results: Seq<IdxValue<T>>,
    pub projection_state: JSV,
}

impl<Proj: Projection, Pat: Pattern, K> View for Partition<Proj, Pat, K> {
    type V = PartitionModel<K, <Pat::State as View>::V, Pat::T, <Proj::State as View>::V>;

    closed spec fn view(&self) -> PartitionModel<
        K,
        <Pat::State as View>::V,
        Pat::T,
        <Proj::State as View>::V,
    > {
        PartitionModel {
            key: self.key,
            state: self.state@,
            start_idx: self.start_idx,
            results: self.results@,
            projection_state: self.projection_state@,
        }
    }
}

/// The index of the first partition with an interval to hand out, or the
/// number of partitions where there is none.
pub open spec fn ready<K, PSV, T, JSV>(parts: Seq<PartitionModel<K, PSV, T, JSV>>) -> int
    decreases parts.len(),
{
    if parts.len() == 0 {
        0
    } else if parts[0].results.len() > 0 {
        0
    } else {
        1 + ready(parts.drop_first())
    }
}

/// The index of the partition with the key `k`, or the number of partitions
/// where there is none.
pub open spec fn slot_of<K, PSV, T, JSV>(parts: Seq<PartitionModel<K, PSV, T, JSV>>, k: K) -> int
    decreases parts.len(),
{
    if parts.len() == 0 {
        0
    } else if parts[0].key == k {
        0
    } else {
        1 + slot_of(parts.drop_first(), k)
    }
}

/// `ready` gives the first partition with an interval, if there is one.
pub proof fn lemma_ready<K, PSV, T, JSV>(parts: Seq<PartitionModel<K, PSV, T, JSV>>)
    ensures
        0 <= ready(parts) <= parts.len(),
        ready(parts) < parts.len() ==> parts[ready(parts)].results.len() > 0,
        forall|j: int| 0 <= j < ready(parts) ==> (#[trigger] parts[j]).results.len() == 0,
    decreases parts.len(),
{
    if parts.len() > 0 && parts[0].results.len() == 0 {
        let t = parts.drop_first();
        lemma_ready(t);
        assert forall|j: int| 0 <= j < ready(parts) implies (#[trigger] parts[j]).results.len()
            == 0 by {
            if j > 0 {
                assert(t[j - 1].results.len() == 0);
            }
        }
    }
}

/// An index before which no partition has an interval, and which is the end
/// or has one, is what `ready` gives.
pub proof fn lemma_ready_found<K, PSV, T, JSV>(parts: Seq<PartitionModel<K, PSV, T, JSV>>, i: int)
    requires
        0 <= i <= parts.len(),
        forall|j: int| 0 <= j < i ==> (#[trigger] parts[j]).results.len() == 0,
        i < parts.len() ==> parts[i].results.len() > 0,
    ensures
        ready(parts) == i,
{
    lemma_ready(parts);
    let r = ready(parts);
    if r < i {
        assert(parts[r].results.len() == 0);
    }
}

/// `slot_of` gives the first partition with the key, if there is one.
pub proof fn lemma_slot_of<K, PSV, T, JSV>(parts: Seq<PartitionModel<K, PSV, T, JSV>>, k: K)
    ensures
        0 <= slot_of(parts, k) <= parts.len(),
        slot_of(parts, k) < parts.len() ==> parts[slot_of(parts, k)].key == k,
        forall|j: int| 0 <= j < slot_of(parts, k) ==> (#[trigger] parts[j]).key != k,
    decreases parts.len(),
{
    if parts.len() > 0 && parts[0].key != k {
        let t = parts.drop_first();
        lemma_slot_of(t, k);
        assert forall|j: int| 0 <= j < slot_of(parts, k) implies (#[trigger] parts[j]).key != k by {
            if j > 0 {
                assert(t[j - 1].key != k);
            }
        }
    }
}

/// An index before which no partition has the key, and which is the end or
/// has the key, is what `slot_of` gives.
pub proof fn lemma_slot_found<K, PSV, T, JSV>(
    parts: Seq<PartitionModel<K, PSV, T, JSV>>,
    k: K,
    i: int,
)
    requires
        0 <= i <= parts.len(),
        forall|j: int| 0 <= j < i ==> (#[trigger] parts[j]).key != k,
        i < parts.len() ==> parts[i].key == k,
    ensures
        slot_of(parts, k) == i,
{
    lemma_slot_of(parts, k);
    let s = slot_of(parts, k);
    if s < i {
        assert(parts[s].key != k);
    }
}

/// The partition of the key `k` before its first event.
pub open spec fn fresh<Proj: Projection, Pat: Pattern, K>(
    projection: Proj,
    rule: Pat,
    k: K,
) -> PartitionModel<K, <Pat::State as View>::V, Pat::T, <Proj::State as View>::V> {
    PartitionModel {
        key: k,
        state: rule.spec_initial(),
        start_idx: 0,
        results: Seq::<IdxValue<Pat::T>>::empty(),
        projection_state: projection.spec_initial(),
    }
}

/// The partition after it took the batch `events`: the pattern has classified
/// it, the projection has taken it in.
pub open spec fn advanced<Proj: Projection, Pat: Pattern<Event = Proj::Event>, K>(
    projection: Proj,
    rule: Pat,
    part: PartitionModel<K, <Pat::State as View>::V, Pat::T, <Proj::State as View>::V>,
    events: Seq<Proj::Event>,
) -> PartitionModel<K, <Pat::State as View>::V, Pat::T, <Proj::State as View>::V> {
    PartitionModel {
        key: part.key,
        state: rule.next_state(part.start_idx, events, part.state),
        start_idx: (part.start_idx + events.len()) as Idx,
        results: join_all(part.results, rule.emitted(part.start_idx, events, part.state)),
        projection_state: projection.updated(part.start_idx, events, part.projection_state),
    }
}

/// The partitions after the chunk was routed to the partition of its key,
/// which is made as the last one where the key is new.
pub open spec fn dispatched<Proj: Projection, Pat: Pattern<Event = Proj::Event>, K>(
    projection: Proj,
    rule: Pat,
    parts: Seq<PartitionModel<K, <Pat::State as View>::V, Pat::T, <Proj::State as View>::V>>,
    chunk: (K, Seq<Proj::Event>),
) -> Seq<PartitionModel<K, <Pat::State as View>::V, Pat::T, <Proj::State as View>::V>> {
    let i = slot_of(parts, chunk.0);
    if i < parts.len() {
        parts.update(i, advanced(projection, rule, parts[i], chunk.1))
    } else {
        parts.push(advanced(projection, rule, fresh(projection, rule, chunk.0), chunk.1))
    }
}

/// The partition after its first interval was handed out.
pub open spec fn relieved<Proj: Projection, Pat: Pattern, K>(
    projection: Proj,
    part: PartitionModel<K, <Pat::State as View>::V, Pat::T, <Proj::State as View>::V>,
) -> PartitionModel<K, <Pat::State as View>::V, Pat::T, <Proj::State as View>::V> {
    PartitionModel {
        key: part.key,
        state: part.state,
        start_idx: part.start_idx,
        results: beheaded(part.results),
        projection_state: projection.after_extract(
            part.projection_state,
            part.results[0].start,
            part.results[0].end,
        ),
    }
}

/// What one step of a query gives.
pub struct Driven<K, PSV, T, JSV, E, V> {
    /// The value handed out, if any.
    pub value: Option<V>,
    /// The partitions afterwards.
    pub partitions: Seq<PartitionModel<K, PSV, T, JSV>>,
    /// The events that wait for their chunk afterwards.
    pub buffers: Seq<(K, Seq<E>)>,
    /// The number of events taken from the stream.
    pub taken: nat,
}

/// One step of a query over the stream `events`.
///
/// Where a partition has an interval to hand out, the first such partition
/// hands out its first interval, projected. Otherwise the next chunk is routed
/// to its partition, and the step goes on from there; when there is no next
/// chunk, the query is at its end.
pub open spec fn drive<Proj, Pat, Part>(
    projection: Proj,
    rule: Pat,
    partitioner: Part,
    chunk_max_size: usize,
    total_size_limit: usize,
    parts: Seq<PartitionModel<Part::T, <Pat::State as View>::V, Pat::T, <Proj::State as View>::V>>,
    bufs: Seq<(Part::T, Seq<Proj::Event>)>,
    events: Seq<Proj::Event>,
) -> Driven<
    Part::T,
    <Pat::State as View>::V,
    Pat::T,
    <Proj::State as View>::V,
    Proj::Event,
    Proj::T,
> where
    Proj: Projection,
    Pat: Pattern<Event = Proj::Event>,
    Part: Partitioner<Event = Proj::Event>,

    decreases events.len(), bufs.len(),
{
    let i = ready(parts);
    if i < parts.len() {
        Driven {
            value: Some(
                projection.extracted(
                    parts[i].projection_state,
                    parts[i].results[0].start,
                    parts[i].results[0].end,
                ),
            ),
            partitions: parts.update(i, relieved::<Proj, Pat, Part::T>(projection, parts[i])),
            buffers: bufs,
            taken: 0,
        }
    } else {
        let m = partition_next(partitioner, chunk_max_size, total_size_limit, bufs, events);
        match m.chunk {
            None => Driven { value: None, partitions: parts, buffers: m.buffers, taken: m.taken },
            Some(chunk) => {
                proof {
                    lemma_partition_progress(
                        partitioner,
                        chunk_max_size,
                        total_size_limit,
                        bufs,
                        events,
                    );
                }
                let rest = drive(
                    projection,
                    rule,
                    partitioner,
                    chunk_max_size,
                    total_size_limit,
                    dispatched(projection, rule, parts, chunk),
                    m.buffers,
                    events.skip(m.taken as int),
                );
                Driven {
                    value: rest.value,
                    partitions: rest.partitions,
                    buffers: rest.buffers,
                    taken: rest.taken + m.taken,
                }
            },
        }
    }
}

/// Every function that the parts of a query hold has a result wherever the
/// step of `drive` applies it.
pub open spec fn drive_defined<Proj, Pat, Part>(
    projection: Proj,
    rule: Pat,
    partitioner: Part,
    chunk_max_size: usize,
    total_size_limit: usize,
    parts: Seq<PartitionModel<Part::T, <Pat::State as View>::V, Pat::T, <Proj::State as View>::V>>,
    bufs: Seq<(Part::T, Seq<Proj::Event>)>,
    events: Seq<Proj::Event>,
) -> bool where
    Proj: Projection,
    Pat: Pattern<Event = Proj::Event>,
    Part: Partitioner<Event = Proj::Event>,

    decreases events.len(), bufs.len(),
{
    if ready(parts) < parts.len() {
        true
    } else {
        let m = partition_next(partitioner, chunk_max_size, total_size_limit, bufs, events);
        &&& forall|j: int| 0 <= j < m.taken ==> partitioner.defined(#[trigger] events[j])
        &&& match m.chunk {
            None => true,
            Some(chunk) => {
                proof {
                    lemma_partition_progress(
                        partitioner,
                        chunk_max_size,
                        total_size_limit,
                        bufs,
                        events,
                    );
                }
                let i = slot_of(parts, chunk.0);
                let part = if i < parts.len() {
                    parts[i]
                } else {
                    fresh(projection, rule, chunk.0)
                };
                &&& rule.defined(part.start_idx, chunk.1, part.state)
                &&& projection.defined(chunk.1)
                &&& drive_defined(
                    projection,
                    rule,
                    partitioner,
                    chunk_max_size,
                    total_size_limit,
                    dispatched(projection, rule, parts, chunk),
                    m.buffers,
                    events.skip(m.taken as int),
                )
            },
        }
    }
}

/// A partition is sound: the states of pattern and projection are those of
/// a stream with `start_idx` events so far, and the waiting intervals are in
/// order and lie between what the projection has served and what the pattern
/// has classified.
pub open spec fn part_sound<Proj: Projection, Pat: Pattern, K>(
    projection: Proj,
    rule: Pat,
    part: PartitionModel<K, <Pat::State as View>::V, Pat::T, <Proj::State as View>::V>,
) -> bool {
    &&& rule.inv(part.state, part.start_idx as int)
    &&& projection.inv(part.projection_state, part.start_idx as int)
    &&& ordered(part.results)
    &&& within(
        part.results,
        projection.served(part.projection_state),
        rule.frontier(part.state, part.start_idx as int),
    )
    &&& projection.served(part.projection_state) <= rule.frontier(
        part.state,
        part.start_idx as int,
    )
}

/// A partition is as a query keeps it, where `outstanding` events of the
/// stream are still to be routed: it is sound, and the indices of the events
/// to come fit.
pub open spec fn part_ok<Proj: Projection, Pat: Pattern, K>(
    projection: Proj,
    rule: Pat,
    part: PartitionModel<K, <Pat::State as View>::V, Pat::T, <Proj::State as View>::V>,
    outstanding: nat,
) -> bool {
    &&& part_sound(projection, rule, part)
    &&& part.start_idx + outstanding + rule.spec_width() <= u64::MAX
}

/// The partitions are as a query keeps them: no key twice, and every
/// partition in order.
pub open spec fn parts_ok<Proj: Projection, Pat: Pattern, K>(
    projection: Proj,
    rule: Pat,
    parts: Seq<PartitionModel<K, <Pat::State as View>::V, Pat::T, <Proj::State as View>::V>>,
    outstanding: nat,
) -> bool {
    &&& forall|i: int, j: int| 0 <= i < j < parts.len() ==> (#[trigger] parts[i]).key != (
    #[trigger] parts[j]).key
    &&& forall|i: int|
        0 <= i < parts.len() ==> part_ok(projection, rule, #[trigger] parts[i], outstanding)
}

impl<Proj, Pat, K> Partition<Proj, Pat, K> where
    Proj: Projection,
    Pat: Pattern<Event = Proj::Event>,
 {
    /// Makes the partition of `key` before its first event.
    fn new(projection: &Proj, rule: &Pat, key: K) -> (r: Self)
        requires
            projection.wf(),
            rule.wf(),
        ensures
            r@ == fresh(*projection, *rule, key),
            part_sound(*projection, *rule, r@),
    {
        let state = rule.initial_state();
        let projection_state = projection.initial_state();
        proof {
            rule.lemma_frontier_bounds(state@, 0);
        }
        Partition { key, state, start_idx: 0, results: PQueue::default(), projection_state }
    }

    /// Whether an interval waits to be handed out.
    fn is_ready(&self) -> (r: bool)
        ensures
            r == (self@.results.len() > 0),
    {
        !self.results.is_empty()
    }

    /// Takes the batch `events`: the pattern classifies it, the projection
    /// takes it in.
    fn advance(&mut self, projection: &Proj, rule: &Pat, events: &[Proj::Event])
        requires
            projection.wf(),
            rule.wf(),
            part_sound(*projection, *rule, old(self)@),
            old(self)@.start_idx + events@.len() + rule.spec_width() <= u64::MAX,
        ensures
            final(self)@ == advanced(*projection, *rule, old(self)@, events@),
            part_sound(*projection, *rule, final(self)@),
            rule.defined(old(self)@.start_idx, events@, old(self)@.state),
            projection.defined(events@),
    {
        let ghost p0 = self@;
        let ghost lo = rule.frontier(p0.state, p0.start_idx as int);
        let start_idx = self.start_idx;
        rule.apply(start_idx, events, &mut self.results, &mut self.state);
        projection.update(start_idx, events, &mut self.projection_state);
        self.start_idx = start_idx + events.len() as Idx;
        proof {
            lemma_join_all_ordered(
                p0.results,
                rule.emitted(start_idx, events@, p0.state),
                projection.served(p0.projection_state),
                lo,
                rule.frontier(self@.state, self@.start_idx as int),
            );
        }
    }

    /// Hands out the first interval that waits, projected.
    fn relieve(&mut self, projection: &Proj, rule: &Pat) -> (value: Proj::T)
        requires
            projection.wf(),
            rule.wf(),
            old(self)@.results.len() > 0,
            part_sound(*projection, *rule, old(self)@),
        ensures
            value == projection.extracted(
                old(self)@.projection_state,
                old(self)@.results[0].start,
                old(self)@.results[0].end,
            ),
            final(self)@ == relieved::<Proj, Pat, K>(*projection, old(self)@),
            part_sound(*projection, *rule, final(self)@),
    {
        let ghost p0 = self@;
        let ghost hi = rule.frontier(p0.state, p0.start_idx as int);
        let ghost lo = projection.served(p0.projection_state);
        proof {
            rule.lemma_frontier_bounds(p0.state, p0.start_idx as int);
            assert(lo <= p0.results[0].start && p0.results[0].end < hi);
            assert(p0.results[0].start <= p0.results[0].end);
            projection.lemma_extractable(
                p0.projection_state,
                p0.start_idx as int,
                p0.results[0].start,
                p0.results[0].end,
            );
            projection.lemma_after_extract(
                p0.projection_state,
                p0.start_idx as int,
                p0.results[0].start,
                p0.results[0].end,
            );
            lemma_beheaded_ordered(p0.results, lo, hi);
        }
        let iv = self.results.dequeue_option().unwrap();
        let value = projection.extract(&mut self.projection_state, iv.start, iv.end);
        proof {
            let rest = self@.results;
            let served = projection.served(self@.projection_state);
            assert forall|i: int| 0 <= i < rest.len() implies served <= (#[trigger] rest[i]).start
                && rest[i].end < hi by {
                assert(lo <= rest[i].start && rest[i].end < hi);
                assert(rest[0].start <= rest[0].end);
                if i > 0 {
                    assert(rest[0].end < rest[i].start);
                }
            }
        }
        value
    }
}

impl<Proj, Pat, Part> SimpleMachineMapper<Proj, Pat, Part> where
    Proj: Projection,
    Pat: Pattern<Event = Proj::Event>,
    Part: Partitioner<Event = Proj::Event>,
 {
    /// The projection of what the pattern finds.
    pub closed spec fn spec_projection(&self) -> Proj {
        self.projection
    }

    /// The pattern that is looked for.
    pub closed spec fn spec_rule(&self) -> Pat {
        self.rule
    }

    /// The partitioner that splits the stream.
    pub closed spec fn spec_partitioner(&self) -> Part {
        self.partitioner
    }

    /// The three parts of the query are usable.
    pub open spec fn wf(&self) -> bool {
        &&& self.spec_projection().wf()
        &&& self.spec_rule().wf()
        &&& self.spec_partitioner().wf()
    }

    /// Makes the query for `rule`, projected by `projection`, over the
    /// partitions of `partitioner`.
    pub fn new(projection: Proj, rule: Pat, partitioner: Part) -> (r: Self)
        ensures
            r.spec_projection() == projection,
            r.spec_rule() == rule,
            r.spec_partitioner() == partitioner,
    {
        SimpleMachineMapper { projection, rule, partitioner }
    }

    /// Starts the query over the events of `events_iter`, which are routed to
    /// the pattern in chunks of at most `chunks_size` events.
    pub fn run<'a, J>(&'a self, events_iter: J, chunks_size: usize) -> (r: TSPIter<
        'a,
        Proj,
        Pat,
        Part,
        J,
    >) where J: Iterator<Item = Proj::Event>
        requires
            self.wf(),
            chunks_size > 0,
            events_iter.obeys_prophetic_iter_laws(),
            events_iter.decrease() is Some,
            events_iter.remaining().len() + self.spec_rule().spec_width() <= u64::MAX,
        ensures
            r.wf(events_iter.remaining()),
            r.spec_mapper() == *self,
            r.source() == events_iter,
            r.spec_chunk_max_size() == chunks_size,
            r.spec_total_size_limit() == TOTAL_SIZE_LIMIT,
            r.partitions() == Seq::<
                PartitionModel<
                    Part::T,
                    <Pat::State as View>::V,
                    Pat::T,
                    <Proj::State as View>::V,
                >,
            >::empty(),
            r.buffers() == Seq::<(Part::T, Seq<Proj::Event>)>::empty(),
    {
        TSPIter::new(
            self,
            events_iter.partition_by(&self.partitioner, chunks_size, TOTAL_SIZE_LIMIT),
        )
    }
}

/// A running query: it hands out the projected values one by one.
pub struct TSPIter<'a, Proj, Pat, Part, J> where
    J: Iterator<Item = Proj::Event>,
    Proj: Projection,
    Pat: Pattern<Event = Proj::Event>,
    Part: Partitioner<Event = Proj::Event>,
 {
    mapper: &'a SimpleMachineMapper<Proj, Pat, Part>,
    partition_iterator: PartitionIterator<'a, J, Part>,
    partitions: Vec<Partition<Proj, Pat, Part::T>>,
}

impl<'a, Proj, Pat, Part, J> TSPIter<'a, Proj, Pat, Part, J> where
    J: Iterator<Item = Proj::Event>,
    Proj: Projection,
    Pat: Pattern<Event = Proj::Event>,
    Part: Partitioner<Event = Proj::Event>,
 {
    /// The query that runs.
    pub closed spec fn spec_mapper(&self) -> SimpleMachineMapper<Proj, Pat, Part> {
        *self.mapper
    }

    /// The iterator that the events come from.
    pub closed spec fn source(&self) -> J {
        self.partition_iterator.source()
    }

    /// The number of events at which a chunk is routed.
    pub closed spec fn spec_chunk_max_size(&self) -> usize {
        self.partition_iterator.spec_chunk_max_size()
    }

    /// The number of waiting events at which the oldest chunk is routed.
    pub closed spec fn spec_total_size_limit(&self) -> usize {
        self.partition_iterator.spec_total_size_limit()
    }

    /// The events that wait for their chunk, by key.
    pub closed spec fn buffers(&self) -> Seq<(Part::T, Seq<Proj::Event>)> {
        self.partition_iterator.buffers()
    }

    /// The partitions met so far, oldest first.
    pub closed spec fn partitions(&self) -> Seq<
        PartitionModel<Part::T, <Pat::State as View>::V, Pat::T, <Proj::State as View>::V>,
    > {
        Seq::new(self.partitions@.len(), |i: int| self.partitions@[i]@)
    }

    /// The query is in a state that `new` and `next` leave it in, where `rest`
    /// is what its source still has to give.
    pub closed spec fn wf(&self, rest: Seq<Proj::Event>) -> bool {
        &&& self.mapper.wf()
        &&& self.partition_iterator.wf(rest)
        &&& self.partition_iterator.spec_partitioner() == self.mapper.partitioner
        &&& parts_ok(
            self.mapper.projection,
            self.mapper.rule,
            self.partitions(),
            total(self.partition_iterator.buffers()) + rest.len(),
        )
        &&& total(self.partition_iterator.buffers()) + rest.len()
            + self.mapper.rule.spec_width() <= u64::MAX
    }

    /// Starts the query `mapper` over the chunks of `partition_iterator`.
    pub fn new(
        mapper: &'a SimpleMachineMapper<Proj, Pat, Part>,
        partition_iterator: PartitionIterator<'a, J, Part>,
    ) -> (r: Self)
        requires
            mapper.wf(),
            partition_iterator.wf(partition_iterator.source().remaining()),
            partition_iterator.spec_partitioner() == mapper.spec_partitioner(),
            total(partition_iterator.buffers()) + partition_iterator.source().remaining().len()
                + mapper.spec_rule().spec_width() <= u64::MAX,
        ensures
            r.wf(partition_iterator.source().remaining()),
            r.spec_mapper() == *mapper,
            r.source() == partition_iterator.source(),
            r.spec_chunk_max_size() == partition_iterator.spec_chunk_max_size(),
            r.spec_total_size_limit() == partition_iterator.spec_total_size_limit(),
            r.buffers() == partition_iterator.buffers(),
            r.partitions() == Seq::<
                PartitionModel<
                    Part::T,
                    <Pat::State as View>::V,
                    Pat::T,
                    <Proj::State as View>::V,
                >,
            >::empty(),
    {
        let r = TSPIter { mapper, partition_iterator, partitions: Vec::new() };
        assert(r.partitions() =~= Seq::<
            PartitionModel<Part::T, <Pat::State as View>::V, Pat::T, <Proj::State as View>::V>,
        >::empty());
        r
    }

    /// The index of the first partition with an interval to hand out, or the
    /// number of partitions where there is none.
    fn find_ready(&self) -> (i: usize)
        ensures
            i == ready(self.partitions()),
            i <= self.partitions@.len(),
    {
        let mut i: usize = 0;
        while i < self.partitions.len()
            invariant
                i <= self.partitions@.len(),
                forall|j: int| 0 <= j < i ==> (#[trigger] self.partitions()[j]).results.len() == 0,
            ensures
                i <= self.partitions@.len(),
                forall|j: int| 0 <= j < i ==> (#[trigger] self.partitions()[j]).results.len() == 0,
                i < self.partitions@.len() ==> self.partitions()[i as int].results.len() > 0,
            decreases self.partitions@.len() - i,
        {
            if self.partitions[i].is_ready() {
                break ;
            }
            i += 1;
        }
        proof {
            lemma_ready_found(self.partitions(), i as int);
        }
        i
    }

    /// The index of the partition of `key`, or the number of partitions where
    /// it has none.
    fn find_partition(&self, key: &Part::T) -> (i: usize)
        ensures
            i == slot_of(self.partitions(), *key),
            i <= self.partitions@.len(),
    {
        let mut i: usize = 0;
        while i < self.partitions.len()
            invariant
                i <= self.partitions@.len(),
                forall|j: int| 0 <= j < i ==> (#[trigger] self.partitions()[j]).key != *key,
            ensures
                i <= self.partitions@.len(),
                forall|j: int| 0 <= j < i ==> (#[trigger] self.partitions()[j]).key != *key,
                i < self.partitions@.len() ==> self.partitions()[i as int].key == *key,
            decreases self.partitions@.len() - i,
        {
            if self.partitions[i].key.same(key) {
                break ;
            }
            i += 1;
        }
        proof {
            lemma_slot_found(self.partitions(), *key, i as int);
        }
        i
    }

    /// The next projected value, or `None` when the stream is at its end and
    /// no interval waits any more.
    pub fn next(&mut self) -> (r: Option<Proj::T>)
        requires
            old(self).wf(old(self).source().remaining()),
        ensures
            final(self).wf(final(self).source().remaining()),
            final(self).spec_mapper() == old(self).spec_mapper(),
            final(self).spec_chunk_max_size() == old(self).spec_chunk_max_size(),
            final(self).spec_total_size_limit() == old(self).spec_total_size_limit(),
            ({
                let d = drive(
                    old(self).spec_mapper().spec_projection(),
                    old(self).spec_mapper().spec_rule(),
                    old(self).spec_mapper().spec_partitioner(),
                    old(self).spec_chunk_max_size(),
                    old(self).spec_total_size_limit(),
                    old(self).partitions(),
                    old(self).buffers(),
                    old(self).source().remaining(),
                );
                &&& r == d.value
                &&& drive_defined(
                    old(self).spec_mapper().spec_projection(),
                    old(self).spec_mapper().spec_rule(),
                    old(self).spec_mapper().spec_partitioner(),
                    old(self).spec_chunk_max_size(),
                    old(self).spec_total_size_limit(),
                    old(self).partitions(),
                    old(self).buffers(),
                    old(self).source().remaining(),
                )
                &&& final(self).partitions() == d.partitions
                &&& final(self).buffers() == d.buffers
                &&& d.taken <= old(self).source().remaining().len()
                &&& final(self).source().remaining() == old(self).source().remaining().skip(
                    d.taken as int,
                )
            }),
    {
        let ghost all = self.partition_iterator.source().remaining();
        let ghost projection = self.mapper.projection;
        let ghost rule = self.mapper.rule;
        let ghost partitioner = self.mapper.partitioner;
        let ghost cms = self.partition_iterator.spec_chunk_max_size();
        let ghost limit = self.partition_iterator.spec_total_size_limit();
        let ghost d0 = drive(
            projection,
            rule,
            partitioner,
            cms,
            limit,
            self.partitions(),
            self.buffers(),
            all,
        );
        proof {
            assert(all.skip(0) =~= all);
            lemma_drive_taken(
                projection,
                rule,
                partitioner,
                cms,
                limit,
                self.partitions(),
                self.buffers(),
                all,
            );
        }
        loop
            invariant
                self.wf(self.partition_iterator.source().remaining()),
                self.mapper == old(self).mapper,
                projection == self.mapper.projection,
                rule == self.mapper.rule,
                partitioner == self.mapper.partitioner,
                cms == self.partition_iterator.spec_chunk_max_size(),
                limit == self.partition_iterator.spec_total_size_limit(),
                cms == old(self).partition_iterator.spec_chunk_max_size(),
                limit == old(self).partition_iterator.spec_total_size_limit(),
                all == old(self).partition_iterator.source().remaining(),
                d0 == drive(
                    projection,
                    rule,
                    partitioner,
                    cms,
                    limit,
                    old(self).partitions(),
                    old(self).buffers(),
                    all,
                ),
                self.partition_iterator.source().remaining().len() <= all.len(),
                self.partition_iterator.source().remaining() == all.skip(
                    all.len() - self.partition_iterator.source().remaining().len(),
                ),
                ({
                    let rest = self.partition_iterator.source().remaining();
                    let d = drive(
                        projection,
                        rule,
                        partitioner,
                        cms,
                        limit,
                        self.partitions(),
                        self.partition_iterator.buffers(),
                        rest,
                    );
                    &&& d.value == d0.value
                    &&& d.partitions == d0.partitions
                    &&& d.buffers == d0.buffers
                    &&& d.taken + (all.len() - rest.len()) == d0.taken
                    &&& d.taken <= rest.len()
                }),
                drive_defined(
                    projection,
                    rule,
                    partitioner,
                    cms,
                    limit,
                    self.partitions(),
                    self.partition_iterator.buffers(),
                    self.partition_iterator.source().remaining(),
                ) ==> drive_defined(
                    projection,
                    rule,
                    partitioner,
                    cms,
                    limit,
                    old(self).partitions(),
                    old(self).buffers(),
                    all,
                ),
            decreases self.partition_iterator.fuel(), self.partition_iterator.buffers().len(),
        {
            let ghost parts = self.partitions();
            let ghost bufs = self.partition_iterator.buffers();
            let ghost rest = self.partition_iterator.source().remaining();
            let ghost n = (all.len() - rest.len()) as nat;
            let ghost outstanding = total(bufs) + rest.len();
            let i = self.find_ready();
            if i < self.partitions.len() {
                proof {
                    lemma_ready(parts);
                    assert(parts[i as int] == self.partitions@[i as int]@);
                    assert(part_ok(projection, rule, parts[i as int], outstanding));
                }
                let value = self.partitions[i].relieve(&self.mapper.projection, &self.mapper.rule);
                proof {
                    let after = parts.update(
                        i as int,
                        relieved::<Proj, Pat, Part::T>(projection, parts[i as int]),
                    );
                    assert(self.partitions() =~= after);
                    assert forall|a: int| 0 <= a < after.len() implies part_ok(
                        projection,
                        rule,
                        #[trigger] after[a],
                        outstanding,
                    ) by {
                        if a != i {
                            assert(after[a] == parts[a]);
                        }
                    }
                    assert forall|a: int, b: int| 0 <= a < b < after.len() implies (
                    #[trigger] after[a]).key != (#[trigger] after[b]).key by {
                        assert(parts[a].key != parts[b].key);
                    }
                }
                return Some(value);
            }
            let ghost m = partition_next(partitioner, cms, limit, bufs, rest);
            proof {
                lemma_partition_progress(partitioner, cms, limit, bufs, rest);
                lemma_partition_count(partitioner, cms, limit, bufs, rest);
            }
            match self.partition_iterator.next() {
                None => {
                    proof {
                        assert(rest.skip(m.taken as int) =~= all.skip((n + m.taken) as int));
                        assert forall|a: int| 0 <= a < parts.len() implies part_ok(
                            projection,
                            rule,
                            #[trigger] parts[a],
                            (total(m.buffers) + (rest.len() - m.taken)) as nat,
                        ) by {
                            assert(part_ok(projection, rule, parts[a], outstanding));
                        }
                    }
                    return None;
                },
                Some(chunk) => {
                    let Chunk { key, elements } = chunk;
                    let ghost ck = (key, elements@);
                    let ghost left = (total(m.buffers) + (rest.len() - m.taken)) as nat;
                    proof {
                        assert(m.chunk == Some(ck));
                        assert(outstanding == left + elements@.len());
                        lemma_slot_of(parts, key);
                        lemma_drive_taken(
                            projection,
                            rule,
                            partitioner,
                            cms,
                            limit,
                            dispatched(projection, rule, parts, ck),
                            m.buffers,
                            rest.skip(m.taken as int),
                        );
                    }
                    let j = self.find_partition(&key);
                    if j == self.partitions.len() {
                        let part = Partition::new(&self.mapper.projection, &self.mapper.rule, key);
                        self.partitions.push(part);
                    }
                    let ghost before = self.partitions();
                    proof {
                        assert(before[j as int] == self.partitions@[j as int]@);
                        assert(part_ok(projection, rule, before[j as int], outstanding)) by {
                            if j < parts.len() {
                                assert(before[j as int] == parts[j as int]);
                                assert(part_ok(projection, rule, parts[j as int], outstanding));
                            }
                        }
                    }
                    self.partitions[j].advance(
                        &self.mapper.projection,
                        &self.mapper.rule,
                        elements.as_slice(),
                    );
                    proof {
                        let after = dispatched(projection, rule, parts, ck);
                        assert(self.partitions() =~= after);
                        assert forall|a: int| 0 <= a < after.len() implies part_ok(
                            projection,
                            rule,
                            #[trigger] after[a],
                            left,
                        ) by {
                            if a != j {
                                assert(after[a] == parts[a]);
                                assert(part_ok(projection, rule, parts[a], outstanding));
                            }
                        }
                        assert forall|a: int, b: int| 0 <= a < b < after.len() implies (
                        #[trigger] after[a]).key != (#[trigger] after[b]).key by {
                            if b < parts.len() {
                                assert(parts[a].key != parts[b].key);
                            } else {
                                assert(parts[a].key != key);
                            }
                        }
                        assert(rest.skip(m.taken as int) =~= all.skip((n + m.taken) as int));
                    }
                },
            }
        }
    }
}

/// A step of a query takes no more events than the stream has.
pub proof fn lemma_drive_taken<Proj, Pat, Part>(
    projection: Proj,
    rule: Pat,
    partitioner: Part,
    chunk_max_size: usize,
    total_size_limit: usize,
    parts: Seq<PartitionModel<Part::T, <Pat::State as View>::V, Pat::T, <Proj::State as View>::V>>,
    bufs: Seq<(Part::T, Seq<Proj::Event>)>,
    events: Seq<Proj::Event>,
) where
    Proj: Projection,
    Pat: Pattern<Event = Proj::Event>,
    Part: Partitioner<Event = Proj::Event>,

    ensures
        drive(
            projection,
            rule,
            partitioner,
            chunk_max_size,
            total_size_limit,
            parts,
            bufs,
            events,
        ).taken <= events.len(),
    decreases events.len(), bufs.len(),
{
    let i = ready(parts);
    if i >= parts.len() {
        let m = partition_next(partitioner, chunk_max_size, total_size_limit, bufs, events);
        lemma_partition_progress(partitioner, chunk_max_size, total_size_limit, bufs, events);
        match m.chunk {
            None => {},
            Some(chunk) => {
                lemma_drive_taken(
                    projection,
                    rule,
                    partitioner,
                    chunk_max_size,
                    total_size_limit,
                    dispatched(projection, rule, parts, chunk),
                    m.buffers,
                    events.skip(m.taken as int),
                );
            },
        }
    }
}

/// What the iterator `iter` says of the number of items it still has.
///
/// This is `Iterator::size_hint`. It is a hint: nothing is claimed of what
/// comes back.
#[verifier::external_body]
pub(crate) fn source_size_hint<I: Iterator>(iter: &I) -> (usize, Option<usize>) {
    iter.size_hint()
}

/// The hint `hint` on a number of items, as a hint on the number of chunks of
/// `chunks_size` items: the lower bound stays, an upper bound is divided.
pub open spec fn scaled(hint: (usize, Option<usize>), chunks_size: usize) -> (
    usize,
    Option<usize>,
) {
    match hint.1 {
        Some(upper) => (hint.0, Some((upper / chunks_size) as usize)),
        None => (hint.0, None),
    }
}

/// The hint `hint` on a number of items, as a hint on the number of chunks of
/// `chunks_size` items: the lower bound stays, an upper bound is divided.
pub fn scaled_hint(hint: (usize, Option<usize>), chunks_size: usize) -> (r: (
    usize,
    Option<usize>,
))
    requires
        chunks_size > 0,
    ensures
        r == scaled(hint, chunks_size),
{
    match hint {
        (lower, Some(upper)) => (lower, Some(upper / chunks_size)),
        (lower, None) => (lower, None),
    }
}

/// An iterator that hands out the items of another iterator in chunks of a
/// fixed size.
pub struct Chunker<I> {
    iter: I,
    chunks_size: usize,
}

impl<I: Iterator> Chunker<I> {
    /// The iterator that the items come from.
    pub closed spec fn source(&self) -> I {
        self.iter
    }

    /// The number of items in a chunk.
    pub closed spec fn spec_chunks_size(&self) -> usize {
        self.chunks_size
    }

    /// Makes the iterator over chunks of `chunks_size` items of `iter`.
    pub fn new(iter: I, chunks_size: usize) -> (r: Self)
        ensures
            r.source() == iter,
            r.spec_chunks_size() == chunks_size,
    {
        Chunker { iter, chunks_size }
    }

    /// The next `chunks_size` items, or as many as are left; `None` when none
    /// is left.
    pub fn next(&mut self) -> (r: Option<Vec<I::Item>>)
        requires
            old(self).source().obeys_prophetic_iter_laws(),
            old(self).source().decrease() is Some,
            old(self).spec_chunks_size() > 0,
        ensures
            final(self).spec_chunks_size() == old(self).spec_chunks_size(),
            final(self).source().obeys_prophetic_iter_laws(),
            final(self).source().decrease() is Some,
            old(self).source().remaining().len() == 0 ==> r is None,
            old(self).source().remaining().len() > 0 ==> r is Some && r->0@
                == old(self).source().remaining().take(
                vstd::math::min(
                    old(self).spec_chunks_size() as int,
                    old(self).source().remaining().len() as int,
                ),
            ),
            final(self).source().remaining() == old(self).source().remaining().skip(
                vstd::math::min(
                    old(self).spec_chunks_size() as int,
                    old(self).source().remaining().len() as int,
                ),
            ),
    {
        let mut result: Vec<I::Item> = Vec::new();
        let ghost all = self.iter.remaining();
        proof {
            assert(all.take(0) =~= Seq::<I::Item>::empty());
            assert(all.skip(0) =~= all);
        }
        while result.len() < self.chunks_size
            invariant
                self.chunks_size == old(self).chunks_size,
                self.iter.obeys_prophetic_iter_laws(),
                self.iter.decrease() is Some,
                result@.len() <= all.len(),
                result@.len() <= self.chunks_size,
                result@ == all.take(result@.len() as int),
                self.iter.remaining() == all.skip(result@.len() as int),
            ensures
                result@.len() == vstd::math::min(self.chunks_size as int, all.len() as int),
            decreases self.iter.decrease()->0,
        {
            match self.iter.next() {
                Some(item) => {
                    proof {
                        assert(all.take(result@.len() as int + 1) =~= all.take(
                            result@.len() as int,
                        ).push(item));
                        assert(all.skip(result@.len() as int).drop_first() =~= all.skip(
                            result@.len() as int + 1,
                        ));
                    }
                    result.push(item);
                },
                None => {
                    break ;
                },
            }
        }
        if result.len() > 0 {
            Some(result)
        } else {
            None
        }
    }

    /// A hint on the number of chunks that are left: the hint of the source
    /// on the number of items that are left, scaled to chunks. What the source
    /// hints is its own affair; whatever it is, the lower bound is passed on
    /// and an upper bound is divided by the number of items in a chunk.
    pub fn size_hint(&self) -> (r: (usize, Option<usize>))
        requires
            self.spec_chunks_size() > 0,
        ensures
            exists|hint: (usize, Option<usize>)|
                r == #[trigger] scaled(hint, self.spec_chunks_size()),
    {
        let hint = source_size_hint(&self.iter);
        let r = scaled_hint(hint, self.chunks_size);
        assert(r == scaled(hint, self.spec_chunks_size()));
        r
    }
}

} // verus!
