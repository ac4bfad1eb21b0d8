//! Verdicts, intervals and the interval queue that carries them between
//! patterns.

use std::collections::VecDeque;
use vstd::prelude::*;
use vstd::std_specs::iter::IteratorSpec;

use crate::datum::Datum;

verus! {

/// The position of an event in its stream.
pub type Idx = u64;

/// The classification that a pattern gives to a run of events.
#[derive(Debug, Clone)]
pub enum PatternResult<T> {
    Failure,
    Success(T),
}

impl<T: Datum> Datum for PatternResult<T> {
    fn same(&self, other: &Self) -> (r: bool) {
        match (self, other) {
            (PatternResult::Failure, PatternResult::Failure) => true,
            (PatternResult::Success(a), PatternResult::Success(b)) => a.same(b),
            _ => false,
        }
    }

    fn duplicate(&self) -> (r: Self) {
        match self {
            PatternResult::Failure => PatternResult::Failure,
            PatternResult::Success(a) => PatternResult::Success(a.duplicate()),
        }
    }
}

/// One verdict for every index from `start` to `end`, both included.
#[derive(Debug, Clone)]
pub struct IdxValue<T> {
    pub start: Idx,
    pub end: Idx,
    pub result: PatternResult<T>,
}

impl<T> IdxValue<T> {
    /// Makes the interval from `start` to `end` with the verdict `result`.
    pub fn new(start: Idx, end: Idx, result: PatternResult<T>) -> (r: Self)
        ensures
            r == (IdxValue { start, end, result }),
    {
        IdxValue { start, end, result }
    }
}

/// Every interval holds an index, and each ends before the next begins.
pub open spec fn ordered<T>(q: Seq<IdxValue<T>>) -> bool {
    &&& forall|i: int| 0 <= i < q.len() ==> (#[trigger] q[i]).start <= q[i].end
    &&& forall|i: int, j: int|
        0 <= i < j < q.len() ==> (#[trigger] q[i]).end < (#[trigger] q[j]).start
}

/// No two neighbours carry the same verdict.
pub open spec fn coalesced<T>(q: Seq<IdxValue<T>>) -> bool {
    forall|i: int| 0 <= i < q.len() - 1 ==> (#[trigger] q[i]).result != q[i + 1].result
}

/// The queue without its first interval; an empty queue stays empty.
pub open spec fn beheaded<T>(q: Seq<IdxValue<T>>) -> Seq<IdxValue<T>> {
    if q.len() == 0 {
        q
    } else {
        q.subrange(1, q.len() as int)
    }
}

/// The queue after `iv` was appended with merging: a last interval with the
/// verdict of `iv` is stretched to the end of `iv`, whether or not the two
/// touch; otherwise `iv` becomes the last interval.
pub open spec fn joined<T>(q: Seq<IdxValue<T>>, iv: IdxValue<T>) -> Seq<IdxValue<T>> {
    if q.len() > 0 && q.last().result == iv.result {
        q.update(
            q.len() - 1,
            IdxValue { start: q.last().start, end: iv.end, result: q.last().result },
        )
    } else {
        q.push(iv)
    }
}

/// The queue after every interval of `ivs` was appended with merging, in order.
pub open spec fn join_all<T>(q: Seq<IdxValue<T>>, ivs: Seq<IdxValue<T>>) -> Seq<IdxValue<T>>
    decreases ivs.len(),
{
    if ivs.len() == 0 {
        q
    } else {
        joined(join_all(q, ivs.drop_last()), ivs.last())
    }
}

/// The queue after everything before index `k` was discarded: leading
/// intervals that end before `k` are dropped, and the first one that is left
/// begins at `k` or later.
pub open spec fn rewound<T>(q: Seq<IdxValue<T>>, k: int) -> Seq<IdxValue<T>>
    decreases q.len(),
{
    if q.len() == 0 {
        q
    } else if q[0].end < k {
        rewound(q.subrange(1, q.len() as int), k)
    } else if q[0].start < k {
        q.update(0, IdxValue { start: k as Idx, end: q[0].end, result: q[0].result })
    } else {
        q
    }
}

/// An ordered buffer of intervals.
#[derive(Debug)]
pub struct PQueue<T> {
    queue: VecDeque<IdxValue<T>>,
}

impl<T> View for PQueue<T> {
    type V = Seq<IdxValue<T>>;

    closed spec fn view(&self) -> Seq<IdxValue<T>> {
        self.queue@
    }
}

impl<T> Default for PQueue<T> {
    fn default() -> (r: Self)
        ensures
            r@ == Seq::<IdxValue<T>>::empty(),
    {
        PQueue { queue: VecDeque::new() }
    }
}

impl<T> PQueue<T> {
    /// The number of intervals in the queue.
    pub fn size(&self) -> (n: usize)
        ensures
            n == self@.len(),
    {
        self.queue.len()
    }

    /// Whether the queue holds no interval.
    pub fn is_empty(&self) -> (b: bool)
        ensures
            b == (self@.len() == 0),
    {
        self.queue.len() == 0
    }

    /// The first interval, which stays in the queue.
    pub fn head_option(&self) -> (r: Option<&IdxValue<T>>)
        ensures
            self@.len() == 0 ==> r is None,
            self@.len() > 0 ==> r == Some(&self@[0]),
    {
        if self.queue.len() > 0 {
            Some(&self.queue[0])
        } else {
            None
        }
    }

    /// Removes the first interval and returns it.
    pub fn dequeue_option(&mut self) -> (r: Option<IdxValue<T>>)
        ensures
            old(self)@.len() == 0 ==> r is None,
            old(self)@.len() > 0 ==> r == Some(old(self)@[0]),
            final(self)@ == beheaded(old(self)@),
    {
        self.queue.pop_front()
    }

    /// Removes the first interval; an empty queue stays as it is.
    pub fn behead(&mut self) -> (r: &mut Self)
        ensures
            r@ == beheaded(old(self)@),
            *final(r) == *final(self),
    {
        self.queue.pop_front();
        self
    }

    /// Appends `idx_value` as it is.
    pub fn enqueue_one(&mut self, idx_value: IdxValue<T>) -> (r: &mut Self)
        ensures
            r@ == old(self)@.push(idx_value),
            *final(r) == *final(self),
    {
        self.queue.push_back(idx_value);
        self
    }

    /// Appends every interval that `idx_values` gives, as it is.
    pub fn enqueue<I: Iterator<Item = IdxValue<T>>>(&mut self, idx_values: I) -> (r: &mut Self)
        requires
            idx_values.obeys_prophetic_iter_laws(),
            idx_values.decrease() is Some,
        ensures
            r@ == old(self)@ + idx_values.remaining(),
            *final(r) == *final(self),
    {
        let ghost q0 = self@;
        let ghost all = idx_values.remaining();
        let mut rest = idx_values;
        proof {
            assert(all.take(0) =~= Seq::<IdxValue<T>>::empty());
            assert(q0 + all.take(0) =~= q0);
            assert(all.skip(0) =~= all);
        }
        let ghost n: nat = 0;
        loop
            invariant
                rest.obeys_prophetic_iter_laws(),
                rest.decrease() is Some,
                n <= all.len(),
                rest.remaining() == all.skip(n as int),
                self@ == q0 + all.take(n as int),
            ensures
                self@ == q0 + all,
            decreases rest.decrease()->0,
        {
            match rest.next() {
                Some(iv) => {
                    proof {
                        assert(all.skip(n as int)[0] == iv);
                        assert(all.skip(n as int).drop_first() =~= all.skip(n as int + 1));
                        assert((q0 + all.take(n as int)).push(iv) =~= q0 + all.take(n as int + 1));
                        n = n + 1;
                    }
                    self.queue.push_back(iv);
                },
                None => {
                    proof {
                        assert(all.take(n as int) =~= all);
                    }
                    break ;
                },
            }
        }
        self
    }

    /// Appends `idx_value`, merging it into the last interval where that one
    /// carries the same verdict.
    pub fn enqueue_joined(&mut self, idx_value: IdxValue<T>) -> (r: &mut Self) where T: Datum
        ensures
            r@ == joined(old(self)@, idx_value),
            *final(r) == *final(self),
            coalesced(old(self)@) ==> coalesced(r@),
            ordered(old(self)@) && follows(old(self)@, idx_value) ==> ordered(r@),
    {
        let ghost q0 = self@;
        match self.queue.pop_back() {
            Some(last) => {
                if last.result.same(&idx_value.result) {
                    self.queue.push_back(
                        IdxValue { start: last.start, end: idx_value.end, result: last.result },
                    );
                } else {
                    self.queue.push_back(last);
                    self.queue.push_back(idx_value);
                }
            },
            None => {
                self.queue.push_back(idx_value);
            },
        }
        proof {
            assert(self@ =~= joined(q0, idx_value));
            if coalesced(q0) {
                lemma_joined_coalesced(q0, idx_value);
            }
            if ordered(q0) && follows(q0, idx_value) {
                lemma_joined_ordered(q0, idx_value);
            }
        }
        self
    }

    /// Discards everything before index `new_start`: leading intervals that end
    /// before it are removed, and the first interval that is left is cut to
    /// begin at `new_start` where it began earlier.
    pub fn rewind_to(&mut self, new_start: Idx) -> (r: &mut Self)
        ensures
            r@ == rewound(old(self)@, new_start as int),
            *final(r) == *final(self),
            r@.len() > 0 ==> r@[0].start >= new_start && r@[0].end >= new_start,
            ordered(old(self)@) ==> ordered(r@),
            coalesced(old(self)@) ==> coalesced(r@),
    {
        let ghost q0 = self@;
        loop
            invariant
                rewound(self@, new_start as int) == rewound(q0, new_start as int),
            ensures
                self@ == rewound(q0, new_start as int),
            decreases self@.len(),
        {
            if self.queue.len() == 0 {
                break ;
            }
            if self.queue[0].end < new_start {
                self.queue.pop_front();
                continue ;
            }
            if self.queue[0].start < new_start {
                let ghost q1 = self@;
                let head = self.queue.pop_front().unwrap();
                self.queue.push_front(
                    IdxValue { start: new_start, end: head.end, result: head.result },
                );
                assert(self@ =~= rewound(q1, new_start as int));
            }
            break ;
        }
        proof {
            lemma_rewound_head(q0, new_start as int);
            if ordered(q0) {
                lemma_rewound_ordered(q0, new_start as int);
            }
            if coalesced(q0) {
                lemma_rewound_coalesced(q0, new_start as int);
            }
        }
        self
    }
}

/// `iv` holds an index and begins after the last interval of `q` ends.
pub open spec fn follows<T>(q: Seq<IdxValue<T>>, iv: IdxValue<T>) -> bool {
    &&& iv.start <= iv.end
    &&& q.len() > 0 ==> q.last().end < iv.start
}

/// Appending with merging keeps neighbours' verdicts apart.
pub proof fn lemma_joined_coalesced<T>(q: Seq<IdxValue<T>>, iv: IdxValue<T>)
    requires
        coalesced(q),
    ensures
        coalesced(joined(q, iv)),
{
    let j = joined(q, iv);
    assert forall|i: int| 0 <= i < j.len() - 1 implies (#[trigger] j[i]).result != j[i
        + 1].result by {
        if q.len() > 0 && q.last().result == iv.result {
            assert(q[i].result != q[i + 1].result);
        } else {
            if i < q.len() - 1 {
                assert(q[i].result != q[i + 1].result);
            }
        }
    }
}

/// Appending with merging an interval that lies after the queue keeps the
/// queue in order.
pub proof fn lemma_joined_ordered<T>(q: Seq<IdxValue<T>>, iv: IdxValue<T>)
    requires
        ordered(q),
        follows(q, iv),
    ensures
        ordered(joined(q, iv)),
{
    let j = joined(q, iv);
    assert forall|i: int| 0 <= i < j.len() implies (#[trigger] j[i]).start <= j[i].end by {
        if i < q.len() {
            assert(q[i].start <= q[i].end);
        }
    }
    assert forall|a: int, b: int| 0 <= a < b < j.len() implies (#[trigger] j[a]).end < (
    #[trigger] j[b]).start by {
        if b < q.len() {
            assert(q[a].end < q[b].start);
        } else {
            if a < q.len() - 1 {
                assert(q[a].end < q[q.len() - 1].start);
                assert(q[q.len() - 1].start <= q[q.len() - 1].end);
            }
        }
    }
}

/// Every interval of `ivs` begins at `lo` or later and ends before `hi`.
pub open spec fn within<T>(ivs: Seq<IdxValue<T>>, lo: int, hi: int) -> bool {
    forall|i: int| 0 <= i < ivs.len() ==> lo <= (#[trigger] ivs[i]).start && ivs[i].end < hi
}

/// Appending with merging, one after the other, intervals that are in order
/// and lie after the queue keeps the queue in order.
pub proof fn lemma_join_all_ordered<T>(
    q: Seq<IdxValue<T>>,
    ivs: Seq<IdxValue<T>>,
    a: int,
    lo: int,
    hi: int,
)
    requires
        ordered(q),
        within(q, a, lo),
        a <= lo <= hi,
        ordered(ivs),
        within(ivs, lo, hi),
    ensures
        ordered(join_all(q, ivs)),
        within(join_all(q, ivs), a, hi),
        ivs.len() > 0 ==> join_all(q, ivs).len() > 0 && join_all(q, ivs).last().end
            == ivs.last().end,
    decreases ivs.len(),
{
    if ivs.len() == 0 {
        assert forall|i: int| 0 <= i < q.len() implies a <= (#[trigger] q[i]).start && q[i].end
            < hi by {}
    } else {
        let front = ivs.drop_last();
        let last = ivs.last();
        let mid = last.start as int;
        assert(ordered(front)) by {
            assert forall|i: int| 0 <= i < front.len() implies (#[trigger] front[i]).start
                <= front[i].end by {
                assert(ivs[i].start <= ivs[i].end);
            }
            assert forall|i: int, j: int| 0 <= i < j < front.len() implies (#[trigger] front[i]).end
                < (#[trigger] front[j]).start by {
                assert(ivs[i].end < ivs[j].start);
            }
        }
        assert(within(front, lo, mid)) by {
            assert forall|i: int| 0 <= i < front.len() implies lo <= (#[trigger] front[i]).start
                && front[i].end < mid by {
                assert(lo <= ivs[i].start);
                assert(ivs[i].end < ivs[ivs.len() - 1].start);
            }
        }
        assert(lo <= ivs[ivs.len() - 1].start);
        lemma_join_all_ordered(q, front, a, lo, mid);
        let j = join_all(q, front);
        assert(ivs[ivs.len() - 1].start <= ivs[ivs.len() - 1].end);
        assert(follows(j, last)) by {
            if j.len() > 0 {
                assert(j[j.len() - 1].end < mid);
            }
        }
        lemma_joined_ordered(j, last);
        let r = joined(j, last);
        assert forall|i: int| 0 <= i < r.len() implies a <= (#[trigger] r[i]).start && r[i].end
            < hi by {
            if i < j.len() {
                assert(a <= j[i].start && j[i].end < mid);
            }
        }
    }
}

/// Appending with merging, one after the other, keeps neighbours' verdicts
/// apart.
pub proof fn lemma_join_all_coalesced<T>(q: Seq<IdxValue<T>>, ivs: Seq<IdxValue<T>>)
    requires
        coalesced(q),
    ensures
        coalesced(join_all(q, ivs)),
    decreases ivs.len(),
{
    if ivs.len() > 0 {
        lemma_join_all_coalesced(q, ivs.drop_last());
        lemma_joined_coalesced(join_all(q, ivs.drop_last()), ivs.last());
    }
}

/// Appending two runs of intervals is appending the first, then the second.
pub proof fn lemma_join_all_concat<T>(
    q: Seq<IdxValue<T>>,
    xs: Seq<IdxValue<T>>,
    ys: Seq<IdxValue<T>>,
)
    ensures
        join_all(q, xs + ys) == join_all(join_all(q, xs), ys),
    decreases ys.len(),
{
    if ys.len() == 0 {
        assert(xs + ys =~= xs);
    } else {
        lemma_join_all_concat(q, xs, ys.drop_last());
        assert((xs + ys).drop_last() =~= xs + ys.drop_last());
        assert((xs + ys).last() == ys.last());
    }
}

/// The run `ivs` with its last interval stretched to end at `end`.
pub open spec fn stretched<T>(ivs: Seq<IdxValue<T>>, end: Idx) -> Seq<IdxValue<T>> {
    ivs.update(
        ivs.len() - 1,
        IdxValue { start: ivs.last().start, end, result: ivs.last().result },
    )
}

/// Appending a run whose last interval was stretched is appending the run
/// and then an interval with the same verdict that ends where the stretched
/// one does.
pub proof fn lemma_join_all_stretched<T>(
    q: Seq<IdxValue<T>>,
    ivs: Seq<IdxValue<T>>,
    iv: IdxValue<T>,
)
    requires
        ivs.len() > 0,
        ivs.last().result == iv.result,
    ensures
        join_all(q, stretched(ivs, iv.end)) == joined(join_all(q, ivs), iv),
{
    let front = ivs.drop_last();
    let z = join_all(q, front);
    let s = stretched(ivs, iv.end);
    assert(s.drop_last() =~= front);
    assert(joined(z, s.last()) =~= joined(joined(z, ivs.last()), iv));
}

/// Appending one more interval after a run.
pub proof fn lemma_join_all_push<T>(q: Seq<IdxValue<T>>, xs: Seq<IdxValue<T>>, iv: IdxValue<T>)
    ensures
        join_all(q, xs.push(iv)) == joined(join_all(q, xs), iv),
{
    assert(xs.push(iv).drop_last() =~= xs);
}

/// The index at which the first interval of `q` begins, or `b` where `q` is
/// empty.
pub open spec fn low<T>(q: Seq<IdxValue<T>>, b: int) -> int {
    if q.len() > 0 {
        q[0].start as int
    } else {
        b
    }
}

/// Appending with merging leaves the beginning of the queue where it was.
pub proof fn lemma_join_all_head<T>(q: Seq<IdxValue<T>>, ivs: Seq<IdxValue<T>>)
    requires
        q.len() + ivs.len() > 0,
    ensures
        join_all(q, ivs).len() > 0,
        join_all(q, ivs)[0].start == (q + ivs)[0].start,
    decreases ivs.len(),
{
    if ivs.len() > 0 {
        let front = ivs.drop_last();
        if q.len() + front.len() > 0 {
            lemma_join_all_head(q, front);
            assert((q + front)[0] == (q + ivs)[0]);
        }
    }
}

/// Appending with merging intervals that begin at `lo` or later moves the
/// beginning of the queue forward, if at all.
pub proof fn lemma_join_all_low<T>(q: Seq<IdxValue<T>>, ivs: Seq<IdxValue<T>>, lo: int, hi: int)
    requires
        within(ivs, lo, hi),
        lo <= hi,
    ensures
        low(q, lo) <= low(join_all(q, ivs), hi),
{
    if q.len() + ivs.len() > 0 {
        lemma_join_all_head(q, ivs);
        if q.len() == 0 {
            assert(lo <= ivs[0].start);
        }
    }
}

/// What a rewind to `k` does to the first interval: it goes where it ends
/// before `k`, and else stays, cut to begin at `k` where it began earlier.
pub proof fn lemma_rewound_shape<T>(q: Seq<IdxValue<T>>, k: int)
    ensures
        rewound(q, k).len() <= q.len(),
        q.len() > 0 && q[0].end < k ==> rewound(q, k).len() < q.len(),
        q.len() > 0 && q[0].end >= k ==> rewound(q, k).len() == q.len() && rewound(q, k)[0].start
            == (if q[0].start < k {
            k
        } else {
            q[0].start as int
        }),
    decreases q.len(),
{
    if q.len() > 0 && q[0].end < k {
        lemma_rewound_shape(q.subrange(1, q.len() as int), k);
    }
}

/// A rewind keeps the bounds of an ordered queue, and moves its beginning
/// forward, if at all.
pub proof fn lemma_rewound_within<T>(q: Seq<IdxValue<T>>, k: int, a: int, b: int)
    requires
        ordered(q),
        within(q, a, b),
    ensures
        within(rewound(q, k), a, b),
        low(q, b) <= low(rewound(q, k), b),
    decreases q.len(),
{
    if q.len() == 0 {
    } else if q[0].end < k {
        let t = q.subrange(1, q.len() as int);
        assert(ordered(t)) by {
            assert forall|i: int| 0 <= i < t.len() implies (#[trigger] t[i]).start <= t[i].end by {
                assert(q[i + 1].start <= q[i + 1].end);
            }
            assert forall|i: int, j: int| 0 <= i < j < t.len() implies (#[trigger] t[i]).end < (
            #[trigger] t[j]).start by {
                assert(q[i + 1].end < q[j + 1].start);
            }
        }
        assert(within(t, a, b)) by {
            assert forall|i: int| 0 <= i < t.len() implies a <= (#[trigger] t[i]).start && t[i].end
                < b by {
                assert(a <= q[i + 1].start && q[i + 1].end < b);
            }
        }
        lemma_rewound_within(t, k, a, b);
        assert(q[0].start <= q[0].end && q[0].end < b);
        if t.len() > 0 {
            assert(q[0].end < q[1].start);
            assert(t[0] == q[1]);
        }
    } else {
        let r = rewound(q, k);
        assert forall|i: int| 0 <= i < r.len() implies a <= (#[trigger] r[i]).start && r[i].end
            < b by {
            assert(a <= q[i].start && q[i].end < b);
        }
    }
}

/// Removing the first interval keeps an ordered queue in order and within its
/// bounds, and moves its beginning past the end of what was removed.
pub proof fn lemma_beheaded_ordered<T>(q: Seq<IdxValue<T>>, a: int, b: int)
    requires
        ordered(q),
        within(q, a, b),
    ensures
        ordered(beheaded(q)),
        within(beheaded(q), a, b),
        q.len() > 0 ==> q[0].end < low(beheaded(q), b),
{
    if q.len() > 0 {
        let t = beheaded(q);
        assert forall|i: int| 0 <= i < t.len() implies (#[trigger] t[i]).start <= t[i].end by {
            assert(q[i + 1].start <= q[i + 1].end);
        }
        assert forall|i: int, j: int| 0 <= i < j < t.len() implies (#[trigger] t[i]).end < (
        #[trigger] t[j]).start by {
            assert(q[i + 1].end < q[j + 1].start);
        }
        assert forall|i: int| 0 <= i < t.len() implies a <= (#[trigger] t[i]).start && t[i].end
            < b by {
            assert(a <= q[i + 1].start && q[i + 1].end < b);
        }
        assert(q[0].end < b);
        if t.len() > 0 {
            assert(q[0].end < q[1].start);
            assert(t[0] == q[1]);
        }
    }
}

/// After a rewind to `k` the first interval lies at `k` or later.
pub proof fn lemma_rewound_head<T>(q: Seq<IdxValue<T>>, k: int)
    ensures
        rewound(q, k).len() > 0 ==> rewound(q, k)[0].start >= k && rewound(q, k)[0].end >= k,
        rewound(q, k).len() <= q.len(),
    decreases q.len(),
{
    if q.len() > 0 && q[0].end < k {
        lemma_rewound_head(q.subrange(1, q.len() as int), k);
    }
}

/// A rewind keeps an ordered queue in order.
pub proof fn lemma_rewound_ordered<T>(q: Seq<IdxValue<T>>, k: int)
    requires
        ordered(q),
    ensures
        ordered(rewound(q, k)),
    decreases q.len(),
{
    if q.len() == 0 {
    } else if q[0].end < k {
        let t = q.subrange(1, q.len() as int);
        assert forall|i: int| 0 <= i < t.len() implies (#[trigger] t[i]).start <= t[i].end by {
            assert(q[i + 1].start <= q[i + 1].end);
        }
        assert forall|a: int, b: int| 0 <= a < b < t.len() implies (#[trigger] t[a]).end < (
        #[trigger] t[b]).start by {
            assert(q[a + 1].end < q[b + 1].start);
        }
        lemma_rewound_ordered(t, k);
    } else if q[0].start < k {
        let r = rewound(q, k);
        assert forall|i: int| 0 <= i < r.len() implies (#[trigger] r[i]).start <= r[i].end by {
            assert(q[i].start <= q[i].end);
        }
        assert forall|a: int, b: int| 0 <= a < b < r.len() implies (#[trigger] r[a]).end < (
        #[trigger] r[b]).start by {
            assert(q[a].end < q[b].start);
        }
    }
}

/// A rewind keeps neighbours' verdicts apart.
pub proof fn lemma_rewound_coalesced<T>(q: Seq<IdxValue<T>>, k: int)
    requires
        coalesced(q),
    ensures
        coalesced(rewound(q, k)),
    decreases q.len(),
{
    if q.len() == 0 {
    } else if q[0].end < k {
        let t = q.subrange(1, q.len() as int);
        assert forall|i: int| 0 <= i < t.len() - 1 implies (#[trigger] t[i]).result != t[i
            + 1].result by {
            assert(q[i + 1].result != q[i + 2].result);
        }
        lemma_rewound_coalesced(t, k);
    } else if q[0].start < k {
        let r = rewound(q, k);
        assert forall|i: int| 0 <= i < r.len() - 1 implies (#[trigger] r[i]).result != r[i
            + 1].result by {
            assert(q[i].result != q[i + 1].result);
        }
    }
}

/// The verdict that the queue `q` gives to the index `i`, if it gives one:
/// that of the first interval that holds `i`.
pub open spec fn verdict_at<T>(q: Seq<IdxValue<T>>, i: int) -> Option<PatternResult<T>>
    decreases q.len(),
{
    if q.len() == 0 {
        None
    } else if q[0].start <= i <= q[0].end {
        Some(q[0].result)
    } else {
        verdict_at(q.drop_first(), i)
    }
}

/// An ordered queue gives no verdict to an index before its beginning.
pub proof fn lemma_verdict_before<T>(q: Seq<IdxValue<T>>, i: int)
    requires
        ordered(q),
        q.len() > 0 ==> i < q[0].start,
    ensures
        verdict_at(q, i) is None,
    decreases q.len(),
{
    if q.len() > 0 {
        let t = q.drop_first();
        assert(q[0].start <= q[0].end);
        if t.len() > 0 {
            assert(t[0] == q[1]);
            assert(q[0].end < q[1].start);
        }
        lemma_drop_first_ordered(q);
        lemma_verdict_before(t, i);
    }
}

/// An ordered queue without its first interval is ordered.
pub proof fn lemma_drop_first_ordered<T>(q: Seq<IdxValue<T>>)
    requires
        ordered(q),
        q.len() > 0,
    ensures
        ordered(q.drop_first()),
{
    let t = q.drop_first();
    assert forall|i: int| 0 <= i < t.len() implies (#[trigger] t[i]).start <= t[i].end by {
        assert(q[i + 1].start <= q[i + 1].end);
    }
    assert forall|i: int, j: int| 0 <= i < j < t.len() implies (#[trigger] t[i]).end < (
    #[trigger] t[j]).start by {
        assert(q[i + 1].end < q[j + 1].start);
    }
}

/// A rewind to `k` takes the verdicts of the indices before `k` away, and
/// leaves all others as they are.
pub proof fn lemma_verdict_rewound<T>(q: Seq<IdxValue<T>>, k: int, i: int)
    requires
        ordered(q),
    ensures
        verdict_at(rewound(q, k), i) == if i >= k {
            verdict_at(q, i)
        } else {
            None
        },
    decreases q.len(),
{
    if q.len() == 0 {
    } else {
        let t = q.drop_first();
        assert(t =~= q.subrange(1, q.len() as int));
        assert(q[0].start <= q[0].end);
        lemma_drop_first_ordered(q);
        if q[0].end < k {
            lemma_verdict_rewound(t, k, i);
        } else if q[0].start < k {
            let r = rewound(q, k);
            assert(r.drop_first() =~= t);
            if i < k {
                if t.len() > 0 {
                    assert(t[0] == q[1]);
                    assert(q[0].end < q[1].start);
                }
                lemma_verdict_before(t, i);
            }
        } else {
            if i < k {
                lemma_verdict_before(q, i);
            }
        }
    }
}

/// Removing the first interval takes the verdicts of its indices away, and
/// leaves all later ones as they are.
pub proof fn lemma_verdict_beheaded<T>(q: Seq<IdxValue<T>>, i: int)
    requires
        ordered(q),
        q.len() > 0,
    ensures
        verdict_at(beheaded(q), i) == if i > q[0].end {
            verdict_at(q, i)
        } else {
            None
        },
{
    let t = q.drop_first();
    assert(beheaded(q) =~= t);
    assert(q[0].start <= q[0].end);
    lemma_drop_first_ordered(q);
    if i <= q[0].end {
        if t.len() > 0 {
            assert(t[0] == q[1]);
            assert(q[0].end < q[1].start);
        }
        lemma_verdict_before(t, i);
    }
}

/// Two runs of intervals, one after the other, give an index the verdict of
/// the first run where that gives one, and else that of the second.
pub proof fn lemma_verdict_concat<T>(xs: Seq<IdxValue<T>>, ys: Seq<IdxValue<T>>, i: int)
    ensures
        verdict_at(xs + ys, i) == if verdict_at(xs, i) is Some {
            verdict_at(xs, i)
        } else {
            verdict_at(ys, i)
        },
    decreases xs.len(),
{
    if xs.len() == 0 {
        assert(xs + ys =~= ys);
    } else {
        assert((xs + ys).drop_first() =~= xs.drop_first() + ys);
        assert((xs + ys)[0] == xs[0]);
        lemma_verdict_concat(xs.drop_first(), ys, i);
    }
}

/// An ordered queue gives no verdict to an index after its end.
pub proof fn lemma_verdict_after<T>(q: Seq<IdxValue<T>>, i: int)
    requires
        ordered(q),
        q.len() > 0 ==> i > q.last().end,
    ensures
        verdict_at(q, i) is None,
    decreases q.len(),
{
    if q.len() > 0 {
        let t = q.drop_first();
        assert(q[0].start <= q[0].end);
        if t.len() > 0 {
            assert(q[0].end < q[q.len() - 1].start);
            assert(q[q.len() - 1].start <= q[q.len() - 1].end);
            assert(t.last() == q.last());
        }
        lemma_drop_first_ordered(q);
        lemma_verdict_after(t, i);
    }
}

/// A queue gives no verdict to an index at or after a bound that all its
/// intervals end before.
pub proof fn lemma_verdict_outside<T>(q: Seq<IdxValue<T>>, lo: int, hi: int, i: int)
    requires
        within(q, lo, hi),
        i >= hi,
    ensures
        verdict_at(q, i) is None,
    decreases q.len(),
{
    if q.len() > 0 {
        let t = q.drop_first();
        assert(q[0].end < hi);
        assert forall|j: int| 0 <= j < t.len() implies lo <= (#[trigger] t[j]).start && t[j].end
            < hi by {
            assert(lo <= q[j + 1].start && q[j + 1].end < hi);
        }
        lemma_verdict_outside(t, lo, hi, i);
    }
}

} // verus!
