//! What every pattern promises.

use vstd::prelude::*;

use crate::queue::{coalesced, join_all, ordered, within, Idx, IdxValue, PQueue};

verus! {

/// For the pattern `p` in the state `state`, feeding the batch `a` and then
/// the batch `b` is feeding the two as one batch: the state is the same
/// afterwards, and so is every output queue.
pub open spec fn additive<P: Pattern>(
    p: P,
    start_idx: Idx,
    a: Seq<P::Event>,
    b: Seq<P::Event>,
    state: <P::State as View>::V,
) -> bool {
    let mid = p.next_state(start_idx, a, state);
    let then = (start_idx + a.len()) as Idx;
    &&& p.next_state(then, b, mid) == p.next_state(start_idx, a + b, state)
    &&& forall|q: Seq<IdxValue<P::T>>|
        join_all(join_all(q, p.emitted(start_idx, a, state)), p.emitted(then, b, mid))
            == #[trigger] join_all(q, p.emitted(start_idx, a + b, state))
}

/// In every sound state, the pattern `p` takes two batches, one after the
/// other, as it takes the two as one batch.
pub open spec fn always_additive<P: Pattern>(p: P) -> bool {
    forall|start_idx: Idx, a: Seq<P::Event>, b: Seq<P::Event>, state: <P::State as View>::V|
        p.inv(state, start_idx as int) && start_idx + a.len() + b.len() + p.spec_width()
            <= u64::MAX ==> #[trigger] additive(p, start_idx, a, b, state)
}

/// The events of the batches `slices`, one batch after the other.
pub open spec fn flat<E>(slices: Seq<Seq<E>>) -> Seq<E>
    decreases slices.len(),
{
    if slices.len() == 0 {
        Seq::empty()
    } else {
        flat(slices.drop_last()) + slices.last()
    }
}

/// The state of the pattern `p` after it was fed the batches `slices`, one
/// after the other, beginning at `start_idx` in the state `state`.
pub open spec fn fed_state<P: Pattern>(
    p: P,
    start_idx: Idx,
    slices: Seq<Seq<P::Event>>,
    state: <P::State as View>::V,
) -> <P::State as View>::V
    decreases slices.len(),
{
    if slices.len() == 0 {
        state
    } else {
        p.next_state(
            (start_idx + flat(slices.drop_last()).len()) as Idx,
            slices.last(),
            fed_state(p, start_idx, slices.drop_last(), state),
        )
    }
}

/// The queue `q` after the pattern `p` was fed the batches `slices`, one
/// after the other, beginning at `start_idx` in the state `state`.
pub open spec fn fed_queue<P: Pattern>(
    p: P,
    start_idx: Idx,
    slices: Seq<Seq<P::Event>>,
    q: Seq<IdxValue<P::T>>,
    state: <P::State as View>::V,
) -> Seq<IdxValue<P::T>>
    decreases slices.len(),
{
    if slices.len() == 0 {
        q
    } else {
        join_all(
            fed_queue(p, start_idx, slices.drop_last(), q, state),
            p.emitted(
                (start_idx + flat(slices.drop_last()).len()) as Idx,
                slices.last(),
                fed_state(p, start_idx, slices.drop_last(), state),
            ),
        )
    }
}

/// However a stream is cut into batches, a pattern that takes two batches as
/// one takes all of them as one: fed batch by batch, it leaves the state and
/// the queue that it leaves when it is fed the whole stream at once.
pub proof fn lemma_slices<P: Pattern>(
    p: P,
    start_idx: Idx,
    slices: Seq<Seq<P::Event>>,
    q: Seq<IdxValue<P::T>>,
    state: <P::State as View>::V,
)
    requires
        p.wf(),
        p.inv(state, start_idx as int),
        start_idx + flat(slices).len() + p.spec_width() <= u64::MAX,
        always_additive(p),
        slices.len() > 0,
    ensures
        fed_state(p, start_idx, slices, state) == p.next_state(start_idx, flat(slices), state),
        fed_queue(p, start_idx, slices, q, state) == join_all(
            q,
            p.emitted(start_idx, flat(slices), state),
        ),
    decreases slices.len(),
{
    let front = slices.drop_last();
    let last = slices.last();
    let then = (start_idx + flat(front).len()) as Idx;
    assert(flat(slices) == flat(front) + last);
    assert(fed_state(p, start_idx, slices, state) == p.next_state(
        then,
        last,
        fed_state(p, start_idx, front, state),
    ));
    assert(fed_queue(p, start_idx, slices, q, state) == join_all(
        fed_queue(p, start_idx, front, q, state),
        p.emitted(then, last, fed_state(p, start_idx, front, state)),
    ));
    if front.len() == 0 {
        assert(flat(front) =~= Seq::<P::Event>::empty());
        assert(flat(slices) =~= last);
        assert(fed_state(p, start_idx, front, state) == state);
        assert(fed_queue(p, start_idx, front, q, state) == q);
    } else {
        lemma_slices(p, start_idx, front, q, state);
        assert(additive(p, start_idx, flat(front), last, state));
        assert(join_all(
            join_all(q, p.emitted(start_idx, flat(front), state)),
            p.emitted(then, last, p.next_state(start_idx, flat(front), state)),
        ) == join_all(q, p.emitted(start_idx, flat(front) + last, state)));
    }
}

/// A stateful, incremental classifier of events.
///
/// A pattern is fed the events of one stream batch by batch, each batch
/// beginning where the one before ended. For every batch it hands intervals to
/// an output queue and updates its state. What it hands out and what its state
/// becomes are functions of the batch and of the state alone: `emitted` and
/// `next_state`.
pub trait Pattern {
    type State: View;

    type Event;

    type T;

    /// The pattern and its sub-patterns are usable.
    spec fn wf(&self) -> bool;

    /// The number of indices that the pattern looks across.
    spec fn spec_width(&self) -> Idx;

    /// The state before the first batch.
    spec fn spec_initial(&self) -> <Self::State as View>::V;

    /// What holds of a state when the next event to arrive has index `next`.
    spec fn inv(&self, state: <Self::State as View>::V, next: int) -> bool;

    /// The least index at which an interval handed out from now on can begin.
    spec fn frontier(&self, state: <Self::State as View>::V, next: int) -> int;

    /// The intervals handed to the output queue for one batch, in order.
    spec fn emitted(
        &self,
        start_idx: Idx,
        events: Seq<Self::Event>,
        state: <Self::State as View>::V,
    ) -> Seq<IdxValue<Self::T>>;

    /// The state after one batch.
    spec fn next_state(
        &self,
        start_idx: Idx,
        events: Seq<Self::Event>,
        state: <Self::State as View>::V,
    ) -> <Self::State as View>::V;

    /// Every function that the pattern holds has a result for each argument
    /// that `emitted` and `next_state` give it for this batch.
    spec fn defined(
        &self,
        start_idx: Idx,
        events: Seq<Self::Event>,
        state: <Self::State as View>::V,
    ) -> bool;

    /// The frontier of a state lies between 0 and the next index.
    proof fn lemma_frontier_bounds(&self, state: <Self::State as View>::V, next: int)
        requires
            self.wf(),
            self.inv(state, next),
        ensures
            0 <= self.frontier(state, next) <= next,
    ;

    /// What holds of every batch: the state stays sound, and the intervals
    /// handed out are in order, none before the frontier that the batch found
    /// and all before the frontier that it leaves, which lies no earlier.
    proof fn lemma_emitted(
        &self,
        start_idx: Idx,
        events: Seq<Self::Event>,
        state: <Self::State as View>::V,
    )
        requires
            self.wf(),
            self.inv(state, start_idx as int),
            start_idx + events.len() + self.spec_width() <= u64::MAX,
        ensures
            self.inv(self.next_state(start_idx, events, state), start_idx + events.len()),
            ordered(self.emitted(start_idx, events, state)),
            within(
                self.emitted(start_idx, events, state),
                self.frontier(state, start_idx as int),
                self.frontier(self.next_state(start_idx, events, state), start_idx + events.len()),
            ),
            self.frontier(state, start_idx as int) <= self.frontier(
                self.next_state(start_idx, events, state),
                start_idx + events.len(),
            ),
    ;

    /// Makes the state for a stream whose first event has index 0.
    fn initial_state(&self) -> (state: Self::State)
        requires
            self.wf(),
        ensures
            state@ == self.spec_initial(),
            self.inv(state@, 0),
    ;

    /// Consumes one batch whose first event has index `start_idx`: appends
    /// the intervals it classifies to `queue`, merging equal neighbours, and
    /// updates `state`.
    fn apply(
        &self,
        start_idx: Idx,
        events: &[Self::Event],
        queue: &mut PQueue<Self::T>,
        state: &mut Self::State,
    )
        requires
            self.wf(),
            self.inv(old(state)@, start_idx as int),
            start_idx + events@.len() + self.spec_width() <= u64::MAX,
        ensures
            final(queue)@ == join_all(
                old(queue)@,
                self.emitted(start_idx, events@, old(state)@),
            ),
            final(state)@ == self.next_state(start_idx, events@, old(state)@),
            self.defined(start_idx, events@, old(state)@),
            self.inv(final(state)@, start_idx + events@.len()),
            ordered(self.emitted(start_idx, events@, old(state)@)),
            within(
                self.emitted(start_idx, events@, old(state)@),
                self.frontier(old(state)@, start_idx as int),
                self.frontier(final(state)@, start_idx + events@.len()),
            ),
            self.frontier(old(state)@, start_idx as int) <= self.frontier(
                final(state)@,
                start_idx + events@.len(),
            ),
            ordered(old(queue)@) && within(
                old(queue)@,
                0,
                self.frontier(old(state)@, start_idx as int),
            ) ==> ordered(final(queue)@) && within(
                final(queue)@,
                0,
                self.frontier(final(state)@, start_idx + events@.len()),
            ),
            coalesced(old(queue)@) ==> coalesced(final(queue)@),
    ;

    /// The number of indices that the pattern looks across.
    fn width(&self) -> (w: Idx)
        requires
            self.wf(),
        ensures
            w == self.spec_width(),
    ;
}

} // verus!
