//! The pattern that turns a stream of boolean verdicts into one of bare
//! successes and failures.

use vstd::prelude::*;

use crate::pattern::{additive, always_additive, Pattern};
use crate::queue::{
    coalesced, join_all, joined, lemma_join_all_coalesced, lemma_join_all_concat,
    lemma_join_all_ordered, lemma_join_all_push, lemma_join_all_stretched, ordered, stretched,
    verdict_at, within, Idx, IdxValue, PQueue, PatternResult,
};

verus! {

/// Succeeds wherever the inner pattern succeeds with `true`, and fails
/// everywhere else that the inner pattern has classified.
#[derive(Clone)]
pub struct AssertPattern<P> {
    inner: P,
}

impl<P> AssertPattern<P> where P: Pattern<T = bool> {
    /// The pattern whose verdicts are asserted.
    pub closed spec fn spec_inner(&self) -> P {
        self.inner
    }

    /// Makes the pattern that asserts the verdicts of `inner`.
    pub fn new(inner: P) -> (r: Self)
        ensures
            r.spec_inner() == inner,
    {
        AssertPattern { inner }
    }
}

/// The working memory of an `AssertPattern`.
pub struct AssertPatternState<S> {
    inner_state: S,
    inner_queue: PQueue<bool>,
}

/// What an `AssertPatternState` holds.
pub struct AssertPatternModel<SV> {
    pub inner_state: SV,
    pub inner_queue: Seq<IdxValue<bool>>,
}

impl<S: View> View for AssertPatternState<S> {
    type V = AssertPatternModel<S::V>;

    closed spec fn view(&self) -> AssertPatternModel<S::V> {
        AssertPatternModel { inner_state: self.inner_state@, inner_queue: self.inner_queue@ }
    }
}

/// The asserted form of one interval: the same indices, a success where the
/// interval succeeded with `true`, a failure otherwise.
pub open spec fn asserted_one(iv: IdxValue<bool>) -> IdxValue<()> {
    IdxValue {
        start: iv.start,
        end: iv.end,
        result: match iv.result {
            PatternResult::Success(true) => PatternResult::Success(()),
            _ => PatternResult::Failure,
        },
    }
}

/// The asserted form of every interval of `ivs`.
pub open spec fn asserted(ivs: Seq<IdxValue<bool>>) -> Seq<IdxValue<()>> {
    Seq::new(ivs.len(), |i: int| asserted_one(ivs[i]))
}

impl<P> Pattern for AssertPattern<P> where P: Pattern<T = bool> {
    type State = AssertPatternState<P::State>;

    type Event = P::Event;

    type T = ();

    open spec fn wf(&self) -> bool {
        self.spec_inner().wf()
    }

    open spec fn spec_width(&self) -> Idx {
        self.spec_inner().spec_width()
    }

    open spec fn spec_initial(&self) -> AssertPatternModel<<P::State as View>::V> {
        AssertPatternModel {
            inner_state: self.spec_inner().spec_initial(),
            inner_queue: Seq::empty(),
        }
    }

    open spec fn inv(&self, state: AssertPatternModel<<P::State as View>::V>, next: int) -> bool {
        &&& self.spec_inner().inv(state.inner_state, next)
        &&& state.inner_queue.len() == 0
    }

    open spec fn frontier(
        &self,
        state: AssertPatternModel<<P::State as View>::V>,
        next: int,
    ) -> int {
        self.spec_inner().frontier(state.inner_state, next)
    }

    open spec fn emitted(
        &self,
        start_idx: Idx,
        events: Seq<P::Event>,
        state: AssertPatternModel<<P::State as View>::V>,
    ) -> Seq<IdxValue<()>> {
        asserted(
            join_all(
                state.inner_queue,
                self.spec_inner().emitted(start_idx, events, state.inner_state),
            ),
        )
    }

    open spec fn next_state(
        &self,
        start_idx: Idx,
        events: Seq<P::Event>,
        state: AssertPatternModel<<P::State as View>::V>,
    ) -> AssertPatternModel<<P::State as View>::V> {
        AssertPatternModel {
            inner_state: self.spec_inner().next_state(start_idx, events, state.inner_state),
            inner_queue: Seq::empty(),
        }
    }

    open spec fn defined(
        &self,
        start_idx: Idx,
        events: Seq<P::Event>,
        state: AssertPatternModel<<P::State as View>::V>,
    ) -> bool {
        self.spec_inner().defined(start_idx, events, state.inner_state)
    }

    proof fn lemma_frontier_bounds(
        &self,
        state: AssertPatternModel<<P::State as View>::V>,
        next: int,
    ) {
        self.spec_inner().lemma_frontier_bounds(state.inner_state, next);
    }

    proof fn lemma_emitted(
        &self,
        start_idx: Idx,
        events: Seq<P::Event>,
        state: AssertPatternModel<<P::State as View>::V>,
    ) {
        let inner = self.spec_inner();
        let lo = inner.frontier(state.inner_state, start_idx as int);
        let hi = inner.frontier(
            inner.next_state(start_idx, events, state.inner_state),
            start_idx + events.len(),
        );
        inner.lemma_emitted(start_idx, events, state.inner_state);
        lemma_join_all_ordered(
            state.inner_queue,
            inner.emitted(start_idx, events, state.inner_state),
            lo,
            lo,
            hi,
        );
        let drained = join_all(
            state.inner_queue,
            inner.emitted(start_idx, events, state.inner_state),
        );
        let em = asserted(drained);
        assert forall|i: int| 0 <= i < em.len() implies (#[trigger] em[i]).start <= em[i].end by {
            assert(drained[i].start <= drained[i].end);
        }
        assert forall|i: int, j: int| 0 <= i < j < em.len() implies (#[trigger] em[i]).end < (
        #[trigger] em[j]).start by {
            assert(drained[i].end < drained[j].start);
        }
        assert forall|i: int| 0 <= i < em.len() implies lo <= (#[trigger] em[i]).start
            && em[i].end < hi by {
            assert(lo <= drained[i].start && drained[i].end < hi);
        }
    }

    fn initial_state(&self) -> (state: Self::State) {
        AssertPatternState {
            inner_state: self.inner.initial_state(),
            inner_queue: PQueue::default(),
        }
    }

    fn apply(
        &self,
        start_idx: Idx,
        events: &[P::Event],
        queue: &mut PQueue<()>,
        state: &mut Self::State,
    ) {
        let ghost q0 = queue@;
        let ghost s0 = state@;
        let ghost lo = self.inner.frontier(s0.inner_state, start_idx as int);
        self.inner.apply(start_idx, events, &mut state.inner_queue, &mut state.inner_state);
        let ghost drained = state.inner_queue@;
        let ghost hi = self.inner.frontier(state@.inner_state, start_idx + events@.len());
        proof {
            self.lemma_emitted(start_idx, events@, s0);
        }
        let ghost n: int = 0;
        loop
            invariant
                0 <= n <= drained.len(),
                state.inner_queue@ == drained.subrange(n, drained.len() as int),
                state.inner_state@ == self.inner.next_state(start_idx, events@, s0.inner_state),
                queue@ == join_all(q0, asserted(drained).subrange(0, n)),
            ensures
                state.inner_queue@.len() == 0,
                state.inner_state@ == self.inner.next_state(start_idx, events@, s0.inner_state),
                queue@ == join_all(q0, asserted(drained)),
            decreases drained.len() - n,
        {
            match state.inner_queue.dequeue_option() {
                Some(iv) => {
                    let result = match iv.result {
                        PatternResult::Success(true) => PatternResult::Success(()),
                        _ => PatternResult::Failure,
                    };
                    proof {
                        assert(iv == drained[n]);
                        lemma_join_all_push(q0, asserted(drained).subrange(0, n), asserted_one(iv));
                        assert(asserted(drained).subrange(0, n).push(asserted_one(iv))
                            =~= asserted(drained).subrange(0, n + 1));
                        assert(drained.subrange(n, drained.len() as int).subrange(
                            1,
                            drained.len() - n,
                        ) =~= drained.subrange(n + 1, drained.len() as int));
                        n = n + 1;
                    }
                    queue.enqueue_joined(IdxValue::new(iv.start, iv.end, result));
                },
                None => {
                    proof {
                        assert(asserted(drained).subrange(0, n) =~= asserted(drained));
                    }
                    break ;
                },
            }
        }
        proof {
            let em = asserted(drained);
            assert(state@.inner_queue =~= Seq::<IdxValue<bool>>::empty());
            if coalesced(q0) {
                lemma_join_all_coalesced(q0, em);
            }
            if ordered(q0) && within(q0, 0, lo) {
                self.inner.lemma_frontier_bounds(s0.inner_state, start_idx as int);
                lemma_join_all_ordered(q0, em, 0, lo, hi);
            }
        }
    }

    fn width(&self) -> (w: Idx)
        ensures
            w == self.spec_inner().spec_width(),
    {
        self.inner.width()
    }
}

/// Whether the inner intervals were merged before they were asserted makes
/// no difference to the queue that the asserted intervals are appended to.
pub proof fn lemma_asserted_merged(q: Seq<IdxValue<()>>, ivs: Seq<IdxValue<bool>>)
    ensures
        join_all(q, asserted(join_all(Seq::<IdxValue<bool>>::empty(), ivs))) == join_all(
            q,
            asserted(ivs),
        ),
    decreases ivs.len(),
{
    let none = Seq::<IdxValue<bool>>::empty();
    if ivs.len() == 0 {
        assert(asserted(none) =~= asserted(ivs));
    } else {
        let front = ivs.drop_last();
        let y = ivs.last();
        let z = join_all(none, front);
        lemma_asserted_merged(q, front);
        assert(asserted(ivs) =~= asserted(front).push(asserted_one(y)));
        lemma_join_all_push(q, asserted(front), asserted_one(y));
        if z.len() > 0 && z.last().result == y.result {
            assert(asserted(joined(z, y)) =~= stretched(asserted(z), y.end));
            lemma_join_all_stretched(q, asserted(z), asserted_one(y));
        } else {
            assert(asserted(joined(z, y)) =~= asserted(z).push(asserted_one(y)));
            lemma_join_all_push(q, asserted(z), asserted_one(y));
        }
    }
}

/// An assert pattern classifies two batches, one after the other, as it
/// classifies the two as one batch, where its inner pattern does.
pub proof fn lemma_assert_additive<P: Pattern<T = bool>>(
    p: AssertPattern<P>,
    start_idx: Idx,
    a: Seq<P::Event>,
    b: Seq<P::Event>,
    state: AssertPatternModel<<P::State as View>::V>,
)
    requires
        p.inv(state, start_idx as int),
        additive(p.spec_inner(), start_idx, a, b, state.inner_state),
    ensures
        additive(p, start_idx, a, b, state),
{
    let inner = p.spec_inner();
    let none = Seq::<IdxValue<bool>>::empty();
    let then = (start_idx + a.len()) as Idx;
    let mid = p.next_state(start_idx, a, state);
    let ea = inner.emitted(start_idx, a, state.inner_state);
    let eb = inner.emitted(then, b, mid.inner_state);
    let eab = inner.emitted(start_idx, a + b, state.inner_state);
    assert(state.inner_queue =~= none);
    assert(mid.inner_queue =~= none);
    assert(join_all(join_all(none, ea), eb) == join_all(none, eab));
    lemma_join_all_concat(none, ea, eb);
    assert forall|q: Seq<IdxValue<()>>|
        join_all(join_all(q, p.emitted(start_idx, a, state)), p.emitted(then, b, mid))
            == #[trigger] join_all(q, p.emitted(start_idx, a + b, state)) by {
        let q1 = join_all(q, p.emitted(start_idx, a, state));
        lemma_asserted_merged(q, ea);
        lemma_asserted_merged(q1, eb);
        lemma_asserted_merged(q, ea + eb);
        lemma_join_all_concat(q, asserted(ea), asserted(eb));
        assert(asserted(ea + eb) =~= asserted(ea) + asserted(eb));
    }
}

/// An assert pattern takes two batches as one, always, where its inner
/// pattern does.
pub proof fn lemma_assert_always_additive<P: Pattern<T = bool>>(p: AssertPattern<P>)
    requires
        always_additive(p.spec_inner()),
    ensures
        always_additive(p),
{
    assert forall|
        start_idx: Idx,
        a: Seq<P::Event>,
        b: Seq<P::Event>,
        state: AssertPatternModel<<P::State as View>::V>,
    |
        p.inv(state, start_idx as int) && start_idx + a.len() + b.len() + p.spec_width()
            <= u64::MAX implies #[trigger] additive(p, start_idx, a, b, state) by {
        assert(additive(p.spec_inner(), start_idx, a, b, state.inner_state));
        lemma_assert_additive(p, start_idx, a, b, state);
    }
}

/// Asserting classifies exactly the indices that the inner queue
/// classifies: a success where the inner verdict is a success with `true`, a
/// failure everywhere else.
pub proof fn lemma_asserted_pointwise(ivs: Seq<IdxValue<bool>>, i: int)
    ensures
        verdict_at(asserted(ivs), i) == match verdict_at(ivs, i) {
            Some(PatternResult::Success(true)) => Some(PatternResult::Success(())),
            Some(_) => Some(PatternResult::Failure),
            None => None,
        },
    decreases ivs.len(),
{
    if ivs.len() > 0 {
        assert(asserted(ivs).drop_first() =~= asserted(ivs.drop_first()));
        lemma_asserted_pointwise(ivs.drop_first(), i);
    }
}

} // verus!
