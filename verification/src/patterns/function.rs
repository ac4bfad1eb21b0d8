//! The pattern that classifies each event by a function of it.

use std::marker::PhantomData;
use vstd::prelude::*;

use crate::datum::Datum;
use crate::pattern::{additive, always_additive, Pattern};
use crate::patterns::common::{has_value, is_function, value_of, NoState};
use crate::queue::{
    coalesced, join_all, lemma_join_all_coalesced, lemma_join_all_concat,
    lemma_join_all_ordered, ordered, within, Idx, IdxValue, PQueue, PatternResult,
};

verus! {

/// Classifies every event as a success that carries `func` of the event.
pub struct FunctionPattern<E, F, T> {
    func: F,
    phantom: PhantomData<(E, T)>,
}

impl<E, F, T> FunctionPattern<E, F, T> where F: Fn(&E) -> T {
    /// The function that the pattern applies.
    pub closed spec fn spec_func(&self) -> F {
        self.func
    }

    /// Makes the pattern that classifies by `func`.
    pub fn new(func: F) -> (r: Self)
        ensures
            r.spec_func() == func,
    {
        FunctionPattern { func, phantom: PhantomData }
    }
}

impl<E, F: Clone, T> Clone for FunctionPattern<E, F, T> {
    fn clone(&self) -> Self {
        FunctionPattern { func: self.func.clone(), phantom: PhantomData }
    }
}

/// The interval that a function pattern hands out for the event at `idx`.
pub open spec fn singleton<E, F: Fn(&E) -> T, T>(f: F, idx: int, e: E) -> IdxValue<T> {
    IdxValue { start: idx as Idx, end: idx as Idx, result: PatternResult::Success(value_of(f, e)) }
}

impl<E, F, T: Datum> Pattern for FunctionPattern<E, F, T> where F: Fn(&E) -> T {
    type State = NoState;

    type Event = E;

    type T = T;

    open spec fn wf(&self) -> bool {
        is_function(self.spec_func())
    }

    open spec fn spec_width(&self) -> Idx {
        0
    }

    open spec fn spec_initial(&self) -> () {
        ()
    }

    open spec fn inv(&self, state: (), next: int) -> bool {
        0 <= next
    }

    open spec fn frontier(&self, state: (), next: int) -> int {
        next
    }

    open spec fn emitted(&self, start_idx: Idx, events: Seq<E>, state: ()) -> Seq<IdxValue<T>> {
        Seq::new(events.len(), |k: int| singleton(self.spec_func(), start_idx + k, events[k]))
    }

    open spec fn next_state(&self, start_idx: Idx, events: Seq<E>, state: ()) -> () {
        ()
    }

    open spec fn defined(&self, start_idx: Idx, events: Seq<E>, state: ()) -> bool {
        forall|k: int| 0 <= k < events.len() ==> has_value(self.spec_func(), #[trigger] events[k])
    }

    proof fn lemma_frontier_bounds(&self, state: (), next: int) {
    }

    proof fn lemma_emitted(&self, start_idx: Idx, events: Seq<E>, state: ()) {
    }

    fn initial_state(&self) -> (state: NoState) {
        NoState
    }

    fn apply(&self, start_idx: Idx, events: &[E], queue: &mut PQueue<T>, state: &mut NoState) {
        let ghost q0 = queue@;
        let ghost em = self.emitted(start_idx, events@, ());
        let mut k: usize = 0;
        while k < events.len()
            invariant
                k <= events@.len(),
                self.wf(),
                start_idx + events@.len() <= u64::MAX,
                em == self.emitted(start_idx, events@, ()),
                queue@ == join_all(q0, em.subrange(0, k as int)),
                forall|j: int| 0 <= j < k ==> has_value(self.spec_func(), #[trigger] events@[j]),
            decreases events@.len() - k,
        {
            let idx: Idx = start_idx + k as Idx;
            let value = (self.func)(&events[k]);
            proof {
                assert(em.subrange(0, k + 1).drop_last() =~= em.subrange(0, k as int));
                assert(em.subrange(0, k + 1).last() == em[k as int]);
            }
            queue.enqueue_joined(IdxValue::new(idx, idx, PatternResult::Success(value)));
            k += 1;
        }
        proof {
            assert(em.subrange(0, k as int) =~= em);
            if coalesced(q0) {
                lemma_join_all_coalesced(q0, em);
            }
            if ordered(q0) && within(q0, 0, start_idx as int) {
                lemma_join_all_ordered(q0, em, 0, start_idx as int, start_idx + events@.len());
            }
        }
    }

    fn width(&self) -> (w: Idx)
        ensures
            w == 0,
    {
        0
    }
}

/// A function pattern classifies two batches, one after the other, as it
/// classifies the two as one batch.
pub proof fn lemma_function_additive<E, F: Fn(&E) -> T, T: Datum>(
    p: FunctionPattern<E, F, T>,
    start_idx: Idx,
    a: Seq<E>,
    b: Seq<E>,
)
    requires
        start_idx + a.len() + b.len() <= u64::MAX,
    ensures
        additive(p, start_idx, a, b, ()),
{
    let then = (start_idx + a.len()) as Idx;
    let ea = p.emitted(start_idx, a, ());
    let eb = p.emitted(then, b, ());
    let eab = p.emitted(start_idx, a + b, ());
    assert(eab =~= ea + eb);
    assert forall|q: Seq<IdxValue<T>>| join_all(join_all(q, ea), eb) == #[trigger] join_all(
        q,
        eab,
    ) by {
        lemma_join_all_concat(q, ea, eb);
    }
}

/// A function pattern takes two batches as one, always.
pub proof fn lemma_function_always_additive<E, F: Fn(&E) -> T, T: Datum>(
    p: FunctionPattern<E, F, T>,
)
    ensures
        always_additive(p),
{
    assert forall|start_idx: Idx, a: Seq<E>, b: Seq<E>, state: ()|
        p.inv(state, start_idx as int) && start_idx + a.len() + b.len() + p.spec_width()
            <= u64::MAX implies #[trigger] additive(p, start_idx, a, b, state) by {
        lemma_function_additive(p, start_idx, a, b);
    }
}

} // verus!
