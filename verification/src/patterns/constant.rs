//! The pattern that gives every event the same verdict.

use std::marker::PhantomData;
use vstd::prelude::*;

use crate::datum::Datum;
use crate::pattern::{additive, always_additive, Pattern};
use crate::patterns::common::NoState;
use crate::queue::{
    coalesced, join_all, joined, lemma_join_all_coalesced, lemma_join_all_ordered, ordered,
    within, Idx, IdxValue, PQueue, PatternResult,
};

verus! {

/// Classifies every event with one fixed verdict.
pub struct ConstantPattern<E, T> {
    value: PatternResult<T>,
    phantom: PhantomData<E>,
}

impl<E, T> ConstantPattern<E, T> {
    /// The verdict that the pattern gives.
    pub closed spec fn spec_value(&self) -> PatternResult<T> {
        self.value
    }

    /// Makes the pattern that gives the verdict `value`.
    pub fn new(value: PatternResult<T>) -> (r: Self)
        ensures
            r.spec_value() == value,
    {
        ConstantPattern { value, phantom: PhantomData }
    }
}

impl<E, T: Datum> Clone for ConstantPattern<E, T> {
    fn clone(&self) -> (r: Self)
        ensures
            r.spec_value() == self.spec_value(),
    {
        ConstantPattern { value: self.value.duplicate(), phantom: PhantomData }
    }
}

impl<E, T: Datum> Pattern for ConstantPattern<E, T> {
    type State = NoState;

    type Event = E;

    type T = T;

    open spec fn wf(&self) -> bool {
        true
    }

    open spec fn spec_width(&self) -> Idx {
        0
    }

    open spec fn spec_initial(&self) -> () {
        ()
    }

    open spec fn inv(&self, state: (), next: int) -> bool {
        0 <= next
    }

    open spec fn frontier(&self, state: (), next: int) -> int {
        next
    }

    open spec fn emitted(&self, start_idx: Idx, events: Seq<E>, state: ()) -> Seq<IdxValue<T>> {
        if events.len() == 0 {
            seq![]
        } else {
            seq![
                IdxValue {
                    start: start_idx,
                    end: (start_idx + events.len() - 1) as Idx,
                    result: self.spec_value(),
                },
            ]
        }
    }

    open spec fn next_state(&self, start_idx: Idx, events: Seq<E>, state: ()) -> () {
        ()
    }

    open spec fn defined(&self, start_idx: Idx, events: Seq<E>, state: ()) -> bool {
        true
    }

    proof fn lemma_frontier_bounds(&self, state: (), next: int) {
    }

    proof fn lemma_emitted(&self, start_idx: Idx, events: Seq<E>, state: ()) {
    }

    fn initial_state(&self) -> (state: NoState) {
        NoState
    }

    fn apply(&self, start_idx: Idx, events: &[E], queue: &mut PQueue<T>, state: &mut NoState) {
        if events.len() > 0 {
            let end: Idx = start_idx + (events.len() as Idx - 1);
            let iv = IdxValue::new(start_idx, end, self.value.duplicate());
            proof {
                let em = self.emitted(start_idx, events@, ());
                assert(em.drop_last() =~= Seq::<IdxValue<T>>::empty());
                assert(em.last() == iv);
                reveal_with_fuel(join_all, 2);
                if coalesced(queue@) {
                    lemma_join_all_coalesced(queue@, em);
                }
                if ordered(queue@) && within(queue@, 0, start_idx as int) {
                    lemma_join_all_ordered(
                        queue@,
                        em,
                        0,
                        start_idx as int,
                        start_idx + events@.len(),
                    );
                }
            }
            queue.enqueue_joined(iv);
        }
    }

    fn width(&self) -> (w: Idx)
        ensures
            w == 0,
    {
        0
    }
}

/// A constant pattern classifies two batches, one after the other, as it
/// classifies the two as one batch.
pub proof fn lemma_constant_additive<E, T: Datum>(
    p: ConstantPattern<E, T>,
    start_idx: Idx,
    a: Seq<E>,
    b: Seq<E>,
)
    requires
        start_idx + a.len() + b.len() <= u64::MAX,
    ensures
        additive(p, start_idx, a, b, ()),
{
    let then = (start_idx + a.len()) as Idx;
    let ea = p.emitted(start_idx, a, ());
    let eb = p.emitted(then, b, ());
    let eab = p.emitted(start_idx, a + b, ());
    assert forall|q: Seq<IdxValue<T>>| join_all(join_all(q, ea), eb) == #[trigger] join_all(
        q,
        eab,
    ) by {
        reveal_with_fuel(join_all, 2);
        if a.len() == 0 {
            assert(a + b =~= b);
            assert(ea.len() == 0);
        } else if b.len() == 0 {
            assert(a + b =~= a);
            assert(eb.len() == 0);
        } else {
            assert(ea.drop_last() =~= Seq::<IdxValue<T>>::empty());
            assert(eb.drop_last() =~= Seq::<IdxValue<T>>::empty());
            assert(eab.drop_last() =~= Seq::<IdxValue<T>>::empty());
            assert(join_all(q, ea) == joined(q, ea[0]));
            assert(join_all(join_all(q, ea), eb) == joined(joined(q, ea[0]), eb[0]));
            assert(join_all(q, eab) == joined(q, eab[0]));
            assert(joined(joined(q, ea[0]), eb[0]) =~= joined(q, eab[0]));
        }
    }
}

/// A constant pattern takes two batches as one, always.
pub proof fn lemma_constant_always_additive<E, T: Datum>(p: ConstantPattern<E, T>)
    ensures
        always_additive(p),
{
    assert forall|start_idx: Idx, a: Seq<E>, b: Seq<E>, state: ()|
        p.inv(state, start_idx as int) && start_idx + a.len() + b.len() + p.spec_width()
            <= u64::MAX implies #[trigger] additive(p, start_idx, a, b, state) by {
        lemma_constant_additive(p, start_idx, a, b);
    }
}

} // verus!
