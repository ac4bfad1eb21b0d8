//! The projection interface and the three projections that come with it.

use std::collections::VecDeque;
use std::marker::PhantomData;
use vstd::prelude::*;

use crate::datum::Datum;
use crate::patterns::common::{has_value, is_function, value_of};
use crate::queue::Idx;

verus! {

/// The stage that turns an interval into a value for the user.
///
/// A projection sees every batch of a stream, in order, through `update`, and
/// is asked through `extract` for the value of an interval. Intervals are
/// asked for in rising order: once an interval was asked for, nothing at or
/// before its end is asked for again.
pub trait Projection {
    type Event;

    type State: View;

    type T;

    /// The projection is usable.
    spec fn wf(&self) -> bool;

    /// The state before the first batch.
    spec fn spec_initial(&self) -> <Self::State as View>::V;

    /// What holds of a state when the next event to arrive has index `next`.
    spec fn inv(&self, state: <Self::State as View>::V, next: int) -> bool;

    /// The least index that can still be asked for.
    spec fn served(&self, state: <Self::State as View>::V) -> int;

    /// Whether the interval from `start` to `end` can be asked for.
    spec fn extractable(&self, state: <Self::State as View>::V, start: Idx, end: Idx) -> bool;

    /// The state after one batch.
    spec fn updated(
        &self,
        start_idx: Idx,
        events: Seq<Self::Event>,
        state: <Self::State as View>::V,
    ) -> <Self::State as View>::V;

    /// The value of the interval from `start` to `end`.
    spec fn extracted(&self, state: <Self::State as View>::V, start: Idx, end: Idx) -> Self::T;

    /// The state after the interval from `start` to `end` was asked for.
    spec fn after_extract(
        &self,
        state: <Self::State as View>::V,
        start: Idx,
        end: Idx,
    ) -> <Self::State as View>::V;

    /// Every function that the projection holds has a result for each
    /// argument that `updated` gives it for this batch.
    spec fn defined(&self, events: Seq<Self::Event>) -> bool;

    /// Every interval between what was served and what is to come can be
    /// asked for.
    proof fn lemma_extractable(
        &self,
        state: <Self::State as View>::V,
        next: int,
        start: Idx,
        end: Idx,
    )
        requires
            self.wf(),
            self.inv(state, next),
            self.served(state) <= start <= end < next,
        ensures
            self.extractable(state, start, end),
    ;

    /// Asking for an interval keeps the state as the batches left it, and
    /// moves what was served to just after the interval, or less far.
    proof fn lemma_after_extract(
        &self,
        state: <Self::State as View>::V,
        next: int,
        start: Idx,
        end: Idx,
    )
        requires
            self.wf(),
            self.inv(state, next),
            self.extractable(state, start, end),
        ensures
            self.inv(self.after_extract(state, start, end), next),
            self.served(self.after_extract(state, start, end)) <= end + 1,
    ;

    /// Makes the state for a stream whose first event has index 0.
    fn initial_state(&self) -> (state: Self::State)
        requires
            self.wf(),
        ensures
            state@ == self.spec_initial(),
            self.inv(state@, 0),
            self.served(state@) <= 0,
    ;

    /// Takes in one batch whose first event has index `start_idx`.
    fn update(&self, start_idx: Idx, events: &[Self::Event], state: &mut Self::State)
        requires
            self.wf(),
            self.inv(old(state)@, start_idx as int),
            start_idx + events@.len() <= u64::MAX,
        ensures
            final(state)@ == self.updated(start_idx, events@, old(state)@),
            self.defined(events@),
            self.inv(final(state)@, start_idx + events@.len()),
            self.served(final(state)@) == self.served(old(state)@),
    ;

    /// Returns the value of the interval from `start` to `end`.
    fn extract(&self, state: &mut Self::State, start: Idx, end: Idx) -> (value: Self::T)
        requires
            self.wf(),
            self.extractable(old(state)@, start, end),
        ensures
            value == self.extracted(old(state)@, start, end),
            final(state)@ == self.after_extract(old(state)@, start, end),
    ;
}

/// Gives every interval the same value.
pub struct ConstantProjection<E, T>(T, PhantomData<E>);

/// The state of a projection that remembers nothing.
#[derive(Default, Debug, PartialEq)]
pub struct NoProjectionState;

impl View for NoProjectionState {
    type V = ();

    open spec fn view(&self) -> () {
        ()
    }
}

impl<E, T> ConstantProjection<E, T> {
    /// The value that the projection gives.
    pub closed spec fn spec_value(&self) -> T {
        self.0
    }

    /// Makes the projection that gives `t`.
    pub fn new(t: T) -> (r: Self)
        ensures
            r.spec_value() == t,
    {
        ConstantProjection(t, PhantomData)
    }
}

impl<E, T: Datum> Projection for ConstantProjection<E, T> {
    type Event = E;

    type State = NoProjectionState;

    type T = T;

    open spec fn wf(&self) -> bool {
        true
    }

    open spec fn spec_initial(&self) -> () {
        ()
    }

    open spec fn inv(&self, state: (), next: int) -> bool {
        true
    }

    open spec fn served(&self, state: ()) -> int {
        0
    }

    open spec fn extractable(&self, state: (), start: Idx, end: Idx) -> bool {
        true
    }

    open spec fn updated(&self, start_idx: Idx, events: Seq<E>, state: ()) -> () {
        ()
    }

    open spec fn defined(&self, events: Seq<E>) -> bool {
        true
    }

    open spec fn extracted(&self, state: (), start: Idx, end: Idx) -> T {
        self.spec_value()
    }

    open spec fn after_extract(&self, state: (), start: Idx, end: Idx) -> () {
        ()
    }

    proof fn lemma_extractable(&self, state: (), next: int, start: Idx, end: Idx) {
    }

    proof fn lemma_after_extract(&self, state: (), next: int, start: Idx, end: Idx) {
    }

    fn initial_state(&self) -> (state: NoProjectionState) {
        NoProjectionState
    }

    fn update(&self, _start_idx: Idx, _events: &[E], _state: &mut NoProjectionState) {
    }

    fn extract(&self, _state: &mut NoProjectionState, _start: Idx, _end: Idx) -> (value: T) {
        self.0.duplicate()
    }
}

/// The state of a projection that keeps one value for every event that was
/// not asked for yet.
#[derive(Debug, PartialEq)]
pub struct QueueProjectionState<T> {
    queue: VecDeque<T>,
    first_idx: Idx,
}

/// What a `QueueProjectionState` holds: the values kept, and the index of the
/// event that the first of them belongs to.
pub struct QueueProjectionModel<T> {
    pub queue: Seq<T>,
    pub first_idx: Idx,
}

impl<T> View for QueueProjectionState<T> {
    type V = QueueProjectionModel<T>;

    closed spec fn view(&self) -> QueueProjectionModel<T> {
        QueueProjectionModel { queue: self.queue@, first_idx: self.first_idx }
    }
}

impl<T> Default for QueueProjectionState<T> {
    fn default() -> (r: Self)
        ensures
            r@ == (QueueProjectionModel { queue: Seq::<T>::empty(), first_idx: 0 }),
    {
        QueueProjectionState { queue: VecDeque::new(), first_idx: 0 }
    }
}

impl<T> QueueProjectionState<T> {
    /// The index of the event that the first value kept belongs to.
    pub fn first_idx(&self) -> (r: Idx)
        ensures
            r == self@.first_idx,
    {
        self.first_idx
    }

    /// The number of values kept.
    pub fn len(&self) -> (r: usize)
        ensures
            r == self@.queue.len(),
    {
        self.queue.len()
    }

    /// Whether no value is kept.
    pub fn is_empty(&self) -> (r: bool)
        ensures
            r == (self@.queue.len() == 0),
    {
        self.queue.len() == 0
    }

    /// Appends `func` of every event of `events`.
    fn absorb<E, F: Fn(&E) -> T>(&mut self, func: &F, events: &[E])
        requires
            is_function(*func),
        ensures
            final(self)@ == queue_updated(*func, events@, old(self)@),
            forall|k: int| 0 <= k < events@.len() ==> has_value(*func, #[trigger] events@[k]),
    {
        let ghost q0 = self.queue@;
        let mut k: usize = 0;
        while k < events.len()
            invariant
                k <= events@.len(),
                is_function(*func),
                self.first_idx == old(self).first_idx,
                self.queue@ == q0 + Seq::new(k as nat, |i: int| value_of(*func, events@[i])),
                forall|j: int| 0 <= j < k ==> has_value(*func, #[trigger] events@[j]),
            decreases events@.len() - k,
        {
            let value = func(&events[k]);
            proof {
                assert(q0 + Seq::new((k + 1) as nat, |i: int| value_of(*func, events@[i])) =~= (q0
                    + Seq::new(k as nat, |i: int| value_of(*func, events@[i]))).push(value));
            }
            self.queue.push_back(value);
            k += 1;
        }
    }

    /// Removes the first `n` values.
    fn discard(&mut self, n: u64)
        requires
            n <= old(self)@.queue.len(),
        ensures
            final(self)@.queue == old(self)@.queue.skip(n as int),
            final(self)@.first_idx == old(self)@.first_idx,
    {
        let ghost q0 = self.queue@;
        let mut k: u64 = 0;
        proof {
            assert(q0.skip(0) =~= q0);
        }
        while k < n
            invariant
                k <= n <= q0.len(),
                self.first_idx == old(self).first_idx,
                self.queue@ == q0.skip(k as int),
            decreases n - k,
        {
            self.queue.pop_front();
            proof {
                assert(q0.skip(k as int).subrange(1, q0.len() - k) =~= q0.skip(k + 1));
            }
            k += 1;
        }
    }
}

/// Whether a state that keeps one value per event can be asked for the
/// interval from `start` to `end`: it keeps a value for every index of it.
pub open spec fn queue_extractable<T>(
    state: QueueProjectionModel<T>,
    start: Idx,
    end: Idx,
) -> bool {
    &&& state.first_idx <= start <= end
    &&& end < state.first_idx + state.queue.len() <= u64::MAX
}

/// The state after the values of `func` for `events` were appended.
pub open spec fn queue_updated<E, T, F: Fn(&E) -> T>(
    func: F,
    events: Seq<E>,
    state: QueueProjectionModel<T>,
) -> QueueProjectionModel<T> {
    QueueProjectionModel {
        queue: state.queue + Seq::new(events.len(), |i: int| value_of(func, events[i])),
        first_idx: state.first_idx,
    }
}

/// The state after everything up to `end` was dropped.
pub open spec fn queue_drained<T>(state: QueueProjectionModel<T>, end: Idx) -> QueueProjectionModel<
    T,
> {
    QueueProjectionModel {
        queue: state.queue.skip(end - state.first_idx + 1),
        first_idx: (end + 1) as Idx,
    }
}

/// Returns the value kept for `start`, and drops everything up to `end`.
pub fn first<T>(state: &mut QueueProjectionState<T>, start: u64, end: u64) -> (value: T)
    requires
        queue_extractable(old(state)@, start, end),
    ensures
        value == old(state)@.queue[start - old(state)@.first_idx],
        final(state)@ == queue_drained(old(state)@, end),
{
    let ghost s0 = state@;
    state.discard(start - state.first_idx);
    let value = state.queue.pop_front().unwrap();
    state.discard(end - start);
    state.first_idx = end + 1;
    proof {
        let a = start - s0.first_idx;
        assert(s0.queue.skip(a).subrange(1, s0.queue.len() - a).skip(end - start)
            =~= s0.queue.skip(end - s0.first_idx + 1));
    }
    value
}

/// Returns the value kept for `end`, and drops everything up to `end`.
pub fn last<T>(state: &mut QueueProjectionState<T>, start: u64, end: u64) -> (value: T)
    requires
        queue_extractable(old(state)@, start, end),
    ensures
        value == old(state)@.queue[end - old(state)@.first_idx],
        final(state)@ == queue_drained(old(state)@, end),
{
    let ghost s0 = state@;
    state.discard(end - state.first_idx);
    let value = state.queue.pop_front().unwrap();
    state.first_idx = end + 1;
    proof {
        let a = end - s0.first_idx;
        assert(s0.queue.skip(a).subrange(1, s0.queue.len() - a) =~= s0.queue.skip(a + 1));
    }
    value
}

/// Gives every interval `func` of its first event.
pub struct FirstProjection<E, F, T>(F, PhantomData<E>, PhantomData<T>);

impl<E, F, T> FirstProjection<E, F, T> where F: Fn(&E) -> T {
    /// The function that gives an event's value.
    pub closed spec fn spec_func(&self) -> F {
        self.0
    }

    /// Makes the projection that gives `field0` of an interval's first event.
    pub fn new(field0: F) -> (r: Self)
        ensures
            r.spec_func() == field0,
    {
        FirstProjection(field0, PhantomData, PhantomData)
    }
}

impl<E, F: Fn(&E) -> T, T> Projection for FirstProjection<E, F, T> {
    type Event = E;

    type State = QueueProjectionState<T>;

    type T = T;

    open spec fn wf(&self) -> bool {
        is_function(self.spec_func())
    }

    open spec fn spec_initial(&self) -> QueueProjectionModel<T> {
        QueueProjectionModel { queue: Seq::<T>::empty(), first_idx: 0 }
    }

    open spec fn inv(&self, state: QueueProjectionModel<T>, next: int) -> bool {
        state.first_idx + state.queue.len() == next <= u64::MAX
    }

    open spec fn served(&self, state: QueueProjectionModel<T>) -> int {
        state.first_idx as int
    }

    open spec fn extractable(&self, state: QueueProjectionModel<T>, start: Idx, end: Idx) -> bool {
        queue_extractable(state, start, end)
    }

    open spec fn updated(
        &self,
        start_idx: Idx,
        events: Seq<E>,
        state: QueueProjectionModel<T>,
    ) -> QueueProjectionModel<T> {
        queue_updated(self.spec_func(), events, state)
    }

    open spec fn defined(&self, events: Seq<E>) -> bool {
        forall|k: int| 0 <= k < events.len() ==> has_value(self.spec_func(), #[trigger] events[k])
    }

    open spec fn extracted(&self, state: QueueProjectionModel<T>, start: Idx, end: Idx) -> T {
        state.queue[start - state.first_idx]
    }

    open spec fn after_extract(
        &self,
        state: QueueProjectionModel<T>,
        start: Idx,
        end: Idx,
    ) -> QueueProjectionModel<T> {
        queue_drained(state, end)
    }

    proof fn lemma_extractable(
        &self,
        state: QueueProjectionModel<T>,
        next: int,
        start: Idx,
        end: Idx,
    ) {
    }

    proof fn lemma_after_extract(
        &self,
        state: QueueProjectionModel<T>,
        next: int,
        start: Idx,
        end: Idx,
    ) {
    }

    fn initial_state(&self) -> (state: QueueProjectionState<T>) {
        QueueProjectionState::default()
    }

    fn update(&self, _start_idx: Idx, events: &[E], state: &mut QueueProjectionState<T>) {
        state.absorb(&self.0, events);
    }

    fn extract(&self, state: &mut QueueProjectionState<T>, start: u64, end: u64) -> (value: T) {
        first(state, start, end)
    }
}

/// Gives every interval `func` of its last event.
pub struct LastProjection<E, F, T>(F, PhantomData<E>, PhantomData<T>);

impl<E, F, T> LastProjection<E, F, T> where F: Fn(&E) -> T {
    /// The function that gives an event's value.
    pub closed spec fn spec_func(&self) -> F {
        self.0
    }

    /// Makes the projection that gives `field0` of an interval's last event.
    pub fn new(field0: F) -> (r: Self)
        ensures
            r.spec_func() == field0,
    {
        LastProjection(field0, PhantomData, PhantomData)
    }
}

impl<E, F: Fn(&E) -> T, T> Projection for LastProjection<E, F, T> {
    type Event = E;

    type State = QueueProjectionState<T>;

    type T = T;

    open spec fn wf(&self) -> bool {
        is_function(self.spec_func())
    }

    open spec fn spec_initial(&self) -> QueueProjectionModel<T> {
        QueueProjectionModel { queue: Seq::<T>::empty(), first_idx: 0 }
    }

    open spec fn inv(&self, state: QueueProjectionModel<T>, next: int) -> bool {
        state.first_idx + state.queue.len() == next <= u64::MAX
    }

    open spec fn served(&self, state: QueueProjectionModel<T>) -> int {
        state.first_idx as int
    }

    open spec fn extractable(&self, state: QueueProjectionModel<T>, start: Idx, end: Idx) -> bool {
        queue_extractable(state, start, end)
    }

    open spec fn updated(
        &self,
        start_idx: Idx,
        events: Seq<E>,
        state: QueueProjectionModel<T>,
    ) -> QueueProjectionModel<T> {
        queue_updated(self.spec_func(), events, state)
    }

    open spec fn defined(&self, events: Seq<E>) -> bool {
        forall|k: int| 0 <= k < events.len() ==> has_value(self.spec_func(), #[trigger] events[k])
    }

    open spec fn extracted(&self, state: QueueProjectionModel<T>, start: Idx, end: Idx) -> T {
        state.queue[end - state.first_idx]
    }

    open spec fn after_extract(
        &self,
        state: QueueProjectionModel<T>,
        start: Idx,
        end: Idx,
    ) -> QueueProjectionModel<T> {
        queue_drained(state, end)
    }

    proof fn lemma_extractable(
        &self,
        state: QueueProjectionModel<T>,
        next: int,
        start: Idx,
        end: Idx,
    ) {
    }

    proof fn lemma_after_extract(
        &self,
        state: QueueProjectionModel<T>,
        next: int,
        start: Idx,
        end: Idx,
    ) {
    }

    fn initial_state(&self) -> (state: QueueProjectionState<T>) {
        QueueProjectionState::default()
    }

    fn update(&self, _start_idx: Idx, events: &[E], state: &mut QueueProjectionState<T>) {
        state.absorb(&self.0, events);
    }

    fn extract(&self, state: &mut QueueProjectionState<T>, start: u64, end: u64) -> (value: T) {
        last(state, start, end)
    }
}

} // verus!
