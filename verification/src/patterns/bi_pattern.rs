//! The pattern that combines the verdicts of two patterns index by index.

use vstd::prelude::*;

use crate::datum::Datum;
use crate::pattern::Pattern;
use crate::patterns::common::{has_value2, is_function2, value_of2};
use crate::queue::{
    beheaded, coalesced, join_all, lemma_beheaded_ordered, lemma_join_all_coalesced,
    lemma_join_all_low, lemma_join_all_ordered, lemma_join_all_push, lemma_rewound_head,
    lemma_rewound_ordered, lemma_rewound_shape, lemma_rewound_within, lemma_verdict_before,
    lemma_verdict_beheaded, lemma_verdict_concat, lemma_verdict_rewound, low, ordered, rewound,
    verdict_at, within, Idx, IdxValue, PQueue, PatternResult,
};

verus! {

/// Succeeds with `func` of the two payloads wherever both sub-patterns
/// succeed, and fails wherever both have classified and one has failed.
///
/// The queue of a sub-pattern merges intervals with one verdict even where an
/// index between them was left open. Where that happens, what the pattern
/// hands out depends on how the stream was cut into batches: an interval that
/// has left the queue cannot be merged any more.
#[derive(Clone)]
pub struct BiPattern<L, R, F> {
    left: L,
    right: R,
    func: F,
}

/// The verdict of a `BiPattern` with the function `f` where its sub-patterns
/// gave `l` and `r`.
pub open spec fn combined<T1, T2, T3, F: Fn(&T1, &T2) -> T3>(
    f: F,
    l: PatternResult<T1>,
    r: PatternResult<T2>,
) -> PatternResult<T3> {
    match (l, r) {
        (PatternResult::Success(a), PatternResult::Success(b)) => PatternResult::Success(
            value_of2(f, a, b),
        ),
        _ => PatternResult::Failure,
    }
}

/// The function `f` has a result for the payloads of `l` and `r`, where both
/// are successes.
pub open spec fn combinable<T1, T2, T3, F: Fn(&T1, &T2) -> T3>(
    f: F,
    l: PatternResult<T1>,
    r: PatternResult<T2>,
) -> bool {
    match (l, r) {
        (PatternResult::Success(a), PatternResult::Success(b)) => has_value2(f, a, b),
        _ => true,
    }
}

impl<L, R, F> BiPattern<L, R, F> {
    /// The first sub-pattern.
    pub closed spec fn spec_left(&self) -> L {
        self.left
    }

    /// The second sub-pattern.
    pub closed spec fn spec_right(&self) -> R {
        self.right
    }

    /// The function that combines two payloads.
    pub closed spec fn spec_func(&self) -> F {
        self.func
    }

    /// Makes the pattern that combines `left` and `right` by `func`.
    pub fn new(left: L, right: R, func: F) -> (r: Self)
        ensures
            r.spec_left() == left,
            r.spec_right() == right,
            r.spec_func() == func,
    {
        BiPattern { left, right, func }
    }

}

impl<L, T1, R, T2, F, T3> BiPattern<L, R, F> where
    L: Pattern<T = T1>,
    R: Pattern<T = T2>,
    F: Fn(&T1, &T2) -> T3,
 {
    /// Combines two verdicts.
    pub fn apply_func(&self, l: &PatternResult<T1>, r: &PatternResult<T2>) -> (res: PatternResult<
        T3,
    >)
        requires
            is_function2(self.spec_func()),
        ensures
            res == combined(self.spec_func(), *l, *r),
            combinable(self.spec_func(), *l, *r),
    {
        match (l, r) {
            (PatternResult::Success(lt), PatternResult::Success(rt)) => {
                PatternResult::Success((self.func)(lt, rt))
            },
            _ => PatternResult::Failure,
        }
    }
}

/// The working memory of a `BiPattern`: the states of its sub-patterns, and
/// what each has classified that the other has not reached yet.
pub struct BiPatternState<S1, T1, S2, T2> {
    left: S1,
    right: S2,
    left_queue: PQueue<T1>,
    right_queue: PQueue<T2>,
}

/// What a `BiPatternState` holds.
pub struct BiPatternModel<S1V, T1, S2V, T2> {
    pub left: S1V,
    pub right: S2V,
    pub left_queue: Seq<IdxValue<T1>>,
    pub right_queue: Seq<IdxValue<T2>>,
}

impl<S1: View, T1, S2: View, T2> View for BiPatternState<S1, T1, S2, T2> {
    type V = BiPatternModel<S1::V, T1, S2::V, T2>;

    closed spec fn view(&self) -> BiPatternModel<S1::V, T1, S2::V, T2> {
        BiPatternModel {
            left: self.left@,
            right: self.right@,
            left_queue: self.left_queue@,
            right_queue: self.right_queue@,
        }
    }
}

impl<S1: View, T1, S2: View, T2> BiPatternState<S1, T1, S2, T2> {
    /// Makes the state from the states of the two sub-patterns, with nothing
    /// classified yet.
    pub fn new(left: S1, right: S2) -> (r: Self)
        ensures
            r@ == (BiPatternModel {
                left: left@,
                right: right@,
                left_queue: Seq::<IdxValue<T1>>::empty(),
                right_queue: Seq::<IdxValue<T2>>::empty(),
            }),
    {
        BiPatternState {
            left,
            right,
            left_queue: PQueue::default(),
            right_queue: PQueue::default(),
        }
    }
}

/// What aligning two queues gives: the combined intervals, and what is left
/// of each queue.
pub struct Alignment<T1, T2, T3> {
    pub outputs: Seq<IdxValue<T3>>,
    pub left: Seq<IdxValue<T1>>,
    pub right: Seq<IdxValue<T2>>,
}

/// How far two queues are from beginning at the same index: 0 where they do,
/// or one is empty.
pub open spec fn skew<T1, T2>(l: Seq<IdxValue<T1>>, r: Seq<IdxValue<T2>>) -> nat {
    if l.len() == 0 || r.len() == 0 {
        0
    } else if l[0].start < r[0].start {
        2
    } else if l[0].start > r[0].start {
        1
    } else {
        0
    }
}

/// Aligns the queues `l` and `r` until one is empty.
///
/// Where one queue begins before the other, it is rewound to where the other
/// begins. Where both begin at the same index, the stretch up to the earlier
/// of the two ends is handed out with the combined verdict, and both queues go
/// on after it.
pub open spec fn align<T1, T2, T3, F: Fn(&T1, &T2) -> T3>(
    f: F,
    l: Seq<IdxValue<T1>>,
    r: Seq<IdxValue<T2>>,
) -> Alignment<T1, T2, T3>
    decreases l.len() + r.len(), skew(l, r),
{
    if l.len() == 0 || r.len() == 0 {
        Alignment { outputs: Seq::<IdxValue<T3>>::empty(), left: l, right: r }
    } else if l[0].start < r[0].start {
        proof {
            lemma_rewound_shape(l, r[0].start as int);
        }
        align::<T1, T2, T3, F>(f, rewound(l, r[0].start as int), r)
    } else if l[0].start > r[0].start {
        proof {
            lemma_rewound_shape(r, l[0].start as int);
        }
        align::<T1, T2, T3, F>(f, l, rewound(r, l[0].start as int))
    } else {
        let end = if l[0].end <= r[0].end {
            l[0].end
        } else {
            r[0].end
        };
        let piece = IdxValue {
            start: l[0].start,
            end,
            result: combined(f, l[0].result, r[0].result),
        };
        let rest = if l[0].end == r[0].end {
            align::<T1, T2, T3, F>(f, beheaded(l), beheaded(r))
        } else {
            proof {
                lemma_rewound_shape(l, end + 1);
                lemma_rewound_shape(r, end + 1);
            }
            align::<T1, T2, T3, F>(f, rewound(l, end + 1), rewound(r, end + 1))
        };
        Alignment { outputs: seq![piece] + rest.outputs, left: rest.left, right: rest.right }
    }
}

/// The function `f` has a result wherever aligning `l` and `r` combines two
/// verdicts.
pub open spec fn align_defined<T1, T2, T3, F: Fn(&T1, &T2) -> T3>(
    f: F,
    l: Seq<IdxValue<T1>>,
    r: Seq<IdxValue<T2>>,
) -> bool
    decreases l.len() + r.len(), skew(l, r),
{
    if l.len() == 0 || r.len() == 0 {
        true
    } else if l[0].start < r[0].start {
        proof {
            lemma_rewound_shape(l, r[0].start as int);
        }
        align_defined(f, rewound(l, r[0].start as int), r)
    } else if l[0].start > r[0].start {
        proof {
            lemma_rewound_shape(r, l[0].start as int);
        }
        align_defined(f, l, rewound(r, l[0].start as int))
    } else {
        let end = if l[0].end <= r[0].end {
            l[0].end
        } else {
            r[0].end
        };
        combinable(f, l[0].result, r[0].result) && if l[0].end == r[0].end {
            align_defined(f, beheaded(l), beheaded(r))
        } else {
            proof {
                lemma_rewound_shape(l, end + 1);
                lemma_rewound_shape(r, end + 1);
            }
            align_defined(f, rewound(l, end + 1), rewound(r, end + 1))
        }
    }
}

/// Aligning two ordered queues hands out intervals in order, none before
/// either queue begins and none after what is left of the queues begins.
pub proof fn lemma_align<T1, T2, T3, F: Fn(&T1, &T2) -> T3>(
    f: F,
    l: Seq<IdxValue<T1>>,
    r: Seq<IdxValue<T2>>,
    bl: int,
    br: int,
)
    requires
        ordered(l),
        ordered(r),
        within(l, 0, bl),
        within(r, 0, br),
    ensures
        ordered(align::<T1, T2, T3, F>(f, l, r).outputs),
        within(
            align::<T1, T2, T3, F>(f, l, r).outputs,
            vstd::math::max(low(l, bl), low(r, br)),
            vstd::math::max(
                low(align::<T1, T2, T3, F>(f, l, r).left, bl),
                low(align::<T1, T2, T3, F>(f, l, r).right, br),
            ),
        ),
        low(l, bl) <= low(align::<T1, T2, T3, F>(f, l, r).left, bl),
        low(r, br) <= low(align::<T1, T2, T3, F>(f, l, r).right, br),
        ordered(align::<T1, T2, T3, F>(f, l, r).left),
        ordered(align::<T1, T2, T3, F>(f, l, r).right),
        within(align::<T1, T2, T3, F>(f, l, r).left, 0, bl),
        within(align::<T1, T2, T3, F>(f, l, r).right, 0, br),
    decreases l.len() + r.len(), skew(l, r),
{
    if l.len() == 0 || r.len() == 0 {
    } else if l[0].start < r[0].start {
        let l2 = rewound(l, r[0].start as int);
        lemma_rewound_shape(l, r[0].start as int);
        lemma_rewound_ordered(l, r[0].start as int);
        lemma_rewound_within(l, r[0].start as int, 0, bl);
        lemma_align(f, l2, r, bl, br);
        let a = align::<T1, T2, T3, F>(f, l2, r);
        let lo = vstd::math::max(low(l, bl), low(r, br));
        let hi = vstd::math::max(low(a.left, bl), low(a.right, br));
        assert forall|i: int| 0 <= i < a.outputs.len() implies lo <= (
        #[trigger] a.outputs[i]).start && a.outputs[i].end < hi by {}
    } else if l[0].start > r[0].start {
        let r2 = rewound(r, l[0].start as int);
        lemma_rewound_shape(r, l[0].start as int);
        lemma_rewound_ordered(r, l[0].start as int);
        lemma_rewound_within(r, l[0].start as int, 0, br);
        lemma_align(f, l, r2, bl, br);
        let a = align::<T1, T2, T3, F>(f, l, r2);
        let lo = vstd::math::max(low(l, bl), low(r, br));
        let hi = vstd::math::max(low(a.left, bl), low(a.right, br));
        assert forall|i: int| 0 <= i < a.outputs.len() implies lo <= (
        #[trigger] a.outputs[i]).start && a.outputs[i].end < hi by {}
    } else {
        let end = if l[0].end <= r[0].end {
            l[0].end
        } else {
            r[0].end
        };
        let piece = IdxValue {
            start: l[0].start,
            end,
            result: combined(f, l[0].result, r[0].result),
        };
        assert(l[0].start <= l[0].end && l[0].end < bl);
        assert(r[0].start <= r[0].end && r[0].end < br);
        let k = end + 1;
        let l2 = if l[0].end == r[0].end {
            beheaded(l)
        } else {
            rewound(l, k)
        };
        let r2 = if l[0].end == r[0].end {
            beheaded(r)
        } else {
            rewound(r, k)
        };
        if l[0].end == r[0].end {
            lemma_beheaded_ordered(l, 0, bl);
            lemma_beheaded_ordered(r, 0, br);
        } else {
            lemma_rewound_shape(l, k);
            lemma_rewound_shape(r, k);
            lemma_rewound_ordered(l, k);
            lemma_rewound_ordered(r, k);
            lemma_rewound_within(l, k, 0, bl);
            lemma_rewound_within(r, k, 0, br);
            lemma_rewound_head(l, k);
            lemma_rewound_head(r, k);
        }
        assert(end < low(l2, bl));
        assert(end < low(r2, br));
        assert(low(l, bl) <= low(l2, bl));
        assert(low(r, br) <= low(r2, br));
        lemma_align(f, l2, r2, bl, br);
        let rest = align::<T1, T2, T3, F>(f, l2, r2);
        let out = seq![piece] + rest.outputs;
        assert(out == align::<T1, T2, T3, F>(f, l, r).outputs);
        let mid = vstd::math::max(low(l2, bl), low(r2, br));
        let lo = vstd::math::max(low(l, bl), low(r, br));
        let hi = vstd::math::max(low(rest.left, bl), low(rest.right, br));
        assert forall|i: int| 0 <= i < out.len() implies (#[trigger] out[i]).start
            <= out[i].end by {
            if i > 0 {
                assert(out[i] == rest.outputs[i - 1]);
                assert(rest.outputs[i - 1].start <= rest.outputs[i - 1].end);
            }
        }
        assert forall|i: int, j: int| 0 <= i < j < out.len() implies (#[trigger] out[i]).end < (
        #[trigger] out[j]).start by {
            assert(out[j] == rest.outputs[j - 1]);
            assert(mid <= rest.outputs[j - 1].start);
            if i > 0 {
                assert(out[i] == rest.outputs[i - 1]);
                assert(rest.outputs[i - 1].end < rest.outputs[j - 1].start);
            }
        }
        assert forall|i: int| 0 <= i < out.len() implies lo <= (#[trigger] out[i]).start
            && out[i].end < hi by {
            if i > 0 {
                assert(out[i] == rest.outputs[i - 1]);
                assert(mid <= rest.outputs[i - 1].start && rest.outputs[i - 1].end < hi);
            }
        }
    }
}

impl<L, R, F, T3> Pattern for BiPattern<L, R, F> where
    L: Pattern,
    R: Pattern<Event = L::Event>,
    F: Fn(&L::T, &R::T) -> T3,
    T3: Datum,
 {
    type State = BiPatternState<L::State, L::T, R::State, R::T>;

    type Event = L::Event;

    type T = T3;

    open spec fn wf(&self) -> bool {
        &&& self.spec_left().wf()
        &&& self.spec_right().wf()
        &&& is_function2(self.spec_func())
    }

    open spec fn spec_width(&self) -> Idx {
        if self.spec_left().spec_width() >= self.spec_right().spec_width() {
            self.spec_left().spec_width()
        } else {
            self.spec_right().spec_width()
        }
    }

    open spec fn spec_initial(&self) -> BiPatternModel<
        <L::State as View>::V,
        L::T,
        <R::State as View>::V,
        R::T,
    > {
        BiPatternModel {
            left: self.spec_left().spec_initial(),
            right: self.spec_right().spec_initial(),
            left_queue: Seq::<IdxValue<L::T>>::empty(),
            right_queue: Seq::<IdxValue<R::T>>::empty(),
        }
    }

    open spec fn inv(
        &self,
        state: BiPatternModel<<L::State as View>::V, L::T, <R::State as View>::V, R::T>,
        next: int,
    ) -> bool {
        &&& self.spec_left().inv(state.left, next)
        &&& self.spec_right().inv(state.right, next)
        &&& ordered(state.left_queue)
        &&& ordered(state.right_queue)
        &&& within(state.left_queue, 0, self.spec_left().frontier(state.left, next))
        &&& within(state.right_queue, 0, self.spec_right().frontier(state.right, next))
    }

    open spec fn frontier(
        &self,
        state: BiPatternModel<<L::State as View>::V, L::T, <R::State as View>::V, R::T>,
        next: int,
    ) -> int {
        vstd::math::max(
            low(state.left_queue, self.spec_left().frontier(state.left, next)),
            low(state.right_queue, self.spec_right().frontier(state.right, next)),
        )
    }

    open spec fn emitted(
        &self,
        start_idx: Idx,
        events: Seq<L::Event>,
        state: BiPatternModel<<L::State as View>::V, L::T, <R::State as View>::V, R::T>,
    ) -> Seq<IdxValue<T3>> {
        align::<L::T, R::T, T3, F>(
            self.spec_func(),
            join_all(state.left_queue, self.spec_left().emitted(start_idx, events, state.left)),
            join_all(
                state.right_queue,
                self.spec_right().emitted(start_idx, events, state.right),
            ),
        ).outputs
    }

    open spec fn next_state(
        &self,
        start_idx: Idx,
        events: Seq<L::Event>,
        state: BiPatternModel<<L::State as View>::V, L::T, <R::State as View>::V, R::T>,
    ) -> BiPatternModel<<L::State as View>::V, L::T, <R::State as View>::V, R::T> {
        let a = align::<L::T, R::T, T3, F>(
            self.spec_func(),
            join_all(state.left_queue, self.spec_left().emitted(start_idx, events, state.left)),
            join_all(
                state.right_queue,
                self.spec_right().emitted(start_idx, events, state.right),
            ),
        );
        BiPatternModel {
            left: self.spec_left().next_state(start_idx, events, state.left),
            right: self.spec_right().next_state(start_idx, events, state.right),
            left_queue: a.left,
            right_queue: a.right,
        }
    }

    open spec fn defined(
        &self,
        start_idx: Idx,
        events: Seq<L::Event>,
        state: BiPatternModel<<L::State as View>::V, L::T, <R::State as View>::V, R::T>,
    ) -> bool {
        &&& self.spec_left().defined(start_idx, events, state.left)
        &&& self.spec_right().defined(start_idx, events, state.right)
        &&& align_defined(
            self.spec_func(),
            join_all(state.left_queue, self.spec_left().emitted(start_idx, events, state.left)),
            join_all(
                state.right_queue,
                self.spec_right().emitted(start_idx, events, state.right),
            ),
        )
    }

    proof fn lemma_frontier_bounds(
        &self,
        state: BiPatternModel<<L::State as View>::V, L::T, <R::State as View>::V, R::T>,
        next: int,
    ) {
        self.spec_left().lemma_frontier_bounds(state.left, next);
        self.spec_right().lemma_frontier_bounds(state.right, next);
        if state.left_queue.len() > 0 {
            assert(0 <= state.left_queue[0].start);
            assert(state.left_queue[0].start <= state.left_queue[0].end);
        }
        if state.right_queue.len() > 0 {
            assert(0 <= state.right_queue[0].start);
            assert(state.right_queue[0].start <= state.right_queue[0].end);
        }
    }

    proof fn lemma_emitted(
        &self,
        start_idx: Idx,
        events: Seq<L::Event>,
        state: BiPatternModel<<L::State as View>::V, L::T, <R::State as View>::V, R::T>,
    ) {
        let left = self.spec_left();
        let right = self.spec_right();
        let lf0 = left.frontier(state.left, start_idx as int);
        let rf0 = right.frontier(state.right, start_idx as int);
        let lf1 = left.frontier(
            left.next_state(start_idx, events, state.left),
            start_idx + events.len(),
        );
        let rf1 = right.frontier(
            right.next_state(start_idx, events, state.right),
            start_idx + events.len(),
        );
        let lem = left.emitted(start_idx, events, state.left);
        let rem = right.emitted(start_idx, events, state.right);
        left.lemma_emitted(start_idx, events, state.left);
        right.lemma_emitted(start_idx, events, state.right);
        left.lemma_frontier_bounds(state.left, start_idx as int);
        right.lemma_frontier_bounds(state.right, start_idx as int);
        lemma_join_all_ordered(state.left_queue, lem, 0, lf0, lf1);
        lemma_join_all_ordered(state.right_queue, rem, 0, rf0, rf1);
        lemma_join_all_low(state.left_queue, lem, lf0, lf1);
        lemma_join_all_low(state.right_queue, rem, rf0, rf1);
        let l0 = join_all(state.left_queue, lem);
        let r0 = join_all(state.right_queue, rem);
        lemma_align(self.spec_func(), l0, r0, lf1, rf1);
        let total = align::<L::T, R::T, T3, F>(self.spec_func(), l0, r0);
        let f0 = vstd::math::max(low(state.left_queue, lf0), low(state.right_queue, rf0));
        let f1 = vstd::math::max(low(total.left, lf1), low(total.right, rf1));
        assert forall|i: int| 0 <= i < total.outputs.len() implies f0 <= (
        #[trigger] total.outputs[i]).start && total.outputs[i].end < f1 by {}
    }

    fn initial_state(&self) -> (state: Self::State) {
        BiPatternState::<L::State, L::T, R::State, R::T>::new(
            self.left.initial_state(),
            self.right.initial_state(),
        )
    }

    fn apply(
        &self,
        start_idx: Idx,
        events: &[L::Event],
        queue: &mut PQueue<T3>,
        state: &mut Self::State,
    ) {
        let ghost q0 = queue@;
        let ghost s0 = state@;
        let ghost lf0 = self.left.frontier(s0.left, start_idx as int);
        let ghost rf0 = self.right.frontier(s0.right, start_idx as int);
        self.left.apply(start_idx, events, &mut state.left_queue, &mut state.left);
        self.right.apply(start_idx, events, &mut state.right_queue, &mut state.right);
        let ghost l0 = state.left_queue@;
        let ghost r0 = state.right_queue@;
        let ghost lf1 = self.left.frontier(state@.left, start_idx + events@.len());
        let ghost rf1 = self.right.frontier(state@.right, start_idx + events@.len());
        let ghost total = align::<L::T, R::T, T3, F>(self.func, l0, r0);
        let ghost done: Seq<IdxValue<T3>> = Seq::empty();
        proof {
            self.lemma_emitted(start_idx, events@, s0);
            assert(done + total.outputs =~= total.outputs);
        }
        loop
            invariant
                is_function2(self.spec_func()),
                self.func == self.spec_func(),
                state.left@ == self.left.next_state(start_idx, events@, s0.left),
                state.right@ == self.right.next_state(start_idx, events@, s0.right),
                total == align::<L::T, R::T, T3, F>(self.func, l0, r0),
                align::<L::T, R::T, T3, F>(self.func, state.left_queue@, state.right_queue@).left
                    == total.left,
                align::<L::T, R::T, T3, F>(self.func, state.left_queue@, state.right_queue@).right
                    == total.right,
                done + align::<L::T, R::T, T3, F>(
                    self.func,
                    state.left_queue@,
                    state.right_queue@,
                ).outputs == total.outputs,
                queue@ == join_all(q0, done),
                align_defined(self.func, state.left_queue@, state.right_queue@) ==> align_defined(
                    self.func,
                    l0,
                    r0,
                ),
            ensures
                align_defined(self.func, l0, r0),
                state.left@ == self.left.next_state(start_idx, events@, s0.left),
                state.right@ == self.right.next_state(start_idx, events@, s0.right),
                state.left_queue@ == total.left,
                state.right_queue@ == total.right,
                queue@ == join_all(q0, total.outputs),
            decreases
                    state.left_queue@.len() + state.right_queue@.len(),
                    skew(state.left_queue@, state.right_queue@),
        {
            let ghost lq = state.left_queue@;
            let ghost rq = state.right_queue@;
            match (state.left_queue.head_option(), state.right_queue.head_option()) {
                (Some(l), Some(r)) => {
                    if l.start < r.start {
                        let k = r.start;
                        proof {
                            lemma_rewound_shape(lq, k as int);
                        }
                        state.left_queue.rewind_to(k);
                    } else if l.start > r.start {
                        let k = l.start;
                        proof {
                            lemma_rewound_shape(rq, k as int);
                        }
                        state.right_queue.rewind_to(k);
                    } else {
                        let end = if l.end <= r.end {
                            l.end
                        } else {
                            r.end
                        };
                        let same_end = l.end == r.end;
                        let piece = IdxValue::new(
                            l.start,
                            end,
                            self.apply_func(&l.result, &r.result),
                        );
                        proof {
                            lemma_join_all_push(q0, done, piece);
                            let rest = if same_end {
                                align::<L::T, R::T, T3, F>(self.func, beheaded(lq), beheaded(rq))
                            } else {
                                align::<L::T, R::T, T3, F>(
                                    self.func,
                                    rewound(lq, end + 1),
                                    rewound(rq, end + 1),
                                )
                            };
                            assert(done.push(piece) + rest.outputs =~= done + (seq![piece]
                                + rest.outputs));
                            done = done.push(piece);
                            if !same_end {
                                lemma_rewound_shape(lq, end + 1);
                                lemma_rewound_shape(rq, end + 1);
                            }
                        }
                        queue.enqueue_joined(piece);
                        if same_end {
                            state.left_queue.behead();
                            state.right_queue.behead();
                        } else {
                            state.left_queue.rewind_to(end + 1);
                            state.right_queue.rewind_to(end + 1);
                        }
                    }
                },
                _ => {
                    proof {
                        assert(done + Seq::<IdxValue<T3>>::empty() =~= done);
                    }
                    break ;
                },
            }
        }
        proof {
            let f0 = vstd::math::max(low(s0.left_queue, lf0), low(s0.right_queue, rf0));
            let f1 = vstd::math::max(low(total.left, lf1), low(total.right, rf1));
            if coalesced(q0) {
                lemma_join_all_coalesced(q0, total.outputs);
            }
            if ordered(q0) && within(q0, 0, f0) {
                self.lemma_frontier_bounds(s0, start_idx as int);
                lemma_join_all_ordered(q0, total.outputs, 0, f0, f1);
            }
        }
    }

    fn width(&self) -> (w: Idx)
        ensures
            w == vstd::math::max(
                self.spec_left().spec_width() as int,
                self.spec_right().spec_width() as int,
            ),
    {
        let l = self.left.width();
        let r = self.right.width();
        if l >= r {
            l
        } else {
            r
        }
    }
}

/// The verdict of a `BiPattern` with the function `f` for an index to which
/// its sub-patterns gave the verdicts `l` and `r`, if they gave any: the
/// combined verdict where both gave one, none otherwise.
pub open spec fn combined_at<T1, T2, T3, F: Fn(&T1, &T2) -> T3>(
    f: F,
    l: Option<PatternResult<T1>>,
    r: Option<PatternResult<T2>>,
) -> Option<PatternResult<T3>> {
    match (l, r) {
        (Some(a), Some(b)) => Some(combined(f, a, b)),
        _ => None,
    }
}

/// Aligning two ordered queues classifies exactly the indices that both
/// queues classify, each with the two verdicts combined.
pub proof fn lemma_align_pointwise<T1, T2, T3, F: Fn(&T1, &T2) -> T3>(
    f: F,
    l: Seq<IdxValue<T1>>,
    r: Seq<IdxValue<T2>>,
    i: int,
)
    requires
        ordered(l),
        ordered(r),
    ensures
        verdict_at(align::<T1, T2, T3, F>(f, l, r).outputs, i) == combined_at(
            f,
            verdict_at(l, i),
            verdict_at(r, i),
        ),
    decreases l.len() + r.len(), skew(l, r),
{
    if l.len() == 0 || r.len() == 0 {
    } else if l[0].start < r[0].start {
        let k = r[0].start as int;
        lemma_rewound_shape(l, k);
        lemma_rewound_ordered(l, k);
        lemma_verdict_rewound(l, k, i);
        lemma_align_pointwise(f, rewound(l, k), r, i);
        if i < k {
            lemma_verdict_before(r, i);
        }
    } else if l[0].start > r[0].start {
        let k = l[0].start as int;
        lemma_rewound_shape(r, k);
        lemma_rewound_ordered(r, k);
        lemma_verdict_rewound(r, k, i);
        lemma_align_pointwise(f, l, rewound(r, k), i);
        if i < k {
            lemma_verdict_before(l, i);
        }
    } else {
        let end = if l[0].end <= r[0].end {
            l[0].end
        } else {
            r[0].end
        };
        let piece = IdxValue {
            start: l[0].start,
            end,
            result: combined(f, l[0].result, r[0].result),
        };
        assert(l[0].start <= l[0].end);
        assert(r[0].start <= r[0].end);
        let l2 = if l[0].end == r[0].end {
            beheaded(l)
        } else {
            rewound(l, end + 1)
        };
        let r2 = if l[0].end == r[0].end {
            beheaded(r)
        } else {
            rewound(r, end + 1)
        };
        if l[0].end == r[0].end {
            lemma_beheaded_ordered(l, 0, u64::MAX + 1);
            lemma_beheaded_ordered(r, 0, u64::MAX + 1);
            lemma_verdict_beheaded(l, i);
            lemma_verdict_beheaded(r, i);
        } else {
            lemma_rewound_shape(l, end + 1);
            lemma_rewound_shape(r, end + 1);
            lemma_rewound_ordered(l, end + 1);
            lemma_rewound_ordered(r, end + 1);
            lemma_verdict_rewound(l, end + 1, i);
            lemma_verdict_rewound(r, end + 1, i);
        }
        lemma_align_pointwise(f, l2, r2, i);
        let rest = align::<T1, T2, T3, F>(f, l2, r2);
        lemma_verdict_concat(seq![piece], rest.outputs, i);
        assert(seq![piece].drop_first() =~= Seq::<IdxValue<T3>>::empty());
        assert(verdict_at(seq![piece], i) == if piece.start <= i <= piece.end {
            Some(piece.result)
        } else {
            None
        }) by {
            reveal_with_fuel(verdict_at, 2);
        }
        if i < l[0].start {
            lemma_verdict_before(l, i);
        }
    }
}

} // verus!
