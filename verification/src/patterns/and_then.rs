//! The pattern that asks for one pattern's match to follow another's.

use vstd::prelude::*;

use crate::pattern::Pattern;
use crate::queue::{
    coalesced, join_all, lemma_join_all_coalesced, lemma_join_all_low, lemma_join_all_ordered,
    lemma_join_all_push, lemma_rewound_head, lemma_rewound_ordered, lemma_rewound_shape,
    lemma_rewound_within, lemma_verdict_before, lemma_verdict_concat, lemma_verdict_rewound,
    low, ordered, rewound, verdict_at, within, Idx, IdxValue, PQueue, PatternResult,
};

verus! {

/// Succeeds where the second pattern succeeds and the first succeeded
/// `second.width() + 1` indices earlier.
///
/// The queue of a sub-pattern merges intervals with one verdict even where an
/// index between them was left open. Where that happens, what the pattern
/// hands out depends on how the stream was cut into batches: an interval that
/// has left the queue cannot be merged any more.
#[derive(Clone)]
pub struct AndThenPattern<A, B> {
    first: A,
    second: B,
}

impl<A, B> AndThenPattern<A, B> {
    /// The pattern that has to match first.
    pub closed spec fn spec_first(&self) -> A {
        self.first
    }

    /// The pattern that has to match afterwards.
    pub closed spec fn spec_second(&self) -> B {
        self.second
    }

    /// Makes the pattern that asks for `first` and then `second`.
    pub fn new(first: A, second: B) -> (r: Self)
        ensures
            r.spec_first() == first,
            r.spec_second() == second,
    {
        AndThenPattern { first, second }
    }
}

/// The working memory of an `AndThenPattern`: the states of its sub-patterns,
/// and what each has classified that was not matched with the other yet.
pub struct AndThenPatternState<S1, S2> {
    first_state: S1,
    first_queue: PQueue<()>,
    second_state: S2,
    second_queue: PQueue<()>,
}

/// What an `AndThenPatternState` holds.
pub struct AndThenPatternModel<S1V, S2V> {
    pub first_state: S1V,
    pub first_queue: Seq<IdxValue<()>>,
    pub second_state: S2V,
    pub second_queue: Seq<IdxValue<()>>,
}

impl<S1: View, S2: View> View for AndThenPatternState<S1, S2> {
    type V = AndThenPatternModel<S1::V, S2::V>;

    closed spec fn view(&self) -> AndThenPatternModel<S1::V, S2::V> {
        AndThenPatternModel {
            first_state: self.first_state@,
            first_queue: self.first_queue@,
            second_state: self.second_state@,
            second_queue: self.second_queue@,
        }
    }
}

/// A success where both verdicts are successes, a failure otherwise.
pub open spec fn both(a: PatternResult<()>, b: PatternResult<()>) -> PatternResult<()> {
    match (a, b) {
        (PatternResult::Success(_), PatternResult::Success(_)) => PatternResult::Success(()),
        _ => PatternResult::Failure,
    }
}

/// What matching one interval of the first pattern against the second
/// pattern's queue gives.
pub struct Matched {
    /// The intervals handed out.
    pub outputs: Seq<IdxValue<()>>,
    /// What is left of the second pattern's queue.
    pub second: Seq<IdxValue<()>>,
    /// Where the last interval handed out ends; where none was, what `end`
    /// was before.
    pub end: int,
    /// Whether the second pattern's queue ran empty.
    pub starved: bool,
}

/// Whether the queue `b` still begins within the range that ends at `re`.
pub open spec fn reaches(b: Seq<IdxValue<()>>, re: int) -> nat {
    if b.len() > 0 && b[0].start <= re {
        1
    } else {
        0
    }
}

/// Matches the range from `rb` to `re`, which carries the verdict `av`,
/// against the queue `b`.
///
/// An interval of `b` that begins after `re` ends the matching. One that ends
/// before `rb` is rewound away. Any other is cut to the range and handed out
/// with both verdicts combined, and `b` goes on after it.
pub open spec fn match_second(
    av: PatternResult<()>,
    rb: int,
    re: int,
    end: int,
    b: Seq<IdxValue<()>>,
) -> Matched
    decreases b.len(), reaches(b, re),
{
    if b.len() == 0 {
        Matched { outputs: Seq::<IdxValue<()>>::empty(), second: b, end, starved: true }
    } else if b[0].start > re {
        Matched { outputs: Seq::<IdxValue<()>>::empty(), second: b, end, starved: false }
    } else if b[0].end < rb {
        proof {
            lemma_rewound_shape(b, rb);
        }
        match_second(av, rb, re, end, rewound(b, rb))
    } else {
        let start = if rb >= b[0].start {
            rb
        } else {
            b[0].start as int
        };
        let e = if re <= b[0].end {
            re
        } else {
            b[0].end as int
        };
        let piece = IdxValue { start: start as Idx, end: e as Idx, result: both(av, b[0].result) };
        proof {
            lemma_rewound_shape(b, e + 1);
        }
        let rest = match_second(av, rb, re, e, rewound(b, e + 1));
        Matched {
            outputs: seq![piece] + rest.outputs,
            second: rest.second,
            end: rest.end,
            starved: rest.starved,
        }
    }
}

/// What matching the first pattern's queue against the second's gives: the
/// intervals handed out, and what is left of each queue.
pub struct Sequenced {
    pub outputs: Seq<IdxValue<()>>,
    pub first: Seq<IdxValue<()>>,
    pub second: Seq<IdxValue<()>>,
}

/// The number of indices that the first interval of `a` holds.
pub open spec fn head_span(a: Seq<IdxValue<()>>) -> nat {
    if a.len() > 0 && a[0].start <= a[0].end {
        (a[0].end - a[0].start + 1) as nat
    } else {
        0
    }
}

/// Matches the queue `a` of the first pattern, moved forward by `offset`
/// indices, against the queue `b` of the second.
///
/// Each leading interval of `a` is matched against `b`; when `b` runs empty
/// the matching stops and the interval stays. Otherwise `a` is rewound past
/// what the last interval handed out covers of it, or past one index where
/// nothing was handed out.
pub open spec fn sequence(offset: int, a: Seq<IdxValue<()>>, b: Seq<IdxValue<()>>) -> Sequenced
    decreases a.len(), head_span(a),
    when ordered(a) && offset >= 0
{
    if a.len() == 0 {
        Sequenced { outputs: Seq::<IdxValue<()>>::empty(), first: a, second: b }
    } else {
        let rb = a[0].start + offset;
        let re = a[0].end + offset;
        let m = match_second(a[0].result, rb, re, rb, b);
        if m.starved {
            Sequenced { outputs: m.outputs, first: a, second: m.second }
        } else {
            proof {
                lemma_match_end(a[0].result, rb, re, rb, b);
                lemma_rewound_shape(a, m.end + 1 - offset);
                lemma_rewound_ordered(a, m.end + 1 - offset);
            }
            let rest = sequence(offset, rewound(a, m.end + 1 - offset), m.second);
            Sequenced { outputs: m.outputs + rest.outputs, first: rest.first, second: rest.second }
        }
    }
}

/// One step of `sequence`, written out.
pub proof fn lemma_sequence_step(offset: int, a: Seq<IdxValue<()>>, b: Seq<IdxValue<()>>)
    requires
        offset >= 0,
        ordered(a),
        a.len() > 0,
    ensures
        ({
            let m = match_second(
                a[0].result,
                a[0].start + offset,
                a[0].end + offset,
                a[0].start + offset,
                b,
            );
            let rest = sequence(offset, rewound(a, m.end + 1 - offset), m.second);
            sequence(offset, a, b) == if m.starved {
                Sequenced { outputs: m.outputs, first: a, second: m.second }
            } else {
                Sequenced {
                    outputs: m.outputs + rest.outputs,
                    first: rest.first,
                    second: rest.second,
                }
            }
        }),
{
    let rb = a[0].start + offset;
    let re = a[0].end + offset;
    let m = match_second(a[0].result, rb, re, rb, b);
    assert(a[0].start <= a[0].end);
    if !m.starved {
        lemma_match_end(a[0].result, rb, re, rb, b);
        lemma_rewound_shape(a, m.end + 1 - offset);
        lemma_rewound_ordered(a, m.end + 1 - offset);
    }
}

/// The matching of one range ends within the range.
pub proof fn lemma_match_end(
    av: PatternResult<()>,
    rb: int,
    re: int,
    end: int,
    b: Seq<IdxValue<()>>,
)
    requires
        rb <= end <= re,
    ensures
        rb <= match_second(av, rb, re, end, b).end <= re,
        match_second(av, rb, re, end, b).starved == (match_second(av, rb, re, end, b).second.len()
            == 0),
    decreases b.len(), reaches(b, re),
{
    if b.len() == 0 {
    } else if b[0].start > re {
    } else if b[0].end < rb {
        lemma_rewound_shape(b, rb);
        lemma_match_end(av, rb, re, end, rewound(b, rb));
    } else {
        let e = if re <= b[0].end {
            re
        } else {
            b[0].end as int
        };
        lemma_rewound_shape(b, e + 1);
        lemma_match_end(av, rb, re, e, rewound(b, e + 1));
    }
}

/// The matching of one range against an ordered queue hands out intervals in
/// order, none before the queue begins and none after what is left of it
/// begins.
pub proof fn lemma_match_second(
    av: PatternResult<()>,
    rb: int,
    re: int,
    end: int,
    b: Seq<IdxValue<()>>,
    bb: int,
)
    requires
        ordered(b),
        within(b, 0, bb),
        0 <= rb <= re,
    ensures
        ordered(match_second(av, rb, re, end, b).outputs),
        within(
            match_second(av, rb, re, end, b).outputs,
            low(b, bb),
            low(match_second(av, rb, re, end, b).second, bb),
        ),
        low(b, bb) <= low(match_second(av, rb, re, end, b).second, bb),
        ordered(match_second(av, rb, re, end, b).second),
        within(match_second(av, rb, re, end, b).second, 0, bb),
    decreases b.len(), reaches(b, re),
{
    if b.len() == 0 {
    } else if b[0].start > re {
    } else if b[0].end < rb {
        let b2 = rewound(b, rb);
        lemma_rewound_shape(b, rb);
        lemma_rewound_ordered(b, rb);
        lemma_rewound_within(b, rb, 0, bb);
        lemma_match_second(av, rb, re, end, b2, bb);
        let m = match_second(av, rb, re, end, b2);
        let hi = low(m.second, bb);
        assert forall|i: int| 0 <= i < m.outputs.len() implies low(b, bb) <= (
        #[trigger] m.outputs[i]).start && m.outputs[i].end < hi by {}
    } else {
        let start = if rb >= b[0].start {
            rb
        } else {
            b[0].start as int
        };
        let e = if re <= b[0].end {
            re
        } else {
            b[0].end as int
        };
        let piece = IdxValue { start: start as Idx, end: e as Idx, result: both(av, b[0].result) };
        assert(0 <= b[0].start <= b[0].end && b[0].end < bb);
        let b2 = rewound(b, e + 1);
        lemma_rewound_shape(b, e + 1);
        lemma_rewound_ordered(b, e + 1);
        lemma_rewound_within(b, e + 1, 0, bb);
        lemma_rewound_head(b, e + 1);
        assert(e < low(b2, bb));
        lemma_match_second(av, rb, re, e, b2, bb);
        let rest = match_second(av, rb, re, e, b2);
        let out = seq![piece] + rest.outputs;
        let mid = low(b2, bb);
        let hi = low(rest.second, bb);
        assert forall|i: int| 0 <= i < out.len() implies (#[trigger] out[i]).start
            <= out[i].end by {
            if i > 0 {
                assert(out[i] == rest.outputs[i - 1]);
                assert(rest.outputs[i - 1].start <= rest.outputs[i - 1].end);
            }
        }
        assert forall|i: int, j: int| 0 <= i < j < out.len() implies (#[trigger] out[i]).end < (
        #[trigger] out[j]).start by {
            assert(out[j] == rest.outputs[j - 1]);
            assert(mid <= rest.outputs[j - 1].start);
            if i > 0 {
                assert(out[i] == rest.outputs[i - 1]);
                assert(rest.outputs[i - 1].end < rest.outputs[j - 1].start);
            }
        }
        assert forall|i: int| 0 <= i < out.len() implies low(b, bb) <= (#[trigger] out[i]).start
            && out[i].end < hi by {
            if i > 0 {
                assert(out[i] == rest.outputs[i - 1]);
                assert(mid <= rest.outputs[i - 1].start && rest.outputs[i - 1].end < hi);
            }
        }
    }
}

/// The matching of two ordered queues hands out intervals in order, none
/// before the second queue begins and none after what is left of it begins.
pub proof fn lemma_sequence(
    offset: int,
    a: Seq<IdxValue<()>>,
    b: Seq<IdxValue<()>>,
    ba: int,
    bb: int,
)
    requires
        offset >= 0,
        ordered(a),
        ordered(b),
        within(a, 0, ba),
        within(b, 0, bb),
    ensures
        ordered(sequence(offset, a, b).outputs),
        within(sequence(offset, a, b).outputs, low(b, bb), low(sequence(offset, a, b).second, bb)),
        low(b, bb) <= low(sequence(offset, a, b).second, bb),
        ordered(sequence(offset, a, b).first),
        ordered(sequence(offset, a, b).second),
        within(sequence(offset, a, b).first, 0, ba),
        within(sequence(offset, a, b).second, 0, bb),
    decreases a.len(), head_span(a),
{
    if a.len() > 0 {
        assert(0 <= a[0].start <= a[0].end);
        let rb = a[0].start + offset;
        let re = a[0].end + offset;
        let m = match_second(a[0].result, rb, re, rb, b);
        lemma_match_second(a[0].result, rb, re, rb, b, bb);
        if !m.starved {
            lemma_match_end(a[0].result, rb, re, rb, b);
            let k = m.end + 1 - offset;
            let a2 = rewound(a, k);
            lemma_rewound_shape(a, k);
            lemma_rewound_ordered(a, k);
            lemma_rewound_within(a, k, 0, ba);
            lemma_sequence(offset, a2, m.second, ba, bb);
            let rest = sequence(offset, a2, m.second);
            let out = m.outputs + rest.outputs;
            let mid = low(m.second, bb);
            let hi = low(rest.second, bb);
            assert forall|i: int| 0 <= i < out.len() implies (#[trigger] out[i]).start
                <= out[i].end by {
                if i < m.outputs.len() {
                    assert(m.outputs[i].start <= m.outputs[i].end);
                } else {
                    assert(out[i] == rest.outputs[i - m.outputs.len()]);
                    assert(rest.outputs[i - m.outputs.len()].start <= rest.outputs[i
                        - m.outputs.len()].end);
                }
            }
            assert forall|i: int, j: int| 0 <= i < j < out.len() implies (#[trigger] out[i]).end
                < (#[trigger] out[j]).start by {
                if j < m.outputs.len() {
                    assert(m.outputs[i].end < m.outputs[j].start);
                } else {
                    assert(out[j] == rest.outputs[j - m.outputs.len()]);
                    assert(mid <= rest.outputs[j - m.outputs.len()].start);
                    if i < m.outputs.len() {
                        assert(m.outputs[i].end < mid);
                    } else {
                        assert(out[i] == rest.outputs[i - m.outputs.len()]);
                        assert(rest.outputs[i - m.outputs.len()].end < rest.outputs[j
                            - m.outputs.len()].start);
                    }
                }
            }
            assert forall|i: int| 0 <= i < out.len() implies low(b, bb) <= (
            #[trigger] out[i]).start && out[i].end < hi by {
                if i < m.outputs.len() {
                    assert(low(b, bb) <= m.outputs[i].start && m.outputs[i].end < mid);
                } else {
                    assert(out[i] == rest.outputs[i - m.outputs.len()]);
                    assert(mid <= rest.outputs[i - m.outputs.len()].start && rest.outputs[i
                        - m.outputs.len()].end < hi);
                }
            }
        }
    }
}

impl<A, B> Pattern for AndThenPattern<A, B> where
    A: Pattern<T = ()>,
    B: Pattern<Event = A::Event, T = ()>,
 {
    type State = AndThenPatternState<A::State, B::State>;

    type Event = A::Event;

    type T = ();

    open spec fn wf(&self) -> bool {
        &&& self.spec_first().wf()
        &&& self.spec_second().wf()
        &&& 1 + self.spec_first().spec_width() + self.spec_second().spec_width() <= u64::MAX
    }

    open spec fn spec_width(&self) -> Idx {
        (1 + self.spec_first().spec_width() + self.spec_second().spec_width()) as Idx
    }

    open spec fn spec_initial(&self) -> AndThenPatternModel<
        <A::State as View>::V,
        <B::State as View>::V,
    > {
        AndThenPatternModel {
            first_state: self.spec_first().spec_initial(),
            first_queue: Seq::<IdxValue<()>>::empty(),
            second_state: self.spec_second().spec_initial(),
            second_queue: Seq::<IdxValue<()>>::empty(),
        }
    }

    open spec fn inv(
        &self,
        state: AndThenPatternModel<<A::State as View>::V, <B::State as View>::V>,
        next: int,
    ) -> bool {
        &&& self.spec_first().inv(state.first_state, next)
        &&& self.spec_second().inv(state.second_state, next)
        &&& ordered(state.first_queue)
        &&& ordered(state.second_queue)
        &&& within(state.first_queue, 0, self.spec_first().frontier(state.first_state, next))
        &&& within(state.second_queue, 0, self.spec_second().frontier(state.second_state, next))
    }

    open spec fn frontier(
        &self,
        state: AndThenPatternModel<<A::State as View>::V, <B::State as View>::V>,
        next: int,
    ) -> int {
        low(state.second_queue, self.spec_second().frontier(state.second_state, next))
    }

    open spec fn emitted(
        &self,
        start_idx: Idx,
        events: Seq<A::Event>,
        state: AndThenPatternModel<<A::State as View>::V, <B::State as View>::V>,
    ) -> Seq<IdxValue<()>> {
        sequence(
            self.spec_second().spec_width() + 1,
            join_all(
                state.first_queue,
                self.spec_first().emitted(start_idx, events, state.first_state),
            ),
            join_all(
                state.second_queue,
                self.spec_second().emitted(start_idx, events, state.second_state),
            ),
        ).outputs
    }

    open spec fn next_state(
        &self,
        start_idx: Idx,
        events: Seq<A::Event>,
        state: AndThenPatternModel<<A::State as View>::V, <B::State as View>::V>,
    ) -> AndThenPatternModel<<A::State as View>::V, <B::State as View>::V> {
        let s = sequence(
            self.spec_second().spec_width() + 1,
            join_all(
                state.first_queue,
                self.spec_first().emitted(start_idx, events, state.first_state),
            ),
            join_all(
                state.second_queue,
                self.spec_second().emitted(start_idx, events, state.second_state),
            ),
        );
        AndThenPatternModel {
            first_state: self.spec_first().next_state(start_idx, events, state.first_state),
            first_queue: s.first,
            second_state: self.spec_second().next_state(start_idx, events, state.second_state),
            second_queue: s.second,
        }
    }

    open spec fn defined(
        &self,
        start_idx: Idx,
        events: Seq<A::Event>,
        state: AndThenPatternModel<<A::State as View>::V, <B::State as View>::V>,
    ) -> bool {
        &&& self.spec_first().defined(start_idx, events, state.first_state)
        &&& self.spec_second().defined(start_idx, events, state.second_state)
    }

    proof fn lemma_frontier_bounds(
        &self,
        state: AndThenPatternModel<<A::State as View>::V, <B::State as View>::V>,
        next: int,
    ) {
        self.spec_second().lemma_frontier_bounds(state.second_state, next);
        if state.second_queue.len() > 0 {
            assert(0 <= state.second_queue[0].start);
            assert(state.second_queue[0].start <= state.second_queue[0].end);
        }
    }

    proof fn lemma_emitted(
        &self,
        start_idx: Idx,
        events: Seq<A::Event>,
        state: AndThenPatternModel<<A::State as View>::V, <B::State as View>::V>,
    ) {
        let first = self.spec_first();
        let second = self.spec_second();
        let af0 = first.frontier(state.first_state, start_idx as int);
        let bf0 = second.frontier(state.second_state, start_idx as int);
        let af1 = first.frontier(
            first.next_state(start_idx, events, state.first_state),
            start_idx + events.len(),
        );
        let bf1 = second.frontier(
            second.next_state(start_idx, events, state.second_state),
            start_idx + events.len(),
        );
        let aem = first.emitted(start_idx, events, state.first_state);
        let bem = second.emitted(start_idx, events, state.second_state);
        first.lemma_emitted(start_idx, events, state.first_state);
        second.lemma_emitted(start_idx, events, state.second_state);
        first.lemma_frontier_bounds(state.first_state, start_idx as int);
        second.lemma_frontier_bounds(state.second_state, start_idx as int);
        lemma_join_all_ordered(state.first_queue, aem, 0, af0, af1);
        lemma_join_all_ordered(state.second_queue, bem, 0, bf0, bf1);
        lemma_join_all_low(state.second_queue, bem, bf0, bf1);
        let a0 = join_all(state.first_queue, aem);
        let b0 = join_all(state.second_queue, bem);
        let offset = second.spec_width() + 1;
        lemma_sequence(offset, a0, b0, af1, bf1);
        let total = sequence(offset, a0, b0);
        let f0 = low(state.second_queue, bf0);
        let f1 = low(total.second, bf1);
        assert forall|i: int| 0 <= i < total.outputs.len() implies f0 <= (
        #[trigger] total.outputs[i]).start && total.outputs[i].end < f1 by {}
    }

    fn initial_state(&self) -> (state: Self::State) {
        AndThenPatternState {
            first_state: self.first.initial_state(),
            first_queue: PQueue::default(),
            second_state: self.second.initial_state(),
            second_queue: PQueue::default(),
        }
    }

    fn apply(
        &self,
        start_idx: Idx,
        events: &[A::Event],
        queue: &mut PQueue<()>,
        state: &mut Self::State,
    ) {
        let ghost q0 = queue@;
        let ghost s0 = state@;
        let ghost af0 = self.first.frontier(s0.first_state, start_idx as int);
        let ghost bf0 = self.second.frontier(s0.second_state, start_idx as int);
        self.first.apply(start_idx, events, &mut state.first_queue, &mut state.first_state);
        self.second.apply(start_idx, events, &mut state.second_queue, &mut state.second_state);
        let offset: Idx = self.second.width() + 1;
        let ghost a0 = state.first_queue@;
        let ghost b0 = state.second_queue@;
        let ghost af1 = self.first.frontier(state@.first_state, start_idx + events@.len());
        let ghost bf1 = self.second.frontier(state@.second_state, start_idx + events@.len());
        let ghost total = sequence(offset as int, a0, b0);
        let ghost done: Seq<IdxValue<()>> = Seq::empty();
        proof {
            self.first.lemma_frontier_bounds(s0.first_state, start_idx as int);
            self.second.lemma_frontier_bounds(s0.second_state, start_idx as int);
            self.first.lemma_frontier_bounds(state@.first_state, start_idx + events@.len());
            self.second.lemma_frontier_bounds(state@.second_state, start_idx + events@.len());
            lemma_join_all_ordered(
                s0.first_queue,
                self.first.emitted(start_idx, events@, s0.first_state),
                0,
                af0,
                af1,
            );
            lemma_join_all_ordered(
                s0.second_queue,
                self.second.emitted(start_idx, events@, s0.second_state),
                0,
                bf0,
                bf1,
            );
            self.lemma_emitted(start_idx, events@, s0);
            assert(done + total.outputs =~= total.outputs);
        }
        loop
            invariant
                offset >= 1,
                af1 + offset <= u64::MAX,
                ordered(state.first_queue@),
                ordered(state.second_queue@),
                within(state.first_queue@, 0, af1),
                within(state.second_queue@, 0, bf1),
                state.first_state@ == self.first.next_state(start_idx, events@, s0.first_state),
                state.second_state@ == self.second.next_state(
                    start_idx,
                    events@,
                    s0.second_state,
                ),
                sequence(offset as int, state.first_queue@, state.second_queue@).first
                    == total.first,
                sequence(offset as int, state.first_queue@, state.second_queue@).second
                    == total.second,
                done + sequence(offset as int, state.first_queue@, state.second_queue@).outputs
                    == total.outputs,
                queue@ == join_all(q0, done),
            ensures
                state.first_state@ == self.first.next_state(start_idx, events@, s0.first_state),
                state.second_state@ == self.second.next_state(
                    start_idx,
                    events@,
                    s0.second_state,
                ),
                state.first_queue@ == total.first,
                state.second_queue@ == total.second,
                queue@ == join_all(q0, total.outputs),
            decreases state.first_queue@.len(), head_span(state.first_queue@),
        {
            let ghost aq = state.first_queue@;
            let ghost bq = state.second_queue@;
            let (first_start, first_end, first_ok) = match state.first_queue.head_option() {
                Some(a) => {
                    let ok = match &a.result {
                        PatternResult::Success(_) => true,
                        PatternResult::Failure => false,
                    };
                    (a.start, a.end, ok)
                },
                None => {
                    proof {
                        assert(done + Seq::<IdxValue<()>>::empty() =~= done);
                    }
                    break ;
                },
            };
            proof {
                assert(0 <= aq[0].start <= aq[0].end && aq[0].end < af1);
            }
            let ghost av = aq[0].result;
            let result_begin: Idx = first_start + offset;
            let result_end: Idx = first_end + offset;
            let mut end: Idx = result_begin;
            let mut starved = false;
            let ghost m0 = match_second(av, result_begin as int, result_end as int, end as int, bq);
            let ghost found: Seq<IdxValue<()>> = Seq::empty();
            proof {
                assert(found + m0.outputs =~= m0.outputs);
                assert(done + found =~= done);
            }
            loop
                invariant_except_break
                    !starved,
                invariant
                    result_begin <= end <= result_end,
                    result_end < u64::MAX,
                    first_ok == (av is Success),
                    ordered(state.second_queue@),
                    within(state.second_queue@, 0, bf1),
                    state.first_queue@ == aq,
                    state.first_state@ == self.first.next_state(
                        start_idx,
                        events@,
                        s0.first_state,
                    ),
                    state.second_state@ == self.second.next_state(
                        start_idx,
                        events@,
                        s0.second_state,
                    ),
                    match_second(
                        av,
                        result_begin as int,
                        result_end as int,
                        end as int,
                        state.second_queue@,
                    ).second == m0.second,
                    match_second(
                        av,
                        result_begin as int,
                        result_end as int,
                        end as int,
                        state.second_queue@,
                    ).end == m0.end,
                    match_second(
                        av,
                        result_begin as int,
                        result_end as int,
                        end as int,
                        state.second_queue@,
                    ).starved == m0.starved,
                    found + match_second(
                        av,
                        result_begin as int,
                        result_end as int,
                        end as int,
                        state.second_queue@,
                    ).outputs == m0.outputs,
                    queue@ == join_all(q0, done + found),
                ensures
                    result_begin <= end <= result_end,
                    ordered(state.second_queue@),
                    within(state.second_queue@, 0, bf1),
                    state.first_queue@ == aq,
                    state.first_state@ == self.first.next_state(
                        start_idx,
                        events@,
                        s0.first_state,
                    ),
                    state.second_state@ == self.second.next_state(
                        start_idx,
                        events@,
                        s0.second_state,
                    ),
                    state.second_queue@ == m0.second,
                    end == m0.end,
                    starved == m0.starved,
                    queue@ == join_all(q0, done + m0.outputs),
                decreases
                        state.second_queue@.len(),
                        reaches(state.second_queue@, result_end as int),
            {
                let ghost cur = state.second_queue@;
                match state.second_queue.head_option() {
                    None => {
                        starved = true;
                        proof {
                            assert(found + Seq::<IdxValue<()>>::empty() =~= found);
                        }
                        break ;
                    },
                    Some(b) => {
                        if b.start > result_end {
                            proof {
                                assert(found + Seq::<IdxValue<()>>::empty() =~= found);
                            }
                            break ;
                        } else if b.end < result_begin {
                            proof {
                                lemma_rewound_shape(cur, result_begin as int);
                                lemma_rewound_ordered(cur, result_begin as int);
                                lemma_rewound_within(cur, result_begin as int, 0, bf1);
                            }
                            state.second_queue.rewind_to(result_begin);
                        } else {
                            let start = if result_begin >= b.start {
                                result_begin
                            } else {
                                b.start
                            };
                            let e = if result_end <= b.end {
                                result_end
                            } else {
                                b.end
                            };
                            let second_ok = match &b.result {
                                PatternResult::Success(_) => true,
                                PatternResult::Failure => false,
                            };
                            let result = if first_ok && second_ok {
                                PatternResult::Success(())
                            } else {
                                PatternResult::Failure
                            };
                            let piece = IdxValue::new(start, e, result);
                            proof {
                                assert(piece.result == both(av, cur[0].result));
                                lemma_join_all_push(q0, done + found, piece);
                                let rest = match_second(
                                    av,
                                    result_begin as int,
                                    result_end as int,
                                    e as int,
                                    rewound(cur, e + 1),
                                );
                                assert(found.push(piece) + rest.outputs =~= found + (seq![piece]
                                    + rest.outputs));
                                assert((done + found).push(piece) =~= done + found.push(piece));
                                found = found.push(piece);
                                lemma_rewound_shape(cur, e + 1);
                                lemma_rewound_ordered(cur, e + 1);
                                lemma_rewound_within(cur, e + 1, 0, bf1);
                            }
                            queue.enqueue_joined(piece);
                            end = e;
                            state.second_queue.rewind_to(e + 1);
                        }
                    },
                }
            }
            proof {
                lemma_match_end(
                    av,
                    result_begin as int,
                    result_end as int,
                    result_begin as int,
                    bq,
                );
                let s = sequence(offset as int, aq, bq);
                lemma_sequence_step(offset as int, aq, bq);
                if m0.starved {
                    assert(s.outputs == m0.outputs);
                    assert(done + m0.outputs == total.outputs);
                } else {
                    let k = m0.end + 1 - offset;
                    let rest = sequence(offset as int, rewound(aq, k), m0.second);
                    assert(s.outputs == m0.outputs + rest.outputs);
                    assert((done + m0.outputs) + rest.outputs =~= done + (m0.outputs
                        + rest.outputs));
                    lemma_rewound_shape(aq, k);
                    lemma_rewound_ordered(aq, k);
                    lemma_rewound_within(aq, k, 0, af1);
                }
                done = done + m0.outputs;
            }
            if starved {
                break ;
            }
            state.first_queue.rewind_to(end + 1 - offset);
        }
        proof {
            let f0 = low(s0.second_queue, bf0);
            let f1 = low(total.second, bf1);
            if coalesced(q0) {
                lemma_join_all_coalesced(q0, total.outputs);
            }
            if ordered(q0) && within(q0, 0, f0) {
                self.lemma_frontier_bounds(s0, start_idx as int);
                lemma_join_all_ordered(q0, total.outputs, 0, f0, f1);
            }
        }
    }

    fn width(&self) -> (w: Idx)
        ensures
            w == 1 + self.spec_first().spec_width() + self.spec_second().spec_width(),
    {
        1 + self.first.width() + self.second.width()
    }
}

/// The verdict of an `AndThenPattern` for an index to which the second
/// pattern gave the verdict `b`, and to whose counterpart the first pattern
/// gave the verdict `a`, if they gave any: a success where both succeeded, a
/// failure where both gave a verdict and one failed, none otherwise.
pub open spec fn both_at(a: Option<PatternResult<()>>, b: Option<PatternResult<()>>) -> Option<
    PatternResult<()>,
> {
    match (a, b) {
        (Some(x), Some(y)) => Some(both(x, y)),
        _ => None,
    }
}

/// The matching of one range against an ordered queue classifies exactly the
/// indices of the range that the queue classifies, each with both verdicts
/// combined. What is left of the queue classifies no index that the queue
/// did not, and every index after the range as the queue did.
pub proof fn lemma_match_pointwise(
    av: PatternResult<()>,
    rb: int,
    re: int,
    end: int,
    b: Seq<IdxValue<()>>,
    i: int,
)
    requires
        ordered(b),
        0 <= rb <= re,
    ensures
        verdict_at(match_second(av, rb, re, end, b).outputs, i) == if rb <= i <= re {
            both_at(Some(av), verdict_at(b, i))
        } else {
            None
        },
        i > re ==> verdict_at(match_second(av, rb, re, end, b).second, i) == verdict_at(b, i),
        verdict_at(match_second(av, rb, re, end, b).second, i) is Some ==> verdict_at(
            match_second(av, rb, re, end, b).second,
            i,
        ) == verdict_at(b, i),
    decreases b.len(), reaches(b, re),
{
    if b.len() == 0 {
    } else if b[0].start > re {
        if i <= re {
            lemma_verdict_before(b, i);
        }
    } else if b[0].end < rb {
        lemma_rewound_shape(b, rb);
        lemma_rewound_ordered(b, rb);
        lemma_verdict_rewound(b, rb, i);
        lemma_match_pointwise(av, rb, re, end, rewound(b, rb), i);
    } else {
        let start = if rb >= b[0].start {
            rb
        } else {
            b[0].start as int
        };
        let e = if re <= b[0].end {
            re
        } else {
            b[0].end as int
        };
        let piece = IdxValue { start: start as Idx, end: e as Idx, result: both(av, b[0].result) };
        assert(b[0].start <= b[0].end);
        let b2 = rewound(b, e + 1);
        lemma_rewound_shape(b, e + 1);
        lemma_rewound_ordered(b, e + 1);
        lemma_verdict_rewound(b, e + 1, i);
        lemma_match_pointwise(av, rb, re, e, b2, i);
        let rest = match_second(av, rb, re, e, b2);
        lemma_verdict_concat(seq![piece], rest.outputs, i);
        assert(seq![piece].drop_first() =~= Seq::<IdxValue<()>>::empty());
        assert(verdict_at(seq![piece], i) == if piece.start <= i <= piece.end {
            Some(piece.result)
        } else {
            None
        }) by {
            reveal_with_fuel(verdict_at, 2);
        }
        if i < b[0].start {
            lemma_verdict_before(b, i);
        }
    }
}

/// The matching of two ordered queues classifies exactly the indices that
/// the second queue classifies and whose counterparts, `offset` indices
/// earlier, the first queue classifies, each with both verdicts combined.
pub proof fn lemma_sequence_pointwise(
    offset: int,
    a: Seq<IdxValue<()>>,
    b: Seq<IdxValue<()>>,
    i: int,
)
    requires
        offset >= 0,
        ordered(a),
        ordered(b),
    ensures
        verdict_at(sequence(offset, a, b).outputs, i) == both_at(
            verdict_at(a, i - offset),
            verdict_at(b, i),
        ),
    decreases a.len(), head_span(a),
{
    if a.len() > 0 {
        assert(a[0].start <= a[0].end);
        let rb = a[0].start + offset;
        let re = a[0].end + offset;
        let m = match_second(a[0].result, rb, re, rb, b);
        lemma_sequence_step(offset, a, b);
        lemma_match_pointwise(a[0].result, rb, re, rb, b, i);
        lemma_match_end(a[0].result, rb, re, rb, b);
        if i < rb {
            lemma_verdict_before(a, i - offset);
        }
        if !m.starved {
            assert(within(b, 0, u64::MAX + 1));
            lemma_match_second(a[0].result, rb, re, rb, b, u64::MAX + 1);
            let k = m.end + 1 - offset;
            let a2 = rewound(a, k);
            lemma_rewound_shape(a, k);
            lemma_rewound_ordered(a, k);
            lemma_verdict_rewound(a, k, i - offset);
            lemma_sequence_pointwise(offset, a2, m.second, i);
            let rest = sequence(offset, a2, m.second);
            lemma_verdict_concat(m.outputs, rest.outputs, i);
        }
    }
}

} // verus!
