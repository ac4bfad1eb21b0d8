//! The pattern that asks for a run of successes of a given length.

use vstd::prelude::*;

use crate::pattern::{additive, always_additive, Pattern};
use crate::queue::{
    lemma_verdict_outside,
    coalesced, join_all, joined, lemma_join_all_coalesced, lemma_join_all_concat,
    lemma_join_all_ordered, lemma_join_all_push, lemma_verdict_after, lemma_verdict_before,
    lemma_verdict_concat, ordered, verdict_at, within, Idx, IdxValue, PQueue, PatternResult,
};

verus! {

/// The length of run that a `WindowPattern` asks for.
#[derive(Debug, Copy, Clone)]
pub struct Window {
    size: u32,
}

/// Succeeds at an index where the inner pattern has succeeded on that index
/// and on the `size - 1` indices before it.
#[derive(Clone)]
pub struct WindowPattern<P> {
    inner: P,
    window: Window,
}

impl<P> WindowPattern<P> where P: Pattern<T = ()> {
    /// The pattern whose successes are counted.
    pub closed spec fn spec_inner(&self) -> P {
        self.inner
    }

    /// The length of run that is asked for.
    pub closed spec fn spec_size(&self) -> u32 {
        self.window.size
    }

    /// Makes the pattern that asks for runs of `size` successes of `inner`.
    pub fn new(inner: P, size: u32) -> (r: Self)
        requires
            size > 0,
        ensures
            r.spec_inner() == inner,
            r.spec_size() == size,
    {
        WindowPattern { inner, window: Window { size } }
    }
}

/// How far a window has classified its stream.
pub struct WindowCursor {
    /// The first index that is not classified yet; `None` until the inner
    /// pattern hands over its first interval.
    pub open_from: Option<Idx>,
    /// Whether the index before `open_from` was classified a success.
    pub last_success: bool,
}

/// The working memory of a `WindowPattern`.
pub struct WindowPatternState<S> {
    inner_state: S,
    inner_queue: PQueue<()>,
    open_from: Option<Idx>,
    last_success: bool,
}

/// What a `WindowPatternState` holds.
pub struct WindowPatternModel<SV> {
    pub inner_state: SV,
    pub inner_queue: Seq<IdxValue<()>>,
    pub cursor: WindowCursor,
}

impl<S: View> View for WindowPatternState<S> {
    type V = WindowPatternModel<S::V>;

    closed spec fn view(&self) -> WindowPatternModel<S::V> {
        WindowPatternModel {
            inner_state: self.inner_state@,
            inner_queue: self.inner_queue@,
            cursor: WindowCursor { open_from: self.open_from, last_success: self.last_success },
        }
    }
}

/// The first index that the interval `iv` can classify for a window at `c`.
pub open spec fn window_from(c: WindowCursor, iv: IdxValue<()>) -> Idx {
    match c.open_from {
        Some(n) => n,
        None => iv.start,
    }
}

/// The cursor of a window of length `w` after it took the inner interval `iv`.
///
/// A failure classifies everything up to the end of `iv`. So does a success
/// that continues a success. A success after a failure, or at the beginning,
/// classifies something only if the run reaches length `w` within `iv`;
/// otherwise the cursor stays where the run began.
pub open spec fn window_step_cursor(w: u32, c: WindowCursor, iv: IdxValue<()>) -> WindowCursor {
    let from = window_from(c, iv);
    match iv.result {
        PatternResult::Failure => WindowCursor {
            open_from: Some((iv.end + 1) as Idx),
            last_success: false,
        },
        PatternResult::Success(_) => if c.last_success || from + (w - 1) <= iv.end {
            WindowCursor { open_from: Some((iv.end + 1) as Idx), last_success: true }
        } else {
            WindowCursor { open_from: Some(from), last_success: false }
        },
    }
}

/// The interval that a window of length `w` at `c` hands out when it takes the
/// inner interval `iv`, if it hands one out.
pub open spec fn window_step_output(w: u32, c: WindowCursor, iv: IdxValue<()>) -> Option<
    IdxValue<()>,
> {
    let from = window_from(c, iv);
    match iv.result {
        PatternResult::Failure => Some(
            IdxValue { start: from, end: iv.end, result: PatternResult::Failure },
        ),
        PatternResult::Success(_) => if c.last_success {
            Some(IdxValue { start: from, end: iv.end, result: PatternResult::Success(()) })
        } else if from + (w - 1) <= iv.end {
            Some(
                IdxValue {
                    start: (from + (w - 1)) as Idx,
                    end: iv.end,
                    result: PatternResult::Success(()),
                },
            )
        } else {
            None
        },
    }
}

/// The cursor after the window took every interval of `ivs`, in order.
pub open spec fn window_cursor(w: u32, c: WindowCursor, ivs: Seq<IdxValue<()>>) -> WindowCursor
    decreases ivs.len(),
{
    if ivs.len() == 0 {
        c
    } else {
        window_step_cursor(w, window_cursor(w, c, ivs.drop_last()), ivs.last())
    }
}

/// The intervals that the window hands out while it takes every interval of
/// `ivs`, in order.
pub open spec fn window_outputs(w: u32, c: WindowCursor, ivs: Seq<IdxValue<()>>) -> Seq<
    IdxValue<()>,
>
    decreases ivs.len(),
{
    if ivs.len() == 0 {
        seq![]
    } else {
        let before = window_outputs(w, c, ivs.drop_last());
        match window_step_output(w, window_cursor(w, c, ivs.drop_last()), ivs.last()) {
            Some(iv) => before.push(iv),
            None => before,
        }
    }
}

/// The least index at which a window at `c` can begin its next interval, where
/// the inner pattern's next interval begins at `inner` or later.
pub open spec fn window_frontier(c: WindowCursor, inner: int) -> int {
    match c.open_from {
        Some(n) => n as int,
        None => inner,
    }
}

/// A window that takes inner intervals in order hands out intervals in
/// order, each after the cursor it started from and before the cursor it
/// ends at.
pub proof fn lemma_window_run(w: u32, c: WindowCursor, ivs: Seq<IdxValue<()>>, lo: int, hi: int)
    requires
        w >= 1,
        ordered(ivs),
        within(ivs, lo, hi),
        0 <= lo <= hi <= u64::MAX,
        c.open_from matches Some(n) ==> n <= lo,
    ensures
        ordered(window_outputs(w, c, ivs)),
        within(
            window_outputs(w, c, ivs),
            window_frontier(c, lo),
            window_frontier(window_cursor(w, c, ivs), hi),
        ),
        window_frontier(c, lo) <= window_frontier(window_cursor(w, c, ivs), hi) <= hi,
        ivs.len() > 0 ==> window_cursor(w, c, ivs).open_from is Some,
    decreases ivs.len(),
{
    if ivs.len() > 0 {
        let front = ivs.drop_last();
        let last = ivs.last();
        let mid = last.start as int;
        assert(lo <= ivs[ivs.len() - 1].start && ivs[ivs.len() - 1].end < hi);
        assert(ivs[ivs.len() - 1].start <= ivs[ivs.len() - 1].end);
        assert(ordered(front)) by {
            assert forall|i: int| 0 <= i < front.len() implies (#[trigger] front[i]).start
                <= front[i].end by {
                assert(ivs[i].start <= ivs[i].end);
            }
            assert forall|i: int, j: int| 0 <= i < j < front.len() implies (#[trigger] front[i]).end
                < (#[trigger] front[j]).start by {
                assert(ivs[i].end < ivs[j].start);
            }
        }
        assert(within(front, lo, mid)) by {
            assert forall|i: int| 0 <= i < front.len() implies lo <= (#[trigger] front[i]).start
                && front[i].end < mid by {
                assert(lo <= ivs[i].start);
                assert(ivs[i].end < ivs[ivs.len() - 1].start);
            }
        }
        lemma_window_run(w, c, front, lo, mid);
        let c1 = window_cursor(w, c, front);
        let out1 = window_outputs(w, c, front);
        let c2 = window_step_cursor(w, c1, last);
        let f1 = window_frontier(c1, mid);
        let f2 = window_frontier(c2, hi);
        assert(f1 == window_from(c1, last));
        assert(f1 <= f2);
        match window_step_output(w, c1, last) {
            Some(iv) => {
                let out2 = out1.push(iv);
                assert(f1 <= iv.start <= iv.end < f2);
                assert forall|i: int| 0 <= i < out2.len() implies (#[trigger] out2[i]).start
                    <= out2[i].end by {
                    if i < out1.len() {
                        assert(out1[i].start <= out1[i].end);
                    }
                }
                assert forall|i: int, j: int| 0 <= i < j < out2.len() implies (
                #[trigger] out2[i]).end < (#[trigger] out2[j]).start by {
                    if j < out1.len() {
                        assert(out1[i].end < out1[j].start);
                    } else {
                        assert(out1[i].end < f1);
                    }
                }
                assert forall|i: int| 0 <= i < out2.len() implies window_frontier(c, lo) <= (
                #[trigger] out2[i]).start && out2[i].end < f2 by {
                    if i < out1.len() {
                        assert(window_frontier(c, lo) <= out1[i].start && out1[i].end < f1);
                    }
                }
            },
            None => {
                assert forall|i: int| 0 <= i < out1.len() implies window_frontier(c, lo) <= (
                #[trigger] out1[i]).start && out1[i].end < f2 by {
                    assert(window_frontier(c, lo) <= out1[i].start && out1[i].end < f1);
                }
            },
        }
    }
}

impl<P> Pattern for WindowPattern<P> where P: Pattern<T = ()> {
    type State = WindowPatternState<P::State>;

    type Event = P::Event;

    type T = ();

    open spec fn wf(&self) -> bool {
        &&& self.spec_inner().wf()
        &&& self.spec_size() > 0
        &&& (self.spec_size() - 1) + self.spec_inner().spec_width() <= u64::MAX
    }

    open spec fn spec_width(&self) -> Idx {
        ((self.spec_size() - 1) + self.spec_inner().spec_width()) as Idx
    }

    open spec fn spec_initial(&self) -> WindowPatternModel<<P::State as View>::V> {
        WindowPatternModel {
            inner_state: self.spec_inner().spec_initial(),
            inner_queue: Seq::empty(),
            cursor: WindowCursor { open_from: None, last_success: false },
        }
    }

    open spec fn inv(&self, state: WindowPatternModel<<P::State as View>::V>, next: int) -> bool {
        &&& self.spec_inner().inv(state.inner_state, next)
        &&& state.inner_queue.len() == 0
        &&& state.cursor.open_from matches Some(n) ==> n <= self.spec_inner().frontier(
            state.inner_state,
            next,
        )
    }

    open spec fn frontier(
        &self,
        state: WindowPatternModel<<P::State as View>::V>,
        next: int,
    ) -> int {
        window_frontier(state.cursor, self.spec_inner().frontier(state.inner_state, next))
    }

    open spec fn emitted(
        &self,
        start_idx: Idx,
        events: Seq<P::Event>,
        state: WindowPatternModel<<P::State as View>::V>,
    ) -> Seq<IdxValue<()>> {
        window_outputs(
            self.spec_size(),
            state.cursor,
            join_all(
                state.inner_queue,
                self.spec_inner().emitted(start_idx, events, state.inner_state),
            ),
        )
    }

    open spec fn next_state(
        &self,
        start_idx: Idx,
        events: Seq<P::Event>,
        state: WindowPatternModel<<P::State as View>::V>,
    ) -> WindowPatternModel<<P::State as View>::V> {
        WindowPatternModel {
            inner_state: self.spec_inner().next_state(start_idx, events, state.inner_state),
            inner_queue: Seq::empty(),
            cursor: window_cursor(
                self.spec_size(),
                state.cursor,
                join_all(
                    state.inner_queue,
                    self.spec_inner().emitted(start_idx, events, state.inner_state),
                ),
            ),
        }
    }

    open spec fn defined(
        &self,
        start_idx: Idx,
        events: Seq<P::Event>,
        state: WindowPatternModel<<P::State as View>::V>,
    ) -> bool {
        self.spec_inner().defined(start_idx, events, state.inner_state)
    }

    proof fn lemma_frontier_bounds(
        &self,
        state: WindowPatternModel<<P::State as View>::V>,
        next: int,
    ) {
        self.spec_inner().lemma_frontier_bounds(state.inner_state, next);
    }

    proof fn lemma_emitted(
        &self,
        start_idx: Idx,
        events: Seq<P::Event>,
        state: WindowPatternModel<<P::State as View>::V>,
    ) {
        let inner = self.spec_inner();
        let next = inner.next_state(start_idx, events, state.inner_state);
        let lo = inner.frontier(state.inner_state, start_idx as int);
        let hi = inner.frontier(next, start_idx + events.len());
        inner.lemma_emitted(start_idx, events, state.inner_state);
        inner.lemma_frontier_bounds(state.inner_state, start_idx as int);
        inner.lemma_frontier_bounds(next, start_idx + events.len());
        lemma_join_all_ordered(
            state.inner_queue,
            inner.emitted(start_idx, events, state.inner_state),
            lo,
            lo,
            hi,
        );
        lemma_window_run(
            self.spec_size(),
            state.cursor,
            join_all(state.inner_queue, inner.emitted(start_idx, events, state.inner_state)),
            lo,
            hi,
        );
    }

    fn initial_state(&self) -> (state: Self::State) {
        WindowPatternState {
            inner_state: self.inner.initial_state(),
            inner_queue: PQueue::default(),
            open_from: None,
            last_success: false,
        }
    }

    fn apply(
        &self,
        start_idx: Idx,
        events: &[P::Event],
        queue: &mut PQueue<()>,
        state: &mut Self::State,
    ) {
        let ghost q0 = queue@;
        let ghost s0 = state@;
        let ghost lo = self.inner.frontier(s0.inner_state, start_idx as int);
        let ghost w = self.window.size;
        self.inner.apply(start_idx, events, &mut state.inner_queue, &mut state.inner_state);
        let ghost drained = state.inner_queue@;
        let ghost hi = self.inner.frontier(state@.inner_state, start_idx + events@.len());
        proof {
            self.inner.lemma_frontier_bounds(s0.inner_state, start_idx as int);
            self.inner.lemma_frontier_bounds(state@.inner_state, start_idx + events@.len());
            self.lemma_emitted(start_idx, events@, s0);
            lemma_join_all_ordered(
                s0.inner_queue,
                self.inner.emitted(start_idx, events@, s0.inner_state),
                lo,
                lo,
                hi,
            );
        }
        let ghost n: int = 0;
        loop
            invariant
                0 <= n <= drained.len(),
                w == self.window.size,
                w >= 1,
                ordered(drained),
                within(drained, lo, hi),
                0 <= lo <= hi,
                hi + (w - 1) <= u64::MAX,
                state.inner_queue@ == drained.subrange(n, drained.len() as int),
                state.inner_state@ == self.inner.next_state(start_idx, events@, s0.inner_state),
                state@.cursor == window_cursor(w, s0.cursor, drained.subrange(0, n)),
                state@.cursor.open_from matches Some(m) ==> m <= hi && (n < drained.len()
                    ==> m <= drained[n].start),
                queue@ == join_all(q0, window_outputs(w, s0.cursor, drained.subrange(0, n))),
            ensures
                state.inner_queue@.len() == 0,
                state.inner_state@ == self.inner.next_state(start_idx, events@, s0.inner_state),
                state@.cursor == window_cursor(w, s0.cursor, drained),
                queue@ == join_all(q0, window_outputs(w, s0.cursor, drained)),
            decreases drained.len() - n,
        {
            match state.inner_queue.dequeue_option() {
                Some(iv) => {
                    let ghost c1 = state@.cursor;
                    proof {
                        assert(iv == drained[n]);
                        assert(lo <= drained[n].start && drained[n].end < hi);
                        assert(drained[n].start <= drained[n].end);
                        if n + 1 < drained.len() {
                            assert(drained[n].end < drained[n + 1].start);
                        }
                        assert(drained.subrange(0, n + 1).drop_last() =~= drained.subrange(0, n));
                        assert(drained.subrange(0, n + 1).last() == iv);
                        assert(drained.subrange(n, drained.len() as int).subrange(
                            1,
                            drained.len() - n,
                        ) =~= drained.subrange(n + 1, drained.len() as int));
                    }
                    let from: Idx = match state.open_from {
                        Some(m) => m,
                        None => iv.start,
                    };
                    match iv.result {
                        PatternResult::Failure => {
                            queue.enqueue_joined(
                                IdxValue::new(from, iv.end, PatternResult::Failure),
                            );
                            state.open_from = Some(iv.end + 1);
                            state.last_success = false;
                        },
                        PatternResult::Success(_) => {
                            if state.last_success {
                                queue.enqueue_joined(
                                    IdxValue::new(from, iv.end, PatternResult::Success(())),
                                );
                                state.open_from = Some(iv.end + 1);
                            } else {
                                let new_start: Idx = from + (self.window.size as Idx - 1);
                                if new_start <= iv.end {
                                    queue.enqueue_joined(
                                        IdxValue::new(
                                            new_start,
                                            iv.end,
                                            PatternResult::Success(()),
                                        ),
                                    );
                                    state.open_from = Some(iv.end + 1);
                                    state.last_success = true;
                                } else {
                                    state.open_from = Some(from);
                                }
                            }
                        },
                    }
                    proof {
                        assert(state@.cursor == window_step_cursor(w, c1, iv));
                        match window_step_output(w, c1, iv) {
                            Some(out) => {
                                lemma_join_all_push(
                                    q0,
                                    window_outputs(w, s0.cursor, drained.subrange(0, n)),
                                    out,
                                );
                            },
                            None => {},
                        }
                        n = n + 1;
                    }
                },
                None => {
                    proof {
                        assert(drained.subrange(0, n) =~= drained);
                    }
                    break ;
                },
            }
        }
        proof {
            assert(state@.inner_queue =~= Seq::<IdxValue<()>>::empty());
            let flo = window_frontier(s0.cursor, lo);
            if coalesced(q0) {
                lemma_join_all_coalesced(q0, window_outputs(w, s0.cursor, drained));
            }
            if ordered(q0) && within(q0, 0, flo) {
                lemma_join_all_ordered(
                    q0,
                    window_outputs(w, s0.cursor, drained),
                    0,
                    flo,
                    window_frontier(state@.cursor, hi),
                );
            }
        }
    }

    fn width(&self) -> (w: Idx)
        ensures
            w == (self.spec_size() - 1) + self.spec_inner().spec_width(),
    {
        (self.window.size - 1) as Idx + self.inner.width()
    }
}

/// The queue `q` after the interval `o` was appended with merging, if there
/// is one.
pub open spec fn joined_if(q: Seq<IdxValue<()>>, o: Option<IdxValue<()>>) -> Seq<IdxValue<()>> {
    match o {
        Some(iv) => joined(q, iv),
        None => q,
    }
}

/// What a window hands out for a run of intervals is what it hands out for
/// all but the last, and then for the last.
pub proof fn lemma_window_last(
    w: u32,
    q: Seq<IdxValue<()>>,
    c: WindowCursor,
    ivs: Seq<IdxValue<()>>,
)
    requires
        ivs.len() > 0,
    ensures
        join_all(q, window_outputs(w, c, ivs)) == joined_if(
            join_all(q, window_outputs(w, c, ivs.drop_last())),
            window_step_output(w, window_cursor(w, c, ivs.drop_last()), ivs.last()),
        ),
{
    let before = window_outputs(w, c, ivs.drop_last());
    match window_step_output(w, window_cursor(w, c, ivs.drop_last()), ivs.last()) {
        Some(iv) => {
            lemma_join_all_push(q, before, iv);
        },
        None => {},
    }
}

/// A window takes two runs of intervals, one after the other, as it takes
/// the two as one run.
pub proof fn lemma_window_concat(
    w: u32,
    c: WindowCursor,
    xs: Seq<IdxValue<()>>,
    ys: Seq<IdxValue<()>>,
)
    ensures
        window_cursor(w, c, xs + ys) == window_cursor(w, window_cursor(w, c, xs), ys),
        window_outputs(w, c, xs + ys) == window_outputs(w, c, xs) + window_outputs(
            w,
            window_cursor(w, c, xs),
            ys,
        ),
    decreases ys.len(),
{
    if ys.len() == 0 {
        assert(xs + ys =~= xs);
        assert(window_outputs(w, c, xs) + Seq::<IdxValue<()>>::empty() =~= window_outputs(
            w,
            c,
            xs,
        ));
    } else {
        lemma_window_concat(w, c, xs, ys.drop_last());
        assert((xs + ys).drop_last() =~= xs + ys.drop_last());
        assert((xs + ys).last() == ys.last());
        let c1 = window_cursor(w, c, xs);
        let front = window_outputs(w, c1, ys.drop_last());
        match window_step_output(w, window_cursor(w, c1, ys.drop_last()), ys.last()) {
            Some(iv) => {
                assert((window_outputs(w, c, xs) + front).push(iv) =~= window_outputs(w, c, xs)
                    + front.push(iv));
            },
            None => {},
        }
    }
}

/// A window takes two intervals with one verdict, the second after the
/// first, as it takes the one interval that spans both.
pub proof fn lemma_window_step_merged(
    w: u32,
    q: Seq<IdxValue<()>>,
    c: WindowCursor,
    z: IdxValue<()>,
    y: IdxValue<()>,
)
    requires
        w >= 1,
        z.result == y.result,
        z.start <= z.end < y.start <= y.end,
    ensures
        ({
            let both = IdxValue { start: z.start, end: y.end, result: z.result };
            let mid = window_step_cursor(w, c, z);
            &&& window_step_cursor(w, mid, y) == window_step_cursor(w, c, both)
            &&& joined_if(
                joined_if(q, window_step_output(w, c, z)),
                window_step_output(w, mid, y),
            ) == joined_if(q, window_step_output(w, c, both))
        }),
{
    let both = IdxValue { start: z.start, end: y.end, result: z.result };
    let mid = window_step_cursor(w, c, z);
    let left = joined_if(joined_if(q, window_step_output(w, c, z)), window_step_output(w, mid, y));
    let right = joined_if(q, window_step_output(w, c, both));
    assert(left =~= right);
}

/// Whether the inner intervals were merged before the window took them
/// makes no difference, neither to the cursor nor to the queue that the
/// window's intervals are appended to.
pub proof fn lemma_window_merged(
    w: u32,
    q: Seq<IdxValue<()>>,
    c: WindowCursor,
    ivs: Seq<IdxValue<()>>,
)
    requires
        w >= 1,
        ordered(ivs),
    ensures
        window_cursor(w, c, join_all(Seq::<IdxValue<()>>::empty(), ivs)) == window_cursor(
            w,
            c,
            ivs,
        ),
        join_all(q, window_outputs(w, c, join_all(Seq::<IdxValue<()>>::empty(), ivs))) == join_all(
            q,
            window_outputs(w, c, ivs),
        ),
    decreases ivs.len(),
{
    let none = Seq::<IdxValue<()>>::empty();
    if ivs.len() > 0 {
        let front = ivs.drop_last();
        let y = ivs.last();
        let z = join_all(none, front);
        assert(ordered(front)) by {
            assert forall|i: int| 0 <= i < front.len() implies (#[trigger] front[i]).start
                <= front[i].end by {
                assert(ivs[i].start <= ivs[i].end);
            }
            assert forall|i: int, j: int| 0 <= i < j < front.len() implies (#[trigger] front[i]).end
                < (#[trigger] front[j]).start by {
                assert(ivs[i].end < ivs[j].start);
            }
        }
        assert(within(front, 0, u64::MAX + 1));
        lemma_join_all_ordered(none, front, 0, 0, u64::MAX + 1);
        lemma_window_merged(w, q, c, front);
        lemma_window_last(w, q, c, ivs);
        assert(ivs[ivs.len() - 1].start <= ivs[ivs.len() - 1].end);
        if z.len() > 0 && z.last().result == y.result {
            let merged = joined(z, y);
            let head = z.drop_last();
            let both = IdxValue { start: z.last().start, end: y.end, result: z.last().result };
            assert(front.len() > 0);
            assert(ivs[front.len() - 1].end < ivs[ivs.len() - 1].start);
            assert(z[z.len() - 1].start <= z[z.len() - 1].end);
            assert(merged.drop_last() =~= head);
            assert(merged.last() == both);
            lemma_window_last(w, q, c, merged);
            lemma_window_last(w, q, c, z);
            lemma_window_step_merged(
                w,
                join_all(q, window_outputs(w, c, head)),
                window_cursor(w, c, head),
                z.last(),
                y,
            );
        } else {
            let pushed = joined(z, y);
            assert(pushed.drop_last() =~= z);
            assert(pushed.last() == y);
            lemma_window_last(w, q, c, pushed);
        }
    }
}

/// A window pattern classifies two batches, one after the other, as it
/// classifies the two as one batch, where its inner pattern does.
pub proof fn lemma_window_additive<P: Pattern<T = ()>>(
    p: WindowPattern<P>,
    start_idx: Idx,
    a: Seq<P::Event>,
    b: Seq<P::Event>,
    state: WindowPatternModel<<P::State as View>::V>,
)
    requires
        p.wf(),
        p.inv(state, start_idx as int),
        start_idx + a.len() + b.len() + p.spec_width() <= u64::MAX,
        additive(p.spec_inner(), start_idx, a, b, state.inner_state),
    ensures
        additive(p, start_idx, a, b, state),
{
    let inner = p.spec_inner();
    let w = p.spec_size();
    let none = Seq::<IdxValue<()>>::empty();
    let then = (start_idx + a.len()) as Idx;
    let mid = p.next_state(start_idx, a, state);
    let ea = inner.emitted(start_idx, a, state.inner_state);
    let eb = inner.emitted(then, b, mid.inner_state);
    let eab = inner.emitted(start_idx, a + b, state.inner_state);
    let c = state.cursor;
    assert(state.inner_queue =~= none);
    assert(mid.inner_queue =~= none);
    inner.lemma_emitted(start_idx, a, state.inner_state);
    inner.lemma_emitted(then, b, mid.inner_state);
    let f1 = inner.frontier(mid.inner_state, then as int);
    let both = ea + eb;
    assert(ordered(both)) by {
        assert forall|i: int| 0 <= i < both.len() implies (#[trigger] both[i]).start
            <= both[i].end by {
            if i < ea.len() {
                assert(ea[i].start <= ea[i].end);
            } else {
                assert(eb[i - ea.len()].start <= eb[i - ea.len()].end);
            }
        }
        assert forall|i: int, j: int| 0 <= i < j < both.len() implies (#[trigger] both[i]).end < (
        #[trigger] both[j]).start by {
            if j < ea.len() {
                assert(ea[i].end < ea[j].start);
            } else if i < ea.len() {
                assert(ea[i].end < f1);
                assert(f1 <= eb[j - ea.len()].start);
            } else {
                assert(eb[i - ea.len()].end < eb[j - ea.len()].start);
            }
        }
    }
    assert(join_all(join_all(none, ea), eb) == join_all(none, eab));
    lemma_join_all_concat(none, ea, eb);
    lemma_window_merged(w, none, c, ea);
    lemma_window_merged(w, none, window_cursor(w, c, ea), eb);
    lemma_window_merged(w, none, c, both);
    lemma_window_concat(w, c, ea, eb);
    assert forall|q: Seq<IdxValue<()>>|
        join_all(join_all(q, p.emitted(start_idx, a, state)), p.emitted(then, b, mid))
            == #[trigger] join_all(q, p.emitted(start_idx, a + b, state)) by {
        let q1 = join_all(q, p.emitted(start_idx, a, state));
        lemma_window_merged(w, q, c, ea);
        lemma_window_merged(w, q1, window_cursor(w, c, ea), eb);
        lemma_window_merged(w, q, c, both);
        lemma_join_all_concat(
            q,
            window_outputs(w, c, ea),
            window_outputs(w, window_cursor(w, c, ea), eb),
        );
    }
}

/// A window pattern takes two batches as one, always, where its inner
/// pattern does.
pub proof fn lemma_window_always_additive<P: Pattern<T = ()>>(p: WindowPattern<P>)
    requires
        p.wf(),
        always_additive(p.spec_inner()),
    ensures
        always_additive(p),
{
    assert forall|
        start_idx: Idx,
        a: Seq<P::Event>,
        b: Seq<P::Event>,
        state: WindowPatternModel<<P::State as View>::V>,
    |
        p.inv(state, start_idx as int) && start_idx + a.len() + b.len() + p.spec_width()
            <= u64::MAX implies #[trigger] additive(p, start_idx, a, b, state) by {
        assert(additive(p.spec_inner(), start_idx, a, b, state.inner_state));
        lemma_window_additive(p, start_idx, a, b, state);
    }
}

/// Each interval begins right after the one before it ends.
pub open spec fn contiguous(q: Seq<IdxValue<()>>) -> bool {
    forall|i: int| 0 <= i < q.len() - 1 ==> (#[trigger] q[i]).end + 1 == q[i + 1].start
}

/// The queue `q` classifies the index `i` a success.
pub open spec fn succeeds_at(q: Seq<IdxValue<()>>, i: int) -> bool {
    verdict_at(q, i) matches Some(PatternResult::Success(_))
}

/// The queue `q` classifies every index from `lo` to `hi` a success.
pub open spec fn succeeds_on(q: Seq<IdxValue<()>>, lo: int, hi: int) -> bool {
    forall|j: int| lo <= j <= hi ==> #[trigger] succeeds_at(q, j)
}

/// The cursor of a window before the first interval.
pub open spec fn fresh_cursor() -> WindowCursor {
    WindowCursor { open_from: None, last_success: false }
}

/// What the cursor `c` of a window of length `w` says of the inner queue
/// `ivs` that the window has taken, which ends at the index `e`: the cursor
/// stands after a run of `w` successes or more, or at the beginning of a
/// shorter run of successes that no success precedes.
pub open spec fn cursor_tells(w: u32, c: WindowCursor, ivs: Seq<IdxValue<()>>, e: int) -> bool {
    &&& c.open_from is Some
    &&& c.open_from->0 <= e + 1
    &&& c.last_success ==> c.open_from->0 == e + 1 && succeeds_on(ivs, e - (w - 1), e)
    &&& !c.last_success ==> succeeds_on(ivs, c.open_from->0 as int, e) && c.open_from->0 + (w
        - 1) > e && !succeeds_at(ivs, c.open_from->0 - 1)
}

/// What a window means, for one more inner interval `y`: where the meaning
/// holds of the inner queue `front` and the window's queue `out`, it holds of
/// the two after the window took `y`, which are `ivs` and `out2`.
proof fn lemma_window_meaning_step(
    w: u32,
    c: WindowCursor,
    front: Seq<IdxValue<()>>,
    ivs: Seq<IdxValue<()>>,
    out: Seq<IdxValue<()>>,
    out2: Seq<IdxValue<()>>,
    y: IdxValue<()>,
    i: int,
)
    requires
        w >= 1,
        y.start <= y.end < u64::MAX,
        window_from(c, y) <= y.start,
        forall|j: int| #[trigger]
            verdict_at(ivs, j) == (if y.start <= j <= y.end {
                Some(y.result)
            } else {
                verdict_at(front, j)
            }),
        forall|j: int| j >= y.start ==> (#[trigger] verdict_at(front, j)) is None,
        verdict_at(out, i) is Some ==> i < window_from(c, y),
        verdict_at(out2, i) == (match window_step_output(w, c, y) {
            Some(iv) => if verdict_at(out, i) is None && iv.start <= i <= iv.end {
                Some(iv.result)
            } else {
                verdict_at(out, i)
            },
            None => verdict_at(out, i),
        }),
        succeeds_at(out, i) <==> succeeds_on(front, i - (w - 1), i),
        succeeds_on(front, window_from(c, y) as int, y.start - 1),
        c.last_success ==> window_from(c, y) == y.start && succeeds_on(
            front,
            y.start - w,
            y.start - 1,
        ),
        !c.last_success ==> window_from(c, y) + (w - 1) > y.start - 1 && !succeeds_at(
            front,
            window_from(c, y) - 1,
        ),
    ensures
        succeeds_at(out2, i) <==> succeeds_on(ivs, i - (w - 1), i),
        cursor_tells(w, window_step_cursor(w, c, y), ivs, y.end as int),
{
    let from = window_from(c, y) as int;
    let lo = i - (w - 1);
    let c2 = window_step_cursor(w, c, y);
    assert forall|j: int| j < y.start implies succeeds_at(ivs, j) == succeeds_at(front, j) by {
        assert(verdict_at(ivs, j) == verdict_at(front, j));
    }
    assert forall|j: int| y.start <= j <= y.end implies succeeds_at(ivs, j) == (
    y.result is Success) by {
        assert(verdict_at(ivs, j) == Some(y.result));
    }
    assert forall|j: int| j > y.end implies !succeeds_at(ivs, j) by {
        assert(verdict_at(ivs, j) == verdict_at(front, j));
        assert(verdict_at(front, j) is None);
    }
    assert(verdict_at(front, i) is None || i < y.start);
    if i < y.start {
        assert(succeeds_on(ivs, lo, i) <==> succeeds_on(front, lo, i)) by {
            if succeeds_on(front, lo, i) {
                assert forall|j: int| lo <= j <= i implies #[trigger] succeeds_at(ivs, j) by {
                    assert(succeeds_at(front, j));
                }
            }
            if succeeds_on(ivs, lo, i) {
                assert forall|j: int| lo <= j <= i implies #[trigger] succeeds_at(front, j) by {
                    assert(succeeds_at(ivs, j));
                }
            }
        }
    } else if i > y.end {
        assert(!succeeds_at(ivs, i));
        assert(!succeeds_at(front, i));
    } else {
        assert(!succeeds_at(front, i));
        if y.result is Success {
            if c.last_success || lo >= from {
                assert(succeeds_on(ivs, lo, i)) by {
                    assert forall|j: int| lo <= j <= i implies #[trigger] succeeds_at(ivs, j) by {
                        if j < y.start {
                            assert(succeeds_at(front, j));
                        }
                    }
                }
            } else {
                assert(!succeeds_at(ivs, from - 1));
                assert(lo <= from - 1 <= i);
            }
        } else {
            assert(!succeeds_at(ivs, i));
        }
    }
    if c2.last_success {
        assert(y.result is Success);
        assert(c.last_success || from + (w - 1) <= y.end);
        assert forall|j: int| y.end - (w - 1) <= j <= y.end implies #[trigger] succeeds_at(
            ivs,
            j,
        ) by {
            if j < y.start {
                if c.last_success {
                    assert(y.start - w <= j <= y.start - 1);
                } else {
                    assert(from <= j <= y.start - 1);
                }
                assert(succeeds_at(front, j));
                assert(succeeds_at(ivs, j) == succeeds_at(front, j));
            } else {
                assert(succeeds_at(ivs, j) == (y.result is Success));
            }
        }
    } else {
        let n = c2.open_from->0 as int;
        if y.result is Success {
            assert(n == from);
            assert forall|j: int| n <= j <= y.end implies #[trigger] succeeds_at(ivs, j) by {
                if j < y.start {
                    assert(from <= j <= y.start - 1);
                    assert(succeeds_at(front, j));
                    assert(succeeds_at(ivs, j) == succeeds_at(front, j));
                } else {
                    assert(succeeds_at(ivs, j) == (y.result is Success));
                }
            }
            assert(succeeds_at(ivs, from - 1) == succeeds_at(front, from - 1));
        } else {
            assert(n == y.end + 1);
            assert(succeeds_at(ivs, y.end as int) == (y.result is Success));
        }
    }
}

/// What a window of length `w` means: fed, from the beginning, inner
/// intervals that follow each other without a gap, it classifies an index a
/// success exactly where the inner pattern classified that index and the
/// `w - 1` indices before it successes.
pub proof fn lemma_window_meaning(w: u32, ivs: Seq<IdxValue<()>>, i: int)
    requires
        w >= 1,
        ordered(ivs),
        contiguous(ivs),
        ivs.len() > 0 ==> ivs.last().end < u64::MAX,
    ensures
        succeeds_at(window_outputs(w, fresh_cursor(), ivs), i) <==> succeeds_on(
            ivs,
            i - (w - 1),
            i,
        ),
        ivs.len() == 0 ==> window_cursor(w, fresh_cursor(), ivs) == fresh_cursor(),
        ivs.len() > 0 ==> cursor_tells(
            w,
            window_cursor(w, fresh_cursor(), ivs),
            ivs,
            ivs.last().end as int,
        ),
    decreases ivs.len(),
{
    let fresh = fresh_cursor();
    if ivs.len() == 0 {
        assert(!succeeds_at(ivs, i));
    } else {
        let front = ivs.drop_last();
        let y = ivs.last();
        let c = window_cursor(w, fresh, front);
        let out = window_outputs(w, fresh, front);
        let out2 = window_outputs(w, fresh, ivs);
        assert(y.start <= y.end) by {
            assert(ivs[ivs.len() - 1].start <= ivs[ivs.len() - 1].end);
        }
        lemma_front(ivs);
        lemma_window_meaning(w, front, i);
        assert(ivs == front.push(y)) by {
            assert(ivs =~= front.push(y));
        }
        lemma_verdict_split(front, y, ivs);
        assert(window_from(c, y) <= y.start);
        assert(verdict_at(out, i) is Some ==> i < window_from(c, y)) by {
            lemma_window_run(w, fresh, front, 0, y.start as int);
            if i >= window_from(c, y) {
                lemma_verdict_outside(out, 0, window_from(c, y) as int, i);
            }
        }
        assert(verdict_at(out2, i) == (match window_step_output(w, c, y) {
            Some(iv) => if verdict_at(out, i) is None && iv.start <= i <= iv.end {
                Some(iv.result)
            } else {
                verdict_at(out, i)
            },
            None => verdict_at(out, i),
        })) by {
            match window_step_output(w, c, y) {
                Some(iv) => {
                    assert(out2 =~= out + seq![iv]);
                    lemma_verdict_concat(out, seq![iv], i);
                    lemma_verdict_one(iv, i);
                },
                None => {},
            }
        }
        if front.len() == 0 {
            assert(!succeeds_at(front, window_from(c, y) - 1));
        }
        lemma_window_meaning_step(w, c, front, ivs, out, out2, y, i);
    }
}

/// All but the last of an ordered run of intervals without a gap is such a
/// run, and ends right before the last begins.
proof fn lemma_front(ivs: Seq<IdxValue<()>>)
    requires
        ordered(ivs),
        contiguous(ivs),
        ivs.len() > 0,
    ensures
        ordered(ivs.drop_last()),
        contiguous(ivs.drop_last()),
        ivs.len() > 1 ==> ivs.drop_last().last().end + 1 == ivs.last().start,
        within(ivs.drop_last(), 0, ivs.last().start as int),
{
    let front = ivs.drop_last();
    let n = ivs.len() - 1;
    assert forall|a: int| 0 <= a < front.len() implies (#[trigger] front[a]).start
        <= front[a].end by {
        assert(ivs[a].start <= ivs[a].end);
    }
    assert forall|a: int, b: int| 0 <= a < b < front.len() implies (#[trigger] front[a]).end < (
    #[trigger] front[b]).start by {
        assert(ivs[a].end < ivs[b].start);
    }
    assert forall|a: int| 0 <= a < front.len() - 1 implies (#[trigger] front[a]).end + 1
        == front[a + 1].start by {
        assert(ivs[a].end + 1 == ivs[a + 1].start);
    }
    if front.len() > 0 {
        assert(front.last() == ivs[n - 1]);
        assert(ivs[n - 1].end + 1 == ivs[n].start);
    }
    assert forall|a: int| 0 <= a < front.len() implies 0 <= (#[trigger] front[a]).start
        && front[a].end < ivs.last().start by {
        assert(ivs[a].end < ivs[n].start);
    }
}

/// The verdict that a single interval gives to an index.
proof fn lemma_verdict_one(iv: IdxValue<()>, i: int)
    ensures
        verdict_at(seq![iv], i) == if iv.start <= i <= iv.end {
            Some(iv.result)
        } else {
            None
        },
{
    assert(seq![iv].drop_first() =~= Seq::<IdxValue<()>>::empty());
    reveal_with_fuel(verdict_at, 2);
}

/// The verdicts of an ordered queue with one more interval at its end: those
/// of the interval on its indices, and those of the queue before it, which
/// has none from the beginning of the interval on.
proof fn lemma_verdict_split(front: Seq<IdxValue<()>>, y: IdxValue<()>, ivs: Seq<IdxValue<()>>)
    requires
        ordered(front),
        within(front, 0, y.start as int),
        ivs == front.push(y),
    ensures
        forall|j: int| #[trigger]
            verdict_at(ivs, j) == (if y.start <= j <= y.end {
                Some(y.result)
            } else {
                verdict_at(front, j)
            }),
        forall|j: int| j >= y.start ==> (#[trigger] verdict_at(front, j)) is None,
{
    assert(ivs =~= front + seq![y]);
    assert forall|j: int| j >= y.start implies (#[trigger] verdict_at(front, j)) is None by {
        lemma_verdict_outside(front, 0, y.start as int, j);
    }
    assert forall|j: int| #[trigger]
        verdict_at(ivs, j) == (if y.start <= j <= y.end {
            Some(y.result)
        } else {
            verdict_at(front, j)
        }) by {
        lemma_verdict_concat(front, seq![y], j);
        lemma_verdict_one(y, j);
        if j >= y.start {
            lemma_verdict_outside(front, 0, y.start as int, j);
        }
    }
}

} // verus!
