use tsp_core::pattern::Pattern;
use tsp_core::patterns::and_then::AndThenPattern;
use tsp_core::patterns::assertion::AssertPattern;
use tsp_core::patterns::bi_pattern::{BiPattern, BiPatternState};
use tsp_core::patterns::common::NoState;
use tsp_core::patterns::constant::ConstantPattern;
use tsp_core::patterns::function::FunctionPattern;
use tsp_core::patterns::window::WindowPattern;
use tsp_core::queue::{PQueue, PatternResult};

#[derive(Debug, Clone)]
struct TestEvent {
    value: u64,
}

fn events(values: &[u64]) -> Vec<TestEvent> {
    values.iter().map(|v| TestEvent { value: *v }).collect()
}

const S: Option<()> = Some(());
const F: Option<()> = None;

fn verdict<T>(r: PatternResult<T>) -> Option<T> {
    match r {
        PatternResult::Success(t) => Some(t),
        PatternResult::Failure => None,
    }
}

fn drain<T>(q: &mut PQueue<T>) -> Vec<(u64, u64, Option<T>)> {
    let mut out = Vec::new();
    while let Some(iv) = q.dequeue_option() {
        out.push((iv.start, iv.end, verdict(iv.result)));
    }
    out
}

/// Feeds `values` to `pattern` in batches of the given sizes.
fn run<P: Pattern<Event = TestEvent>>(
    pattern: &P,
    values: &[u64],
    batches: &[usize],
) -> Vec<(u64, u64, Option<P::T>)> {
    let all = events(values);
    let mut queue = PQueue::default();
    let mut state = pattern.initial_state();
    let mut at = 0usize;
    for n in batches {
        pattern.apply(at as u64, &all[at..at + n], &mut queue, &mut state);
        at += n;
    }
    assert_eq!(at, all.len());
    drain(&mut queue)
}

fn value_pattern() -> FunctionPattern<TestEvent, fn(&TestEvent) -> u64, u64> {
    fn value(e: &TestEvent) -> u64 {
        e.value
    }
    FunctionPattern::new(value as fn(&TestEvent) -> u64)
}

fn less(a: &u64, b: &u64) -> bool {
    a < b
}

type Below = AssertPattern<
    BiPattern<
        FunctionPattern<TestEvent, fn(&TestEvent) -> u64, u64>,
        ConstantPattern<TestEvent, u64>,
        fn(&u64, &u64) -> bool,
    >,
>;

fn below_35() -> Below {
    AssertPattern::new(BiPattern::new(
        value_pattern(),
        ConstantPattern::new(PatternResult::Success(35)),
        less as fn(&u64, &u64) -> bool,
    ))
}

const STREAM: [u64; 6] = [33, 34, 34, 36, 36, 34];

#[test]
fn constant_pattern_gives_one_interval() {
    let pattern: ConstantPattern<TestEvent, u64> = ConstantPattern::new(PatternResult::Success(3));
    assert_eq!(run(&pattern, &[1, 2, 3, 4, 5, 6], &[6]), vec![(0, 5, Some(3))]);
    assert_eq!(pattern.width(), 0);
}

#[test]
fn constant_pattern_ignores_empty_batch() {
    let pattern: ConstantPattern<TestEvent, u64> = ConstantPattern::new(PatternResult::Failure);
    assert_eq!(run(&pattern, &[], &[0]), vec![]);
    assert_eq!(run(&pattern, &[7, 8], &[0, 2, 0]), vec![(0, 1, None)]);
}

#[test]
fn constant_pattern_batches_fuse() {
    let pattern: ConstantPattern<TestEvent, u64> = ConstantPattern::new(PatternResult::Success(3));
    assert_eq!(run(&pattern, &[1, 2, 3, 4, 5, 6], &[2, 3, 1]), vec![(0, 5, Some(3))]);
}

#[test]
fn cloned_constant_pattern_gives_the_same() {
    let pattern: ConstantPattern<TestEvent, u64> = ConstantPattern::new(PatternResult::Success(3));
    let copy = pattern.clone();
    assert_eq!(run(&copy, &[1, 2], &[2]), run(&pattern, &[1, 2], &[2]));
}

#[test]
fn function_pattern_joins_equal_values() {
    let pattern = value_pattern();
    assert_eq!(
        run(&pattern, &[34, 34, 36, 34, 34], &[5]),
        vec![(0, 1, Some(34)), (2, 2, Some(36)), (3, 4, Some(34))]
    );
    assert_eq!(pattern.width(), 0);
}

#[test]
fn function_pattern_one_by_one_or_all_at_once() {
    let pattern = value_pattern();
    let values = [34, 34, 36, 34, 34, 34, 1, 1, 2];
    let once = run(&pattern, &values, &[9]);
    let single = run(&pattern, &values, &[1, 1, 1, 1, 1, 1, 1, 1, 1]);
    let mixed = run(&pattern, &values, &[2, 0, 4, 3]);
    assert_eq!(once, single);
    assert_eq!(once, mixed);
    assert_eq!(once.len(), 5);
}

#[test]
fn bi_pattern_combines_where_both_classified() {
    let pattern = BiPattern::new(
        value_pattern(),
        ConstantPattern::new(PatternResult::Success(35)),
        less as fn(&u64, &u64) -> bool,
    );
    assert_eq!(
        run(&pattern, &STREAM, &[6]),
        vec![(0, 2, Some(true)), (3, 4, Some(false)), (5, 5, Some(true))]
    );
    assert_eq!(pattern.width(), 0);
}

#[test]
fn bi_pattern_fails_where_one_fails() {
    let pattern = BiPattern::new(
        value_pattern(),
        ConstantPattern::new(PatternResult::<u64>::Failure),
        less as fn(&u64, &u64) -> bool,
    );
    assert_eq!(run(&pattern, &STREAM, &[6]), vec![(0, 5, None)]);
}

#[test]
fn bi_pattern_apply_func() {
    let pattern = BiPattern::new(
        value_pattern(),
        ConstantPattern::<TestEvent, u64>::new(PatternResult::Success(35)),
        less as fn(&u64, &u64) -> bool,
    );
    assert_eq!(
        verdict(pattern.apply_func(&PatternResult::Success(1), &PatternResult::Success(2))),
        Some(true)
    );
    assert_eq!(
        verdict(pattern.apply_func(&PatternResult::Success(2), &PatternResult::Success(2))),
        Some(false)
    );
    assert_eq!(
        verdict(pattern.apply_func(&PatternResult::Failure, &PatternResult::Success(2))),
        None
    );
    assert_eq!(
        verdict(pattern.apply_func(&PatternResult::Success(2), &PatternResult::Failure)),
        None
    );
}

#[test]
fn bi_pattern_state_new() {
    let pattern = BiPattern::new(
        value_pattern(),
        ConstantPattern::new(PatternResult::Success(35)),
        less as fn(&u64, &u64) -> bool,
    );
    let mut state: BiPatternState<NoState, u64, NoState, u64> =
        BiPatternState::new(NoState, NoState);
    let mut queue = PQueue::default();
    pattern.apply(0, &events(&[1, 40]), &mut queue, &mut state);
    assert_eq!(drain(&mut queue), vec![(0, 0, Some(true)), (1, 1, Some(false))]);
}

#[test]
fn assert_pattern_over_the_stream() {
    let pattern = below_35();
    assert_eq!(run(&pattern, &STREAM, &[6]), vec![(0, 2, S), (3, 4, F), (5, 5, S)]);
    assert_eq!(run(&pattern, &STREAM, &[1, 1, 1, 1, 1, 1]), vec![(0, 2, S), (3, 4, F), (5, 5, S)]);
    assert_eq!(pattern.width(), 0);
}

#[test]
fn window_pattern_over_the_stream() {
    let pattern = WindowPattern::new(below_35(), 2);
    assert_eq!(run(&pattern, &STREAM, &[6]), vec![(1, 2, S), (3, 4, F)]);
    assert_eq!(pattern.width(), 1);
}

#[test]
fn window_pattern_in_slices() {
    let pattern = WindowPattern::new(below_35(), 2);
    let once = run(&pattern, &STREAM, &[6]);
    assert_eq!(run(&pattern, &STREAM, &[1, 1, 1, 1, 1, 1]), once);
    assert_eq!(run(&pattern, &STREAM, &[2, 3, 1]), once);
}

#[test]
fn window_pattern_run_completes_later() {
    let pattern = WindowPattern::new(below_35(), 3);
    let values = [36, 1, 1, 1, 1, 40, 2, 2];
    let expected = vec![(0, 0, F), (3, 4, S), (5, 5, F)];
    assert_eq!(run(&pattern, &values, &[8]), expected);
    assert_eq!(run(&pattern, &values, &[1, 1, 1, 1, 1, 1, 1, 1]), expected);
    assert_eq!(pattern.width(), 2);
}

#[test]
fn window_of_one_repeats_the_inner_pattern() {
    let pattern = WindowPattern::new(below_35(), 1);
    assert_eq!(run(&pattern, &STREAM, &[6]), vec![(0, 2, S), (3, 4, F), (5, 5, S)]);
    assert_eq!(pattern.width(), 0);
}

#[test]
fn and_then_pattern_over_the_stream() {
    let pattern = AndThenPattern::new(below_35(), WindowPattern::new(below_35(), 2));
    assert_eq!(run(&pattern, &STREAM, &[6]), vec![(2, 2, S), (3, 4, F)]);
    assert_eq!(pattern.width(), 2);
}

#[test]
fn and_then_pattern_in_slices() {
    let pattern = AndThenPattern::new(below_35(), below_35());
    let values = [1, 1, 40, 1, 1, 1, 40, 40, 1];
    let once = run(&pattern, &values, &[9]);
    assert_eq!(once, vec![(1, 1, S), (2, 3, F), (4, 5, S), (6, 8, F)]);
    assert_eq!(run(&pattern, &values, &[1, 1, 1, 1, 1, 1, 1, 1, 1]), once);
    assert_eq!(run(&pattern, &values, &[4, 5]), once);
    assert_eq!(pattern.width(), 1);
}

#[test]
fn widths_add_up() {
    let window = WindowPattern::new(below_35(), 5);
    assert_eq!(window.width(), 4);
    let inner = WindowPattern::new(below_35(), 3);
    let and_then = AndThenPattern::new(window.clone(), inner.clone());
    assert_eq!(and_then.width(), 1 + 4 + 2);
    let bi = BiPattern::new(window, inner, |_: &(), _: &()| true);
    assert_eq!(bi.width(), 4);
    let outer = WindowPattern::new(and_then, 2);
    assert_eq!(outer.width(), 1 + 7);
}

#[test]
fn emitted_intervals_are_in_order() {
    let pattern = AndThenPattern::new(below_35(), WindowPattern::new(below_35(), 2));
    let values: Vec<u64> = (0..40).map(|i| if (i * 7) % 5 < 3 { 1 } else { 40 }).collect();
    let got = run(&pattern, &values, &[7, 13, 0, 20]);
    assert!(!got.is_empty());
    for w in got.windows(2) {
        assert!(w[0].0 <= w[0].1);
        assert!(w[0].1 < w[1].0);
        assert_ne!(w[0].2, w[1].2);
    }
}

fn always(_: &(), _: &()) -> bool {
    true
}

fn nonzero(e: &TestEvent) -> bool {
    e.value != 0
}

#[test]
fn merging_across_a_gap_shows_in_a_bi_pattern() {
    // The left pattern fails on 1..=4 and on 6..=8 and leaves index 5 open;
    // the right pattern has classified 3..=5 only.
    let left = BiPattern::new(
        WindowPattern::new(below_35(), 2),
        ConstantPattern::new(PatternResult::<()>::Failure),
        always as fn(&(), &()) -> bool,
    );
    let right = WindowPattern::new(
        AssertPattern::new(FunctionPattern::new(nonzero as fn(&TestEvent) -> bool)),
        4,
    );
    let pattern = BiPattern::new(left, right, (|_, _| true) as fn(&bool, &()) -> bool);
    let values = [1, 1, 1, 40, 40, 0, 1, 1, 1];
    // In one batch the left queue holds one failure from 1 to 8, merged
    // across index 5, and so index 5 is classified.
    assert_eq!(run(&pattern, &values, &[9]), vec![(3, 5, None)]);
    // In two batches the first failure has left the queue before the second
    // arrives, and index 5 stays open.
    assert_eq!(run(&pattern, &values, &[5, 4]), vec![(3, 4, None)]);
}

#[test]
fn merging_across_a_gap_shows_in_an_and_then_pattern() {
    // The second pattern fails wherever it classifies, and leaves open the
    // index at which a run of successes of its window begins.
    let second = AssertPattern::new(BiPattern::new(
        WindowPattern::new(below_35(), 2),
        ConstantPattern::new(PatternResult::<()>::Failure),
        always as fn(&(), &()) -> bool,
    ));
    let first = AssertPattern::new(FunctionPattern::new(nonzero as fn(&TestEvent) -> bool));
    let pattern = AndThenPattern::new(first, second);
    let values = [0, 40, 0, 0];
    // In one batch the second queue holds one failure from 0 to 3, merged
    // across index 2.
    assert_eq!(run(&pattern, &values, &[4]), vec![(2, 3, None)]);
    // In two batches the failure that ends at 1 has left the queue before the
    // failure at 3 arrives.
    assert_eq!(run(&pattern, &values, &[2, 2]), vec![(3, 3, None)]);
}
