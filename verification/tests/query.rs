use tsp_core::partitioners::partition_iterator::PartitionIterTool;
use tsp_core::partitioners::partitioner::{FunctionPartitioner, NoPartitioner};
use tsp_core::patterns::assertion::AssertPattern;
use tsp_core::patterns::bi_pattern::BiPattern;
use tsp_core::patterns::constant::ConstantPattern;
use tsp_core::patterns::function::FunctionPattern;
use tsp_core::patterns::window::WindowPattern;
use tsp_core::projections::projection::{ConstantProjection, FirstProjection, LastProjection};
use tsp_core::query::{scaled_hint, Chunker, SimpleMachineMapper, TSPIter};
use tsp_core::queue::PatternResult;

#[derive(Debug, PartialEq)]
struct TestEvent {
    key: u64,
    value: u64,
}

fn events(values: &[u64]) -> Vec<TestEvent> {
    values.iter().map(|v| TestEvent { key: 0, value: *v }).collect()
}

fn value(e: &&TestEvent) -> u64 {
    e.value
}

fn less(a: &u64, b: &u64) -> bool {
    a < b
}

#[test]
fn constant_pattern_with_constant_projection() {
    let input = events(&[1, 2, 3, 4, 5, 6]);
    let mapper = SimpleMachineMapper::new(
        ConstantProjection::new(7),
        ConstantPattern::new(PatternResult::Success(3)),
        NoPartitioner::new(),
    );
    let mut iter = mapper.run(input.iter(), 10);
    assert_eq!(iter.next(), Some(7));
    assert_eq!(iter.next(), None);
    assert_eq!(iter.next(), None);
}

#[test]
fn function_pattern_with_first_projection() {
    let input = events(&[34, 34, 36, 34, 34]);
    let mapper = SimpleMachineMapper::new(
        FirstProjection::new(value),
        FunctionPattern::new(value),
        NoPartitioner::new(),
    );
    let mut iter = mapper.run(input.iter(), 10);
    assert_eq!(iter.next(), Some(34));
    assert_eq!(iter.next(), Some(36));
    assert_eq!(iter.next(), Some(34));
    assert_eq!(iter.next(), None);
}

#[test]
fn function_pattern_with_last_projection_in_small_chunks() {
    let input = events(&[34, 34, 36, 34, 35]);
    let mapper = SimpleMachineMapper::new(
        LastProjection::new(|e: &&TestEvent| (e.value, e.value + 1)),
        FunctionPattern::new(|e: &&TestEvent| e.value / 2),
        NoPartitioner::new(),
    );
    let mut iter = mapper.run(input.iter(), 2);
    let mut got = Vec::new();
    while let Some(v) = iter.next() {
        got.push(v);
    }
    // The chunks are (34, 34), (36, 34), (35); every chunk's intervals are
    // handed out before the next chunk is taken, so the halves 17, 18, 17, 17
    // give four intervals.
    assert_eq!(got, vec![(34, 35), (36, 37), (34, 35), (35, 36)]);
}

#[test]
fn failures_are_projected_too() {
    let input = events(&[33, 34, 34, 36, 36, 34]);
    let mapper = SimpleMachineMapper::new(
        FirstProjection::new(value),
        WindowPattern::new(
            AssertPattern::new(BiPattern::new(
                FunctionPattern::new(value),
                ConstantPattern::new(PatternResult::Success(35)),
                less,
            )),
            2,
        ),
        NoPartitioner::new(),
    );
    let mut iter = mapper.run(input.iter(), 10);
    assert_eq!(iter.next(), Some(34));
    assert_eq!(iter.next(), Some(36));
    assert_eq!(iter.next(), None);
}

#[test]
fn partitions_are_indexed_apart() {
    let input = vec![
        TestEvent { key: 1, value: 10 },
        TestEvent { key: 2, value: 20 },
        TestEvent { key: 1, value: 11 },
        TestEvent { key: 2, value: 20 },
        TestEvent { key: 1, value: 11 },
        TestEvent { key: 1, value: 12 },
    ];
    let partitioner = FunctionPartitioner::new(|e: &TestEvent| e.key);
    let mapper = SimpleMachineMapper::new(
        FirstProjection::new(|e: &&TestEvent| (e.key, e.value)),
        FunctionPattern::new(value),
        NoPartitioner::new(),
    );
    // One partition: the stream as it comes.
    let mut iter = mapper.run(input.iter(), 100);
    let mut got = Vec::new();
    while let Some(v) = iter.next() {
        got.push(v);
    }
    assert_eq!(got, vec![(1, 10), (2, 20), (1, 11), (2, 20), (1, 11), (1, 12)]);

    // Two partitions: each is classified on its own.
    let mapper = SimpleMachineMapper::new(
        FirstProjection::new(|e: &&TestEvent| (e.key, e.value)),
        FunctionPattern::new(value),
        partitioner,
    );
    let mut iter = mapper.run(input.iter(), 100);
    let mut got = Vec::new();
    while let Some(v) = iter.next() {
        got.push(v);
    }
    assert_eq!(got, vec![(1, 10), (1, 11), (1, 12), (2, 20)]);
}

#[test]
fn query_over_a_configured_partition_iterator() {
    let input = events(&[5, 5, 6, 6, 6, 7]);
    let mapper = SimpleMachineMapper::new(
        FirstProjection::new(value),
        FunctionPattern::new(value),
        NoPartitioner::new(),
    );
    let partitioner = NoPartitioner::new();
    let mut iter = TSPIter::new(&mapper, input.iter().partition_by(&partitioner, 100, 3));
    let mut got = Vec::new();
    while let Some(v) = iter.next() {
        got.push(v);
    }
    // Chunks of three events: (5, 5, 6) and (6, 6, 7).
    assert_eq!(got, vec![5, 6, 6, 7]);
}

#[test]
fn query_over_nothing() {
    let input: Vec<TestEvent> = vec![];
    let mapper = SimpleMachineMapper::new(
        ConstantProjection::new(7),
        ConstantPattern::new(PatternResult::Success(3)),
        NoPartitioner::new(),
    );
    let mut iter = mapper.run(input.iter(), 10);
    assert_eq!(iter.next(), None);
}

#[test]
fn chunker_hands_out_fixed_chunks() {
    let mut chunker = Chunker::new(vec![1, 2, 3, 4, 5].into_iter(), 2);
    assert_eq!(chunker.size_hint(), (5, Some(2)));
    assert_eq!(chunker.next(), Some(vec![1, 2]));
    assert_eq!(chunker.next(), Some(vec![3, 4]));
    assert_eq!(chunker.next(), Some(vec![5]));
    assert_eq!(chunker.next(), None);
    assert_eq!(chunker.next(), None);
}

#[test]
fn scaled_hint_divides_the_upper_bound() {
    assert_eq!(scaled_hint((7, Some(7)), 2), (7, Some(3)));
    assert_eq!(scaled_hint((7, None), 2), (7, None));
    assert_eq!(scaled_hint((0, Some(0)), 5), (0, Some(0)));
}
