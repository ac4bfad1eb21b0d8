use tsp_core::partitioners::partition_iterator::{Chunk, PartitionIterTool};
use tsp_core::partitioners::partitioner::{FunctionPartitioner, NoPartitioner, Partitioner};

#[derive(Debug, PartialEq)]
struct TestEvent {
    partition_key: usize,
    value: usize,
}

impl TestEvent {
    pub fn new(partition_key: usize, value: usize) -> Self {
        TestEvent { partition_key, value }
    }
}

#[test]
fn works_for_empty_iterator() {
    let empty: Vec<TestEvent> = vec![];
    assert_eq!(
        empty
            .iter()
            .partition_by(&NoPartitioner::<&TestEvent>::new(), 1, 1)
            .next(),
        None
    )
}

#[test]
fn returns_chunks() {
    let input = vec![
        TestEvent::new(0, 1),
        TestEvent::new(0, 2),
        TestEvent::new(0, 3),
        TestEvent::new(0, 4),
        TestEvent::new(0, 5),
        TestEvent::new(0, 6),
    ];

    let partitioner = NoPartitioner::new();
    let mut iterator = input.iter().partition_by(&partitioner, 2, 100);
    assert_eq!(
        iterator.next(),
        Some(Chunk {
            key: (),
            elements: vec![&TestEvent::new(0, 1), &TestEvent::new(0, 2)],
        })
    );
    assert_eq!(
        iterator.next(),
        Some(Chunk {
            key: (),
            elements: vec![&TestEvent::new(0, 3), &TestEvent::new(0, 4)],
        })
    );
    assert_eq!(
        iterator.next(),
        Some(Chunk {
            key: (),
            elements: vec![&TestEvent::new(0, 5), &TestEvent::new(0, 6)],
        })
    );
    assert_eq!(iterator.next(), None);
}

#[test]
fn returns_non_completed_chunks() {
    let input = vec![TestEvent::new(0, 1)];

    let partitioner = NoPartitioner::new();
    let mut iterator = input.iter().partition_by(&partitioner, 100, 100);
    assert_eq!(
        iterator.next(),
        Some(Chunk {
            key: (),
            elements: vec![&TestEvent::new(0, 1)],
        })
    );
    assert_eq!(iterator.next(), None);
}

#[test]
fn respects_total_size_limit() {
    let input = vec![
        TestEvent::new(0, 1),
        TestEvent::new(0, 2),
        TestEvent::new(0, 3),
        TestEvent::new(0, 4),
        TestEvent::new(0, 5),
        TestEvent::new(0, 6),
    ];

    let partitioner = NoPartitioner::new();
    let mut iterator = input.iter().partition_by(&partitioner, 100, 2);
    assert_eq!(
        iterator.next(),
        Some(Chunk {
            key: (),
            elements: vec![&TestEvent::new(0, 1), &TestEvent::new(0, 2)],
        })
    );
    assert_eq!(
        iterator.next(),
        Some(Chunk {
            key: (),
            elements: vec![&TestEvent::new(0, 3), &TestEvent::new(0, 4)],
        })
    );
    assert_eq!(
        iterator.next(),
        Some(Chunk {
            key: (),
            elements: vec![&TestEvent::new(0, 5), &TestEvent::new(0, 6)],
        })
    );
    assert_eq!(iterator.next(), None);
}

#[test]
fn partition_using_function() {
    let input = vec![
        TestEvent::new(0, 1),
        TestEvent::new(1, 2),
        TestEvent::new(0, 3),
        TestEvent::new(1, 4),
        TestEvent::new(0, 5),
        TestEvent::new(1, 6),
    ];
    fn partition_fn(t: &TestEvent) -> usize {
        t.partition_key
    }

    let partitioner = FunctionPartitioner::new(partition_fn);
    let mut iterator = input.iter().partition_by(&partitioner, 2, 100);
    assert_eq!(
        iterator.next(),
        Some(Chunk {
            key: 0,
            elements: vec![&TestEvent::new(0, 1), &TestEvent::new(0, 3)],
        })
    );
    assert_eq!(
        iterator.next(),
        Some(Chunk {
            key: 1,
            elements: vec![&TestEvent::new(1, 2), &TestEvent::new(1, 4)],
        })
    );
    let chunk = iterator.next().expect("");
    assert_eq!(chunk.elements.len(), 1);
    let chunk = iterator.next().expect("");
    assert_eq!(chunk.elements.len(), 1);
    assert_eq!(iterator.next(), None);
}

#[test]
fn partition_using_function_total_size_limited() {
    let input = vec![
        TestEvent::new(0, 1),
        TestEvent::new(1, 2),
        TestEvent::new(0, 3),
        TestEvent::new(1, 4),
        TestEvent::new(0, 5),
        TestEvent::new(1, 6),
    ];
    fn partition_fn(t: &TestEvent) -> usize {
        t.partition_key
    }

    let partitioner = FunctionPartitioner::new(partition_fn);
    let mut iterator = input.iter().partition_by(&partitioner, 2, 1);
    assert!(iterator.next().is_some());
    assert!(iterator.next().is_some());
    assert!(iterator.next().is_some());
    assert!(iterator.next().is_some());
    assert!(iterator.next().is_some());
    assert!(iterator.next().is_some());
    assert!(iterator.next().is_none());
}

#[test]
fn remaining_chunks_come_oldest_key_first() {
    let input = vec![
        TestEvent::new(0, 1),
        TestEvent::new(1, 2),
        TestEvent::new(0, 3),
        TestEvent::new(1, 4),
        TestEvent::new(1, 5),
        TestEvent::new(0, 6),
    ];
    fn partition_fn(t: &TestEvent) -> usize {
        t.partition_key
    }

    let partitioner = FunctionPartitioner::new(partition_fn);
    let mut iterator = input.iter().partition_by(&partitioner, 2, 100);
    assert_eq!(iterator.next().unwrap().key, 0);
    assert_eq!(iterator.next().unwrap().key, 1);
    assert_eq!(
        iterator.next(),
        Some(Chunk {
            key: 1,
            elements: vec![&TestEvent::new(1, 5)],
        })
    );
    assert_eq!(
        iterator.next(),
        Some(Chunk {
            key: 0,
            elements: vec![&TestEvent::new(0, 6)],
        })
    );
    assert_eq!(iterator.next(), None);
    assert_eq!(iterator.next(), None);
}

#[test]
fn total_size_limit_hands_out_the_oldest_buffer() {
    let input = vec![
        TestEvent::new(7, 1),
        TestEvent::new(8, 2),
        TestEvent::new(9, 3),
        TestEvent::new(8, 4),
    ];
    fn partition_fn(t: &TestEvent) -> usize {
        t.partition_key
    }

    let partitioner = FunctionPartitioner::new(partition_fn);
    let mut iterator = input.iter().partition_by(&partitioner, 10, 3);
    assert_eq!(
        iterator.next(),
        Some(Chunk {
            key: 7,
            elements: vec![&TestEvent::new(7, 1)],
        })
    );
    assert_eq!(
        iterator.next(),
        Some(Chunk {
            key: 8,
            elements: vec![&TestEvent::new(8, 2), &TestEvent::new(8, 4)],
        })
    );
    assert_eq!(
        iterator.next(),
        Some(Chunk {
            key: 9,
            elements: vec![&TestEvent::new(9, 3)],
        })
    );
    assert_eq!(iterator.next(), None);
}

#[test]
fn chunks_keep_the_order_within_a_key_and_stay_in_size() {
    let input: Vec<TestEvent> = (0..50).map(|i| TestEvent::new((i * 7) % 3, i)).collect();
    fn partition_fn(t: &TestEvent) -> usize {
        t.partition_key
    }

    let partitioner = FunctionPartitioner::new(partition_fn);
    let mut iterator = input.iter().partition_by(&partitioner, 4, 9);
    let mut seen: Vec<Vec<usize>> = vec![vec![], vec![], vec![]];
    while let Some(chunk) = iterator.next() {
        assert!(!chunk.elements.is_empty());
        assert!(chunk.elements.len() <= 4);
        for e in &chunk.elements {
            assert_eq!(e.partition_key, chunk.key);
            seen[chunk.key].push(e.value);
        }
    }
    for key in 0..3 {
        let expected: Vec<usize> = input
            .iter()
            .filter(|e| e.partition_key == key)
            .map(|e| e.value)
            .collect();
        assert_eq!(seen[key], expected);
    }
}

#[test]
fn partition_keys() {
    fn partition_fn(t: &TestEvent) -> usize {
        t.partition_key
    }
    let event = TestEvent::new(4, 1);
    let by_function = FunctionPartitioner::new(partition_fn);
    assert_eq!(by_function.partition_key(&&event), 4);
    let none = NoPartitioner::<TestEvent>::new();
    assert_eq!(none.partition_key(&event), ());
}

#[test]
fn size_hint_is_the_source_s() {
    let input = vec![TestEvent::new(0, 1), TestEvent::new(0, 2), TestEvent::new(0, 3)];
    let partitioner = NoPartitioner::new();
    let iterator = input.iter().partition_by(&partitioner, 2, 100);
    assert_eq!(iterator.size_hint(), (3, Some(3)));
}
