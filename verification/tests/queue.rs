use tsp_core::queue::{IdxValue, PQueue, PatternResult};

fn drain<T>(q: &mut PQueue<T>) -> Vec<(u64, u64, PatternResult<T>)> {
    let mut out = Vec::new();
    while let Some(iv) = q.dequeue_option() {
        out.push((iv.start, iv.end, iv.result));
    }
    out
}

fn same(a: &PatternResult<u64>, b: &PatternResult<u64>) -> bool {
    match (a, b) {
        (PatternResult::Failure, PatternResult::Failure) => true,
        (PatternResult::Success(x), PatternResult::Success(y)) => x == y,
        _ => false,
    }
}

#[test]
fn enqueue_joined_merges_equal_verdicts() {
    let mut q: PQueue<u64> = PQueue::default();
    q.enqueue_joined(IdxValue::new(0, 0, PatternResult::Success(34)));
    q.enqueue_joined(IdxValue::new(1, 1, PatternResult::Success(34)));
    q.enqueue_joined(IdxValue::new(2, 2, PatternResult::Success(36)));
    assert_eq!(q.size(), 2);
    let got = drain(&mut q);
    assert_eq!((got[0].0, got[0].1), (0, 1));
    assert!(same(&got[0].2, &PatternResult::Success(34)));
    assert_eq!((got[1].0, got[1].1), (2, 2));
    assert!(same(&got[1].2, &PatternResult::Success(36)));
}

#[test]
fn enqueue_joined_merges_across_a_gap() {
    let mut q: PQueue<u64> = PQueue::default();
    q.enqueue_joined(IdxValue::new(0, 1, PatternResult::Failure));
    q.enqueue_joined(IdxValue::new(5, 7, PatternResult::Failure));
    assert_eq!(q.size(), 1);
    let head = q.head_option().unwrap();
    assert_eq!((head.start, head.end), (0, 7));
}

#[test]
fn enqueue_joined_never_leaves_equal_neighbours() {
    let verdicts = [
        PatternResult::Success(1u64),
        PatternResult::Success(1),
        PatternResult::Failure,
        PatternResult::Failure,
        PatternResult::Success(2),
        PatternResult::Success(1),
        PatternResult::Success(1),
    ];
    let mut q: PQueue<u64> = PQueue::default();
    for (i, v) in verdicts.into_iter().enumerate() {
        q.enqueue_joined(IdxValue::new(i as u64, i as u64, v));
    }
    let got = drain(&mut q);
    assert_eq!(got.len(), 4);
    for w in got.windows(2) {
        assert!(!same(&w[0].2, &w[1].2));
        assert!(w[0].1 < w[1].0);
    }
}

#[test]
fn enqueue_one_does_not_merge() {
    let mut q: PQueue<u64> = PQueue::default();
    q.enqueue_one(IdxValue::new(0, 0, PatternResult::Success(34)));
    q.enqueue_one(IdxValue::new(1, 1, PatternResult::Success(34)));
    assert_eq!(q.size(), 2);
}

#[test]
fn enqueue_appends_all() {
    let mut q: PQueue<u64> = PQueue::default();
    q.enqueue_one(IdxValue::new(0, 0, PatternResult::Failure));
    q.enqueue(
        vec![
            IdxValue::new(1, 2, PatternResult::Success(1)),
            IdxValue::new(3, 4, PatternResult::Success(1)),
        ]
        .into_iter(),
    );
    let got = drain(&mut q);
    assert_eq!(got.len(), 3);
    assert_eq!((got[2].0, got[2].1), (3, 4));
}

#[test]
fn head_and_behead() {
    let mut q: PQueue<u64> = PQueue::default();
    assert!(q.head_option().is_none());
    assert!(q.is_empty());
    q.behead();
    assert_eq!(q.size(), 0);
    q.enqueue_one(IdxValue::new(3, 4, PatternResult::Failure));
    q.enqueue_one(IdxValue::new(6, 9, PatternResult::Success(1)));
    assert_eq!(q.head_option().unwrap().start, 3);
    assert_eq!(q.size(), 2);
    q.behead();
    assert_eq!(q.head_option().unwrap().start, 6);
    assert!(q.dequeue_option().is_some());
    assert!(q.dequeue_option().is_none());
}

#[test]
fn rewind_to_drops_and_clamps() {
    let mut q: PQueue<u64> = PQueue::default();
    q.enqueue_one(IdxValue::new(0, 2, PatternResult::Failure));
    q.enqueue_one(IdxValue::new(3, 6, PatternResult::Success(1)));
    q.enqueue_one(IdxValue::new(8, 9, PatternResult::Failure));
    q.rewind_to(5);
    let head = q.head_option().unwrap();
    assert_eq!((head.start, head.end), (5, 6));
    assert_eq!(q.size(), 2);
    q.rewind_to(7);
    let head = q.head_option().unwrap();
    assert_eq!((head.start, head.end), (8, 9));
    assert!(head.start >= 7 && head.end >= 7);
    q.rewind_to(9);
    let head = q.head_option().unwrap();
    assert_eq!((head.start, head.end), (9, 9));
    q.rewind_to(10);
    assert!(q.head_option().is_none());
    q.rewind_to(11);
    assert_eq!(q.size(), 0);
}

#[test]
fn rewind_to_keeps_what_lies_later() {
    let mut q: PQueue<u64> = PQueue::default();
    q.enqueue_one(IdxValue::new(4, 6, PatternResult::Failure));
    q.rewind_to(2);
    let head = q.head_option().unwrap();
    assert_eq!((head.start, head.end), (4, 6));
}
