use tsp_core::datum::Datum;
use tsp_core::queue::PatternResult;

#[test]
fn same_is_equality() {
    assert!(3u64.same(&3));
    assert!(!3u64.same(&4));
    assert!(true.same(&true));
    assert!(!true.same(&false));
    assert!(().same(&()));
    assert!((-7i32).same(&-7));
    assert!('a'.same(&'a'));
    assert!(!'a'.same(&'b'));
    let (x, y) = (5usize, 5usize);
    assert!((&x).same(&&y));
}

#[test]
fn duplicate_is_a_copy() {
    assert_eq!(3u64.duplicate(), 3);
    assert_eq!(false.duplicate(), false);
    assert_eq!(().duplicate(), ());
    assert_eq!(200u8.duplicate(), 200);
    assert_eq!((-3i64).duplicate(), -3);
}

#[test]
fn verdicts_compare_by_variant_and_payload() {
    let s3: PatternResult<u64> = PatternResult::Success(3);
    let s4: PatternResult<u64> = PatternResult::Success(4);
    let f: PatternResult<u64> = PatternResult::Failure;
    assert!(s3.same(&PatternResult::Success(3)));
    assert!(!s3.same(&s4));
    assert!(!s3.same(&f));
    assert!(f.same(&PatternResult::Failure));
    assert_eq!(s3, PatternResult::Success(3));
    assert_ne!(s3, s4);
    assert_ne!(s3, f);
    assert_eq!(f, PatternResult::Failure);
    assert_eq!(s4.duplicate(), s4);
    assert_eq!(f.duplicate(), f);
}
