//! What several patterns share.

use vstd::prelude::*;

verus! {

/// The state of a pattern that remembers nothing.
#[derive(Debug, Default)]
pub struct NoState;

impl View for NoState {
    type V = ();

    open spec fn view(&self) -> () {
        ()
    }
}

/// `f` accepts every argument, and gives one result for one argument.
pub open spec fn is_function<E, T, F: Fn(&E) -> T>(f: F) -> bool {
    &&& forall|e: &E| #[trigger] call_requires(f, (e,))
    &&& forall|e: &E, a: T, b: T|
        #[trigger] call_ensures(f, (e,), a) && #[trigger] call_ensures(f, (e,), b) ==> a == b
}

/// The result of `f` for the argument `e`.
pub open spec fn value_of<E, T, F: Fn(&E) -> T>(f: F, e: E) -> T {
    choose|t: T| call_ensures(f, (&e,), t)
}

/// `f` has a result for the argument `e`, and so `value_of(f, e)` is it.
pub open spec fn has_value<E, T, F: Fn(&E) -> T>(f: F, e: E) -> bool {
    call_ensures(f, (&e,), value_of(f, e))
}

/// `f` accepts every pair of arguments, and gives one result for one pair.
pub open spec fn is_function2<A, B, T, F: Fn(&A, &B) -> T>(f: F) -> bool {
    &&& forall|a: &A, b: &B| #[trigger] call_requires(f, (a, b))
    &&& forall|a: &A, b: &B, x: T, y: T|
        #[trigger] call_ensures(f, (a, b), x) && #[trigger] call_ensures(f, (a, b), y) ==> x == y
}

/// The result of `f` for the arguments `a` and `b`.
pub open spec fn value_of2<A, B, T, F: Fn(&A, &B) -> T>(f: F, a: A, b: B) -> T {
    choose|t: T| call_ensures(f, (&a, &b), t)
}

/// `f` has a result for the arguments `a` and `b`, and so
/// `value_of2(f, a, b)` is it.
pub open spec fn has_value2<A, B, T, F: Fn(&A, &B) -> T>(f: F, a: A, b: B) -> bool {
    call_ensures(f, (&a, &b), value_of2(f, a, b))
}

} // verus!
