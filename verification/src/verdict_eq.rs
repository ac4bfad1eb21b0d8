//! Equality of verdicts.

use vstd::prelude::*;
use vstd::std_specs::cmp::{PartialEqSpec, PartialEqSpecImpl};

use crate::queue::PatternResult;

verus! {

impl<T: PartialEq> PartialEq for PatternResult<T> {
    /// Two verdicts are equal where both are failures, or both are successes
    /// with equal payloads.
    fn eq(&self, other: &Self) -> (r: bool) {
        match (self, other) {
            (PatternResult::Failure, PatternResult::Failure) => true,
            (PatternResult::Success(a), PatternResult::Success(b)) => a == b,
            _ => false,
        }
    }
}

impl<T: PartialEq> PartialEqSpecImpl for PatternResult<T> {
    open spec fn obeys_eq_spec() -> bool {
        T::obeys_eq_spec()
    }

    open spec fn eq_spec(&self, other: &Self) -> bool {
        match (self, other) {
            (PatternResult::Failure, PatternResult::Failure) => true,
            (PatternResult::Success(a), PatternResult::Success(b)) => a.eq_spec(b),
            _ => false,
        }
    }
}

} // verus!
