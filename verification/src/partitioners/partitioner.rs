//! The keys by which a stream is split.

use std::marker::PhantomData;
use vstd::prelude::*;

use crate::datum::Datum;

verus! {

/// Gives every event the key of the partition that it belongs to.
pub trait Partitioner {
    type Event;

    type T: Datum;

    /// The partitioner is usable.
    spec fn wf(&self) -> bool;

    /// The key of `event`.
    spec fn spec_key(&self, event: Self::Event) -> Self::T;

    /// Every function that the partitioner holds has a result where
    /// `spec_key` applies it for `event`.
    spec fn defined(&self, event: Self::Event) -> bool;

    fn partition_key(&self, event: &Self::Event) -> (key: Self::T)
        requires
            self.wf(),
        ensures
            key == self.spec_key(*event),
            self.defined(*event),
    ;
}

/// Puts every event into one partition, whose key is the unit.
#[derive(Default)]
pub struct NoPartitioner<E> {
    pf: PhantomData<E>,
}

impl<E> NoPartitioner<E> {
    /// The partitioner: there is one, as it holds nothing.
    pub closed spec fn spec_new() -> Self {
        NoPartitioner { pf: PhantomData }
    }

    /// Makes the partitioner.
    pub fn new() -> (r: Self)
        ensures
            r == Self::spec_new(),
    {
        NoPartitioner { pf: PhantomData }
    }
}

impl<E> Partitioner for NoPartitioner<E> {
    type Event = E;

    type T = ();

    open spec fn wf(&self) -> bool {
        true
    }

    open spec fn spec_key(&self, event: E) -> () {
        ()
    }

    open spec fn defined(&self, event: E) -> bool {
        true
    }

    fn partition_key(&self, _event: &E) -> (key: ()) {
    }
}

/// `f` accepts every event, and gives one key for one event.
pub open spec fn is_key_function<'a, E: 'a, T, F: Fn(&'a E) -> T>(f: F) -> bool {
    &&& forall|e: &'a E| #[trigger] call_requires(f, (e,))
    &&& forall|e: &'a E, a: T, b: T|
        #[trigger] call_ensures(f, (e,), a) && #[trigger] call_ensures(f, (e,), b) ==> a == b
}

/// The key that `f` gives for the event `e`.
pub open spec fn key_of<'a, E: 'a, T, F: Fn(&'a E) -> T>(f: F, e: &'a E) -> T {
    choose|t: T| call_ensures(f, (e,), t)
}

/// Keys every event, taken by reference, by a function of it.
pub struct FunctionPartitioner<'a, E: 'a, T, F> {
    func: F,
    ph: PhantomData<(&'a E, T)>,
}

impl<'a, E: 'a, T, F> FunctionPartitioner<'a, E, T, F> where F: Fn(&'a E) -> T {
    /// The function that gives the key.
    pub closed spec fn spec_func(&self) -> F {
        self.func
    }

    /// Makes the partitioner that keys by `func`.
    pub fn new(func: F) -> (r: Self)
        ensures
            r.spec_func() == func,
    {
        FunctionPartitioner { func, ph: PhantomData }
    }
}

impl<'a, E: 'a, T: Datum, F> Partitioner for FunctionPartitioner<'a, E, T, F> where
    F: Fn(&'a E) -> T,
 {
    type Event = &'a E;

    type T = T;

    open spec fn wf(&self) -> bool {
        is_key_function(self.spec_func())
    }

    open spec fn spec_key(&self, event: &'a E) -> T {
        key_of(self.spec_func(), event)
    }

    open spec fn defined(&self, event: &'a E) -> bool {
        call_ensures(self.spec_func(), (event,), key_of(self.spec_func(), event))
    }

    fn partition_key(&self, event: &&'a E) -> (key: T) {
        (self.func)(*event)
    }
}

} // verus!
