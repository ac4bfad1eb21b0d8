//! A temporal stream pattern engine.
//!
//! A tree of patterns classifies the events of a stream, index by index, as
//! successes and failures, and hands the classification on as intervals: runs
//! of indices with one verdict. A query feeds a stream through such a tree,
//! partition by partition, and turns every interval into a value for the
//! user.
//!
//! - `queue` holds verdicts, intervals and the interval queue.
//! - `pattern` holds what every pattern promises, `patterns` the patterns.
//! - `partitioners` splits a stream into chunks of events that share a key.
//! - `projections` turns intervals into values.
//! - `query` drives all of it.
//!
//! Every function states what it returns and changes over plain mathematical
//! values: a queue is a sequence of intervals, a state is what it holds, and
//! what a pattern does with a batch is a function of the batch and the state.
//!
//! Patterns, projections and partitioners may hold functions of the caller.
//! Such a function has to accept every argument and to give one result for
//! one argument; the models speak of that result as `value_of`. Verus does
//! not look into the model of a pattern whose function is of a type that only
//! the caller knows, such as a closure's. Verified code that builds such a
//! pattern is therefore written generic over the type of the function, and
//! states what it needs of the function in its own `requires`.

pub mod datum;
pub mod partitioners;
pub mod pattern;
pub mod patterns;
pub mod projections;
pub mod query;
pub mod queue;
pub mod verdict_eq;
