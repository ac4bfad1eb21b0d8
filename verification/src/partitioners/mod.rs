//! Splitting a stream by key.

pub mod partition_iterator;
pub mod partitioner;

pub use self::partition_iterator::{Chunk, PartitionIterTool, PartitionIterator};
pub use self::partitioner::{FunctionPartitioner, NoPartitioner, Partitioner};
