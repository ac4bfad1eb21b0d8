//! Turning classified intervals into values for the user.

pub mod projection;

pub use self::projection::{
    ConstantProjection, FirstProjection, LastProjection, NoProjectionState, Projection,
    QueueProjectionState,
};
