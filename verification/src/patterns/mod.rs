//! The patterns: two leaves and four that compose others.

pub mod and_then;
pub mod assertion;
pub mod bi_pattern;
pub mod common;
pub mod constant;
pub mod function;
pub mod window;

pub use self::and_then::{AndThenPattern, AndThenPatternState};
pub use self::assertion::{AssertPattern, AssertPatternState};
pub use self::bi_pattern::{BiPattern, BiPatternState};
pub use self::common::NoState;
pub use self::constant::ConstantPattern;
pub use self::function::FunctionPattern;
pub use self::window::{Window, WindowPattern, WindowPatternState};
