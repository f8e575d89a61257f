//! A learned index over sorted `u64` keys: a greedy error-bounded spline
//! over the keys, with a radix table that narrows each lookup to a few
//! spline segments.

pub mod builder;
pub mod common;
pub mod corridor;
pub mod keyfile;
pub mod lookup;
pub mod radix;
pub mod spline_corridor;

pub use builder::Builder;
pub use common::{BuildError, Direction, Line, Point};
pub use radix::RadixSpline;
pub use spline_corridor::GreedySplineCorridor;
