//! A non-negative span of time with nanosecond resolution, its checked and
//! saturating arithmetic, its exact conversion from binary floating-point
//! bit patterns, and its adaptive human-readable rendering.

pub mod duration;
pub mod float_bits;
pub mod laws;
pub mod render;

pub use duration::Duration;
pub use float_bits::{FromFloatSecsError, FromFloatSecsErrorKind};
pub use render::{Alignment, FormatOptions};
