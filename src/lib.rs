//! Order-preserving fractional sort keys over a base-36 alphabet.
pub mod alphabet;
pub mod digits;
pub mod encoding;
pub mod placement;
pub mod key;
pub mod sequence;

pub use key::{SortKey, TryFromStringError};
