//! Boundary-value test generation over an exact interval algebra, and
//! reduction of the generated cases to a pairwise non-overlapping cover.
//!
//! Numbers are fixed-point: a value is an `i64` count of the smallest unit the
//! caller works in, and `i64::MIN` / `i64::MAX` stand for negative and positive
//! infinity.

pub mod interval;
pub mod bva;
pub mod dto;
pub mod test_case_generator;
pub mod util;
pub mod grouping;
pub mod graph_reduction;
pub mod prelude;
pub mod test_value_generator;
