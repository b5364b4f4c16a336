//! # Statistics
//!
//! Tables that count what they are given and keep it in order.
pub mod probtable;

pub use probtable::{Countable, ProbTable, TableIterator};
