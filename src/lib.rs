//! Greedy best-fit cutting of fixed-length moldings into requested pieces.

pub mod error;
pub mod molding;
pub mod molding_set;
pub mod laws;
