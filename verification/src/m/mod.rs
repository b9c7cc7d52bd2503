//! Small mathematics: ordering helpers, value ranges and histograms.

pub mod basic;
pub mod range;
pub mod stat;
