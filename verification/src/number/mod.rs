//! Numbers: IEEE 754 binary64 values with exact contracts.

pub mod binary64;
pub mod fixed;
pub mod integral;
pub mod laws;
pub mod lists;
pub mod root;
pub mod rounding;
pub mod single;
pub mod sorting;
