//! The command line: reading arguments and laying out results as text.

pub mod args;
pub mod render;
