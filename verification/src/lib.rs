//! Track analysis for DJ libraries: the domain model, the analysis decisions,
//! the phrase model and the exporters, with their behaviour stated and proved.

pub mod analyze;
pub mod cli;
pub mod detect;
pub mod domain;
pub mod export;
pub mod number;
pub mod order;
pub mod shell;
pub mod text;
pub mod unicode;
