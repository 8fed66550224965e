//! Phrase detection: the beat and bar grid, the tree ensembles, the choice of
//! boundaries and the naming of segments.

pub mod basis;
pub mod boundary;
pub mod context;
pub mod contrast;
pub mod decibels;
pub mod error;
pub mod gbm;
pub mod grid;
pub mod label;
pub mod matrix;
pub mod model;
pub mod noise;
pub mod npz;
pub mod phrases;
pub mod refine;
pub mod scaling;
pub mod segments;
pub mod song;
pub mod spectrum;
pub mod sync;
pub mod tuning;
pub mod windows;
