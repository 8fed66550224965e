//! The domain model: keys, tempo and key segments, beat grids, phrases, cues.

pub mod beatgrid;
pub mod config;
pub mod cue;
pub mod error;
pub mod jumpcue;
pub mod key;
pub mod linear;
pub mod phrase;
pub mod segments;
pub mod track;
pub mod uid;
