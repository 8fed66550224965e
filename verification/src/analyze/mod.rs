//! The analysis of a track: what is found out about it, stage by stage.

pub mod audio;
pub mod bands;
pub mod decode;
pub mod envelope;
pub mod error;
pub mod features;
pub mod groups;
pub mod keys;
pub mod links;
pub mod onset;
pub mod pipeline;
pub mod repeats;
pub mod report;
pub mod similarity;
pub mod tempo;
