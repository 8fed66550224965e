//! Rekordbox XML export: the `DJ_PLAYLISTS` document of one track.

pub mod date;
pub mod document;
pub mod marks;
pub mod names;
pub mod tempo;
pub mod xml;
