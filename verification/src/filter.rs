//! Which tracks and subtitles a user gets to see.
pub mod laws;
pub mod prefs;
pub mod resolve;
pub mod subs;
pub mod track_meta;
pub mod validate;
