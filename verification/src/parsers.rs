//! Indexers for raw tracks.
pub mod aac;
pub mod annex_b;
pub mod ac3;
pub mod common;
pub mod h264;
pub mod laws;
pub mod streams;
