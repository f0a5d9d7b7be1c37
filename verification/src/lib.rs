//! Reconstructs Matroska files on the fly from raw tracks and a structure
//! description.
pub mod binstruct;
pub mod bytes;
pub mod compress;
pub mod filter;
pub mod fs;
pub mod hash;
pub mod ids;
pub mod layouts;
pub mod manifest;
pub mod muxer;
pub mod parsers;
pub mod spelling;
pub mod stored;
pub mod text;
pub mod tools;
pub mod vfr;
pub mod vint;
