//! The file tree: one directory per torrent, with a virtual file and subtitles.
pub mod answers;
pub mod inode;
pub mod laws;
pub mod ops;
pub mod tree;
pub mod types;
