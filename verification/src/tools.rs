//! The toolchain around binstruct files.
pub mod cluster_laws;
pub mod gen;
pub mod inspect;
pub mod inspect_laws;
pub mod laws;
pub mod manifest_laws;
pub mod message_laws;
pub mod mkv;
pub mod scan_laws;
pub mod verify;
pub mod verify_manifest;
