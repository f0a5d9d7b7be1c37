//! Stateless reconstruction of a virtual Matroska file.
pub mod coordinator;
pub mod ebml;
pub mod frame_laws;
pub mod laws;
pub mod layout;
pub mod materializer;
pub mod plan;
pub mod read_back;
pub mod reader_laws;
pub mod transformer;
pub mod types;
pub mod vfr_index;
