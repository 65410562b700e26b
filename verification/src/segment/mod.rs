//! Segment files: format, writer and reader.

pub mod laws;
pub mod layout;
pub mod reader;
pub mod writer;
