//! Pruning of unused chunks from region files.
//!
//! The crate decides which chunks of a region have been lived in, from a
//! counter stored in each chunk's tagged binary document, and plans what is
//! kept, what is dropped and what is deleted. Its functions are verified
//! against the contracts they carry; the few calls into other crates stand
//! behind contracts that are taken on trust, and say so.

pub mod container;
pub mod directory;
pub mod document;
pub mod error;
pub mod grammar;
pub mod laws;
pub mod parser;
pub mod reader;
pub mod region;
pub mod stats;
pub mod text;

pub use crate::error::ProcessError;
