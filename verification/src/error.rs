//! The error that processing a region or a chunk ends in.

use vstd::prelude::*;
use vstd::string::*;

verus! {

/// Why a region could not be processed.
#[derive(Debug)]
pub enum ProcessError {
    /// A file could not be read, written, removed or renamed.
    IoError(std::io::Error),
    /// The region container could not be opened, created or written.
    RegionError(String),
    /// A chunk's document could not be scanned.
    ChunkError(String),
}

impl From<std::io::Error> for ProcessError {
    fn from(error: std::io::Error) -> (r: ProcessError) {
        ProcessError::IoError(error)
    }
}

impl vstd::std_specs::convert::FromSpecImpl<std::io::Error> for ProcessError {
    open spec fn obeys_from_spec() -> bool {
        true
    }

    open spec fn from_spec(error: std::io::Error) -> ProcessError {
        ProcessError::IoError(error)
    }
}

/// Whether `text` is the message of `error`: the name of its kind, then
/// what it carries.
pub open spec fn describes(text: Seq<char>, error: ProcessError) -> bool {
    match error {
        ProcessError::IoError(_) => exists|cause: Seq<char>| text == "IO error: "@ + cause,
        ProcessError::RegionError(msg) => text == "Region error: "@ + msg@,
        ProcessError::ChunkError(msg) => text == "Chunk error: "@ + msg@,
    }
}

impl ProcessError {
    /// The error in words.
    pub fn message(&self) -> (text: String)
        ensures
            describes(text@, *self),
    {
        match self {
            ProcessError::IoError(e) => {
                let cause = e.to_string();
                String::from_str("IO error: ").concat(cause.as_str())
            },
            ProcessError::RegionError(msg) => String::from_str("Region error: ").concat(
                msg.as_str(),
            ),
            ProcessError::ChunkError(msg) => String::from_str("Chunk error: ").concat(
                msg.as_str(),
            ),
        }
    }
}

} // verus!
