//! Error taxonomy for the object store and staging index.

use vstd::prelude::*;

verus! {

/// A typed failure of a core operation.  Every fallible operation of this
/// crate reports one of these instead of aborting the process.
#[derive(Clone, Copy, Debug, PartialEq, Eq, Structural)]
pub enum RitError {
    /// A required command or path argument is missing or unusable.
    Argument,
    /// A staged path was rejected: its final segment is the reserved
    /// control-directory name or starts with the hidden-file marker.
    PathRejected,
    /// A file or directory read, write, or create failed.
    Io,
    /// A line of the index file is not `"<path> <mode> <id>"`.
    IndexFormat,
    /// An object identifier is not a well-formed hex string.
    InvalidId,
}

} // verus!
