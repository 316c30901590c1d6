//! A minimal content-addressable object store with a staging index.
//!
//! Objects (blobs, trees, commits) are encoded canonically, identified by the
//! lowercase-hex SHA-256 digest of `"<type> <len>\0" + payload`, and persisted
//! under a path derived from that identifier.  A staging index maps
//! working-tree paths to `(mode, identifier)` pairs.

pub mod command;
pub mod errors;
pub mod hashing;
pub mod hexcodec;
pub mod index;
pub mod objects;
pub mod paths;
pub mod store;
pub mod substr;
pub mod worktree;

pub use command::Command;
pub use errors::RitError;
pub use index::{Index, IndexEntry};
pub use objects::{Blob, Commit, GitObject, SerializeObject, Tree, TreeEntry};
pub use store::StorePlan;
pub use worktree::WorkNode;
