//! The three kinds of object: blobs, trees and commits.

pub mod blob;
pub mod commit;
pub mod tree;

pub use blob::Blob;
pub use commit::Commit;
pub use tree::{Tree, TreeEntry};
