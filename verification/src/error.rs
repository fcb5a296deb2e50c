//! The failures that the engine reports.

use vstd::prelude::*;
use vstd::string::*;
use vstd::utf8::*;

verus! {

/// Why an operation of the engine failed.
#[derive(Debug, Clone, Copy, PartialEq, Eq, Structural)]
pub enum RitError {
    /// No object is stored under the address.
    NotFound,
    /// A stored object cannot be inflated, has no header, or its declared
    /// length is wrong; or an address is too short to look anything up.
    Corrupt,
    /// Tree bytes that lack a separator or end inside an entry.
    MalformedTree,
    /// Commit text with an author or committer line that cannot be read.
    MalformedCommit,
    /// Commit text without a `tree`, `author` or `committer` line.
    MissingField,
    /// A commit was to be created for a tree that is not in the store.
    UnknownTree,
    /// An object that had to be a commit is of another type.
    NotACommit,
    /// An object that had to be a tree is of another type.
    NotATree,
    /// An object that had to be a blob is of another type.
    NotABlob,
    /// A path that is not in the tree, or names a directory where a file
    /// is asked for.
    PathNotFound,
    /// A tree was to be built from an index without entries.
    EmptyIndex,
    /// An address that is not an even number of hexadecimal digits.
    InvalidAddress,
    /// A staged path with an empty segment.
    InvalidPath,
    /// The object could not be compressed for storage, or its compressed
    /// form did not inflate to it again.
    Io,
}

/// The view of a result that carries bytes.
pub open spec fn bytes_result(res: Result<Vec<u8>, RitError>) -> Result<Seq<u8>, RitError> {
    match res {
        Ok(v) => Ok(v@),
        Err(e) => Err(e),
    }
}

/// The view of a result that carries a text: its bytes.
pub open spec fn text_result(res: Result<String, RitError>) -> Result<Seq<u8>, RitError> {
    match res {
        Ok(t) => Ok(encode_utf8(t@)),
        Err(e) => Err(e),
    }
}

} // verus!
