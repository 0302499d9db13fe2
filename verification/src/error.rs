use vstd::prelude::*;

verus! {

/// The errors that the library's operations report.
#[derive(Debug, PartialEq, Eq)]
pub enum GitError {
    /// `add` was called without any path.
    NothingSpecified,
    /// A path given to `add` names nothing.
    PathspecNoMatch(String),
    /// Some paths given to `add` could not be staged: a line for each.
    AddFailures(String),
    /// No object hash was given.
    MissingObjectHash,
    /// An object hash does not have 40 hex digits.
    InvalidObjectHash,
    /// A string that should hold hex digits does not.
    InvalidHex,
    /// Bytes that should be UTF-8 text are not.
    InvalidUtf8,
    /// The header of a stored object cannot be parsed.
    InvalidObjectFormat,
    /// The kind named in an object header is not blob, tree or commit.
    UnknownObjectKind,
    /// A tree entry has a mode that is not a file, executable, link or tree mode.
    UnrecognizedTreeEntry,
    /// Tree entries were asked of an object that is not a tree.
    NotATree,
    /// A tree object's entries are cut short.
    TruncatedTree,
    /// There is nothing staged to commit.
    NothingToCommit,
    /// A merge is in progress and staged files still hold conflict markers.
    UnresolvedConflicts,
    /// `commit-tree` was called without `-m`.
    MissingMessage,
    /// `commit-tree` was called without a tree hash.
    MissingTreeHash,
    /// The tree hash given to `commit-tree` does not have 40 characters.
    InvalidTreeHash,
    /// A staged path has no file name.
    InvalidPath(String),
    /// A staged blob hash is not hex.
    InvalidHash(String),
    /// A stored object is not a valid zlib stream.
    CorruptObject,
    /// Compressing an object failed.
    CompressionFailed,
    /// The file of an object could not be read.
    ObjectMissing,
}

} // verus!
