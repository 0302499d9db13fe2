//! The commands of the `rvcd` program, and the messages peers once
//! exchanged, as plain data.
use vstd::prelude::*;

verus! {

/// The `rvcd` program's arguments: one command.
pub struct Cli {
    pub command: Commands,
}

/// The commands of the `rvcd` program.
pub enum Commands {
    /// Start a node that listens on `port`.
    Join { port: u16 },
    /// Create a repository.
    Init { args: Vec<String> },
    /// Commit the staged files with a message.
    Commit { message: String },
    /// Copy a repository.
    Clone { repo: String },
    /// Show a stored object.
    CatFile { args: Vec<String> },
    /// Hash a file as a blob.
    HashObject { args: Vec<String> },
    /// List a tree.
    LsTree { args: Vec<String> },
    /// Create a branch at the current commit.
    CreateBranch { name: String },
    /// Make a branch the current one.
    SwitchBranch { name: String },
    /// Write the tree of the staged files.
    WriteTree,
    /// Make a commit of a tree.
    CommitTree { args: Vec<String> },
    /// Stage files and directories.
    Add { path: Vec<String> },
    /// Show the current branch.
    CurrentBranch,
}

/// A message about commits between peers.
pub enum RvcMessage {
    /// A peer has a new commit.
    NewCommit { hash: String },
    /// A peer asks for a commit.
    GetCommit { hash: String },
    /// The stored bytes of a commit.
    CommitData { hash: String, data: Vec<u8> },
}

} // verus!
