//! A peer-to-peer, git-like version control library: the object model
//! (blobs, trees, commits), the on-disk object and index formats, three-way
//! line merging, commit-graph walks and the request/response protocol that
//! peers use to synchronise branches.
use vstd::prelude::*;

pub mod error;
pub mod hexcode;
pub mod diff3;
pub mod text;
pub mod codec;
pub mod objects;
pub mod store;
pub mod history;
pub mod objwalk;
pub mod protocol;
pub mod state;
pub mod netid;
pub mod exchange;
pub mod merge;
pub mod index;
pub mod tree;
pub mod commit;
pub mod refs;
pub mod catfile;
pub mod node;
pub mod cli;

verus! {

} // verus!
