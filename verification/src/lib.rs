//! A content-addressed staging and deployment engine for per-host
//! configuration files.
//!
//! The library keeps an index of staged files, freezes it into immutable
//! tree snapshots linked by commits, computes path-level deltas between
//! snapshots, and plans the deployment of a host's source tree (rendering
//! template units, copying plain files, guarding overwrites).
//!
//! Byte sequences (`Vec<u8>`) carry file contents, digests and paths;
//! paths are relative to the repository root and use `/` as separator.

use vstd::prelude::*;

pub mod cmds;
pub mod deploy;
pub mod digest;
pub mod index;
pub mod message;
pub mod paths;
pub mod render;
pub mod repo;
pub mod diff;
pub mod store;
pub mod tree;

verus! {

/// The failure conditions of the library.
///
/// Each operation's contract states exactly which variant it returns and
/// on which inputs.
#[derive(Clone, Copy, Debug, PartialEq, Eq, Structural)]
pub enum OpError {
    /// A path handed to a staging operation does not lie under the
    /// repository root.
    PathOutsideRoot,
    /// A numeric filesystem metadata field does not fit the width the
    /// index stores it in.
    MetadataOverflow,
    /// A digest was looked up in the object store but no blob is stored
    /// under it.
    NotFound,
    /// The index holds nothing that differs from the parent commit's tree.
    NothingToCommit,
    /// The commit message is empty once whitespace and comment lines are
    /// discarded.
    EmptyMessage,
    /// A query needed a commit, but no commit exists yet.
    UnbornRepository,
    /// A deployment entry was skipped without aborting the walk.
    SkippedEntry,
    /// Rendering a template unit failed.
    RenderError,
    /// The digest backend could not hash the given bytes.
    DigestFailed,
}

} // verus!
