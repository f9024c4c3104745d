//! Errors reported by the folder graph (the virtual file system).

use vstd::prelude::*;

verus! {

/// Everything that can go wrong when manipulating the folder graph.
#[derive(Debug, Clone, PartialEq, Eq, Structural)]
pub enum FolderGraphError {
    /// The named path does not exist in the graph.
    PathNotFound,
    /// A folder already exists at that location.
    FolderAlreadyPresent,
    /// A file already exists at that location.
    FileAlreadyPresent,
    /// The requested move would place a folder inside itself, move the root,
    /// or otherwise degenerate.
    InvalidMove,
    /// A non-recursive delete was asked of a folder that still has children.
    NotEmpty,
    /// The folder graph no longer agrees with the rest of the project: a
    /// defect signal, fatal to the session.
    InternalError,
    /// A folder operation was pointed at a file.
    BadRemove,
}

} // verus!
