//! Errors reported by the synchronization engine.

use crate::folder_graph_error::FolderGraphError;
use crate::yy_resource::SerializedDataError;
use vstd::prelude::*;

verus! {

/// Why a resource command failed.
#[derive(Debug, Clone, PartialEq, Eq, Structural)]
pub enum ResourceManipulationError {
    /// A resource of that name already exists, possibly of another kind:
    /// names are unique across the whole project.
    NameCollision,
    /// No resource of that name and kind exists.
    NotFound,
    /// The virtual file system rejected the operation.
    FolderGraphError(FolderGraphError),
    /// The payload could not be decoded in the requested representation.
    SerializedDataError(SerializedDataError),
    /// This kind of resource cannot be manipulated through the command
    /// surface.
    CannotUseResource,
    /// A cross-structure invariant no longer holds: a defect signal, fatal
    /// to the session.
    InternalError,
}

/// Why deleting a folder failed.
#[derive(Debug, Clone, PartialEq, Eq)]
pub enum DeleteFolderError {
    /// The virtual file system rejected the deletion; nothing was changed.
    FolderGraphError(FolderGraphError),
    /// The folder and its subtree were removed, but removing some of the
    /// contained resources failed; their names are listed. The rest were
    /// removed: the cascade is best-effort.
    CascadeFailures(Vec<String>),
}

} // verus!
