//! The external command surface: the envelopes outside tooling sends in,
//! and the thin processor that translates them into engine calls.
//!
//! Payload bytes arrive through [`Data`]; turning a `Filepath` datum into
//! text takes file access and a per-kind codec, so the caller resolves
//! resource definitions before handing a command over.

use crate::errors::{DeleteFolderError, ResourceManipulationError};
use crate::folder_graph::{FileLeaf, PathKind};
use crate::folder_graph_error::FolderGraphError;
use crate::paths::FolderPath;
use crate::resources::Resource;
use crate::yy_resource::{AssociatedData, SerializedDataError, YyFile};
use crate::yyp_boss::YypBoss;
use vstd::prelude::*;

verus! {

/// The data passed in as part of a command: each variant is a different way
/// to hand a payload in.
#[derive(Debug, Clone)]
pub enum Data {
    /// The data itself, in some valid utf8 format.
    Value { data: String },
    /// A path to a file holding the data, to be read by the boundary;
    /// required for binary content.
    Filepath { data: String },
    /// A request for an autogenerated default.
    DefaultValue,
}

/// The payload of an `Add`, `Replace` or `Set` command: the new definition
/// and its associated data, keyed as the resource kind expects.
#[derive(Debug, Clone)]
pub struct NewResource {
    /// The serialized definition to install.
    pub new_resource: Data,
    /// The associated data of the definition, by key.
    pub associated_data: Vec<(String, Data)>,
}

/// A resource command: reading and writing resources of one kind.
pub enum ResourceCommandType {
    /// Adds a resource; fails on a name collision.
    Add(NewResource),
    /// Replaces a resource; fails when it does not exist.
    Replace(NewResource),
    /// Add-or-replace: a forced add that displaces a same-kind resource of
    /// the same name.
    ForceAdd(NewResource),
    /// Removes and returns the resource.
    Remove { identifier: String },
    /// Returns a copy of the resource and its associated data.
    Get { identifier: String },
    /// Whether a resource of the given name exists.
    Exists { identifier: String },
}

/// A resource command together with the kind it manipulates.
pub struct ResourceCommand {
    /// What to do.
    pub command_type: ResourceCommandType,
    /// The kind of resource to do it to.
    pub resource: Resource,
}

/// A virtual-file-system command.
pub enum VfsCommand {
    /// Moves an item (a folder or a resource) to another folder.
    MoveItem { start: FolderPath, end: FolderPath },
    /// Deletes a folder; a non-empty folder needs the `recursive` flag.
    DeleteFolder { folder: FolderPath, recursive: bool },
    /// Returns the subtree at a folder.
    GetFolder(FolderPath),
    /// Returns the whole virtual file system.
    GetFullVfs,
    /// Whether a path names a folder or a file.
    GetPathType(FolderPath),
}

/// A command envelope.
pub enum Command {
    /// A command pertaining to resources.
    Resource(ResourceCommand),
    /// A command pertaining to the virtual file system.
    VirtualFileSystem(VfsCommand),
}

/// What a command returns to the caller.
pub enum CommandOutput {
    /// Done, nothing to return.
    Done,
    /// A resource's definition and, when resident, its payload.
    Resource(YyFile, Option<AssociatedData>),
    /// Whether the queried resource exists.
    Found(bool),
    /// A folder subtree: folders and file leaves.
    Folder(Vec<FolderPath>, Vec<FileLeaf>),
    /// What kind of item a path names.
    PathType(PathKind),
    /// A resource command failed.
    Error(ResourceManipulationError),
    /// A file-system command failed.
    VfsError(FolderGraphError),
    /// A recursive folder deletion succeeded, but these contained resources
    /// could not be removed.
    FolderRemovalFailures(Vec<String>),
}

impl YypBoss {
    /// Runs one resource command. The definition and payload of an `Add`,
    /// `Replace` or `Set` arrive pre-decoded in `decoded`: decoding is
    /// per-kind codec work the boundary performs. A command on a kind the
    /// surface cannot manipulate is rejected.
    pub fn process_resource_command(
        &mut self,
        command: ResourceCommand,
        decoded: Option<(YyFile, AssociatedData)>,
    ) -> (r: CommandOutput)
        requires
            old(self).ready(),
            old(self).wf(),
            old(self).graph().folders_view().len() + old(self).graph().files_view().len()
                <= usize::MAX,
        ensures
            final(self).wf(),
            final(self).ready(),
            !command.resource.spec_can_manipulate() ==> (r matches CommandOutput::Error(
                ResourceManipulationError::CannotUseResource,
            )) && *final(self) == *old(self),
            command.resource.spec_can_manipulate() ==> match command.command_type {
                ResourceCommandType::Add(_) => match decoded {
                    Some(d) => {
                        &&& (r is Done ==> Self::add_rel(
                            *old(self),
                            *final(self),
                            command.resource,
                            d.0,
                            d.1,
                            Ok(()),
                        ))
                        &&& (match r {
                            CommandOutput::Error(e) => Self::add_rel(
                                *old(self),
                                *final(self),
                                command.resource,
                                d.0,
                                d.1,
                                Err(e),
                            ),
                            _ => r is Done,
                        })
                    },
                    None => (r matches CommandOutput::Error(
                        ResourceManipulationError::SerializedDataError(
                            SerializedDataError::CouldNotParseData,
                        ),
                    )) && *final(self) == *old(self),
                },
                ResourceCommandType::Replace(_) => match decoded {
                    Some(d) => {
                        &&& (r is Done ==> Self::replace_rel(
                            *old(self),
                            *final(self),
                            command.resource,
                            d.0,
                            d.1,
                            Ok(()),
                        ))
                        &&& (match r {
                            CommandOutput::Error(e) => Self::replace_rel(
                                *old(self),
                                *final(self),
                                command.resource,
                                d.0,
                                d.1,
                                Err(e),
                            ),
                            _ => r is Done,
                        })
                    },
                    None => (r matches CommandOutput::Error(
                        ResourceManipulationError::SerializedDataError(
                            SerializedDataError::CouldNotParseData,
                        ),
                    )) && *final(self) == *old(self),
                },
                ResourceCommandType::ForceAdd(_) => match decoded {
                    Some(d) => {
                        if old(self).names_maps(d.0.name@, command.resource) {
                            &&& (r is Done ==> Self::replace_rel(
                                *old(self),
                                *final(self),
                                command.resource,
                                d.0,
                                d.1,
                                Ok(()),
                            ))
                            &&& (match r {
                                CommandOutput::Error(e) => Self::replace_rel(
                                    *old(self),
                                    *final(self),
                                    command.resource,
                                    d.0,
                                    d.1,
                                    Err(e),
                                ),
                                _ => r is Done,
                            })
                        } else if old(self).names().has_name(d.0.name@) {
                            &&& (r matches CommandOutput::Error(
                                ResourceManipulationError::NameCollision,
                            ))
                            &&& *final(self) == *old(self)
                        } else {
                            &&& (r is Done ==> Self::add_rel(
                                *old(self),
                                *final(self),
                                command.resource,
                                d.0,
                                d.1,
                                Ok(()),
                            ))
                            &&& (match r {
                                CommandOutput::Error(e) => Self::add_rel(
                                    *old(self),
                                    *final(self),
                                    command.resource,
                                    d.0,
                                    d.1,
                                    Err(e),
                                ),
                                _ => r is Done,
                            })
                        }
                    },
                    None => (r matches CommandOutput::Error(
                        ResourceManipulationError::SerializedDataError(
                            SerializedDataError::CouldNotParseData,
                        ),
                    )) && *final(self) == *old(self),
                },
                ResourceCommandType::Remove { identifier } => {
                    match r {
                        CommandOutput::Resource(yy, assoc) => Self::remove_rel(
                            *old(self),
                            *final(self),
                            command.resource,
                            identifier@,
                            Ok((yy, assoc)),
                        ),
                        CommandOutput::Error(e) => Self::remove_rel(
                            *old(self),
                            *final(self),
                            command.resource,
                            identifier@,
                            Err(e),
                        ),
                        _ => false,
                    }
                },
                ResourceCommandType::Get { identifier } => {
                    &&& *final(self) == *old(self)
                    &&& match r {
                        CommandOutput::Resource(yy, assoc) => {
                            &&& old(self).handler(command.resource).has_resource(identifier@)
                            &&& yy.model() == old(self).handler(command.resource).spec_resource(
                                identifier@,
                            ).yy
                            &&& crate::yy_resource_handler::opt_assoc_model(assoc) == old(
                                self,
                            ).handler(command.resource).spec_resource(identifier@).assoc
                        },
                        CommandOutput::Error(ResourceManipulationError::NotFound) => !old(
                            self,
                        ).handler(command.resource).has_resource(identifier@),
                        _ => false,
                    }
                },
                ResourceCommandType::Exists { identifier } => {
                    &&& *final(self) == *old(self)
                    &&& r == CommandOutput::Found(old(self).names().has_name(identifier@))
                },
            },
    {
        if !command.resource.can_manipulate() {
            return CommandOutput::Error(ResourceManipulationError::CannotUseResource);
        }
        match command.command_type {
            ResourceCommandType::Add(_) => {
                match decoded {
                    None => CommandOutput::Error(
                        ResourceManipulationError::SerializedDataError(
                            SerializedDataError::CouldNotParseData,
                        ),
                    ),
                    Some((yy, data)) => {
                        match self.add_resource(command.resource, yy, data) {
                            Ok(()) => CommandOutput::Done,
                            Err(e) => CommandOutput::Error(e),
                        }
                    },
                }
            },
            ResourceCommandType::Replace(_) => {
                match decoded {
                    None => CommandOutput::Error(
                        ResourceManipulationError::SerializedDataError(
                            SerializedDataError::CouldNotParseData,
                        ),
                    ),
                    Some((yy, data)) => {
                        match self.replace_resource(command.resource, yy, data) {
                            Ok(()) => CommandOutput::Done,
                            Err(e) => CommandOutput::Error(e),
                        }
                    },
                }
            },
            ResourceCommandType::ForceAdd(_) => {
                match decoded {
                    None => CommandOutput::Error(
                        ResourceManipulationError::SerializedDataError(
                            SerializedDataError::CouldNotParseData,
                        ),
                    ),
                    Some((yy, data)) => {
                        match self.set_resource(command.resource, yy, data) {
                            Ok(()) => CommandOutput::Done,
                            Err(e) => CommandOutput::Error(e),
                        }
                    },
                }
            },
            ResourceCommandType::Remove { identifier } => {
                match self.remove_resource(command.resource, &identifier) {
                    Ok((yy, assoc)) => CommandOutput::Resource(yy, assoc),
                    Err(e) => CommandOutput::Error(e),
                }
            },
            ResourceCommandType::Get { identifier } => {
                match self.get_resource(command.resource, &identifier) {
                    Some((yy, assoc)) => CommandOutput::Resource(yy, assoc),
                    None => CommandOutput::Error(ResourceManipulationError::NotFound),
                }
            },
            ResourceCommandType::Exists { identifier } => {
                CommandOutput::Found(self.resource_exists(&identifier))
            },
        }
    }

    /// Runs one virtual-file-system command.
    pub fn process_vfs_command(&mut self, command: VfsCommand) -> (r: CommandOutput)
        requires
            old(self).ready(),
            old(self).wf(),
        ensures
            final(self).wf(),
            final(self).ready(),
            match command {
                VfsCommand::MoveItem { start, end } => match r {
                    CommandOutput::Done => Self::move_rel(
                        *old(self),
                        *final(self),
                        start.deep_view(),
                        end.deep_view(),
                        Ok(()),
                    ),
                    CommandOutput::VfsError(e) => Self::move_rel(
                        *old(self),
                        *final(self),
                        start.deep_view(),
                        end.deep_view(),
                        Err(e),
                    ),
                    _ => false,
                },
                VfsCommand::DeleteFolder { folder, recursive } => match r {
                    CommandOutput::Done => Self::delete_rel(
                        *old(self),
                        *final(self),
                        folder.deep_view(),
                        recursive,
                        Ok(()),
                    ),
                    CommandOutput::VfsError(e) => Self::delete_rel(
                        *old(self),
                        *final(self),
                        folder.deep_view(),
                        recursive,
                        Err(DeleteFolderError::FolderGraphError(e)),
                    ),
                    CommandOutput::FolderRemovalFailures(failed) => Self::delete_rel(
                        *old(self),
                        *final(self),
                        folder.deep_view(),
                        recursive,
                        Err(DeleteFolderError::CascadeFailures(failed)),
                    ),
                    _ => false,
                },
                VfsCommand::GetFolder(path) => {
                    &&& *final(self) == *old(self)
                    &&& match r {
                        CommandOutput::Folder(folders, files) => {
                            &&& old(self).graph().is_location(path.deep_view())
                            &&& folders.deep_view() == old(self).graph().folders_view().filter(
                                |q: Seq<Seq<char>>| crate::paths::is_prefix_of(path.deep_view(), q),
                            )
                            &&& crate::folder_graph::files_model(files@) == old(
                                self,
                            ).graph().files_view().filter(
                                |f: crate::folder_graph::FileModel| crate::paths::is_prefix_of(
                                    path.deep_view(),
                                    f.parent,
                                ),
                            )
                        },
                        CommandOutput::VfsError(e) => e is PathNotFound && !old(
                            self,
                        ).graph().is_location(path.deep_view()),
                        _ => false,
                    }
                },
                VfsCommand::GetFullVfs => {
                    &&& *final(self) == *old(self)
                    &&& match r {
                        CommandOutput::Folder(folders, files) => {
                            &&& folders.deep_view() == old(self).graph().folders_view()
                            &&& crate::folder_graph::files_model(files@) == old(
                                self,
                            ).graph().files_view()
                        },
                        _ => false,
                    }
                },
                VfsCommand::GetPathType(path) => {
                    &&& *final(self) == *old(self)
                    &&& match r {
                        CommandOutput::PathType(kind) => match kind {
                            PathKind::Folder => old(self).graph().is_location(path.deep_view()),
                            PathKind::File => path.deep_view().len() > 0 && old(
                                self,
                            ).graph().has_file_at(
                                crate::paths::parent_of(path.deep_view()),
                                path.deep_view().last(),
                            ),
                        },
                        CommandOutput::VfsError(e) => e is PathNotFound && !old(
                            self,
                        ).graph().is_location(path.deep_view()),
                        _ => false,
                    }
                },
            },
    {
        match command {
            VfsCommand::MoveItem { start, end } => {
                match self.move_item(&start, &end) {
                    Ok(()) => CommandOutput::Done,
                    Err(e) => CommandOutput::VfsError(e),
                }
            },
            VfsCommand::DeleteFolder { folder, recursive } => {
                match self.delete_folder(&folder, recursive) {
                    Ok(()) => CommandOutput::Done,
                    Err(DeleteFolderError::FolderGraphError(e)) => CommandOutput::VfsError(e),
                    Err(DeleteFolderError::CascadeFailures(failed)) => {
                        CommandOutput::FolderRemovalFailures(failed)
                    },
                }
            },
            VfsCommand::GetFolder(path) => {
                match self.get_folder(&path) {
                    Ok((folders, files)) => CommandOutput::Folder(folders, files),
                    Err(e) => CommandOutput::VfsError(e),
                }
            },
            VfsCommand::GetFullVfs => {
                let (folders, files) = self.get_full_vfs();
                CommandOutput::Folder(folders, files)
            },
            VfsCommand::GetPathType(path) => {
                match self.get_path_type(&path) {
                    Ok(kind) => CommandOutput::PathType(kind),
                    Err(e) => CommandOutput::VfsError(e),
                }
            },
        }
    }
}

} // verus!
