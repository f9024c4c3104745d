//! An in-memory model of a hierarchical game project: a tree of folders
//! containing named, typed resources, kept consistent with an on-disk
//! representation through deferred write-back.
//!
//! The core pieces are the folder graph (the virtual file system), the
//! global resource-name index, the per-kind resource handlers with their
//! pending-write queues, and the [`YypBoss`] engine that keeps all of them
//! consistent under add / replace / set / remove / move / delete sequences.

pub mod errors;
pub mod folder_graph;
pub mod input;
pub mod laws;
pub mod seq_facts;
pub mod yy_resource;
pub mod yyp_boss;
pub mod yy_resource_handler;
pub mod folder_graph_error;
pub mod paths;
pub mod resource_names;
pub mod resources;

pub use errors::{DeleteFolderError, ResourceManipulationError};
pub use folder_graph_error::FolderGraphError;
pub use input::{Command, CommandOutput, Data, NewResource, ResourceCommand, ResourceCommandType, VfsCommand};
pub use paths::FolderPath;
pub use resource_names::{ResourceDescriptor, ResourceNames};
pub use resources::Resource;
pub use yy_resource::{AssociatedData, SerializedData, SerializedDataError, YyFile};
pub use yyp_boss::{BossState, ProjectDescriptor, ProjectEntry, YypBoss};
