//! Resource definitions, their associated payloads, and the transport form
//! both arrive in.
//!
//! Definition bodies and payloads are opaque, descriptor-supplied text: the
//! engine stores and round-trips them but never interprets them beyond
//! checking that a definition body is well-formed JSON.

use crate::paths::{clone_path, FolderPath};
use vstd::prelude::*;

verus! {

/// The data passed in as part of a command: each variant is a different way
/// to hand a payload to the engine.
#[derive(Debug, Clone)]
pub enum SerializedData {
    /// The data itself, in some valid utf8 format.
    Value { data: String },
    /// A path to a file holding the data. Reading it takes file access, so
    /// the caller resolves it and hands the contents in.
    Filepath { data: String },
    /// A request for an autogenerated default for the data in question.
    DefaultValue,
}

/// Why a payload could not be decoded in the requested representation.
#[derive(Debug, Clone, PartialEq, Eq, Structural)]
pub enum SerializedDataError {
    /// A `Filepath` datum arrived, but no working directory was configured,
    /// so there is nothing to resolve the path against.
    NoFileMode,
    /// A `Filepath` datum named a file that did not exist, was not a file,
    /// or could not be read.
    BadDataFile,
    /// The data could not be parsed as a JSON document.
    CouldNotParseData,
    /// The data cannot be represented in utf8 text.
    CannotUseValue,
}

/// Whether a text parses as a JSON document. What exactly serde_json accepts
/// takes pages to state, but it is a function of the text alone, so the
/// library only gives it a name.
pub uninterp spec fn json_ok(s: Seq<char>) -> bool;

/// Relies on serde_json::from_str::<serde_json::Value>: whether a text
/// parses as JSON depends on the text alone.
#[verifier::external_body]
fn parse_json_ok(text: &str) -> (r: bool)
    ensures
        r == json_ok(text@),
{
    serde_json::from_str::<serde_json::Value>(text).is_ok()
}

impl SerializedData {
    /// Resolves this datum into definition text, as if reading it from a
    /// file: inline values are validated as JSON, file references must have
    /// been read by the caller beforehand (`file_contents`, `None` when no
    /// working directory is configured), and a default is the empty JSON
    /// object.
    pub fn read_data_as_file(self, file_contents: Option<String>) -> (r: Result<
        String,
        SerializedDataError,
    >)
        ensures
            match self {
                SerializedData::Value { data } => {
                    if json_ok(data@) {
                        r matches Ok(t) && t@ == data@
                    } else {
                        r == Err::<String, SerializedDataError>(
                            SerializedDataError::CouldNotParseData,
                        )
                    }
                },
                SerializedData::Filepath { data } => {
                    match file_contents {
                        Some(contents) => {
                            if json_ok(contents@) {
                                r matches Ok(t) && t@ == contents@
                            } else {
                                r == Err::<String, SerializedDataError>(
                                    SerializedDataError::CouldNotParseData,
                                )
                            }
                        },
                        None => r == Err::<String, SerializedDataError>(
                            SerializedDataError::NoFileMode,
                        ),
                    }
                },
                SerializedData::DefaultValue => r matches Ok(t) && t@ == "{}"@,
            },
    {
        match self {
            SerializedData::Value { data } => {
                if parse_json_ok(data.as_str()) {
                    Ok(data)
                } else {
                    Err(SerializedDataError::CouldNotParseData)
                }
            },
            SerializedData::Filepath { data: _ } => {
                match file_contents {
                    Some(contents) => {
                        if parse_json_ok(contents.as_str()) {
                            Ok(contents)
                        } else {
                            Err(SerializedDataError::CouldNotParseData)
                        }
                    },
                    None => Err(SerializedDataError::NoFileMode),
                }
            },
            SerializedData::DefaultValue => Ok(String::from_str("{}")),
        }
    }
}

/// One resource definition: what is persisted in the resource's own `.yy`
/// file. The schema body is opaque text; the name and parent location are
/// duplicated here for round-trip fidelity.
pub struct YyFile {
    /// The resource's name.
    pub name: String,
    /// The folder the resource sits in.
    pub parent: FolderPath,
    /// The serialized schema fields, an opaque JSON body.
    pub data: String,
}

/// The mathematical value of a [`YyFile`].
pub ghost struct YyFileModel {
    pub name: Seq<char>,
    pub parent: Seq<Seq<char>>,
    pub data: Seq<char>,
}

impl YyFile {
    /// The mathematical value of this definition.
    pub open spec fn model(self) -> YyFileModel {
        YyFileModel { name: self.name@, parent: self.parent.deep_view(), data: self.data@ }
    }

    /// Copies this definition.
    pub fn clone_file(&self) -> (r: YyFile)
        ensures
            r.model() == self.model(),
    {
        YyFile {
            name: self.name.clone(),
            parent: clone_path(&self.parent),
            data: self.data.clone(),
        }
    }
}

/// The heavy associated payload of a resource: opaque content, loaded
/// lazily, plus the backing files and folders the payload's cleanup hook
/// names as stale when the resource is replaced.
pub struct AssociatedData {
    /// The payload itself, opaque to the engine.
    pub payload: String,
    /// Backing files, relative to the resource kind's directory, that become
    /// stale when this payload is replaced.
    pub stale_files: Vec<String>,
    /// Backing folders, relative to the resource kind's directory, that
    /// become stale when this payload is replaced.
    pub stale_folders: Vec<String>,
}

/// The mathematical value of an [`AssociatedData`].
pub ghost struct AssociatedDataModel {
    pub payload: Seq<char>,
    pub stale_files: Seq<Seq<char>>,
    pub stale_folders: Seq<Seq<char>>,
}

impl AssociatedData {
    /// The mathematical value of this payload.
    pub open spec fn model(self) -> AssociatedDataModel {
        AssociatedDataModel {
            payload: self.payload@,
            stale_files: self.stale_files.deep_view(),
            stale_folders: self.stale_folders.deep_view(),
        }
    }

    /// Copies this payload.
    pub fn clone_data(&self) -> (r: AssociatedData)
        ensures
            r.model() == self.model(),
    {
        let r = AssociatedData {
            payload: self.payload.clone(),
            stale_files: clone_path(&self.stale_files),
            stale_folders: clone_path(&self.stale_folders),
        };
        r
    }
}

} // verus!
