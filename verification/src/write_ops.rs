//! The unit of deferred disk work, and the uniform failure value that every
//! abandoned write surfaces.
//!
//! A `WriteOperation` owns every byte and path string it needs, so that it can
//! be queued and executed later without sharing mutable state with any other
//! operation. Paths stored in a `CreateFile`, `MoveFile` target or
//! `MakeDirectory` are already sanitized when the operation is built; a
//! `MoveFile` source and a `DeleteFile` path name a file this run wrote
//! earlier and are used as given.

use vstd::prelude::*;

verus! {

/// Why a write was abandoned.
#[derive(Clone, Copy, PartialEq, Eq, Structural, Debug)]
pub enum WriteErrorKind {
    /// The sanitizer rejected the target path.
    InvalidPath,
    /// The filesystem refused the action.
    Io,
}

/// Uniform failure value of a disk action: the path it concerned and why it
/// failed.
#[derive(Debug)]
pub struct AssetWriteError {
    pub path: Vec<u8>,
    pub kind: WriteErrorKind,
}

/// A deferred unit of disk work, dispatched by a single switch wherever it is
/// finally executed.
pub enum WriteOperation {
    /// Create a file at `target` (and its parent directories) holding `data`.
    CreateFile { target: Vec<u8>, data: Vec<u8> },
    /// Move the file at `source` to `target`, creating target directories.
    MoveFile { source: Vec<u8>, target: Vec<u8> },
    /// Delete the file at `path`.
    DeleteFile { path: Vec<u8> },
    /// Recursively create the directory `path`.
    MakeDirectory { path: Vec<u8> },
}

/// Mathematical image of a `WriteOperation`: the same four shapes over byte
/// sequences.
pub ghost enum OpView {
    CreateFile { target: Seq<u8>, data: Seq<u8> },
    MoveFile { source: Seq<u8>, target: Seq<u8> },
    DeleteFile { path: Seq<u8> },
    MakeDirectory { path: Seq<u8> },
}

impl View for WriteOperation {
    type V = OpView;

    open spec fn view(&self) -> OpView {
        match self {
            WriteOperation::CreateFile { target, data } => OpView::CreateFile {
                target: target@,
                data: data@,
            },
            WriteOperation::MoveFile { source, target } => OpView::MoveFile {
                source: source@,
                target: target@,
            },
            WriteOperation::DeleteFile { path } => OpView::DeleteFile { path: path@ },
            WriteOperation::MakeDirectory { path } => OpView::MakeDirectory { path: path@ },
        }
    }
}

} // verus!
