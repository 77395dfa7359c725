//! Primitive disk actions, each planned as a checked `WriteOperation`.
//!
//! Every function that targets a destination sanitizes it first and either
//! returns the ready operation — its target already safe — or the uniform
//! failure value; the caller abandons that one write and carries on.
//! Deletion targets a file this run wrote earlier and is not sanitized; in
//! this system it only ever happens to irrecoverable orphan data, so the
//! caller records a warning for every delete it plans. Executing the
//! operations against the real filesystem is the surrounding runtime's job;
//! a large `CreateFile` is streamed to disk in fixed-size chunks there
//! rather than held in one buffer.

use vstd::prelude::*;

use crate::sanitize_path::{sanitize_path, sanitize_spec};
use crate::write_ops::{AssetWriteError, OpView, WriteErrorKind, WriteOperation};

verus! {

/// Plan the creation of a file holding `content` at the sanitized
/// `target_path`, parent directories included.
pub fn create_file_with_content(content: Vec<u8>, target_path: &[u8]) -> (r: Result<
    WriteOperation,
    AssetWriteError,
>)
    ensures
        match r {
            Ok(op) => sanitize_spec(target_path@) is Some && op@ == (OpView::CreateFile {
                target: sanitize_spec(target_path@)->Some_0,
                data: content@,
            }),
            Err(e) => sanitize_spec(target_path@) is None && e.path@ == target_path@ && e.kind
                == WriteErrorKind::InvalidPath,
        },
{
    match sanitize_path(target_path) {
        Ok(target) => Ok(WriteOperation::CreateFile { target, data: content }),
        Err(e) => Err(e),
    }
}

/// Plan moving the file at `source_path` to the sanitized `target_path`,
/// creating target directories.
pub fn move_file_to_target(source_path: &[u8], target_path: &[u8]) -> (r: Result<
    WriteOperation,
    AssetWriteError,
>)
    ensures
        match r {
            Ok(op) => sanitize_spec(target_path@) is Some && op@ == (OpView::MoveFile {
                source: source_path@,
                target: sanitize_spec(target_path@)->Some_0,
            }),
            Err(e) => sanitize_spec(target_path@) is None && e.path@ == target_path@ && e.kind
                == WriteErrorKind::InvalidPath,
        },
{
    match sanitize_path(target_path) {
        Ok(target) => Ok(
            WriteOperation::MoveFile { source: vstd::slice::slice_to_vec(source_path), target },
        ),
        Err(e) => Err(e),
    }
}

/// Plan deleting the file at `file_path`. Deletion only ever concerns
/// irrecoverable orphan data, so the caller records a warning beside it.
pub fn delete_file(file_path: &[u8]) -> (op: WriteOperation)
    ensures
        op@ == (OpView::DeleteFile { path: file_path@ }),
{
    WriteOperation::DeleteFile { path: vstd::slice::slice_to_vec(file_path) }
}

/// Plan recursively creating the sanitized directory `target_path`.
pub fn create_directory_structure(target_path: &[u8]) -> (r: Result<
    WriteOperation,
    AssetWriteError,
>)
    ensures
        match r {
            Ok(op) => sanitize_spec(target_path@) is Some && op@ == (OpView::MakeDirectory {
                path: sanitize_spec(target_path@)->Some_0,
            }),
            Err(e) => sanitize_spec(target_path@) is None && e.path@ == target_path@ && e.kind
                == WriteErrorKind::InvalidPath,
        },
{
    match sanitize_path(target_path) {
        Ok(path) => Ok(WriteOperation::MakeDirectory { path }),
        Err(e) => Err(e),
    }
}

/// Plan writing `content` to the sanitized `target_path`. The planned
/// operation is the same as `create_file_with_content`'s; the runtime
/// executing it synchronously streams the bytes in fixed-size chunks.
pub fn stream_asset_to_pathname(content: Vec<u8>, target_path: &[u8]) -> (r: Result<
    WriteOperation,
    AssetWriteError,
>)
    ensures
        match r {
            Ok(op) => sanitize_spec(target_path@) is Some && op@ == (OpView::CreateFile {
                target: sanitize_spec(target_path@)->Some_0,
                data: content@,
            }),
            Err(e) => sanitize_spec(target_path@) is None && e.path@ == target_path@ && e.kind
                == WriteErrorKind::InvalidPath,
        },
{
    create_file_with_content(content, target_path)
}

/// Plan writing an orphaned asset's `content` to its temporary root-level
/// name.
pub fn stream_orphaned_asset(content: Vec<u8>, orphan_name: &[u8]) -> (r: Result<
    WriteOperation,
    AssetWriteError,
>)
    ensures
        match r {
            Ok(op) => sanitize_spec(orphan_name@) is Some && op@ == (OpView::CreateFile {
                target: sanitize_spec(orphan_name@)->Some_0,
                data: content@,
            }),
            Err(e) => sanitize_spec(orphan_name@) is None && e.path@ == orphan_name@ && e.kind
                == WriteErrorKind::InvalidPath,
        },
{
    stream_asset_to_pathname(content, orphan_name)
}

} // verus!
