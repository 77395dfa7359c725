//! Core of an asset-package extractor: a gzip-compressed tar stream splits
//! every logical asset across three correlated entries — binary payload,
//! metadata text, destination path — and this library reconstructs the
//! right (payload, destination) pairing whatever order those entries
//! arrive in, plans every disk write behind a sanitized path, and bounds
//! the memory spent on buffered writes under a configured cap.
//!
//! The pieces: `sanitize_path` cleans untrusted path strings;
//! `memory_tracker` admits or refuses buffered allocations against the
//! cap; `thread_pool` models the admission-gated write queue the worker
//! pool drains; `file_operations` plans the primitive disk actions;
//! `archive_operations` holds the two-pass resolution engine — the
//! sequential scan and the orphan and folder post-passes — each an
//! executable function proved equal to its mathematical mirror; and
//! `resolution` states the laws of the whole: order-independent
//! resolution, exact accounting of queued bytes and issued operations,
//! and the observability of every orphan deletion.
//!
//! Reading the stream, running the workers and touching the disk are the
//! surrounding runtime's job; the library takes plain entries and hands
//! back ready `WriteOperation`s.

use vstd::prelude::*;

pub mod archive_operations;
pub mod file_operations;
pub mod memory_tracker;
pub mod paths;
pub mod resolution;
pub mod sanitize_path;
pub mod thread_pool;
pub mod write_ops;

verus! {

} // verus!
