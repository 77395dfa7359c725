//! Tests of the memory budget and of the admission-gated write queue.

use unpack_assets::archive_operations::{process_archive_entries, ArchiveEntry};
use unpack_assets::memory_tracker::MemoryTracker;
use unpack_assets::thread_pool::ThreadPool;
use unpack_assets::write_ops::WriteOperation;

fn op(tag: u8) -> WriteOperation {
    WriteOperation::CreateFile { target: vec![tag], data: vec![tag; 4] }
}

fn op_target(operation: &WriteOperation) -> Vec<u8> {
    match operation {
        WriteOperation::CreateFile { target, .. } => target.clone(),
        WriteOperation::MoveFile { target, .. } => target.clone(),
        WriteOperation::DeleteFile { path } => path.clone(),
        WriteOperation::MakeDirectory { path } => path.clone(),
    }
}

#[test]
fn can_allocate_is_exactly_the_cap_check() {
    let mut tracker = MemoryTracker::new(10);
    assert!(tracker.can_allocate(10));
    assert!(!tracker.can_allocate(11));
    tracker.reserve(6);
    assert!(tracker.can_allocate(4));
    assert!(!tracker.can_allocate(5));
    tracker.release(6);
    assert!(tracker.can_allocate(10));
}

#[test]
fn refusal_comes_exactly_when_admission_fails() {
    let tracker = MemoryTracker::new(10);
    let mut pool = ThreadPool::new(2, tracker);

    // 8 bytes fit under the cap of 10: admitted.
    assert!(pool.try_queue_task(8, op(1)).is_none());
    // 8 more would exceed it: refused, and the operation comes back for
    // the caller's synchronous fallback.
    let refused = pool.try_queue_task(8, op(2));
    assert_eq!(op_target(&refused.unwrap()), vec![2]);
    // 2 more still fit: admitted.
    assert!(pool.try_queue_task(2, op(3)).is_none());

    // Every admitted operation is handed out exactly once, in queue order.
    let tasks = pool.shutdown();
    assert_eq!(tasks.len(), 2);
    assert_eq!(tasks[0].size, 8);
    assert_eq!(op_target(&tasks[0].op), vec![1]);
    assert_eq!(tasks[1].size, 2);
    assert_eq!(op_target(&tasks[1].op), vec![3]);
}

#[test]
fn zero_cap_refuses_every_buffered_write() {
    let tracker = MemoryTracker::new(0);
    let mut pool = ThreadPool::new(2, tracker);
    let refused = pool.try_queue_task(1, op(7));
    assert!(refused.is_some());
    assert!(pool.shutdown().is_empty());
}

#[test]
fn queued_sizes_never_exceed_the_cap() {
    let entries = vec![
        ArchiveEntry { path: b"g1/pathname".to_vec(), data: b"Assets/a.bin".to_vec() },
        ArchiveEntry { path: b"g1/asset".to_vec(), data: vec![1; 8] },
        ArchiveEntry { path: b"g2/pathname".to_vec(), data: b"Assets/b.bin".to_vec() },
        ArchiveEntry { path: b"g2/asset".to_vec(), data: vec![2; 8] },
        ArchiveEntry { path: b"g3/pathname".to_vec(), data: b"Assets/c.bin".to_vec() },
        ArchiveEntry { path: b"g3/asset".to_vec(), data: vec![3; 8] },
    ];
    let cap: u64 = 10;
    let tracker = MemoryTracker::new(cap);
    let mut pool = ThreadPool::new(2, tracker);
    let result = process_archive_entries(&entries, &mut pool, 1024);
    let tasks = pool.shutdown();
    let queued: u64 = tasks.iter().map(|t| t.size).sum();
    assert!(queued <= cap);
    // One asset was admitted; the other two fell back to synchronous writes.
    assert_eq!(tasks.len(), 1);
    assert_eq!(result.sync_ops.len(), 2);
}

#[test]
fn large_assets_bypass_the_budget_even_at_zero_cap() {
    let entries = vec![
        ArchiveEntry { path: b"g1/pathname".to_vec(), data: b"Assets/big.bin".to_vec() },
        ArchiveEntry { path: b"g1/asset".to_vec(), data: vec![9; 64] },
    ];
    // Threshold far below the payload size: the asset streams synchronously
    // and never occupies tracked buffer memory, whatever the cap.
    for cap in [0u64, 1024u64] {
        let tracker = MemoryTracker::new(cap);
        let mut pool = ThreadPool::new(2, tracker);
        let result = process_archive_entries(&entries, &mut pool, 16);
        assert!(pool.shutdown().is_empty());
        assert_eq!(result.sync_ops.len(), 1);
    }
}

#[test]
fn small_assets_queue_when_the_budget_admits_them() {
    let entries = vec![
        ArchiveEntry { path: b"g1/pathname".to_vec(), data: b"Assets/small.bin".to_vec() },
        ArchiveEntry { path: b"g1/asset".to_vec(), data: vec![5; 8] },
    ];
    let tracker = MemoryTracker::new(1024);
    let mut pool = ThreadPool::new(2, tracker);
    let result = process_archive_entries(&entries, &mut pool, 1024);
    assert!(result.sync_ops.is_empty());
    let tasks = pool.shutdown();
    assert_eq!(tasks.len(), 1);
    assert_eq!(tasks[0].size, 8);
    assert_eq!(op_target(&tasks[0].op), b"Assets/small.bin".to_vec());
}
