//! Memory budget for queued write buffers: a counter of reserved bytes
//! admitting or refusing buffered allocations against a configured cap.
//!
//! `can_allocate` is a pure check, `reserve` an increment that its caller
//! performs only after a successful check, and `release` the matching
//! decrement; every reservation is released exactly once, whether the
//! operation it paid for succeeds or fails.

use vstd::prelude::*;

verus! {

/// Counter of reserved buffer bytes, bounded by a configured cap.
pub struct MemoryTracker {
    used_memory: u64,
    max_buffer_memory: u64,
}

impl MemoryTracker {
    /// Bytes currently reserved for queued buffers.
    pub closed spec fn used(self) -> int {
        self.used_memory as int
    }

    /// The configured cap on aggregate buffered bytes.
    pub closed spec fn cap(self) -> int {
        self.max_buffer_memory as int
    }

    /// Reserved bytes never exceed the cap.
    pub open spec fn wf(self) -> bool {
        self.used() <= self.cap()
    }

    pub fn new(max_buffer_memory: u64) -> (r: MemoryTracker)
        ensures
            r.used() == 0,
            r.cap() == max_buffer_memory,
            r.wf(),
    {
        MemoryTracker { used_memory: 0, max_buffer_memory }
    }

    /// Whether `size` more buffered bytes still fit under the cap.
    pub fn can_allocate(&self, size: u64) -> (r: bool)
        ensures
            r == (self.used() + size <= self.cap()),
    {
        size <= self.max_buffer_memory && self.used_memory <= self.max_buffer_memory - size
    }

    /// Record `size` bytes as reserved. The caller has just checked
    /// `can_allocate`, so the new total stays under the cap.
    pub fn reserve(&mut self, size: u64)
        requires
            old(self).used() + size <= old(self).cap(),
        ensures
            final(self).used() == old(self).used() + size,
            final(self).cap() == old(self).cap(),
            final(self).wf(),
    {
        self.used_memory = self.used_memory + size;
    }

    /// Give back `size` reserved bytes when the buffer they paid for is
    /// consumed. Every `reserve` is matched by exactly one `release`.
    pub fn release(&mut self, size: u64)
        requires
            size <= old(self).used(),
        ensures
            final(self).used() == old(self).used() - size,
            final(self).cap() == old(self).cap(),
            old(self).wf() ==> final(self).wf(),
    {
        self.used_memory = self.used_memory - size;
    }
}

} // verus!
