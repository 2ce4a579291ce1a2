//! Where a cache and its queues lie in memory.

use crate::cache::H2OCache;
use vstd::prelude::*;

verus! {

/// Where a queue lies: the addresses of its first element and of what follows its
/// last one, how many elements it holds and how many it has room for.
#[derive(Debug, Clone, Copy, PartialEq, Eq, Structural)]
pub struct QueueLayout {
    pub start: usize,
    pub end: usize,
    pub len: usize,
    pub capacity: usize,
}

/// How many elements each queue of a cache has room for.
#[derive(Debug, Clone, Copy, PartialEq, Eq, Structural)]
pub struct Capacities {
    pub hh_k: usize,
    pub hh_v: usize,
    pub recent_k: usize,
    pub recent_v: usize,
    pub hh_scores: usize,
    pub recent_scores: usize,
}

/// How many elements each queue of a cache holds.
#[derive(Debug, Clone, Copy, PartialEq, Eq, Structural)]
pub struct Lengths {
    pub hh_k: usize,
    pub hh_v: usize,
    pub recent_k: usize,
    pub recent_v: usize,
    pub hh_scores: usize,
    pub recent_scores: usize,
}

/// Where a cache lies and what it is made of.
#[derive(Debug, Clone, Copy, PartialEq, Eq, Structural)]
pub struct CacheLayout {
    pub start: usize,
    pub end: usize,
    pub size: usize,
    pub align: usize,
    pub capacities: Capacities,
    pub lengths: Lengths,
    pub hh_capacity: usize,
    pub recent_capacity: usize,
    pub num_heads: usize,
}

/// Where a queue lies that starts at an address and has elements of a size.
fn queue_layout(start: usize, len: usize, capacity: usize, size: usize) -> (r: QueueLayout)
    requires
        start + len * size <= usize::MAX,
    ensures
        r == (QueueLayout { start, end: (start + len * size) as usize, len, capacity }),
{
    assert(0 <= len * size) by (nonlinear_arith);
    QueueLayout { start, end: start + len * size, len, capacity }
}

impl H2OCache {
    /// Where the cache lies, given its address, its size and alignment, and how many
    /// elements its queues have room for.
    pub fn memory_layout(
        &self,
        start: usize,
        size: usize,
        align: usize,
        capacities: Capacities,
    ) -> (r: CacheLayout)
        requires
            self.wf(),
            start + size <= usize::MAX,
        ensures
            r.start == start,
            r.end == start + size,
            r.size == size,
            r.align == align,
            r.capacities == capacities,
            r.lengths.hh_k == self@.heavy.len(),
            r.lengths.hh_v == self@.heavy.len(),
            r.lengths.hh_scores == self@.heavy.len(),
            r.lengths.recent_k == self@.recent.len(),
            r.lengths.recent_v == self@.recent.len(),
            r.lengths.recent_scores == self@.recent.len(),
            r.hh_capacity == self@.heavy_capacity,
            r.recent_capacity == self@.recent_capacity,
            r.num_heads == self@.num_heads,
    {
        CacheLayout {
            start,
            end: start + size,
            size,
            align,
            capacities,
            lengths: Lengths {
                hh_k: self.hh_k.len(),
                hh_v: self.hh_v.len(),
                recent_k: self.recent_k.len(),
                recent_v: self.recent_v.len(),
                hh_scores: self.hh_scores.len(),
                recent_scores: self.recent_scores.len(),
            },
            hh_capacity: self.hh_capacity,
            recent_capacity: self.recent_capacity,
            num_heads: self.num_heads,
        }
    }

    /// Where the queue of recent keys lies, given the address of its first element,
    /// how many it has room for and how large one is.
    pub fn recent_k_layout(&self, start: usize, capacity: usize, size: usize) -> (r: QueueLayout)
        requires
            self.wf(),
            start + self@.recent.len() * size <= usize::MAX,
        ensures
            r.start == start,
            r.end == start + self@.recent.len() * size,
            r.len == self@.recent.len(),
            r.capacity == capacity,
    {
        queue_layout(start, self.recent_k.len(), capacity, size)
    }

    /// Where the queue of recent values lies.
    pub fn recent_v_layout(&self, start: usize, capacity: usize, size: usize) -> (r: QueueLayout)
        requires
            self.wf(),
            start + self@.recent.len() * size <= usize::MAX,
        ensures
            r.start == start,
            r.end == start + self@.recent.len() * size,
            r.len == self@.recent.len(),
            r.capacity == capacity,
    {
        queue_layout(start, self.recent_v.len(), capacity, size)
    }

    /// Where the queue of the heavy hitters' keys lies.
    pub fn hh_k_layout(&self, start: usize, capacity: usize, size: usize) -> (r: QueueLayout)
        requires
            self.wf(),
            start + self@.heavy.len() * size <= usize::MAX,
        ensures
            r.start == start,
            r.end == start + self@.heavy.len() * size,
            r.len == self@.heavy.len(),
            r.capacity == capacity,
    {
        queue_layout(start, self.hh_k.len(), capacity, size)
    }

    /// Where the queue of the heavy hitters' values lies.
    pub fn hh_v_layout(&self, start: usize, capacity: usize, size: usize) -> (r: QueueLayout)
        requires
            self.wf(),
            start + self@.heavy.len() * size <= usize::MAX,
        ensures
            r.start == start,
            r.end == start + self@.heavy.len() * size,
            r.len == self@.heavy.len(),
            r.capacity == capacity,
    {
        queue_layout(start, self.hh_v.len(), capacity, size)
    }
}

} // verus!
