//! Allocation of track identifiers.

use vstd::prelude::*;

verus! {

/// The identifier that follows `id`: one more, and zero after the largest.
pub open spec fn next_id(id: u32) -> u32 {
    if id == u32::MAX {
        0
    } else {
        (id + 1) as u32
    }
}

/// The identifier handed out `count` allocations after `start`.
pub open spec fn nth_id(start: u32, count: nat) -> u32
    decreases count,
{
    if count == 0 {
        start
    } else {
        next_id(nth_id(start, (count - 1) as nat))
    }
}

/// Source of track identifiers: hands out consecutive numbers, each once,
/// and starts over at zero only after the largest `u32`.
#[derive(Debug)]
pub struct IdAllocator {
    next: u32,
}

impl IdAllocator {
    /// The identifier that the next allocation returns.
    pub closed spec fn upcoming(&self) -> u32 {
        self.next
    }

    /// An allocator whose first identifier is zero.
    pub fn new() -> (allocator: Self)
        ensures
            allocator.upcoming() == 0,
    {
        IdAllocator { next: 0 }
    }

    /// An allocator whose first identifier is `first`: for a run that goes on
    /// where an earlier one stopped.
    pub fn starting_at(first: u32) -> (allocator: Self)
        ensures
            allocator.upcoming() == first,
    {
        IdAllocator { next: first }
    }

    /// The identifier that the next allocation returns.
    pub fn peek(&self) -> (id: u32)
        ensures
            id == self.upcoming(),
    {
        self.next
    }

    /// Hands out the upcoming identifier and moves on to the one after it.
    pub fn allocate(&mut self) -> (id: u32)
        ensures
            id == old(self).upcoming(),
            final(self).upcoming() == next_id(id),
    {
        let id: u32 = self.next;
        self.next = if id == u32::MAX {
            0
        } else {
            id + 1
        };
        id
    }
}

/// Without wrap-around the `count`-th identifier after `start` is `start + count`.
pub proof fn lemma_nth_id_linear(start: u32, count: nat)
    requires
        start + count <= u32::MAX,
    ensures
        nth_id(start, count) == start + count,
    decreases count,
{
    if count > 0 {
        lemma_nth_id_linear(start, (count - 1) as nat);
    }
}

/// Identifiers never decrease across allocations and no two allocations
/// share one, as long as the counter has not wrapped around.
pub proof fn lemma_ids_increase(start: u32, earlier: nat, later: nat)
    requires
        earlier < later,
        start + later <= u32::MAX,
    ensures
        nth_id(start, earlier) < nth_id(start, later),
{
    lemma_nth_id_linear(start, earlier);
    lemma_nth_id_linear(start, later);
}

} // verus!
