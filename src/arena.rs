use vstd::prelude::*;

verus! {

/// Capacity of the default arena, in bytes.
pub const HEAP_SIZE: usize = 1024;

/// The simulated heap: the byte range `[0, capacity)`. It only bounds what the
/// allocator may hand out; its bytes are never read or written.
pub struct Arena {
    capacity: usize,
}

impl Arena {
    pub closed spec fn spec_capacity(&self) -> usize {
        self.capacity
    }

    /// An arena of `capacity` bytes.
    pub fn new(capacity: usize) -> (r: Arena)
        ensures
            r.capacity() == capacity,
    {
        Arena { capacity }
    }

    /// Size of the arena in bytes.
    #[verifier::when_used_as_spec(spec_capacity)]
    pub fn capacity(&self) -> (r: usize)
        ensures
            r == self.capacity(),
    {
        self.capacity
    }

    /// Whether `offset` is an address of the arena.
    pub fn contains(&self, offset: usize) -> (r: bool)
        ensures
            r == (offset < self.capacity()),
    {
        offset < self.capacity
    }
}

} // verus!
