use vstd::prelude::*;

use crate::arena::{Arena, HEAP_SIZE};
use crate::table::{
    coalesced, first_fit, fully_coalesced, lemma_coalesced_noop, locate, mergeable, table_end,
    table_wf, Block, BlockTable,
};

verus! {

/// Why an allocator operation failed. A failed operation leaves the allocator
/// unchanged.
#[derive(Clone, Copy, Debug, PartialEq, Eq, Structural)]
pub enum AllocError {
    /// No free block is large enough and the arena has no room after the
    /// last block.
    OutOfMemory,
    /// No block starts at the given handle.
    InvalidHandle,
}

/// The allocator engine. It owns the arena and the block table.
///
/// A handle is the start offset of the block that `allocate` returned.
///
/// Policies: a request of zero bytes is served like any other, reusing the
/// first free block or appending a zero-length record; freeing a block that
/// is already free succeeds again and changes nothing more; a reused block
/// keeps its full size, even where the request was smaller.
pub struct Allocator {
    arena: Arena,
    table: BlockTable,
}

impl View for Allocator {
    type V = Seq<Block>;

    /// The block table.
    closed spec fn view(&self) -> Seq<Block> {
        self.table@
    }
}

impl Allocator {
    pub closed spec fn spec_capacity(&self) -> usize {
        self.arena.capacity()
    }

    /// The table is sorted and free of overlaps, lies within the arena, and
    /// holds no two adjacent free blocks that touch.
    pub open spec fn wf(&self) -> bool {
        &&& table_wf(self@)
        &&& table_end(self@) <= self.capacity()
        &&& fully_coalesced(self@)
    }

    /// An allocator over an empty arena of the default size.
    pub fn new() -> (r: Allocator)
        ensures
            r.wf(),
            r@ == Seq::<Block>::empty(),
            r.capacity() == HEAP_SIZE,
    {
        Allocator::with_capacity(HEAP_SIZE)
    }

    /// An allocator over an empty arena of `capacity` bytes.
    pub fn with_capacity(capacity: usize) -> (r: Allocator)
        ensures
            r.wf(),
            r@ == Seq::<Block>::empty(),
            r.capacity() == capacity,
    {
        Allocator { arena: Arena::new(capacity), table: BlockTable::new() }
    }

    /// Size of the arena in bytes.
    #[verifier::when_used_as_spec(spec_capacity)]
    pub fn capacity(&self) -> (r: usize)
        ensures
            r == self.capacity(),
    {
        self.arena.capacity()
    }

    /// Number of records in the block table.
    pub fn block_count(&self) -> (r: usize)
        ensures
            r == self@.len(),
    {
        self.table.len()
    }

    /// The record at index `i` of the block table.
    pub fn block(&self, i: usize) -> (r: Block)
        requires
            i < self@.len(),
        ensures
            r == self@[i as int],
    {
        self.table.get(i)
    }

    /// A copy of the block table.
    pub fn blocks(&self) -> (r: Vec<Block>)
        ensures
            r@ == self@,
    {
        let mut r: Vec<Block> = Vec::new();
        let mut i: usize = 0;
        while i < self.table.len()
            invariant
                i <= self@.len(),
                r@ == self@.subrange(0, i as int),
            decreases self@.len() - i,
        {
            r.push(self.table.get(i));
            i += 1;
            assert(r@ =~= self@.subrange(0, i as int));
        }
        assert(self@.subrange(0, self@.len() as int) =~= self@);
        r
    }

    /// Serves a request of `size` bytes and returns the handle of the block.
    ///
    /// The first free block of at least `size` bytes is marked in use and
    /// keeps its size. Where there is none, a block of `size` bytes is
    /// appended after the last block, if the arena has room for it.
    pub fn allocate(&mut self, size: usize) -> (r: Result<usize, AllocError>)
        requires
            old(self).wf(),
        ensures
            final(self).wf(),
            final(self).capacity() == old(self).capacity(),
            match first_fit(old(self)@, size as int) {
                Some(k) => {
                    &&& r == Ok::<usize, AllocError>(old(self)@[k].start)
                    &&& final(self)@ == old(self)@.update(k, old(self)@[k].with_free(false))
                },
                None => if table_end(old(self)@) + size <= old(self).capacity() {
                    &&& r == Ok::<usize, AllocError>(table_end(old(self)@) as usize)
                    &&& final(self)@ == old(self)@.push(
                        Block { start: table_end(old(self)@) as usize, size, is_free: false },
                    )
                } else {
                    &&& r == Err::<usize, AllocError>(AllocError::OutOfMemory)
                    &&& final(self)@ == old(self)@
                },
            },
    {
        match self.table.find_first_free(size) {
            Some(k) => {
                let b = self.table.get(k);
                let ghost s = self@;
                self.table.set_free(k, false);
                assert forall|i: int| 0 <= i < self@.len() - 1 implies !mergeable(
                    #[trigger] self@[i],
                    self@[i + 1],
                ) by {
                    if i != k && i + 1 != k {
                        assert(!mergeable(s[i], s[i + 1]));
                    }
                }
                Ok(b.start)
            },
            None => {
                let offset = self.table.next_bump_offset();
                if size > self.arena.capacity() - offset {
                    Err(AllocError::OutOfMemory)
                } else {
                    let ghost s = self@;
                    self.table.append(offset, size);
                    assert forall|i: int| 0 <= i < self@.len() - 1 implies !mergeable(
                        #[trigger] self@[i],
                        self@[i + 1],
                    ) by {
                        if i + 1 < s.len() {
                            assert(!mergeable(s[i], s[i + 1]));
                        }
                    }
                    Ok(offset)
                }
            },
        }
    }

    /// Frees the block whose handle is `handle`, then merges adjacent free
    /// blocks.
    pub fn free(&mut self, handle: usize) -> (r: Result<(), AllocError>)
        requires
            old(self).wf(),
        ensures
            final(self).wf(),
            final(self).capacity() == old(self).capacity(),
            match locate(old(self)@, handle as int) {
                Some(k) => {
                    &&& r == Ok::<(), AllocError>(())
                    &&& final(self)@ == coalesced(old(self)@.update(k, old(self)@[k].with_free(true)))
                },
                None => {
                    &&& r == Err::<(), AllocError>(AllocError::InvalidHandle)
                    &&& final(self)@ == old(self)@
                },
            },
    {
        match self.table.locate_by_start(handle) {
            Some(k) => {
                self.table.set_free(k, true);
                self.table.coalesce();
                Ok(())
            },
            None => Err(AllocError::InvalidHandle),
        }
    }

    /// Runs the merging pass over the table. Every operation already leaves
    /// no adjacent free blocks that touch, so the table stays as it is.
    pub fn merge_free_blocks(&mut self)
        requires
            old(self).wf(),
        ensures
            final(self).wf(),
            final(self).capacity() == old(self).capacity(),
            final(self)@ == coalesced(old(self)@),
            final(self)@ == old(self)@,
    {
        self.table.coalesce();
        proof {
            lemma_coalesced_noop(old(self)@);
        }
    }
}

} // verus!
