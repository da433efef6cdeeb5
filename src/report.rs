use vstd::prelude::*;

use crate::allocator::Allocator;
use crate::table::{table_end, table_wf, Block};

verus! {

/// Usage figures of the arena.
#[derive(Clone, Copy, Debug, PartialEq, Eq, Structural)]
pub struct HeapStatus {
    pub total_capacity: usize,
    pub used_bytes: usize,
    pub free_bytes: usize,
}

/// One symbol of the heap picture.
#[derive(Clone, Copy, Debug, PartialEq, Eq, Structural)]
pub enum Mark {
    Used,
    Free,
}

/// Total size of the blocks in use.
pub open spec fn used_total(s: Seq<Block>) -> nat
    decreases s.len(),
{
    if s.len() == 0 {
        0
    } else {
        used_total(s.drop_last()) + if s.last().is_free {
            0nat
        } else {
            s.last().size as nat
        }
    }
}

pub open spec fn mark_of(b: Block) -> Mark {
    if b.is_free {
        Mark::Free
    } else {
        Mark::Used
    }
}

/// How many symbols a block gets: one per eight bytes, at least one, and none
/// for an empty block.
pub open spec fn mark_count(b: Block) -> nat {
    if b.size == 0 {
        0
    } else if b.size / 8 >= 1 {
        (b.size / 8) as nat
    } else {
        1
    }
}

pub open spec fn block_marks(b: Block) -> Seq<Mark> {
    Seq::new(mark_count(b), |_i: int| mark_of(b))
}

/// The heap picture: the symbols of each block, in table order.
pub open spec fn picture(s: Seq<Block>) -> Seq<Mark>
    decreases s.len(),
{
    if s.len() == 0 {
        Seq::empty()
    } else {
        picture(s.drop_last()) + block_marks(s.last())
    }
}

/// The blocks in use of a well-formed table take no more room than the table
/// spans.
pub proof fn lemma_used_within_end(s: Seq<Block>)
    requires
        table_wf(s),
    ensures
        used_total(s) <= table_end(s),
    decreases s.len(),
{
    if s.len() > 0 {
        let p = s.drop_last();
        assert forall|i: int| 0 <= i < p.len() implies #[trigger] p[i].end() <= usize::MAX by {
            assert(p[i] == s[i]);
            assert(s[i].end() <= usize::MAX);
        }
        assert forall|i: int| 0 <= i < p.len() - 1 implies #[trigger] p[i].end() <= p[i + 1].start by {
            assert(p[i] == s[i]);
            assert(s[i].end() <= s[i + 1].start);
        }
        lemma_used_within_end(p);
        if p.len() > 0 {
            assert(s[p.len() - 1].end() <= s[p.len() as int].start);
        }
    }
}

/// A prefix of a well-formed table is well formed.
pub proof fn lemma_prefix_wf(s: Seq<Block>, n: int)
    requires
        table_wf(s),
        0 <= n <= s.len(),
    ensures
        table_wf(s.subrange(0, n)),
{
    let p = s.subrange(0, n);
    assert forall|i: int| 0 <= i < p.len() implies #[trigger] p[i].end() <= usize::MAX by {
        assert(s[i].end() <= usize::MAX);
    }
    assert forall|i: int| 0 <= i < p.len() - 1 implies #[trigger] p[i].end() <= p[i + 1].start by {
        assert(s[i].end() <= s[i + 1].start);
    }
}

impl Allocator {
    /// Capacity, bytes in use, and the rest of the arena, which counts as
    /// free whether or not a block covers it.
    pub fn status(&self) -> (r: HeapStatus)
        requires
            self.wf(),
        ensures
            r.total_capacity == self.capacity(),
            r.used_bytes == used_total(self@),
            r.free_bytes == self.capacity() - used_total(self@),
    {
        let ghost s = self@;
        let n = self.block_count();
        let mut used: usize = 0;
        let mut i: usize = 0;
        while i < n
            invariant
                n == s.len(),
                s == self@,
                table_wf(s),
                i <= n,
                used == used_total(s.subrange(0, i as int)),
            decreases n - i,
        {
            let b = self.block(i);
            proof {
                let p = s.subrange(0, i + 1);
                assert(p.drop_last() =~= s.subrange(0, i as int));
                lemma_prefix_wf(s, i + 1);
                lemma_used_within_end(p);
            }
            if !b.is_free {
                used = used + b.size;
            }
            i += 1;
        }
        proof {
            assert(s.subrange(0, n as int) =~= s);
            lemma_used_within_end(s);
        }
        let capacity = self.capacity();
        HeapStatus { total_capacity: capacity, used_bytes: used, free_bytes: capacity - used }
    }

    /// The heap picture: for each block in table order, one symbol per eight
    /// bytes and at least one, marking it used or free; empty blocks are
    /// left out.
    pub fn visualize(&self) -> (r: Vec<Mark>)
        ensures
            r@ == picture(self@),
    {
        let ghost s = self@;
        let n = self.block_count();
        let mut out: Vec<Mark> = Vec::new();
        let mut i: usize = 0;
        while i < n
            invariant
                n == s.len(),
                s == self@,
                i <= n,
                out@ == picture(s.subrange(0, i as int)),
            decreases n - i,
        {
            let b = self.block(i);
            let mark = if b.is_free {
                Mark::Free
            } else {
                Mark::Used
            };
            let count: usize = if b.size == 0 {
                0
            } else if b.size / 8 >= 1 {
                b.size / 8
            } else {
                1
            };
            let ghost before = out@;
            let mut j: usize = 0;
            while j < count
                invariant
                    j <= count,
                    out@ == before + Seq::new(j as nat, |_k: int| mark),
                decreases count - j,
            {
                out.push(mark);
                j += 1;
                assert(out@ =~= before + Seq::new(j as nat, |_k: int| mark));
            }
            proof {
                let p = s.subrange(0, i + 1);
                assert(p.drop_last() =~= s.subrange(0, i as int));
                assert(p.last() == b);
                assert(Seq::new(count as nat, |_k: int| mark) =~= block_marks(b));
            }
            i += 1;
        }
        assert(s.subrange(0, n as int) =~= s);
        out
    }
}

} // verus!
