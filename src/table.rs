use vstd::prelude::*;

verus! {

/// One record of the block table: a contiguous region of the arena that is
/// either in use or free.
#[derive(Clone, Copy, Debug, PartialEq, Eq, Structural)]
pub struct Block {
    pub start: usize,
    pub size: usize,
    pub is_free: bool,
}

impl Block {
    /// First offset past the block.
    pub open spec fn end(self) -> int {
        self.start + self.size
    }

    /// The same region, marked free or in use.
    pub open spec fn with_free(self, is_free: bool) -> Block {
        Block { start: self.start, size: self.size, is_free }
    }
}

/// A free block of at least `min` bytes.
pub open spec fn fits(b: Block, min: int) -> bool {
    b.is_free && b.size >= min
}

/// Two blocks that coalescing merges: both free, the second starting where the
/// first ends.
pub open spec fn mergeable(a: Block, b: Block) -> bool {
    a.is_free && b.is_free && a.end() == b.start
}

/// A well-formed table: every block ends within the address space and each
/// block ends at or before the start of the next one.
pub open spec fn table_wf(s: Seq<Block>) -> bool {
    &&& forall|i: int| 0 <= i < s.len() ==> #[trigger] s[i].end() <= usize::MAX
    &&& forall|i: int| 0 <= i < s.len() - 1 ==> #[trigger] s[i].end() <= s[i + 1].start
}

/// No adjacent pair of the table could be merged.
pub open spec fn fully_coalesced(s: Seq<Block>) -> bool {
    forall|i: int| 0 <= i < s.len() - 1 ==> !mergeable(#[trigger] s[i], s[i + 1])
}

/// Offset just past the last block: where the next bump allocation goes.
pub open spec fn table_end(s: Seq<Block>) -> int {
    if s.len() == 0 {
        0
    } else {
        s.last().end()
    }
}

/// `k` is the lowest index holding a free block of at least `min` bytes.
pub open spec fn is_first_fit(s: Seq<Block>, min: int, k: int) -> bool {
    &&& 0 <= k < s.len()
    &&& fits(s[k], min)
    &&& forall|j: int| 0 <= j < k ==> !fits(#[trigger] s[j], min)
}

/// The first-fit choice for a request of `min` bytes, if any block qualifies.
pub open spec fn first_fit(s: Seq<Block>, min: int) -> Option<int> {
    if exists|k: int| is_first_fit(s, min, k) {
        Some(choose|k: int| is_first_fit(s, min, k))
    } else {
        None
    }
}

/// `k` is the lowest index of a block that starts at `offset`.
pub open spec fn is_first_at(s: Seq<Block>, offset: int, k: int) -> bool {
    &&& 0 <= k < s.len()
    &&& s[k].start == offset
    &&& forall|j: int| 0 <= j < k ==> #[trigger] s[j].start != offset
}

/// The block that a lookup by start offset finds, if any.
pub open spec fn locate(s: Seq<Block>, offset: int) -> Option<int> {
    if exists|k: int| is_first_at(s, offset, k) {
        Some(choose|k: int| is_first_at(s, offset, k))
    } else {
        None
    }
}

/// The single left-to-right merging pass: a free block absorbs each following
/// free block that starts where it ends, and the pass moves on only once the
/// current block can absorb nothing more.
pub open spec fn coalesced(s: Seq<Block>) -> Seq<Block>
    decreases s.len(),
{
    if s.len() < 2 {
        s
    } else if mergeable(s[0], s[1]) {
        let merged = Block { start: s[0].start, size: (s[0].size + s[1].size) as usize, is_free: true };
        coalesced(seq![merged] + s.subrange(2, s.len() as int))
    } else {
        seq![s[0]] + coalesced(s.subrange(1, s.len() as int))
    }
}

pub(crate) proof fn lemma_first_fit_unique(s: Seq<Block>, min: int, k: int)
    requires
        is_first_fit(s, min, k),
    ensures
        first_fit(s, min) == Some(k),
{
    let c = choose|c: int| is_first_fit(s, min, c);
    assert(is_first_fit(s, min, c));
    if c < k {
        assert(!fits(s[c], min));
    } else if k < c {
        assert(!fits(s[k], min));
    }
}

/// The merging pass keeps the first block's start and state.
pub proof fn lemma_coalesced_head(s: Seq<Block>)
    requires
        s.len() > 0,
    ensures
        coalesced(s).len() > 0,
        coalesced(s)[0].start == s[0].start,
        coalesced(s)[0].is_free == s[0].is_free,
    decreases s.len(),
{
    if s.len() >= 2 {
        if mergeable(s[0], s[1]) {
            let merged = Block { start: s[0].start, size: (s[0].size + s[1].size) as usize, is_free: true };
            lemma_coalesced_head(seq![merged] + s.subrange(2, s.len() as int));
        }
    }
}

/// After the merging pass no adjacent pair can be merged.
pub proof fn lemma_coalesced_fully(s: Seq<Block>)
    ensures
        fully_coalesced(coalesced(s)),
    decreases s.len(),
{
    if s.len() >= 2 {
        if mergeable(s[0], s[1]) {
            let merged = Block { start: s[0].start, size: (s[0].size + s[1].size) as usize, is_free: true };
            lemma_coalesced_fully(seq![merged] + s.subrange(2, s.len() as int));
        } else {
            let rest = s.subrange(1, s.len() as int);
            let c = coalesced(rest);
            lemma_coalesced_fully(rest);
            lemma_coalesced_head(rest);
            let r = seq![s[0]] + c;
            assert(r == coalesced(s));
            assert forall|i: int| 0 <= i < r.len() - 1 implies !mergeable(#[trigger] r[i], r[i + 1]) by {
                if i > 0 {
                    assert(r[i] == c[i - 1]);
                    assert(r[i + 1] == c[i]);
                }
            }
        }
    }
}

/// A table with nothing to merge is left as it is.
pub proof fn lemma_coalesced_noop(s: Seq<Block>)
    requires
        fully_coalesced(s),
    ensures
        coalesced(s) == s,
    decreases s.len(),
{
    if s.len() >= 2 {
        assert(!mergeable(s[0], s[1]));
        let rest = s.subrange(1, s.len() as int);
        assert forall|i: int| 0 <= i < rest.len() - 1 implies !mergeable(#[trigger] rest[i], rest[i + 1]) by {
            assert(rest[i] == s[i + 1]);
            assert(rest[i + 1] == s[i + 2]);
        }
        lemma_coalesced_noop(rest);
        assert(seq![s[0]] + rest =~= s);
    }
}

/// The block table: block records sorted by start offset.
pub struct BlockTable {
    blocks: Vec<Block>,
}

impl View for BlockTable {
    type V = Seq<Block>;

    closed spec fn view(&self) -> Seq<Block> {
        self.blocks@
    }
}

impl BlockTable {
    pub open spec fn wf(&self) -> bool {
        table_wf(self@)
    }

    /// An empty table.
    pub fn new() -> (r: BlockTable)
        ensures
            r@ == Seq::<Block>::empty(),
            r.wf(),
    {
        BlockTable { blocks: Vec::new() }
    }

    /// Number of records.
    pub fn len(&self) -> (r: usize)
        ensures
            r == self@.len(),
    {
        self.blocks.len()
    }

    /// The record at index `i`.
    pub fn get(&self, i: usize) -> (r: Block)
        requires
            i < self@.len(),
        ensures
            r == self@[i as int],
    {
        self.blocks[i]
    }

    /// Index of the first free block, in table order, of at least `min_size`
    /// bytes.
    pub fn find_first_free(&self, min_size: usize) -> (r: Option<usize>)
        ensures
            r matches Some(k) ==> first_fit(self@, min_size as int) == Some(k as int),
            r is None ==> first_fit(self@, min_size as int) is None,
    {
        let mut i: usize = 0;
        while i < self.blocks.len()
            invariant
                i <= self@.len(),
                forall|j: int| 0 <= j < i ==> !fits(#[trigger] self@[j], min_size as int),
            decreases self@.len() - i,
        {
            let b = self.blocks[i];
            if b.is_free && b.size >= min_size {
                proof {
                    lemma_first_fit_unique(self@, min_size as int, i as int);
                }
                return Some(i);
            }
            i += 1;
        }
        assert(forall|k: int| !is_first_fit(self@, min_size as int, k));
        None
    }

    /// Offset just past the last block, 0 for an empty table. Blocks never
    /// overlap, so this is the highest end among all blocks.
    pub fn next_bump_offset(&self) -> (r: usize)
        requires
            self.wf(),
        ensures
            r == table_end(self@),
            forall|i: int| 0 <= i < self@.len() ==> #[trigger] self@[i].end() <= r,
    {
        proof {
            crate::laws::lemma_no_overlap(self@);
        }
        let n = self.blocks.len();
        if n == 0 {
            0
        } else {
            let last = self.blocks[n - 1];
            assert(self@[n - 1].end() <= usize::MAX);
            last.start + last.size
        }
    }

    /// Appends a block in use at the end of the table.
    pub fn append(&mut self, start: usize, size: usize)
        requires
            old(self).wf(),
            start >= table_end(old(self)@),
            start + size <= usize::MAX,
        ensures
            final(self)@ == old(self)@.push(Block { start, size, is_free: false }),
            final(self).wf(),
    {
        self.blocks.push(Block { start, size, is_free: false });
    }

    /// Index of the first block that starts at `offset`.
    pub fn locate_by_start(&self, offset: usize) -> (r: Option<usize>)
        ensures
            r matches Some(k) ==> locate(self@, offset as int) == Some(k as int),
            r is None ==> locate(self@, offset as int) is None,
    {
        let mut i: usize = 0;
        while i < self.blocks.len()
            invariant
                i <= self@.len(),
                forall|j: int| 0 <= j < i ==> #[trigger] self@[j].start != offset,
            decreases self@.len() - i,
        {
            if self.blocks[i].start == offset {
                proof {
                    let c = choose|c: int| is_first_at(self@, offset as int, c);
                    assert(is_first_at(self@, offset as int, i as int));
                    assert(is_first_at(self@, offset as int, c));
                    if c < i {
                        assert(self@[c].start != offset);
                    } else if c > i {
                        assert(self@[i as int].start != offset);
                    }
                }
                return Some(i);
            }
            i += 1;
        }
        assert(forall|k: int| !is_first_at(self@, offset as int, k));
        None
    }

    /// Marks the block at index `i` free or in use.
    pub fn set_free(&mut self, i: usize, is_free: bool)
        requires
            old(self).wf(),
            i < old(self)@.len(),
        ensures
            final(self)@ == old(self)@.update(i as int, old(self)@[i as int].with_free(is_free)),
            final(self).wf(),
    {
        let b = self.blocks[i];
        self.blocks.set(i, Block { start: b.start, size: b.size, is_free });
        assert forall|j: int| 0 <= j < self@.len() implies #[trigger] self@[j].end() == old(self)@[j].end() by {}
    }

    /// Merges every run of adjacent free blocks in one left-to-right pass.
    pub fn coalesce(&mut self)
        requires
            old(self).wf(),
        ensures
            final(self)@ == coalesced(old(self)@),
            final(self).wf(),
            fully_coalesced(final(self)@),
            table_end(final(self)@) == table_end(old(self)@),
    {
        let mut i: usize = 0;
        assert(self@.subrange(0, self@.len() as int) =~= self@);
        assert(self@.subrange(0, 0) + coalesced(self@.subrange(0, self@.len() as int)) =~= coalesced(self@));
        let mut n = self.blocks.len();
        while i + 1 < n
            invariant
                table_wf(self@),
                table_end(self@) == table_end(old(self)@),
                i == 0 || i < self@.len(),
                n == self@.len(),
                coalesced(old(self)@) == self@.subrange(0, i as int) + coalesced(
                    self@.subrange(i as int, self@.len() as int),
                ),
            decreases self@.len() - i,
        {
            let current = self.blocks[i];
            let next = self.blocks[i + 1];
            if current.is_free && next.is_free && current.start + current.size == next.start {
                let ghost s = self@;
                assert(s[i + 1].end() <= usize::MAX);
                let merged = Block { start: current.start, size: current.size + next.size, is_free: true };
                self.blocks.set(i, merged);
                self.blocks.remove(i + 1);
                n -= 1;
                proof {
                    let t = self@;
                    let n = s.len() as int;
                    let tail = s.subrange(i as int, n);
                    assert(tail[0] == current && tail[1] == next);
                    assert(tail.subrange(2, tail.len() as int) =~= s.subrange(i + 2, n));
                    assert(t.subrange(0, i as int) =~= s.subrange(0, i as int));
                    assert(t.subrange(i as int, t.len() as int) =~= seq![merged] + s.subrange(i + 2, n));
                    assert forall|j: int| 0 <= j < t.len() - 1 implies #[trigger] t[j].end() <= t[j + 1].start by {
                        if j < i {
                            assert(t[j] == s[j] && t[j + 1].start == s[j + 1].start);
                        } else if j == i {
                            assert(t[j + 1] == s[j + 2]);
                            assert(s[j + 1].end() <= s[j + 2].start);
                        } else {
                            assert(t[j] == s[j + 1] && t[j + 1] == s[j + 2]);
                        }
                    }
                    assert forall|j: int| 0 <= j < t.len() implies #[trigger] t[j].end() <= usize::MAX by {
                        if j > i {
                            assert(t[j] == s[j + 1]);
                        } else if j < i {
                            assert(t[j] == s[j]);
                        } else {
                            assert(s[j + 1].end() <= usize::MAX);
                        }
                    }
                    if i + 2 == n {
                        assert(t.last() == merged);
                    } else {
                        assert(t.last() == s.last());
                    }
                }
            } else {
                proof {
                    let s = self@;
                    let n = s.len() as int;
                    let tail = s.subrange(i as int, n);
                    assert(tail[0] == current && tail[1] == next);
                    assert(tail.subrange(1, tail.len() as int) =~= s.subrange(i + 1, n));
                    assert(s.subrange(0, i + 1) =~= s.subrange(0, i as int) + seq![current]);
                    assert(coalesced(tail) == seq![current] + coalesced(s.subrange(i + 1, n)));
                    assert(s.subrange(0, i as int) + (seq![current] + coalesced(s.subrange(i + 1, n))) =~= s.subrange(0, i + 1) + coalesced(s.subrange(i + 1, n)));
                }
                i += 1;
            }
        }
        proof {
            let s = self@;
            assert(s.subrange(0, i as int) + s.subrange(i as int, s.len() as int) =~= s);
            lemma_coalesced_fully(old(self)@);
        }
    }
}

} // verus!
