//! Properties that hold of every allocator state and of the operations
//! between them.
use vstd::prelude::*;

use crate::allocator::Allocator;
use crate::report::{lemma_used_within_end, used_total};
use crate::table::{
    coalesced, first_fit, fits, lemma_coalesced_fully, lemma_coalesced_noop,
    lemma_first_fit_unique, table_wf, Block,
};

verus! {

proof fn lemma_pair_ordered(s: Seq<Block>, i: int, j: int)
    requires
        table_wf(s),
        0 <= i < j < s.len(),
    ensures
        s[i].end() <= s[j].start,
    decreases j - i,
{
    if j > i + 1 {
        lemma_pair_ordered(s, i, j - 1);
        assert(s[j - 1].end() <= s[j].start);
    }
}

/// No two blocks of a well-formed table overlap: every block ends at or before
/// the start of each block after it.
pub proof fn lemma_no_overlap(s: Seq<Block>)
    requires
        table_wf(s),
    ensures
        forall|i: int, j: int| 0 <= i < j < s.len() ==> #[trigger] s[i].end() <= #[trigger] s[j].start,
{
    assert forall|i: int, j: int| 0 <= i < j < s.len() implies #[trigger] s[i].end() <= #[trigger] s[j].start by {
        lemma_pair_ordered(s, i, j);
    }
}

/// The allocator's table is sorted by start offset in every state that the
/// operations reach.
pub proof fn lemma_table_sorted(a: &Allocator)
    requires
        a.wf(),
    ensures
        forall|i: int, j: int| 0 <= i <= j < a@.len() ==> #[trigger] a@[i].start <= #[trigger] a@[j].start,
{
    lemma_no_overlap(a@);
    assert forall|i: int, j: int| 0 <= i <= j < a@.len() implies #[trigger] a@[i].start <= #[trigger] a@[j].start by {
        if i < j {
            assert(a@[i].end() <= a@[j].start);
        }
    }
}

/// The bytes held by blocks in use never exceed the arena's capacity.
pub proof fn lemma_used_within_capacity(a: &Allocator)
    requires
        a.wf(),
    ensures
        used_total(a@) <= a.capacity(),
{
    lemma_used_within_end(a@);
}

/// Merging a second time changes nothing.
pub proof fn lemma_coalesce_idempotent(s: Seq<Block>)
    ensures
        coalesced(coalesced(s)) == coalesced(s),
{
    lemma_coalesced_fully(s);
    lemma_coalesced_noop(coalesced(s));
}

proof fn lemma_first_fit_at_most(s: Seq<Block>, min: int, j: int)
    requires
        0 <= j < s.len(),
        fits(s[j], min),
    ensures
        first_fit(s, min) matches Some(k) && k <= j,
    decreases j,
{
    if exists|i: int| 0 <= i < j && fits(s[i], min) {
        let i = choose|i: int| 0 <= i < j && fits(s[i], min);
        lemma_first_fit_at_most(s, min, i);
    } else {
        lemma_first_fit_unique(s, min, j);
    }
}

/// Among the free blocks that can serve a request, the first-fit choice, the
/// one that `allocate` reuses, has the lowest start.
pub proof fn lemma_first_fit_lowest_start(a: &Allocator, size: usize, j: int)
    requires
        a.wf(),
        0 <= j < a@.len(),
        fits(a@[j], size as int),
    ensures
        first_fit(a@, size as int) matches Some(k) && a@[k].start <= a@[j].start,
{
    lemma_first_fit_at_most(a@, size as int, j);
    lemma_table_sorted(a);
}

} // verus!
