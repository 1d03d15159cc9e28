//! Counting occupied (non-zero) slots of a child table.
//!
//! A node's fill count must always equal the number of non-zero entries of its
//! child table; these lemmas track that number across single-slot updates.

use vstd::prelude::*;

verus! {

/// Number of non-zero entries among the first `k` elements of `s`.
pub(crate) open spec fn nonzero_below(s: Seq<u32>, k: int) -> int
    decreases k,
{
    if k <= 0 {
        0
    } else {
        nonzero_below(s, k - 1) + (if s[k - 1] != 0 {
            1int
        } else {
            0int
        })
    }
}

pub(crate) proof fn lemma_nonzero_below_bounds(s: Seq<u32>, k: int)
    ensures
        0 <= nonzero_below(s, k) <= (if k >= 0 {
            k
        } else {
            0
        }),
    decreases k,
{
    if k > 0 {
        lemma_nonzero_below_bounds(s, k - 1);
    }
}

/// Updating one slot changes the count exactly by the occupancy change of that slot.
pub(crate) proof fn lemma_nonzero_below_update(s: Seq<u32>, k: int, b: int, v: u32)
    requires
        0 <= b < s.len(),
        k <= s.len(),
    ensures
        nonzero_below(s.update(b, v), k) == nonzero_below(s, k) + (if b < k {
            (if v != 0 {
                1int
            } else {
                0int
            }) - (if s[b] != 0 {
                1int
            } else {
                0int
            })
        } else {
            0int
        }),
    decreases k,
{
    if k > 0 {
        lemma_nonzero_below_update(s, k - 1, b, v);
    }
}

/// A zero count means every slot below `k` is empty.
pub(crate) proof fn lemma_nonzero_below_all_zero(s: Seq<u32>, k: int)
    requires
        nonzero_below(s, k) == 0,
    ensures
        forall|b: int| 0 <= b < k ==> s[b] == 0,
    decreases k,
{
    if k > 0 {
        lemma_nonzero_below_bounds(s, k - 1);
        lemma_nonzero_below_all_zero(s, k - 1);
    }
}

/// An occupied slot contributes: the count is at least one.
pub(crate) proof fn lemma_nonzero_below_occupied(s: Seq<u32>, k: int, b: int)
    requires
        0 <= b < k,
        s[b] != 0,
    ensures
        nonzero_below(s, k) >= 1,
    decreases k,
{
    lemma_nonzero_below_bounds(s, k - 1);
    if b < k - 1 {
        lemma_nonzero_below_occupied(s, k - 1, b);
    }
}

/// An empty slot leaves room: the count is at most `k - 1`.
pub(crate) proof fn lemma_nonzero_below_vacant(s: Seq<u32>, k: int, b: int)
    requires
        0 <= b < k,
        s[b] == 0,
    ensures
        nonzero_below(s, k) <= k - 1,
    decreases k,
{
    lemma_nonzero_below_bounds(s, k - 1);
    if b < k - 1 {
        lemma_nonzero_below_vacant(s, k - 1, b);
    }
}

/// A positive count exhibits an occupied slot.
pub(crate) proof fn lemma_nonzero_below_find(s: Seq<u32>, k: int)
    requires
        nonzero_below(s, k) != 0,
    ensures
        exists|b: int| 0 <= b < k && s[b] != 0,
    decreases k,
{
    if k > 0 {
        if s[k - 1] != 0 {
            assert(0 <= k - 1 < k && s[k - 1] != 0);
        } else {
            lemma_nonzero_below_find(s, k - 1);
        }
    }
}

} // verus!
