//! Counting the flags of a list that are not set.
use vstd::prelude::*;

verus! {

/// The number of the first `k` flags that are not set.
pub open spec fn unset(flags: Seq<bool>, k: int) -> int
    decreases k,
{
    if k <= 0 {
        0
    } else {
        unset(flags, k - 1) + if flags[k - 1] {
            0int
        } else {
            1int
        }
    }
}

/// Setting a flag that was not set takes one from the count, where the
/// flag is among those counted.
pub proof fn lemma_unset_after(flags: Seq<bool>, v: int, k: int)
    requires
        0 <= v < flags.len(),
        !flags[v],
        0 <= k <= flags.len(),
    ensures
        unset(flags.update(v, true), k) == unset(flags, k) - if v < k {
            1int
        } else {
            0int
        },
        0 <= unset(flags, k),
    decreases k,
{
    if k > 0 {
        lemma_unset_after(flags, v, k - 1);
    }
}

/// The count is never negative, and no more than the flags counted.
pub proof fn lemma_unset_nonnegative(flags: Seq<bool>, k: int)
    ensures
        0 <= unset(flags, k),
        0 <= k ==> unset(flags, k) <= k,
    decreases k,
{
    if k > 0 {
        lemma_unset_nonnegative(flags, k - 1);
    }
}

/// Where every flag set in `a` is set in `b`, no more flags are unset in `b`.
pub proof fn lemma_unset_monotone(a: Seq<bool>, b: Seq<bool>, k: int)
    requires
        0 <= k <= a.len(),
        a.len() == b.len(),
        forall|i: int| 0 <= i < k && a[i] ==> b[i],
    ensures
        unset(b, k) <= unset(a, k),
    decreases k,
{
    if k > 0 {
        lemma_unset_monotone(a, b, k - 1);
    }
}

/// Of `k` flags of which none is set, `k` are unset.
pub proof fn lemma_unset_blank(flags: Seq<bool>, k: int)
    requires
        0 <= k <= flags.len(),
        forall|i: int| 0 <= i < k ==> !flags[i],
    ensures
        unset(flags, k) == k,
    decreases k,
{
    if k > 0 {
        lemma_unset_blank(flags, k - 1);
    }
}

} // verus!
