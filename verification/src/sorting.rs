//! Sorting pairs by their first component.
use vstd::prelude::*;

verus! {

broadcast use vstd::seq_lib::group_to_multiset_ensures;

/// The first components of `s` never decrease.
pub open spec fn sorted_by_key(s: Seq<(u64, u128)>) -> bool {
    forall|i: int, j: int| 0 <= i <= j < s.len() ==> s[i].0 <= s[j].0
}

/// Sorts `v` by the first component, lowest first.
pub fn sort_by_key(v: &mut Vec<(u64, u128)>)
    ensures
        sorted_by_key(final(v)@),
        final(v)@.to_multiset() == old(v)@.to_multiset(),
        final(v)@.len() == old(v)@.len(),
{
    let n = v.len();
    let mut i: usize = 1;
    while i < n
        invariant
            n == v@.len(),
            n == old(v)@.len(),
            1 <= i || n == 0,
            v@.to_multiset() == old(v)@.to_multiset(),
            sorted_by_key(v@.take(if i <= n { i as int } else { n as int })),
        decreases n - i,
    {
        let mut j: usize = i;
        proof {
            let head = v@.take(i as int);
            assert forall|a: int, b: int| 0 <= a <= b <= i && a != j && b != j implies v@[a].0
                <= v@[b].0 by {
                assert(head[a].0 <= head[b].0);
            }
        }
        while j > 0 && v[j - 1].0 > v[j].0
            invariant
                n == v@.len(),
                j <= i < n,
                v@.to_multiset() == old(v)@.to_multiset(),
                forall|a: int, b: int| 0 <= a <= b <= i && a != j && b != j ==> v@[a].0 <= v@[b].0,
                forall|b: int| j < b <= i ==> v@[j as int].0 <= v@[b].0,
            decreases j,
        {
            let low = v[j];
            let high = v[j - 1];
            let ghost s0 = v@;
            v.set(j - 1, low);
            let ghost s1 = v@;
            v.set(j, high);
            proof {
                assert(s1.to_multiset() == s0.to_multiset().insert(low).remove(high));
                assert(v@.to_multiset() == s1.to_multiset().insert(high).remove(low));
                assert(s0.to_multiset().count(high) > 0) by {
                    assert(s0.contains(high));
                }
                assert(v@.to_multiset() =~= s0.to_multiset());
            }
            j -= 1;
        }
        proof {
            let s = v@.take(i + 1);
            assert forall|a: int, b: int| 0 <= a <= b < s.len() implies s[a].0 <= s[b].0 by {
                if a == j && b != j {
                } else if b == j && a != j {
                    if j > 0 {
                        assert(v@[a].0 <= v@[j - 1].0);
                    }
                }
            }
        }
        i += 1;
    }
    proof {
        if n == 0 {
            assert(v@.take(0) =~= v@);
        } else {
            assert(v@.take(n as int) =~= v@);
        }
    }
}

} // verus!
