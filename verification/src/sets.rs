//! Facts about finite sets of numbers.
use vstd::prelude::*;

verus! {

/// A finite set of numbers below `bound` has at most `bound` members.
pub proof fn lemma_bounded_len(s: Set<u64>, bound: int)
    requires
        s.finite(),
        0 <= bound,
        forall|k: u64| #[trigger] s.contains(k) ==> k < bound,
    ensures
        s.len() <= bound,
{
    let f = |k: u64| k as int;
    let image = s.map(f);
    assert(vstd::relations::injective_on(f, s));
    vstd::set_lib::lemma_map_size(s, image, f);
    vstd::set_lib::lemma_int_range(0, bound);
    assert(image.subset_of(vstd::set_lib::set_int_range(0, bound))) by {
        assert forall|i: int| image.contains(i) implies vstd::set_lib::set_int_range(
            0,
            bound,
        ).contains(i) by {
            let k = choose|k: u64| s.contains(k) && f(k) == i;
            assert(s.contains(k));
        }
    }
    vstd::set_lib::lemma_len_subset(image, vstd::set_lib::set_int_range(0, bound));
}

} // verus!
