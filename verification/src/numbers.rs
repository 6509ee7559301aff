//! Sums of sequences of numbers, within the limits of machine integers.
use vstd::prelude::*;

verus! {

/// The sum of the members of `s`.
pub open spec fn total(s: Seq<int>) -> int
    decreases s.len(),
{
    if s.len() == 0 {
        0
    } else {
        total(s.drop_last()) + s.last()
    }
}

/// The members of `v` as mathematical integers.
pub open spec fn ints(v: Seq<i64>) -> Seq<int> {
    Seq::new(v.len(), |i: int| v[i] as int)
}

/// Whether `v` is a value of 64 bits with a sign.
pub open spec fn fits_i64(v: int) -> bool {
    i64::MIN <= v <= i64::MAX
}

/// The sum of each run of first members of `s` is a value of 64 bits with a sign.
pub open spec fn sums_fit(s: Seq<int>) -> bool {
    forall|k: int| 0 <= k <= s.len() ==> fits_i64(#[trigger] total(s.take(k)))
}

/// No member of `s` is negative.
pub open spec fn none_negative(s: Seq<int>) -> bool {
    forall|i: int| 0 <= i < s.len() ==> 0 <= #[trigger] s[i]
}

/// Without negative members the sum is at least 0.
pub proof fn lemma_total_nonnegative(s: Seq<int>)
    requires
        none_negative(s),
    ensures
        0 <= total(s),
    decreases s.len(),
{
    if s.len() > 0 {
        assert(none_negative(s.drop_last())) by {
            assert forall|i: int| 0 <= i < s.drop_last().len() implies 0 <= #[trigger] s.drop_last()[i] by {
                assert(s.drop_last()[i] == s[i]);
            }
        }
        lemma_total_nonnegative(s.drop_last());
    }
}

/// The sum of the first `k` members, from that of the first `k - 1`.
pub proof fn lemma_total_step(s: Seq<int>, k: int)
    requires
        0 <= k < s.len(),
    ensures
        total(s.take(k + 1)) == total(s.take(k)) + s[k],
{
    assert(s.take(k + 1).drop_last() =~= s.take(k));
    assert(s.take(k + 1).last() == s[k]);
}

/// Without negative members, the sum of the first few is at least 0 and at
/// most the sum of all.
pub proof fn lemma_total_grows(s: Seq<int>, k: int)
    requires
        none_negative(s),
        0 <= k <= s.len(),
    ensures
        0 <= total(s.take(k)) <= total(s),
    decreases s.len() - k,
{
    if k == s.len() {
        assert(s.take(k) =~= s);
        lemma_total_nonnegative(s);
    } else {
        lemma_total_grows(s, k + 1);
        lemma_total_step(s, k);
        lemma_total_nonnegative(s.take(k));
    }
}

/// The sum of `v`, adding from the first member on; `None` as soon as a sum
/// does not fit in 64 bits.
pub fn sum_i64(v: &Vec<i64>) -> (r: Option<i64>)
    ensures
        match r {
            Some(t) => sums_fit(ints(v@)) && t == total(ints(v@)),
            None => !sums_fit(ints(v@)),
        },
{
    let ghost s = ints(v@);
    let mut acc: i64 = 0;
    let mut i: usize = 0;
    assert(s.take(0) =~= Seq::<int>::empty());
    while i < v.len()
        invariant
            i <= v@.len(),
            s == ints(v@),
            acc == total(s.take(i as int)),
            forall|k: int| 0 <= k <= i ==> fits_i64(#[trigger] total(s.take(k))),
        decreases v@.len() - i,
    {
        proof {
            lemma_total_step(s, i as int);
        }
        match acc.checked_add(v[i]) {
            Some(next) => {
                acc = next;
            },
            None => {
                assert(!fits_i64(total(s.take(i + 1))));
                return None;
            },
        }
        i += 1;
    }
    assert(s.take(i as int) =~= s);
    Some(acc)
}

} // verus!
