//! Histories of readings, continued by repeated differences.
use crate::numbers::{fits_i64, ints, sum_i64, sums_fit, total};
use crate::text::{
    chars_of, lemma_map_all_none, lemma_map_all_step, lines, lines_of, map_all, parse_all_signed,
    signed_as_ints, signed_reader, views, words, words_of,
};
use vstd::prelude::*;

verus! {

/// The differences between neighbours in `s`: one fewer than its members.
pub open spec fn differences(s: Seq<int>) -> Seq<int> {
    if s.len() == 0 {
        Seq::empty()
    } else {
        Seq::new((s.len() - 1) as nat, |i: int| s[i + 1] - s[i])
    }
}

/// Every member of `s` is 0.
pub open spec fn all_zero(s: Seq<int>) -> bool {
    forall|i: int| 0 <= i < s.len() ==> #[trigger] s[i] == 0
}

/// Every member of `s` is a value of 64 bits with a sign.
pub open spec fn all_fit(s: Seq<int>) -> bool {
    forall|i: int| 0 <= i < s.len() ==> fits_i64(#[trigger] s[i])
}

/// The last member of `s`, of its differences, of their differences and so
/// on, down to the first row whose differences are all 0.
pub open spec fn lasts(s: Seq<int>) -> Seq<int>
    decreases s.len(),
{
    if s.len() == 0 {
        Seq::empty()
    } else if all_zero(differences(s)) {
        seq![s.last()]
    } else {
        seq![s.last()] + lasts(differences(s))
    }
}

/// The first member of `s`, of its differences, of their differences and so
/// on, down to the first row whose differences are all 0.
pub open spec fn firsts(s: Seq<int>) -> Seq<int>
    decreases s.len(),
{
    if s.len() == 0 {
        Seq::empty()
    } else if all_zero(differences(s)) {
        seq![s.first()]
    } else {
        seq![s.first()] + firsts(differences(s))
    }
}

/// `s` has a member, and every difference taken on the way down to the row
/// whose differences are all 0 is a value of 64 bits.
pub open spec fn rows_fit(s: Seq<int>) -> bool
    decreases s.len(),
{
    s.len() > 0 && all_fit(differences(s)) && (all_zero(differences(s)) || rows_fit(differences(s)))
}

/// What stands before a row whose first member is `v.first()`, before whose
/// differences stands what stands before the rest of `v`: the first member
/// less that.
pub open spec fn before(v: Seq<int>) -> int
    decreases v.len(),
{
    if v.len() == 0 {
        0
    } else {
        v.first() - before(v.drop_first())
    }
}

/// `before` of `v` and of each run of last members of `v` is a value of 64 bits.
pub open spec fn befores_fit(v: Seq<int>) -> bool {
    forall|k: int| 0 <= k <= v.len() ==> fits_i64(#[trigger] before(v.skip(k)))
}

/// The reading that follows `s`: the sum of the last members of its rows of
/// differences. `None` where `s` is empty, or a difference or a sum on the
/// way does not fit in 64 bits.
pub open spec fn next_value(s: Seq<int>) -> Option<int> {
    if rows_fit(s) && sums_fit(lasts(s)) {
        Some(total(lasts(s)))
    } else {
        None
    }
}

/// The reading that precedes `s`. `None` where `s` is empty, or a difference
/// on the way does not fit in 64 bits.
pub open spec fn previous_value(s: Seq<int>) -> Option<int> {
    if rows_fit(s) && befores_fit(firsts(s)) {
        Some(before(firsts(s)))
    } else {
        None
    }
}

/// The first and the last members of the rows of differences of `sequence`.
#[verifier::loop_isolation(false)]
fn ends(sequence: Vec<i64>) -> (r: Option<(Vec<i64>, Vec<i64>)>)
    ensures
        match r {
            Some((f, l)) => rows_fit(ints(sequence@)) && ints(f@) == firsts(ints(sequence@))
                && ints(l@) == lasts(ints(sequence@)),
            None => !rows_fit(ints(sequence@)),
        },
{
    let ghost s0 = ints(sequence@);
    let mut first_numbers: Vec<i64> = Vec::new();
    let mut last_numbers: Vec<i64> = Vec::new();
    let mut current = sequence;
    if current.len() == 0 {
        return None;
    }
    assert(ints(first_numbers@) + firsts(s0) =~= firsts(s0));
    assert(ints(last_numbers@) + lasts(s0) =~= lasts(s0));
    loop
        invariant
            current@.len() > 0,
            rows_fit(s0) == rows_fit(ints(current@)),
            firsts(s0) == ints(first_numbers@) + firsts(ints(current@)),
            lasts(s0) == ints(last_numbers@) + lasts(ints(current@)),
        decreases current@.len(),
    {
        let ghost cur = ints(current@);
        let n = current.len();
        let mut next: Vec<i64> = Vec::new();
        let mut zero = true;
        let mut i: usize = 0;
        while i + 1 < n
            invariant
                n == current@.len(),
                cur == ints(current@),
                i + 1 <= n,
                next@.len() == i,
                forall|k: int| 0 <= k < i ==> #[trigger] next@[k] == differences(cur)[k],
                zero == (forall|k: int| 0 <= k < i ==> #[trigger] differences(cur)[k] == 0),
            decreases n - i,
        {
            match current[i + 1].checked_sub(current[i]) {
                Some(d) => {
                    assert(differences(cur)[i as int] == d);
                    next.push(d);
                    if d != 0 {
                        zero = false;
                    }
                },
                None => {
                    assert(!fits_i64(differences(cur)[i as int]));
                    return None;
                },
            }
            i += 1;
        }
        assert(ints(next@) =~= differences(cur));
        assert(all_fit(differences(cur))) by {
            assert forall|k: int| 0 <= k < differences(cur).len() implies fits_i64(
                #[trigger] differences(cur)[k],
            ) by {
                assert(differences(cur)[k] == next@[k]);
            }
        }
        assert(zero == all_zero(differences(cur)));
        let head = current[0];
        let tail = current[n - 1];
        let ghost f0 = ints(first_numbers@);
        let ghost l0 = ints(last_numbers@);
        first_numbers.push(head);
        last_numbers.push(tail);
        assert(ints(first_numbers@) =~= f0 + seq![cur.first()]);
        assert(ints(last_numbers@) =~= l0 + seq![cur.last()]);
        if zero {
            return Some((first_numbers, last_numbers));
        }
        proof {
            assert(f0 + (seq![cur.first()] + firsts(differences(cur))) =~= f0 + seq![cur.first()]
                + firsts(differences(cur)));
            assert(l0 + (seq![cur.last()] + lasts(differences(cur))) =~= l0 + seq![cur.last()]
                + lasts(differences(cur)));
        }
        current = next;
    }
}

/// The reading that follows `sequence`.
pub fn find_next_values(sequence: Vec<i64>) -> (r: Option<i64>)
    ensures
        match r {
            Some(v) => next_value(ints(sequence@)) == Some(v as int),
            None => next_value(ints(sequence@)).is_none(),
        },
{
    match ends(sequence) {
        Some((_, last_numbers)) => sum_i64(&last_numbers),
        None => None,
    }
}

/// The reading that precedes `sequence`.
#[verifier::loop_isolation(false)]
pub fn find_previous_values(sequence: Vec<i64>) -> (r: Option<i64>)
    ensures
        match r {
            Some(v) => previous_value(ints(sequence@)) == Some(v as int),
            None => previous_value(ints(sequence@)).is_none(),
        },
{
    match ends(sequence) {
        Some((first_numbers, _)) => {
            let ghost v = ints(first_numbers@);
            let mut acc: i64 = 0;
            let mut i: usize = first_numbers.len();
            assert(v.skip(i as int) =~= Seq::<int>::empty());
            while i > 0
                invariant
                    i <= first_numbers@.len(),
                    v == ints(first_numbers@),
                    acc == before(v.skip(i as int)),
                    forall|k: int| i <= k <= v.len() ==> fits_i64(#[trigger] before(v.skip(k))),
                decreases i,
            {
                proof {
                    assert(v.skip(i - 1).drop_first() =~= v.skip(i as int));
                    assert(v.skip(i - 1).first() == v[i - 1]);
                }
                match first_numbers[i - 1].checked_sub(acc) {
                    Some(next) => {
                        acc = next;
                    },
                    None => {
                        assert(!fits_i64(before(v.skip(i - 1))));
                        return None;
                    },
                }
                i -= 1;
            }
            assert(v.skip(0) =~= v);
            Some(acc)
        },
        None => None,
    }
}

/// Reads the reading that follows a history.
pub open spec fn next_reader() -> spec_fn(Vec<i64>) -> Option<int> {
    |history: Vec<i64>| next_value(ints(history@))
}

/// Reads the reading that precedes a history.
pub open spec fn previous_reader() -> spec_fn(Vec<i64>) -> Option<int> {
    |history: Vec<i64>| previous_value(ints(history@))
}

/// The sum of what `reader` makes of each history, adding from the first on;
/// `None` where it makes nothing of a history or a sum does not fit in 64 bits.
pub open spec fn sum_over(input: Seq<Vec<i64>>, reader: spec_fn(Vec<i64>) -> Option<int>) -> Option<
    int,
> {
    match map_all(input, reader) {
        Some(values) => if sums_fit(values) {
            Some(total(values))
        } else {
            None
        },
        None => None,
    }
}

fn sum_readings(input: &[Vec<i64>], forward: bool) -> (r: Option<i64>)
    ensures
        match r {
            Some(v) => sum_over(
                input@,
                if forward {
                    next_reader()
                } else {
                    previous_reader()
                },
            ) == Some(v as int),
            None => sum_over(
                input@,
                if forward {
                    next_reader()
                } else {
                    previous_reader()
                },
            ).is_none(),
        },
{
    let ghost f = if forward {
        next_reader()
    } else {
        previous_reader()
    };
    let mut values: Vec<i64> = Vec::new();
    let mut i: usize = 0;
    assert(input@.take(0) =~= Seq::<Vec<i64>>::empty());
    assert(ints(values@) =~= Seq::<int>::empty());
    while i < input.len()
        invariant
            i <= input@.len(),
            f == if forward {
                next_reader()
            } else {
                previous_reader()
            },
            map_all(input@.take(i as int), f) == Some(ints(values@)),
        decreases input@.len() - i,
    {
        proof {
            lemma_map_all_step(input@, f, i as int);
        }
        let ghost before = ints(values@);
        let history = input[i].clone();
        assert(history@ == input@[i as int]@);
        assert(ints(history@) == ints(input@[i as int]@));
        let value = if forward {
            find_next_values(history)
        } else {
            find_previous_values(history)
        };
        match value {
            Some(v) => {
                values.push(v);
                assert(ints(values@) =~= before.push(v as int));
            },
            None => {
                proof {
                    lemma_map_all_none(input@, f, i + 1);
                }
                return None;
            },
        }
        i += 1;
    }
    assert(input@.take(i as int) =~= input@);
    sum_i64(&values)
}

/// The sum of the readings that follow the histories.
pub fn part1(input: &[Vec<i64>]) -> (r: Option<i64>)
    ensures
        match r {
            Some(v) => sum_over(input@, next_reader()) == Some(v as int),
            None => sum_over(input@, next_reader()).is_none(),
        },
{
    sum_readings(input, true)
}

/// The sum of the readings that precede the histories.
pub fn part2(input: &[Vec<i64>]) -> (r: Option<i64>)
    ensures
        match r {
            Some(v) => sum_over(input@, previous_reader()) == Some(v as int),
            None => sum_over(input@, previous_reader()).is_none(),
        },
{
    sum_readings(input, false)
}

/// Reads a history: numbers of 64 bits with white space between them.
pub open spec fn history_reader() -> spec_fn(Seq<char>) -> Option<Seq<int>> {
    |line: Seq<char>| map_all(words_of(line), signed_reader(i64::MIN as int, i64::MAX as int))
}

/// The histories as sequences of mathematical integers.
pub open spec fn histories_view(v: Seq<Vec<i64>>) -> Seq<Seq<int>> {
    Seq::new(v.len(), |i: int| signed_as_ints(v[i]@))
}

/// Reads the histories, one from each line; `None` where a word is not a
/// number of 64 bits.
pub fn parse(input: &str) -> (r: Option<Vec<Vec<i64>>>)
    ensures
        match r {
            Some(v) => map_all(lines_of(input@), history_reader()) == Some(histories_view(v@)),
            None => map_all(lines_of(input@), history_reader()).is_none(),
        },
{
    let chars = chars_of(input);
    let ls = lines(&chars);
    let ghost rows = views(ls@);
    let ghost f = history_reader();
    let mut out: Vec<Vec<i64>> = Vec::new();
    let mut i: usize = 0;
    assert(rows.take(0) =~= Seq::<Seq<char>>::empty());
    assert(histories_view(out@) =~= Seq::<Seq<int>>::empty());
    while i < ls.len()
        invariant
            i <= ls@.len(),
            rows == views(ls@),
            rows == lines_of(input@),
            f == history_reader(),
            map_all(rows.take(i as int), f) == Some(histories_view(out@)),
        decreases ls@.len() - i,
    {
        proof {
            lemma_map_all_step(rows, f, i as int);
        }
        let ghost before = histories_view(out@);
        let found = words(&ls[i]);
        match parse_all_signed(&found, i64::MAX as u64) {
            Some(history) => {
                out.push(history);
                assert(histories_view(out@) =~= before.push(signed_as_ints(history@)));
            },
            None => {
                proof {
                    lemma_map_all_none(rows, f, i + 1);
                }
                return None;
            },
        }
        i += 1;
    }
    assert(rows.take(i as int) =~= rows);
    Some(out)
}

} // verus!
