//! Calibration values: the first and the last digit of each line.
use crate::numbers::{total, lemma_total_grows, lemma_total_step};
use crate::text::{
    chars_of, lemma_map_all_none, lemma_map_all_step, lines, lines_of, map_all, starts_with, views,
};
use vstd::prelude::*;

verus! {

/// The values of the decimal digits among the characters of `s`, in order.
pub open spec fn digits_in(s: Seq<char>) -> Seq<int>
    decreases s.len(),
{
    if s.len() == 0 {
        Seq::empty()
    } else if '0' <= s.last() <= '9' {
        digits_in(s.drop_last()).push(s.last() as int - 48)
    } else {
        digits_in(s.drop_last())
    }
}

/// The calibration value of a line: ten times its first digit plus its last.
/// `None` for a line without a digit.
pub open spec fn calibration(line: Seq<char>) -> Option<int> {
    let digits = digits_in(line);
    if digits.len() == 0 {
        None
    } else {
        Some(digits.first() * 10 + digits.last())
    }
}

/// Reads a calibration value.
pub open spec fn calibration_reader() -> spec_fn(Seq<char>) -> Option<int> {
    |line: Seq<char>| calibration(line)
}

/// `s` with each occurrence of `pattern` replaced by `with`, the occurrences
/// found from the left and never overlapping.
pub open spec fn replaced(s: Seq<char>, pattern: Seq<char>, with: Seq<char>) -> Seq<char>
    decreases s.len(),
{
    if s.len() == 0 || pattern.len() == 0 {
        s
    } else if starts_with(s, pattern) {
        with + replaced(s.subrange(pattern.len() as int, s.len() as int), pattern, with)
    } else {
        seq![s[0]] + replaced(s.drop_first(), pattern, with)
    }
}

/// `line` with each number word from one to nine, in that order of the
/// words, replaced by itself, its digit, and itself again.
pub open spec fn spelled_out(line: Seq<char>) -> Seq<char> {
    replaced(
        replaced(
            replaced(
                replaced(
                    replaced(
                        replaced(
                            replaced(
                                replaced(replaced(line, "one"@, "one1one"@), "two"@, "two2two"@),
                                "three"@,
                                "three3three"@,
                            ),
                            "four"@,
                            "four4four"@,
                        ),
                        "five"@,
                        "five5five"@,
                    ),
                    "six"@,
                    "six6six"@,
                ),
                "seven"@,
                "seven7seven"@,
            ),
            "eight"@,
            "eight8eight"@,
        ),
        "nine"@,
        "nine9nine"@,
    )
}

/// Reads a calibration value from a line whose digits may be spelled out.
pub open spec fn spelled_reader() -> spec_fn(Seq<char>) -> Option<int> {
    |line: Seq<char>| calibration(spelled_out(line))
}

/// The members of `v` as mathematical integers.
pub open spec fn values(v: Seq<u32>) -> Seq<int> {
    Seq::new(v.len(), |i: int| v[i] as int)
}

fn calibrate(line: &Vec<char>) -> (r: Option<u32>)
    ensures
        match r {
            Some(v) => calibration(line@) == Some(v as int),
            None => calibration(line@).is_none(),
        },
{
    let mut first: u32 = 0;
    let mut last: u32 = 0;
    let mut seen = false;
    let mut i: usize = 0;
    assert(line@.take(0) =~= Seq::<char>::empty());
    while i < line.len()
        invariant
            i <= line@.len(),
            seen == (digits_in(line@.take(i as int)).len() > 0),
            seen ==> first == digits_in(line@.take(i as int)).first() && last == digits_in(
                line@.take(i as int),
            ).last(),
            first <= 9,
            last <= 9,
        decreases line@.len() - i,
    {
        proof {
            assert(line@.take(i + 1).drop_last() =~= line@.take(i as int));
            assert(line@.take(i + 1).last() == line@[i as int]);
        }
        let c = line[i];
        if c >= '0' && c <= '9' {
            let d = c as u32 - 48;
            if !seen {
                first = d;
                seen = true;
            }
            last = d;
        }
        i += 1;
    }
    assert(line@.take(i as int) =~= line@);
    if seen {
        Some(first * 10 + last)
    } else {
        None
    }
}

/// `s` with each occurrence of `pattern` replaced by `with`.
fn replace(s: &Vec<char>, pattern: &str, with: &str) -> (r: Vec<char>)
    ensures
        r@ == replaced(s@, pattern@, with@),
{
    let pat = chars_of(pattern);
    let sub = chars_of(with);
    let n = s.len();
    let m = pat.len();
    let mut out: Vec<char> = Vec::new();
    if m == 0 {
        let mut k: usize = 0;
        while k < n
            invariant
                k <= n,
                n == s@.len(),
                out@ == s@.take(k as int),
            decreases n - k,
        {
            out.push(s[k]);
            k += 1;
            assert(out@ =~= s@.take(k as int));
        }
        assert(s@.take(n as int) =~= s@);
        return out;
    }
    let mut i: usize = 0;
    assert(s@.subrange(0, n as int) =~= s@);
    assert(out@ + replaced(s@, pat@, sub@) =~= replaced(s@, pat@, sub@));
    while i < n
        invariant
            i <= n,
            n == s@.len(),
            m == pat@.len(),
            m > 0,
            pat@ == pattern@,
            sub@ == with@,
            replaced(s@, pat@, sub@) == out@ + replaced(s@.subrange(i as int, n as int), pat@, sub@),
        decreases n - i,
    {
        let ghost rest = s@.subrange(i as int, n as int);
        let ghost before = out@;
        let mut matches = m <= n - i;
        let mut k: usize = 0;
        while matches && k < m
            invariant
                k <= m,
                m == pat@.len(),
                n == s@.len(),
                i < n,
                rest == s@.subrange(i as int, n as int),
                matches ==> m <= n - i && forall|j: int| 0 <= j < k ==> rest[j] == pat@[j],
                !matches ==> !starts_with(rest, pat@),
            decreases (if matches { 1int } else { 0int }), m - k,
        {
            if s[i + k] != pat[k] {
                matches = false;
                assert(rest.subrange(0, m as int)[k as int] != pat@[k as int]);
            } else {
                assert(rest[k as int] == s@[i + k]);
                k += 1;
            }
        }
        if matches {
            assert(rest.subrange(0, m as int) =~= pat@);
            let mut j: usize = 0;
            while j < sub.len()
                invariant
                    j <= sub@.len(),
                    out@ == before + sub@.take(j as int),
                decreases sub@.len() - j,
            {
                out.push(sub[j]);
                j += 1;
                assert(out@ =~= before + sub@.take(j as int));
            }
            proof {
                assert(sub@.take(sub@.len() as int) =~= sub@);
                let tail = s@.subrange(i + m, n as int);
                assert(rest.subrange(m as int, rest.len() as int) =~= tail);
                assert(before + (sub@ + replaced(tail, pat@, sub@)) =~= before + sub@ + replaced(
                    tail,
                    pat@,
                    sub@,
                ));
            }
            i += m;
        } else {
            out.push(s[i]);
            proof {
                let tail = s@.subrange(i + 1, n as int);
                assert(rest.drop_first() =~= tail);
                assert(rest[0] == s@[i as int]);
                assert(before + (seq![rest[0]] + replaced(tail, pat@, sub@)) =~= before.push(
                    rest[0],
                ) + replaced(tail, pat@, sub@));
            }
            i += 1;
        }
    }
    assert(out@ + Seq::<char>::empty() =~= out@);
    out
}

fn spell_out(line: &Vec<char>) -> (r: Vec<char>)
    ensures
        r@ == spelled_out(line@),
{
    let a = replace(line, "one", "one1one");
    let b = replace(&a, "two", "two2two");
    let c = replace(&b, "three", "three3three");
    let d = replace(&c, "four", "four4four");
    let e = replace(&d, "five", "five5five");
    let f = replace(&e, "six", "six6six");
    let g = replace(&f, "seven", "seven7seven");
    let h = replace(&g, "eight", "eight8eight");
    replace(&h, "nine", "nine9nine")
}

fn read_values(input: &str, spelled: bool) -> (r: Option<Vec<u32>>)
    ensures
        match r {
            Some(v) => map_all(
                lines_of(input@),
                if spelled {
                    spelled_reader()
                } else {
                    calibration_reader()
                },
            ) == Some(values(v@)),
            None => map_all(
                lines_of(input@),
                if spelled {
                    spelled_reader()
                } else {
                    calibration_reader()
                },
            ).is_none(),
        },
{
    let chars = chars_of(input);
    let ls = lines(&chars);
    let ghost rows = views(ls@);
    let ghost f = if spelled {
        spelled_reader()
    } else {
        calibration_reader()
    };
    let mut out: Vec<u32> = Vec::new();
    let mut i: usize = 0;
    assert(rows.take(0) =~= Seq::<Seq<char>>::empty());
    assert(values(out@) =~= Seq::<int>::empty());
    while i < ls.len()
        invariant
            i <= ls@.len(),
            rows == views(ls@),
            rows == lines_of(input@),
            f == if spelled {
                spelled_reader()
            } else {
                calibration_reader()
            },
            map_all(rows.take(i as int), f) == Some(values(out@)),
        decreases ls@.len() - i,
    {
        proof {
            lemma_map_all_step(rows, f, i as int);
        }
        let ghost before = values(out@);
        let value = if spelled {
            let line = spell_out(&ls[i]);
            calibrate(&line)
        } else {
            calibrate(&ls[i])
        };
        match value {
            Some(v) => {
                out.push(v);
                assert(values(out@) =~= before.push(v as int));
            },
            None => {
                proof {
                    lemma_map_all_none(rows, f, i + 1);
                }
                return None;
            },
        }
        i += 1;
    }
    assert(rows.take(i as int) =~= rows);
    Some(out)
}

/// The calibration value of each line; `None` where a line has no digit.
pub fn input_generator_part_1(input: &str) -> (r: Option<Vec<u32>>)
    ensures
        match r {
            Some(v) => map_all(lines_of(input@), calibration_reader()) == Some(values(v@)),
            None => map_all(lines_of(input@), calibration_reader()).is_none(),
        },
{
    read_values(input, false)
}

/// The calibration value of each line, number words counting as digits;
/// `None` where a line has neither a digit nor a number word.
pub fn input_generator_part_2(input: &str) -> (r: Option<Vec<u32>>)
    ensures
        match r {
            Some(v) => map_all(lines_of(input@), spelled_reader()) == Some(values(v@)),
            None => map_all(lines_of(input@), spelled_reader()).is_none(),
        },
{
    read_values(input, true)
}

/// The sum of `input`; `None` where it does not fit in 32 bits.
pub fn solve_part1(input: &[u32]) -> (r: Option<u32>)
    ensures
        match r {
            Some(t) => t == total(values(input@)),
            None => total(values(input@)) > u32::MAX,
        },
{
    let ghost s = values(input@);
    let mut acc: u32 = 0;
    let mut i: usize = 0;
    assert(s.take(0) =~= Seq::<int>::empty());
    while i < input.len()
        invariant
            i <= input@.len(),
            s == values(input@),
            acc == total(s.take(i as int)),
        decreases input@.len() - i,
    {
        proof {
            lemma_total_step(s, i as int);
        }
        match acc.checked_add(input[i]) {
            Some(next) => {
                acc = next;
            },
            None => {
                proof {
                    lemma_total_grows(s, i + 1);
                }
                return None;
            },
        }
        i += 1;
    }
    assert(s.take(i as int) =~= s);
    Some(acc)
}

/// The sum of `input`; `None` where it does not fit in 32 bits.
pub fn solve_part2(input: &[u32]) -> (r: Option<u32>)
    ensures
        match r {
            Some(t) => t == total(values(input@)),
            None => total(values(input@)) > u32::MAX,
        },
{
    solve_part1(input)
}

} // verus!
