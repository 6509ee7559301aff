//! Rows of springs: in how many ways the unknown springs can be filled in.
use crate::text::{
    as_ints, chars_of, lemma_map_all_none, lemma_map_all_step, lines, lines_of, map_all,
    parse_all_unsigned, split, split_on, unsigned_reader, views, words, words_of,
};
use vstd::prelude::*;

verus! {

/// A row: its springs, `.` working, `#` damaged and `?` unknown, and the
/// lengths of its runs of damaged springs.
pub type Springs = (Vec<char>, Vec<usize>);

/// The number of ways to fill in the springs of `line` from place `pos` on,
/// when the runs before `group` are done and `count` damaged springs of the
/// run `group` have just been passed, so that the runs of damaged springs
/// have the lengths `counts`.
///
/// At the end of the line there is one way where all runs are done, or the
/// last run has just reached its length, and none otherwise. Before the end
/// a working spring may stand where no run is open, or where the open run
/// has reached its length, which ends it; a damaged spring may stand where
/// a run is still to be filled, and adds to it.
pub open spec fn ways(line: Seq<char>, counts: Seq<usize>, pos: int, group: int, count: int) -> nat
    decreases line.len() - pos,
{
    let m = counts.len() as int;
    if pos >= line.len() {
        if (group == m && count == 0) || (group == m - 1 && m >= 1 && count == counts[m - 1]) {
            1
        } else {
            0
        }
    } else if group == m {
        if count == 0 && (line[pos] == '.' || line[pos] == '?') {
            ways(line, counts, pos + 1, m, 0)
        } else {
            0
        }
    } else if 0 <= group < m && 0 <= count <= counts[group] {
        let working: nat = if line[pos] == '.' || line[pos] == '?' {
            if count == 0 {
                ways(line, counts, pos + 1, group, 0)
            } else if counts[group] == count {
                ways(line, counts, pos + 1, group + 1, 0)
            } else {
                0
            }
        } else {
            0
        };
        let damaged: nat = if line[pos] == '#' || line[pos] == '?' {
            ways(line, counts, pos + 1, group, count + 1)
        } else {
            0
        };
        working + damaged
    } else {
        0
    }
}

/// Every number of ways that the count from place 0 rests on fits: those
/// from each place `pos`, for each run and for the runs done, and for each
/// `count` up to `pos`.
pub open spec fn ways_fit(line: Seq<char>, counts: Seq<usize>) -> bool {
    forall|pos: int, group: int, count: int|
        0 <= pos <= line.len() && 0 <= group <= counts.len() && 0 <= count <= pos ==> #[trigger] ways(
            line,
            counts,
            pos,
            group,
            count,
        ) <= usize::MAX
}

/// The number of arrangements of `line` with runs of the lengths `counts`.
/// `None` where there is no run, the line is too long to count along, or a
/// number on the way does not fit.
pub open spec fn arrangements(line: Seq<char>, counts: Seq<usize>) -> Option<int> {
    if counts.len() == 0 || line.len() >= usize::MAX || !ways_fit(line, counts) {
        None
    } else {
        Some(ways(line, counts, 0, 0, 0) as int)
    }
}

fn zero_layer(m: usize, n: usize) -> (layer: Vec<Vec<usize>>)
    requires
        n < usize::MAX,
    ensures
        layer@.len() == m,
        forall|g: int| 0 <= g < m ==> (#[trigger] layer@[g])@.len() == n + 1,
        forall|g: int, c: int| 0 <= g < m && 0 <= c <= n ==> (#[trigger] layer@[g]@[c]) == 0,
{
    let mut layer: Vec<Vec<usize>> = Vec::new();
    let mut g: usize = 0;
    while g < m
        invariant
            g <= m,
            n < usize::MAX,
            layer@.len() == g,
            forall|k: int| 0 <= k < g ==> (#[trigger] layer@[k])@.len() == n + 1,
            forall|k: int, c: int| 0 <= k < g && 0 <= c <= n ==> (#[trigger] layer@[k]@[c]) == 0,
        decreases m - g,
    {
        let mut row: Vec<usize> = Vec::new();
        let mut c: usize = 0;
        while c < n + 1
            invariant
                c <= n + 1,
                n < usize::MAX,
                row@.len() == c,
                forall|k: int| 0 <= k < c ==> row@[k] == 0,
            decreases n + 1 - c,
        {
            row.push(0);
            c += 1;
        }
        layer.push(row);
        g += 1;
    }
    layer
}

/// The number of arrangements of `pattern` with runs of the lengths `counts`.
#[verifier::loop_isolation(false)]
pub fn count_arrangements(pattern: &Vec<char>, counts: &[usize]) -> (r: Option<usize>)
    ensures
        match r {
            Some(v) => arrangements(pattern@, counts@) == Some(v as int),
            None => arrangements(pattern@, counts@).is_none(),
        },
{
    let n = pattern.len();
    let m = counts.len();
    let ghost line = pattern@;
    let ghost cs = counts@;
    if m == 0 || n == usize::MAX {
        return None;
    }
    // the ways at the end of the line: for each run, and with the runs done
    let mut next = zero_layer(m, n);
    if counts[m - 1] <= n {
        next[m - 1][counts[m - 1]] = 1;
    }
    let mut next_done: usize = 1;
    let mut pos: usize = n;
    while pos > 0
        invariant
            pos <= n,
            next@.len() == m,
            forall|g: int| 0 <= g < m ==> (#[trigger] next@[g])@.len() == n + 1,
            forall|g: int, c: int|
                0 <= g < m && 0 <= c <= pos ==> (#[trigger] next@[g]@[c]) == ways(
                    line,
                    cs,
                    pos as int,
                    g,
                    c,
                ),
            next_done == ways(line, cs, pos as int, m as int, 0),
            forall|p: int, g: int, c: int|
                pos <= p <= n && 0 <= g <= m && 0 <= c <= p ==> #[trigger] ways(line, cs, p, g, c)
                    <= usize::MAX,
        decreases pos,
    {
        let at = pos - 1;
        let here = pattern[at];
        let dot = here == '.' || here == '?';
        let hash = here == '#' || here == '?';
        let mut cur = zero_layer(m, n);
        let mut group: usize = 0;
        while group < m
            invariant
                group <= m,
                cur@.len() == m,
                forall|g: int| 0 <= g < m ==> (#[trigger] cur@[g])@.len() == n + 1,
                forall|g: int, c: int|
                    0 <= g < group && 0 <= c <= at ==> (#[trigger] cur@[g]@[c]) == ways(
                        line,
                        cs,
                        at as int,
                        g,
                        c,
                    ),
            decreases m - group,
        {
            let max_count = counts[group];
            let mut count: usize = 0;
            while count <= at
                invariant
                    count <= at + 1,
                    group < m,
                    cur@.len() == m,
                    forall|g: int| 0 <= g < m ==> (#[trigger] cur@[g])@.len() == n + 1,
                    forall|g: int, c: int|
                        0 <= g < group && 0 <= c <= at ==> (#[trigger] cur@[g]@[c]) == ways(
                            line,
                            cs,
                            at as int,
                            g,
                            c,
                        ),
                    forall|c: int|
                        0 <= c < count ==> (#[trigger] cur@[group as int]@[c]) == ways(
                            line,
                            cs,
                            at as int,
                            group as int,
                            c,
                        ),
                decreases at + 1 - count,
            {
                let mut value: usize = 0;
                if count <= max_count {
                    let working: usize = if dot {
                        if count == 0 {
                            next[group][0]
                        } else if max_count == count {
                            if group + 1 < m {
                                next[group + 1][0]
                            } else {
                                next_done
                            }
                        } else {
                            0
                        }
                    } else {
                        0
                    };
                    let damaged: usize = if hash {
                        next[group][count + 1]
                    } else {
                        0
                    };
                    assert(working + damaged == ways(line, cs, at as int, group as int, count as int));
                    value = match working.checked_add(damaged) {
                        Some(v) => v,
                        None => {
                            assert(ways(line, cs, at as int, group as int, count as int)
                                > usize::MAX);
                            return None;
                        },
                    };
                }
                cur[group][count] = value;
                count += 1;
            }
            group += 1;
        }
        let done: usize = if dot {
            next_done
        } else {
            0
        };
        proof {
            assert(done == ways(line, cs, at as int, m as int, 0));
            assert forall|p: int, g: int, c: int|
                at <= p <= n && 0 <= g <= m && 0 <= c <= p implies #[trigger] ways(line, cs, p, g, c)
                <= usize::MAX by {
                if p == at {
                    if g < m {
                        assert(cur@[g]@[c] == ways(line, cs, at as int, g, c));
                    } else if c >= 1 {
                        assert(ways(line, cs, at as int, m as int, c) == 0);
                    }
                }
            }
        }
        next = cur;
        next_done = done;
        pos = at;
    }
    proof {
        assert(ways_fit(line, cs));
    }
    Some(next[0][0])
}

/// The row read from `line`: the springs, white space, and the lengths
/// of the runs with commas between them.
pub open spec fn row_of(line: Seq<char>) -> Option<(Seq<char>, Seq<int>)> {
    let parts = words_of(line);
    if parts.len() < 2 {
        None
    } else {
        match map_all(split_on(parts[1], ','), unsigned_reader(usize::MAX as int)) {
            Some(counts) => Some((parts[0], counts)),
            None => None,
        }
    }
}

/// Reads a row.
pub open spec fn row_reader() -> spec_fn(Seq<char>) -> Option<(Seq<char>, Seq<int>)> {
    |line: Seq<char>| row_of(line)
}

/// The members of `v` as mathematical integers.
pub open spec fn lengths(v: Seq<usize>) -> Seq<int> {
    Seq::new(v.len(), |i: int| v[i] as int)
}

/// The rows as springs and lengths.
pub open spec fn rows_view(rows: Seq<Springs>) -> Seq<(Seq<char>, Seq<int>)> {
    Seq::new(rows.len(), |i: int| (rows[i].0@, lengths(rows[i].1@)))
}

#[verifier::loop_isolation(false)]
fn read_row(line: &Vec<char>) -> (r: Option<Springs>)
    ensures
        match r {
            Some(row) => row_of(line@) == Some((row.0@, lengths(row.1@))),
            None => row_of(line@).is_none(),
        },
{
    let parts = words(line);
    if parts.len() < 2 {
        return None;
    }
    assert(views(parts@)[0] == parts@[0]@);
    assert(views(parts@)[1] == parts@[1]@);
    let texts = split(&parts[1], ',');
    let numbers = match parse_all_unsigned(&texts, usize::MAX as u64) {
        Some(v) => v,
        None => {
            return None;
        },
    };
    proof {
        let f = unsigned_reader(usize::MAX as int);
        crate::text::lemma_map_all_some(views(texts@), f);
        assert forall|k: int| 0 <= k < numbers@.len() implies #[trigger] numbers@[k]
            <= usize::MAX by {
            assert(f(views(texts@)[k]) == Some(as_ints(numbers@)[k]));
        }
    }
    let mut counts: Vec<usize> = Vec::new();
    let mut i: usize = 0;
    while i < numbers.len()
        invariant
            i <= numbers@.len(),
            counts@.len() == i,
            forall|k: int| 0 <= k < i ==> #[trigger] counts@[k] == numbers@[k],
        decreases numbers@.len() - i,
    {
        counts.push(numbers[i] as usize);
        i += 1;
    }
    assert(lengths(counts@) =~= as_ints(numbers@));
    let pattern = crate::text::copy_range(&parts[0], 0, parts[0].len());
    assert(pattern@ =~= parts@[0]@);
    Some((pattern, counts))
}

/// Reads the rows, one from each line; `None` where a line is not as
/// `row_of` describes.
#[verifier::loop_isolation(false)]
pub fn parse(input: &str) -> (r: Option<Vec<Springs>>)
    ensures
        match r {
            Some(rows) => map_all(lines_of(input@), row_reader()) == Some(rows_view(rows@)),
            None => map_all(lines_of(input@), row_reader()).is_none(),
        },
{
    let chars = chars_of(input);
    let ls = lines(&chars);
    let ghost texts = views(ls@);
    let ghost f = row_reader();
    let mut rows: Vec<Springs> = Vec::new();
    let mut i: usize = 0;
    assert(texts.take(0) =~= Seq::<Seq<char>>::empty());
    assert(rows_view(rows@) =~= Seq::<(Seq<char>, Seq<int>)>::empty());
    while i < ls.len()
        invariant
            i <= ls@.len(),
            map_all(texts.take(i as int), f) == Some(rows_view(rows@)),
        decreases ls@.len() - i,
    {
        proof {
            lemma_map_all_step(texts, f, i as int);
        }
        let ghost before = rows_view(rows@);
        match read_row(&ls[i]) {
            Some(row) => {
                let ghost entry = (row.0@, lengths(row.1@));
                rows.push(row);
                assert(rows_view(rows@) =~= before.push(entry));
            },
            None => {
                proof {
                    lemma_map_all_none(texts, f, i + 1);
                }
                return None;
            },
        }
        i += 1;
    }
    assert(texts.take(i as int) =~= texts);
    Some(rows)
}

/// The springs `line` five times over, with an unknown spring between each two.
pub open spec fn unfolded_line(line: Seq<char>) -> Seq<char> {
    line + seq!['?'] + line + seq!['?'] + line + seq!['?'] + line + seq!['?'] + line
}

/// The lengths `counts` five times over.
pub open spec fn unfolded_counts(counts: Seq<usize>) -> Seq<usize> {
    counts + counts + counts + counts + counts
}

/// Reads the number of arrangements of a row, unfolded where `unfold` is set.
pub open spec fn arrangement_reader(unfold: bool) -> spec_fn(Springs) -> Option<int> {
    |row: Springs|
        if unfold {
            arrangements(unfolded_line(row.0@), unfolded_counts(row.1@))
        } else {
            arrangements(row.0@, row.1@)
        }
}

/// The sum of the numbers of arrangements of the rows, adding from the
/// first on; `None` where a row has no number or a sum does not fit.
pub open spec fn arrangement_sum(input: Seq<Springs>, unfold: bool) -> Option<int> {
    match map_all(input, arrangement_reader(unfold)) {
        Some(numbers) => if crate::numbers::total(numbers) <= usize::MAX {
            Some(crate::numbers::total(numbers))
        } else {
            None
        },
        None => None,
    }
}

fn append_chars(to: &mut Vec<char>, from: &Vec<char>)
    ensures
        final(to)@ == old(to)@ + from@,
{
    let ghost before = to@;
    let mut i: usize = 0;
    while i < from.len()
        invariant
            i <= from@.len(),
            to@ == before + from@.take(i as int),
        decreases from@.len() - i,
    {
        to.push(from[i]);
        i += 1;
        assert(to@ =~= before + from@.take(i as int));
    }
    assert(from@.take(i as int) =~= from@);
}

fn append_counts(to: &mut Vec<usize>, from: &Vec<usize>)
    ensures
        final(to)@ == old(to)@ + from@,
{
    let ghost before = to@;
    let mut i: usize = 0;
    while i < from.len()
        invariant
            i <= from@.len(),
            to@ == before + from@.take(i as int),
        decreases from@.len() - i,
    {
        to.push(from[i]);
        i += 1;
        assert(to@ =~= before + from@.take(i as int));
    }
    assert(from@.take(i as int) =~= from@);
}

fn count_row(row: &Springs, unfold: bool) -> (r: Option<usize>)
    ensures
        match r {
            Some(v) => arrangement_reader(unfold)(*row) == Some(v as int),
            None => arrangement_reader(unfold)(*row).is_none(),
        },
{
    if unfold {
        let mut line: Vec<char> = Vec::new();
        let mut counts: Vec<usize> = Vec::new();
        append_chars(&mut line, &row.0);
        line.push('?');
        append_chars(&mut line, &row.0);
        line.push('?');
        append_chars(&mut line, &row.0);
        line.push('?');
        append_chars(&mut line, &row.0);
        line.push('?');
        append_chars(&mut line, &row.0);
        append_counts(&mut counts, &row.1);
        append_counts(&mut counts, &row.1);
        append_counts(&mut counts, &row.1);
        append_counts(&mut counts, &row.1);
        append_counts(&mut counts, &row.1);
        assert(line@ =~= unfolded_line(row.0@));
        assert(counts@ =~= unfolded_counts(row.1@));
        count_arrangements(&line, counts.as_slice())
    } else {
        count_arrangements(&row.0, row.1.as_slice())
    }
}

#[verifier::loop_isolation(false)]
fn sum_rows(input: &[Springs], unfold: bool) -> (r: Option<usize>)
    ensures
        match r {
            Some(v) => arrangement_sum(input@, unfold) == Some(v as int),
            None => arrangement_sum(input@, unfold).is_none(),
        },
{
    let ghost f = arrangement_reader(unfold);
    let ghost mut numbers: Seq<int> = Seq::empty();
    let mut sum: usize = 0;
    let mut overflow = false;
    let mut i: usize = 0;
    assert(input@.take(0) =~= Seq::<Springs>::empty());
    while i < input.len()
        invariant
            i <= input@.len(),
            map_all(input@.take(i as int), f) == Some(numbers),
            forall|k: int| 0 <= k < numbers.len() ==> 0 <= #[trigger] numbers[k],
            !overflow ==> sum == crate::numbers::total(numbers),
            overflow ==> crate::numbers::total(numbers) > usize::MAX,
        decreases input@.len() - i,
    {
        proof {
            lemma_map_all_step(input@, f, i as int);
        }
        match count_row(&input[i], unfold) {
            Some(v) => {
                let ghost before = numbers;
                proof {
                    numbers = before.push(v as int);
                    assert(numbers.drop_last() =~= before);
                    crate::numbers::lemma_total_nonnegative(before);
                }
                if !overflow {
                    match sum.checked_add(v) {
                        Some(t) => {
                            sum = t;
                        },
                        None => {
                            overflow = true;
                        },
                    }
                }
            },
            None => {
                proof {
                    lemma_map_all_none(input@, f, i + 1);
                }
                return None;
            },
        }
        i += 1;
    }
    assert(input@.take(i as int) =~= input@);
    if overflow {
        None
    } else {
        Some(sum)
    }
}

/// The sum of the numbers of arrangements of the rows.
pub fn part1(input: &[Springs]) -> (r: Option<usize>)
    ensures
        match r {
            Some(v) => arrangement_sum(input@, false) == Some(v as int),
            None => arrangement_sum(input@, false).is_none(),
        },
{
    sum_rows(input, false)
}

/// The sum of the numbers of arrangements of the rows, each unfolded.
pub fn part2(input: &[Springs]) -> (r: Option<usize>)
    ensures
        match r {
            Some(v) => arrangement_sum(input@, true) == Some(v as int),
            None => arrangement_sum(input@, true).is_none(),
        },
{
    sum_rows(input, true)
}

} // verus!
