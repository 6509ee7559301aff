//! Patterns of ash and rock: where a pattern mirrors itself.
use crate::text::{
    byte_len, byte_length, chars_of, lemma_map_all_none, lemma_map_all_step, lines, lines_of,
    map_all, split_at_text, split_on_text, views,
};
use vstd::prelude::*;

verus! {

/// A pattern: each row as a number whose bits are its cells, and each column
/// likewise.
pub type Grid = (Vec<u64>, Vec<u64>);

/// The pairs `values[i - k]` and `values[i + 1 + k]` for `k` below `upto`
/// that lie within `values` are pairs of equal numbers.
pub open spec fn mirrored(values: Seq<u64>, i: int, upto: int) -> bool {
    forall|k: int|
        0 <= k < upto && 0 <= i - k && i + 1 + k < values.len() ==> values[i - k] == #[trigger] values[i
            + 1 + k]
}

/// A line of reflection runs between `values[i]` and `values[i + 1]`: going
/// outwards from it, every pair within `values` is a pair of equal numbers.
pub open spec fn reflects_at(values: Seq<u64>, i: int) -> bool {
    0 <= i < values.len() - 1 && mirrored(values, i, values.len() as int)
}

/// The first place at or after `from` where `values` has a line of
/// reflection, as it is where `smudged` is not set and after one change
/// where it is.
pub open spec fn first_line(values: Seq<u64>, smudged: bool, from: int) -> Option<int>
    decreases values.len() - from,
{
    if from < 0 || from >= values.len() - 1 {
        None
    } else if (if smudged {
        smudge_reflects_at(values, from)
    } else {
        reflects_at(values, from)
    }) {
        Some(from)
    } else {
        first_line(values, smudged, from + 1)
    }
}

/// The place of the first line of reflection in `values`, if there is one.
pub fn find_reflection(values: &[u64]) -> (r: Option<usize>)
    ensures
        match r {
            Some(i) => first_line(values@, false, 0) == Some(i as int) && reflects_at(
                values@,
                i as int,
            ) && forall|j: int| 0 <= j < i ==> !reflects_at(values@, j),
            None => first_line(values@, false, 0).is_none() && forall|j: int|
                !reflects_at(values@, j),
        },
{
    let n = values.len();
    if n < 2 {
        return None;
    }
    let mut i: usize = 0;
    while i < n - 1
        invariant
            n == values@.len(),
            n >= 2,
            i <= n - 1,
            first_line(values@, false, 0) == first_line(values@, false, i as int),
            forall|j: int| 0 <= j < i ==> !reflects_at(values@, j),
        decreases n - i,
    {
        let mut k: usize = 0;
        let mut same = true;
        while same && k <= i && k < n - 1 - i
            invariant
                n == values@.len(),
                i + 1 < n,
                k <= i + 1,
                same ==> mirrored(values@, i as int, k as int),
                !same ==> !mirrored(values@, i as int, n as int),
            decreases (if same { 1int } else { 0int }), n - k,
        {
            if values[i - k] != values[i + 1 + k] {
                same = false;
                assert(values@[i - k] != values@[i + 1 + k]);
            } else {
                k += 1;
            }
        }
        if same {
            assert(mirrored(values@, i as int, n as int));
            return Some(i);
        }
        i += 1;
    }
    None
}

/// Exactly one bit of `x` is set.
pub open spec fn one_bit(x: u64) -> bool {
    x != 0 && x & ((x - 1) as u64) == 0
}

/// The number of pairs `values[i - k]`, `values[i + 1 + k]` for `k` below
/// `upto`, within `values`, that are pairs of different numbers.
pub open spec fn smudges(values: Seq<u64>, i: int, upto: int) -> int
    decreases upto,
{
    if upto <= 0 {
        0
    } else {
        smudges(values, i, upto - 1) + if 0 <= i - (upto - 1) && i + upto < values.len()
            && values[i - (upto - 1)] != values[i + upto] {
            1int
        } else {
            0int
        }
    }
}

/// Every pair counted by `smudges` differs in one bit only.
pub open spec fn slight(values: Seq<u64>, i: int, upto: int) -> bool {
    forall|k: int|
        0 <= k < upto && 0 <= i - k && i + 1 + k < values.len() && values[i - k] != values[i + 1
            + k] ==> one_bit(#[trigger] values[i - k] ^ values[i + 1 + k])
}

/// A line of reflection runs between `values[i]` and `values[i + 1]` once
/// one cell is changed: going outwards, one pair differs, in one bit, and
/// all others are pairs of equal numbers.
pub open spec fn smudge_reflects_at(values: Seq<u64>, i: int) -> bool {
    &&& 0 <= i < values.len() - 1
    &&& slight(values, i, values.len() as int)
    &&& smudges(values, i, values.len() as int) == 1
}

fn single_bit(x: u64) -> (b: bool)
    ensures
        b == one_bit(x),
{
    x != 0 && x & (x - 1) == 0
}

/// Pairs beyond the edge of the pattern count for nothing.
proof fn lemma_smudges_beyond(values: Seq<u64>, i: int, k: int, upto: int)
    requires
        0 <= k <= upto,
        !(0 <= i - k && i + 1 + k < values.len()),
        0 <= i,
    ensures
        smudges(values, i, upto) == smudges(values, i, k),
    decreases upto - k,
{
    if k < upto {
        lemma_smudges_beyond(values, i, k, upto - 1);
    }
}

proof fn lemma_smudges_grow(values: Seq<u64>, i: int, k: int, upto: int)
    requires
        0 <= k <= upto,
    ensures
        smudges(values, i, k) <= smudges(values, i, upto),
    decreases upto - k,
{
    if k < upto {
        lemma_smudges_grow(values, i, k, upto - 1);
    }
}

/// The place of the first line of reflection that shows once one cell is
/// changed, if there is one.
pub fn smudged_reflection(values: &[u64]) -> (r: Option<usize>)
    ensures
        match r {
            Some(i) => first_line(values@, true, 0) == Some(i as int) && smudge_reflects_at(
                values@,
                i as int,
            ) && forall|j: int| 0 <= j < i ==> !smudge_reflects_at(values@, j),
            None => first_line(values@, true, 0).is_none() && forall|j: int|
                !smudge_reflects_at(values@, j),
        },
{
    let n = values.len();
    if n < 2 {
        return None;
    }
    let mut i: usize = 0;
    while i < n - 1
        invariant
            n == values@.len(),
            n >= 2,
            i <= n - 1,
            first_line(values@, true, 0) == first_line(values@, true, i as int),
            forall|j: int| 0 <= j < i ==> !smudge_reflects_at(values@, j),
        decreases n - i,
    {
        let mut k: usize = 0;
        let mut count: usize = 0;
        let mut fine = true;
        while fine && k <= i && k < n - 1 - i
            invariant
                n == values@.len(),
                i + 1 < n,
                k <= i + 1,
                count <= 1,
                fine ==> slight(values@, i as int, k as int),
                fine ==> count == smudges(values@, i as int, k as int),
                !fine ==> !smudge_reflects_at(values@, i as int),
            decreases (if fine { 1int } else { 0int }), n - k,
        {
            let left = values[i - k];
            let right = values[i + 1 + k];
            if left != right {
                if !single_bit(left ^ right) {
                    fine = false;
                    assert(!slight(values@, i as int, n as int));
                } else if count == 1 {
                    fine = false;
                    proof {
                        lemma_smudges_grow(values@, i as int, k + 1, n as int);
                    }
                } else {
                    count = 1;
                    k += 1;
                }
            } else {
                k += 1;
            }
        }
        if fine {
            proof {
                lemma_smudges_beyond(values@, i as int, k as int, n as int);
                assert(slight(values@, i as int, n as int));
            }
            if count == 1 {
                return Some(i);
            }
        }
        i += 1;
    }
    None
}

/// The summary of one pattern: 100 times the number of rows above the first
/// line of reflection among the rows where there is one, else the number of
/// columns left of the first line among the columns. `None` where the
/// pattern has no line, or the number does not fit.
pub open spec fn summary(grid: Grid, smudged: bool) -> Option<int> {
    match first_line(grid.0@, smudged, 0) {
        Some(r) => if 100 * (r + 1) <= usize::MAX {
            Some(100 * (r + 1))
        } else {
            None
        },
        None => match first_line(grid.1@, smudged, 0) {
            Some(c) => Some(c + 1),
            None => None,
        },
    }
}

/// The sum of the summaries of the patterns, adding from the first on;
/// `None` where a pattern has no summary or a sum does not fit.
pub open spec fn summaries(input: Seq<Grid>, smudged: bool) -> Option<int>
    decreases input.len(),
{
    if input.len() == 0 {
        Some(0int)
    } else {
        match (summaries(input.drop_last(), smudged), summary(input.last(), smudged)) {
            (Some(total), Some(one)) => if total + one <= usize::MAX {
                Some(total + one)
            } else {
                None
            },
            _ => None,
        }
    }
}

proof fn lemma_summaries_stay_none(input: Seq<Grid>, smudged: bool, k: int)
    requires
        0 <= k <= input.len(),
        summaries(input.take(k), smudged).is_none(),
    ensures
        summaries(input, smudged).is_none(),
    decreases input.len() - k,
{
    if k < input.len() {
        assert(input.take(k + 1).drop_last() =~= input.take(k));
        lemma_summaries_stay_none(input, smudged, k + 1);
    } else {
        assert(input.take(k) =~= input);
    }
}

fn line_of(values: &Vec<u64>, smudged: bool) -> (r: Option<usize>)
    ensures
        match r {
            Some(i) => first_line(values@, smudged, 0) == Some(i as int) && i < usize::MAX,
            None => first_line(values@, smudged, 0).is_none(),
        },
{
    let n = values.len();
    if smudged {
        smudged_reflection(values.as_slice())
    } else {
        find_reflection(values.as_slice())
    }
}

fn summarize_one(grid: &Grid, smudged: bool) -> (r: Option<usize>)
    ensures
        match r {
            Some(v) => summary(*grid, smudged) == Some(v as int),
            None => summary(*grid, smudged).is_none(),
        },
{
    match line_of(&grid.0, smudged) {
        Some(r) => (r + 1).checked_mul(100),
        None => match line_of(&grid.1, smudged) {
            Some(c) => Some(c + 1),
            None => None,
        },
    }
}

/// The sum of the summaries of all patterns.
pub fn summarize(input: &[Grid], smudged: bool) -> (r: Option<usize>)
    ensures
        match r {
            Some(total) => summaries(input@, smudged) == Some(total as int),
            None => summaries(input@, smudged).is_none(),
        },
{
    let mut total: usize = 0;
    let mut i: usize = 0;
    assert(input@.take(0) =~= Seq::<Grid>::empty());
    while i < input.len()
        invariant
            i <= input@.len(),
            summaries(input@.take(i as int), smudged) == Some(total as int),
        decreases input@.len() - i,
    {
        proof {
            assert(input@.take(i + 1).drop_last() =~= input@.take(i as int));
            assert(input@.take(i + 1).last() == input@[i as int]);
        }
        let next = match summarize_one(&input[i], smudged) {
            Some(v) => total.checked_add(v),
            None => None,
        };
        match next {
            Some(t) => {
                total = t;
            },
            None => {
                proof {
                    lemma_summaries_stay_none(input@, smudged, i + 1);
                }
                return None;
            },
        }
        i += 1;
    }
    assert(input@.take(i as int) =~= input@);
    Some(total)
}

/// The sum of the summaries, with the lines of reflection as they are.
pub fn part1(input: &[Grid]) -> (r: Option<usize>)
    ensures
        match r {
            Some(total) => summaries(input@, false) == Some(total as int),
            None => summaries(input@, false).is_none(),
        },
{
    summarize(input, false)
}

/// The sum of the summaries, with the lines that show after one change.
pub fn part2(input: &[Grid]) -> (r: Option<usize>)
    ensures
        match r {
            Some(total) => summaries(input@, true) == Some(total as int),
            None => summaries(input@, true).is_none(),
        },
{
    summarize(input, true)
}

/// The cells of `line` as the bits of a number, the last cell the lowest
/// bit: a bit is set where the cell holds `#`. Cells beyond the last 64 are
/// lost.
pub open spec fn row_bits(line: Seq<char>) -> u64
    decreases line.len(),
{
    if line.len() == 0 {
        0
    } else {
        (row_bits(line.drop_last()) << 1u64) | (if line.last() == '#' {
            1u64
        } else {
            0u64
        })
    }
}

/// Bit `shift` of each of `rows` as the bits of a number, the last row the
/// lowest bit.
pub open spec fn col_bits(rows: Seq<u64>, shift: u64) -> u64
    decreases rows.len(),
{
    if rows.len() == 0 {
        0
    } else {
        (col_bits(rows.drop_last(), shift) << 1u64) | ((rows.last() >> shift) & 1u64)
    }
}

/// The pattern that `block` draws: its lines as rows, and its columns, as
/// many as the first line has bytes. `None` where the block has no line or
/// the first line has more than 64 bytes.
pub open spec fn pattern_of(block: Seq<char>) -> Option<(Seq<u64>, Seq<u64>)> {
    let ls = lines_of(block);
    if ls.len() == 0 || byte_len(ls[0]) > 64 {
        None
    } else {
        let rows = Seq::new(ls.len(), |i: int| row_bits(ls[i]));
        Some(
            (
                rows,
                Seq::new(
                    byte_len(ls[0]) as nat,
                    |j: int| col_bits(rows, (byte_len(ls[0]) - j - 1) as u64),
                ),
            ),
        )
    }
}

/// Reads a pattern.
pub open spec fn pattern_reader() -> spec_fn(Seq<char>) -> Option<(Seq<u64>, Seq<u64>)> {
    |block: Seq<char>| pattern_of(block)
}

/// The rows and columns of `grids`.
pub open spec fn grids_view(grids: Seq<Grid>) -> Seq<(Seq<u64>, Seq<u64>)> {
    Seq::new(grids.len(), |i: int| (grids[i].0@, grids[i].1@))
}

fn bits_of_row(line: &Vec<char>) -> (r: u64)
    ensures
        r == row_bits(line@),
{
    let mut row: u64 = 0;
    let mut i: usize = 0;
    assert(line@.take(0) =~= Seq::<char>::empty());
    while i < line.len()
        invariant
            i <= line@.len(),
            row == row_bits(line@.take(i as int)),
        decreases line@.len() - i,
    {
        proof {
            assert(line@.take(i + 1).drop_last() =~= line@.take(i as int));
            assert(line@.take(i + 1).last() == line@[i as int]);
        }
        row = (row << 1u64) | (if line[i] == '#' {
            1u64
        } else {
            0u64
        });
        i += 1;
    }
    assert(line@.take(i as int) =~= line@);
    row
}

fn bits_of_col(rows: &Vec<u64>, shift: u64) -> (r: u64)
    requires
        shift < 64,
    ensures
        r == col_bits(rows@, shift),
{
    let mut col: u64 = 0;
    let mut i: usize = 0;
    assert(rows@.take(0) =~= Seq::<u64>::empty());
    while i < rows.len()
        invariant
            i <= rows@.len(),
            shift < 64,
            col == col_bits(rows@.take(i as int), shift),
        decreases rows@.len() - i,
    {
        proof {
            assert(rows@.take(i + 1).drop_last() =~= rows@.take(i as int));
            assert(rows@.take(i + 1).last() == rows@[i as int]);
        }
        col = (col << 1u64) | ((rows[i] >> shift) & 1u64);
        i += 1;
    }
    assert(rows@.take(i as int) =~= rows@);
    col
}

#[verifier::loop_isolation(false)]
fn read_pattern(block: &Vec<char>) -> (r: Option<Grid>)
    ensures
        match r {
            Some(g) => pattern_of(block@) == Some((g.0@, g.1@)),
            None => pattern_of(block@).is_none(),
        },
{
    let ls = lines(block);
    if ls.len() == 0 {
        return None;
    }
    let ghost rows_of = views(ls@);
    assert(rows_of[0] == ls@[0]@);
    let width = match byte_length(&ls[0]) {
        Some(w) => w,
        None => {
            return None;
        },
    };
    if width > 64 {
        return None;
    }
    let mut rows: Vec<u64> = Vec::new();
    let mut i: usize = 0;
    while i < ls.len()
        invariant
            i <= ls@.len(),
            rows@.len() == i,
            forall|k: int| 0 <= k < i ==> #[trigger] rows@[k] == row_bits(rows_of[k]),
        decreases ls@.len() - i,
    {
        assert(rows_of[i as int] == ls@[i as int]@);
        rows.push(bits_of_row(&ls[i]));
        i += 1;
    }
    assert(rows@ =~= Seq::new(rows_of.len(), |k: int| row_bits(rows_of[k])));
    let mut cols: Vec<u64> = Vec::new();
    let mut j: usize = 0;
    while j < width
        invariant
            j <= width <= 64,
            cols@.len() == j,
            forall|k: int| 0 <= k < j ==> #[trigger] cols@[k] == col_bits(rows@, (width - k - 1) as u64),
        decreases width - j,
    {
        cols.push(bits_of_col(&rows, (width - j - 1) as u64));
        j += 1;
    }
    assert(cols@ =~= Seq::new(width as nat, |k: int| col_bits(rows@, (width - k - 1) as u64)));
    Some((rows, cols))
}

/// Reads the patterns, which blank lines part; `None` where a block is not
/// as `pattern_of` describes.
#[verifier::loop_isolation(false)]
pub fn parse(input: &str) -> (r: Option<Vec<Grid>>)
    ensures
        match r {
            Some(grids) => map_all(split_on_text(input@, "\n\n"@), pattern_reader()) == Some(
                grids_view(grids@),
            ),
            None => map_all(split_on_text(input@, "\n\n"@), pattern_reader()).is_none(),
        },
{
    proof {
        reveal_strlit("\n\n");
    }
    let chars = chars_of(input);
    let blocks = split_at_text(&chars, "\n\n");
    let ghost texts = views(blocks@);
    let ghost f = pattern_reader();
    let mut grids: Vec<Grid> = Vec::new();
    let mut i: usize = 0;
    assert(texts.take(0) =~= Seq::<Seq<char>>::empty());
    assert(grids_view(grids@) =~= Seq::<(Seq<u64>, Seq<u64>)>::empty());
    while i < blocks.len()
        invariant
            i <= blocks@.len(),
            map_all(texts.take(i as int), f) == Some(grids_view(grids@)),
        decreases blocks@.len() - i,
    {
        proof {
            lemma_map_all_step(texts, f, i as int);
        }
        let ghost before = grids_view(grids@);
        match read_pattern(&blocks[i]) {
            Some(g) => {
                let ghost entry = (g.0@, g.1@);
                grids.push(g);
                assert(grids_view(grids@) =~= before.push(entry));
            },
            None => {
                proof {
                    lemma_map_all_none(texts, f, i + 1);
                }
                return None;
            },
        }
        i += 1;
    }
    assert(texts.take(i as int) =~= texts);
    Some(grids)
}

} // verus!
