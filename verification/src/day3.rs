//! Engine parts: the numbers next to each symbol of a schematic.
use crate::text::{chars_of, lines, lines_of, views};
use vstd::prelude::*;

verus! {

/// A place in the schematic: column and row.
pub type Point = (usize, usize);

/// A symbol of the schematic and the numbers next to it.
#[derive(Debug)]
pub struct Gear {
    pub symbol: char,
    pub part_numbers: Vec<u32>,
}

/// The symbols of a schematic, each with its place.
pub type Gears = Vec<(Point, Gear)>;

/// The sum of the first `k` of `numbers`.
pub open spec fn sum_of(numbers: Seq<u32>, k: int) -> int
    decreases k,
{
    if k <= 0 {
        0
    } else {
        sum_of(numbers, k - 1) + numbers[k - 1]
    }
}

/// The sum of the numbers next to the first `k` symbols.
pub open spec fn part_sum(gears: Seq<(Point, Gear)>, k: int) -> int
    decreases k,
{
    if k <= 0 {
        0
    } else {
        part_sum(gears, k - 1) + sum_of(
            gears[k - 1].1.part_numbers@,
            gears[k - 1].1.part_numbers@.len() as int,
        )
    }
}

proof fn lemma_sum_of_grows(numbers: Seq<u32>, k: int, n: int)
    requires
        0 <= k <= n,
    ensures
        0 <= sum_of(numbers, k) <= sum_of(numbers, n),
    decreases n - k,
{
    if k < n {
        lemma_sum_of_grows(numbers, k + 1, n);
    }
    lemma_sum_of_nonnegative(numbers, k);
}

proof fn lemma_sum_of_nonnegative(numbers: Seq<u32>, k: int)
    ensures
        0 <= sum_of(numbers, k),
    decreases k,
{
    if k > 0 {
        lemma_sum_of_nonnegative(numbers, k - 1);
    }
}

proof fn lemma_part_sum_grows(gears: Seq<(Point, Gear)>, k: int, n: int)
    requires
        0 <= k <= n,
    ensures
        0 <= part_sum(gears, k) <= part_sum(gears, n),
    decreases n - k,
{
    if k < n {
        lemma_part_sum_grows(gears, k + 1, n);
        lemma_sum_of_nonnegative(gears[k].1.part_numbers@, gears[k].1.part_numbers@.len() as int);
    }
    lemma_part_sum_nonnegative(gears, k);
}

proof fn lemma_part_sum_nonnegative(gears: Seq<(Point, Gear)>, k: int)
    ensures
        0 <= part_sum(gears, k),
    decreases k,
{
    if k > 0 {
        lemma_part_sum_nonnegative(gears, k - 1);
        lemma_sum_of_nonnegative(
            gears[k - 1].1.part_numbers@,
            gears[k - 1].1.part_numbers@.len() as int,
        );
    }
}

/// The sum of the numbers next to the symbols, a number counting once for
/// each symbol and each time it was noted next to it. `None` where the sum
/// does not fit in 32 bits.
#[verifier::loop_isolation(false)]
pub fn solve_part1(input: &Gears) -> (r: Option<u32>)
    ensures
        match r {
            Some(total) => total == part_sum(input@, input@.len() as int),
            None => part_sum(input@, input@.len() as int) > u32::MAX,
        },
{
    let mut total: u32 = 0;
    let mut i: usize = 0;
    while i < input.len()
        invariant
            i <= input@.len(),
            total == part_sum(input@, i as int),
        decreases input@.len() - i,
    {
        let numbers = &input[i].1.part_numbers;
        let mut sum: u32 = 0;
        let mut k: usize = 0;
        while k < numbers.len()
            invariant
                k <= numbers@.len(),
                sum == sum_of(numbers@, k as int),
            decreases numbers@.len() - k,
        {
            match sum.checked_add(numbers[k]) {
                Some(s) => {
                    sum = s;
                },
                None => {
                    proof {
                        lemma_sum_of_grows(numbers@, k + 1, numbers@.len() as int);
                        lemma_part_sum_nonnegative(input@, i as int);
                        lemma_part_sum_grows(input@, i + 1, input@.len() as int);
                    }
                    return None;
                },
            }
            k += 1;
        }
        match total.checked_add(sum) {
            Some(t) => {
                total = t;
            },
            None => {
                proof {
                    lemma_part_sum_grows(input@, i + 1, input@.len() as int);
                }
                return None;
            },
        }
        i += 1;
    }
    Some(total)
}

/// The ratio of a symbol: the product of its two numbers where it is a `*`
/// with exactly two numbers next to it, and 0 otherwise.
pub open spec fn ratio(gear: Gear) -> int {
    if gear.symbol == '*' && gear.part_numbers@.len() == 2 {
        gear.part_numbers@[0] * gear.part_numbers@[1]
    } else {
        0
    }
}

/// The sum of the ratios of the first `k` symbols.
pub open spec fn ratio_sum(gears: Seq<(Point, Gear)>, k: int) -> int
    decreases k,
{
    if k <= 0 {
        0
    } else {
        ratio_sum(gears, k - 1) + ratio(gears[k - 1].1)
    }
}

proof fn lemma_ratio_range(gear: Gear)
    ensures
        0 <= ratio(gear) <= 0xffff_ffff * 0xffff_ffff,
{
    if gear.symbol == '*' && gear.part_numbers@.len() == 2 {
        let a = gear.part_numbers@[0] as int;
        let b = gear.part_numbers@[1] as int;
        assert(0 <= a * b <= 0xffff_ffff * 0xffff_ffff) by (nonlinear_arith)
            requires
                0 <= a <= 0xffff_ffff,
                0 <= b <= 0xffff_ffff,
        ;
    }
}

proof fn lemma_ratio_sum_grows(gears: Seq<(Point, Gear)>, k: int, n: int)
    requires
        0 <= k <= n,
    ensures
        0 <= ratio_sum(gears, k) <= ratio_sum(gears, n),
    decreases n - k,
{
    if k < n {
        lemma_ratio_sum_grows(gears, k + 1, n);
        lemma_ratio_range(gears[k].1);
    }
    lemma_ratio_sum_nonnegative(gears, k);
}

proof fn lemma_ratio_sum_nonnegative(gears: Seq<(Point, Gear)>, k: int)
    ensures
        0 <= ratio_sum(gears, k),
    decreases k,
{
    if k > 0 {
        lemma_ratio_sum_nonnegative(gears, k - 1);
        lemma_ratio_range(gears[k - 1].1);
    }
}

/// The sum of the ratios of the symbols; `None` where it does not fit in
/// 64 bits.
#[verifier::loop_isolation(false)]
pub fn solve_part2(input: &Gears) -> (r: Option<u64>)
    ensures
        match r {
            Some(total) => total == ratio_sum(input@, input@.len() as int),
            None => ratio_sum(input@, input@.len() as int) > u64::MAX,
        },
{
    let mut total: u64 = 0;
    let mut i: usize = 0;
    while i < input.len()
        invariant
            i <= input@.len(),
            total == ratio_sum(input@, i as int),
        decreases input@.len() - i,
    {
        let gear = &input[i].1;
        proof {
            lemma_ratio_range(*gear);
        }
        let value: u64 = if gear.symbol == '*' && gear.part_numbers.len() == 2 {
            gear.part_numbers[0] as u64 * gear.part_numbers[1] as u64
        } else {
            0
        };
        match total.checked_add(value) {
            Some(t) => {
                total = t;
            },
            None => {
                proof {
                    lemma_ratio_sum_grows(input@, i + 1, input@.len() as int);
                }
                return None;
            },
        }
        i += 1;
    }
    Some(total)
}

/// A number found in a line: the column of its first digit, the column at
/// which it was found to end, and its value.
pub type Found = (int, int, int);

/// What a scan along a line knows after some characters: the numbers found,
/// and of a number not yet ended the column of its first digit and its
/// value so far.
pub struct Scan {
    pub found: Seq<Found>,
    pub open: Option<(int, int)>,
}

/// Whether `c` is a decimal digit.
pub open spec fn is_digit(c: char) -> bool {
    '0' <= c <= '9'
}

/// The scan after the first `k` characters of `line`. A digit opens a
/// number or adds to the open one; a number ends at the first character
/// after it that is no digit, or at the last character of the line.
/// `None` where a number does not fit in 32 bits.
pub open spec fn scanned(line: Seq<char>, k: int) -> Option<Scan>
    decreases k,
{
    if k <= 0 {
        Some(Scan { found: Seq::empty(), open: None })
    } else {
        match scanned(line, k - 1) {
            Some(scan) => {
                let x = k - 1;
                let c = line[x];
                let open = if is_digit(c) {
                    match scan.open {
                        Some((start, value)) => Some((start, value * 10 + (c as int - 48))),
                        None => Some((x, c as int - 48)),
                    }
                } else {
                    scan.open
                };
                if (match open {
                    Some(number) => number.1 > u32::MAX,
                    None => false,
                }) {
                    None
                } else if !is_digit(c) || x == line.len() - 1 {
                    match open {
                        Some((start, value)) => Some(
                            Scan { found: scan.found.push((start, x, value)), open: None },
                        ),
                        None => Some(Scan { found: scan.found, open: None }),
                    }
                } else {
                    Some(Scan { found: scan.found, open })
                }
            },
            None => None,
        }
    }
}

/// The numbers found in `line`.
pub open spec fn numbers_in(line: Seq<char>) -> Option<Seq<Found>> {
    match scanned(line, line.len() as int) {
        Some(scan) => Some(scan.found),
        None => None,
    }
}

/// How often a number in row `y` is noted next to a symbol in row `row`:
/// once for each of the rows above, at and below `y` that is `row`, where
/// the row above the first row is the first row itself.
pub open spec fn times_noted(y: int, row: int) -> int {
    (if (if y == 0 {
        0
    } else {
        y - 1
    }) == row {
        1int
    } else {
        0int
    }) + (if y == row {
        1int
    } else {
        0int
    }) + (if y + 1 == row {
        1int
    } else {
        0int
    })
}

/// Whether the number reaches the column `column`: from the column before
/// its first digit to the column at which it ended.
pub open spec fn reaches(number: Found, column: int) -> bool {
    (if number.0 == 0 {
        0
    } else {
        number.0 - 1
    }) <= column <= number.1
}

/// `value`, `n` times.
pub open spec fn repeated(value: u32, n: int) -> Seq<u32> {
    Seq::new(
        if n >= 0 {
            n as nat
        } else {
            0
        },
        |i: int| value,
    )
}

/// The numbers that the first `k` numbers of row `y` note next to the
/// symbol at `place`.
pub open spec fn noted_in_row(numbers: Seq<Found>, k: int, y: int, place: (int, int)) -> Seq<u32>
    decreases k,
{
    if k <= 0 {
        Seq::empty()
    } else {
        noted_in_row(numbers, k - 1, y, place) + if reaches(numbers[k - 1], place.0) {
            repeated(numbers[k - 1].2 as u32, times_noted(y, place.1))
        } else {
            Seq::empty()
        }
    }
}

/// The numbers that the first `k` rows note next to the symbol at `place`.
pub open spec fn noted(rows: Seq<Seq<Found>>, k: int, place: (int, int)) -> Seq<u32>
    decreases k,
{
    if k <= 0 {
        Seq::empty()
    } else {
        noted(rows, k - 1, place) + noted_in_row(
            rows[k - 1],
            rows[k - 1].len() as int,
            k - 1,
            place,
        )
    }
}

/// Whether `c` is a symbol: neither a dot nor a digit.
pub open spec fn is_symbol(c: char) -> bool {
    c != '.' && !is_digit(c)
}

/// The symbols of the first `k` characters of row `y`, with their places.
pub open spec fn symbols_in_row(line: Seq<char>, k: int, y: int) -> Seq<((int, int), char)>
    decreases k,
{
    if k <= 0 {
        Seq::empty()
    } else if is_symbol(line[k - 1]) {
        symbols_in_row(line, k - 1, y).push(((k - 1, y), line[k - 1]))
    } else {
        symbols_in_row(line, k - 1, y)
    }
}

/// The symbols of the first `k` rows, row by row.
pub open spec fn symbols(lines: Seq<Seq<char>>, k: int) -> Seq<((int, int), char)>
    decreases k,
{
    if k <= 0 {
        Seq::empty()
    } else {
        symbols(lines, k - 1) + symbols_in_row(lines[k - 1], lines[k - 1].len() as int, k - 1)
    }
}

/// The numbers of each row; `None` where a number does not fit.
pub open spec fn all_numbers(lines: Seq<Seq<char>>) -> Option<Seq<Seq<Found>>> {
    crate::text::map_all(lines, numbers_reader())
}

/// Reads the numbers of a row.
pub open spec fn numbers_reader() -> spec_fn(Seq<char>) -> Option<Seq<Found>> {
    |line: Seq<char>| numbers_in(line)
}

/// A symbol as its place, its character and its numbers.
pub open spec fn gear_view(entry: (Point, Gear)) -> ((int, int), char, Seq<u32>) {
    let place: Point = entry.0;
    let gear: Gear = entry.1;
    ((place.0 as int, place.1 as int), gear.symbol, gear.part_numbers@)
}

/// The symbols as places, characters and numbers.
pub open spec fn gears_view(gears: Seq<(Point, Gear)>) -> Seq<((int, int), char, Seq<u32>)> {
    Seq::new(gears.len(), |i: int| gear_view(gears[i]))
}

/// The schematic that `text` draws: its symbols row by row, each with the
/// numbers noted next to it, row by row and in each row from the left.
pub open spec fn schematic_of(text: Seq<char>) -> Option<Seq<((int, int), char, Seq<u32>)>> {
    let ls = lines_of(text);
    match all_numbers(ls) {
        Some(rows) => Some(with_numbers(symbols(ls, ls.len() as int), rows)),
        None => None,
    }
}

/// The numbers as columns and values.
pub open spec fn found_view(v: Seq<(usize, usize, u32)>) -> Seq<Found> {
    Seq::new(v.len(), |i: int| (v[i].0 as int, v[i].1 as int, v[i].2 as int))
}

/// The numbers of the rows.
pub open spec fn rows_view(v: Seq<Vec<(usize, usize, u32)>>) -> Seq<Seq<Found>> {
    Seq::new(v.len(), |i: int| found_view(v[i]@))
}

proof fn lemma_scanned_stays_none(line: Seq<char>, k: int, n: int)
    requires
        0 <= k <= n,
        scanned(line, k).is_none(),
    ensures
        scanned(line, n).is_none(),
    decreases n - k,
{
    if k < n {
        lemma_scanned_stays_none(line, k, n - 1);
    }
}

/// The numbers found in `line`.
#[verifier::loop_isolation(false)]
fn scan_line(line: &Vec<char>) -> (r: Option<Vec<(usize, usize, u32)>>)
    ensures
        match r {
            Some(v) => numbers_in(line@) == Some(found_view(v@)),
            None => numbers_in(line@).is_none(),
        },
{
    let n = line.len();
    let mut found: Vec<(usize, usize, u32)> = Vec::new();
    let mut open: Option<(usize, u32)> = None;
    let mut x: usize = 0;
    assert(found_view(found@) =~= Seq::<Found>::empty());
    while x < n
        invariant
            x <= n,
            scanned(line@, x as int) == Some(
                Scan {
                    found: found_view(found@),
                    open: match open {
                        Some((s, v)) => Some((s as int, v as int)),
                        None => None,
                    },
                },
            ),
        decreases n - x,
    {
        let c = line[x];
        let digit = c >= '0' && c <= '9';
        if digit {
            let d = c as u32 - 48;
            let next = match open {
                Some((s, v)) => match v.checked_mul(10) {
                    Some(t) => match t.checked_add(d) {
                        Some(w) => Some((s, w)),
                        None => None,
                    },
                    None => None,
                },
                None => Some((x, d)),
            };
            match next {
                Some(o) => {
                    open = Some(o);
                },
                None => {
                    proof {
                        lemma_scanned_stays_none(line@, x + 1, n as int);
                    }
                    return None;
                },
            }
        }
        if !digit || x == n - 1 {
            match open {
                Some((s, v)) => {
                    let ghost before = found_view(found@);
                    found.push((s, x, v));
                    assert(found_view(found@) =~= before.push((s as int, x as int, v as int)));
                },
                None => {},
            }
            open = None;
        }
        x += 1;
    }
    Some(found)
}

fn append_repeated(to: &mut Vec<u32>, value: u32, times: usize)
    ensures
        final(to)@ == old(to)@ + repeated(value, times as int),
{
    let ghost before = to@;
    let mut k: usize = 0;
    assert(to@ =~= before + repeated(value, 0));
    while k < times
        invariant
            k <= times,
            to@ == before + repeated(value, k as int),
        decreases times - k,
    {
        to.push(value);
        k += 1;
        assert(to@ =~= before + repeated(value, k as int));
    }
}

/// The numbers noted next to the symbol at `place`.
#[verifier::loop_isolation(false)]
fn numbers_next_to(rows: &Vec<Vec<(usize, usize, u32)>>, place: Point) -> (r: Vec<u32>)
    ensures
        r@ == noted(rows_view(rows@), rows@.len() as int, (place.0 as int, place.1 as int)),
{
    let ghost all = rows_view(rows@);
    let ghost at = (place.0 as int, place.1 as int);
    let mut out: Vec<u32> = Vec::new();
    let mut y: usize = 0;
    while y < rows.len()
        invariant
            y <= rows@.len(),
            out@ == noted(all, y as int, at),
        decreases rows@.len() - y,
    {
        let row = &rows[y];
        let ghost numbers = all[y as int];
        assert(numbers == found_view(row@));
        let ghost before = out@;
        let above: usize = if y == 0 {
            0
        } else {
            y - 1
        };
        let mut times: usize = 0;
        if above == place.1 {
            times += 1;
        }
        if y == place.1 {
            times += 1;
        }
        if y < usize::MAX && y + 1 == place.1 {
            times += 1;
        }
        assert(times == times_noted(y as int, at.1));
        let mut k: usize = 0;
        assert(before + noted_in_row(numbers, 0, y as int, at) =~= before);
        while k < row.len()
            invariant
                k <= row@.len(),
                out@ == before + noted_in_row(numbers, k as int, y as int, at),
            decreases row@.len() - k,
        {
            let (start, end, value) = row[k];
            let from: usize = if start == 0 {
                0
            } else {
                start - 1
            };
            assert(numbers[k as int] == (start as int, end as int, value as int));
            let ghost shown = out@;
            if from <= place.0 && place.0 <= end {
                append_repeated(&mut out, value, times);
            }
            proof {
                let more = if reaches(numbers[k as int], at.0) {
                    repeated(numbers[k as int].2 as u32, times_noted(y as int, at.1))
                } else {
                    Seq::empty()
                };
                assert(out@ =~= shown + more);
                assert(before + (noted_in_row(numbers, k as int, y as int, at) + more) =~= before
                    + noted_in_row(numbers, k as int, y as int, at) + more);
            }
            k += 1;
        }
        y += 1;
    }
    out
}

/// Reads the schematic; `None` where a number in it does not fit in 32 bits.
#[verifier::loop_isolation(false)]
pub fn input_generator(input: &str) -> (r: Option<Gears>)
    ensures
        match r {
            Some(gears) => schematic_of(input@) == Some(gears_view(gears@)),
            None => schematic_of(input@).is_none(),
        },
{
    let chars = chars_of(input);
    let ls = lines(&chars);
    let ghost rows = views(ls@);
    let ghost f = numbers_reader();
    let mut numbers: Vec<Vec<(usize, usize, u32)>> = Vec::new();
    let mut i: usize = 0;
    assert(rows.take(0) =~= Seq::<Seq<char>>::empty());
    assert(rows_view(numbers@) =~= Seq::<Seq<Found>>::empty());
    while i < ls.len()
        invariant
            i <= ls@.len(),
            crate::text::map_all(rows.take(i as int), f) == Some(rows_view(numbers@)),
        decreases ls@.len() - i,
    {
        proof {
            crate::text::lemma_map_all_step(rows, f, i as int);
        }
        let ghost before = rows_view(numbers@);
        match scan_line(&ls[i]) {
            Some(found) => {
                let ghost entry = found_view(found@);
                numbers.push(found);
                assert(rows_view(numbers@) =~= before.push(entry));
            },
            None => {
                proof {
                    crate::text::lemma_map_all_none(rows, f, i + 1);
                }
                return None;
            },
        }
        i += 1;
    }
    assert(rows.take(i as int) =~= rows);
    let ghost all = rows_view(numbers@);
    proof {
        crate::text::lemma_map_all_some(rows, f);
    }
    let mut gears: Gears = Vec::new();
    let mut y: usize = 0;
    assert(gears_view(gears@) =~= with_numbers(symbols(rows, 0), all));
    while y < ls.len()
        invariant
            y <= ls@.len(),
            gears_view(gears@) == with_numbers(symbols(rows, y as int), all),
        decreases ls@.len() - y,
    {
        assert(rows[y as int] == ls@[y as int]@);
        let ghost before = gears_view(gears@);
        let row = symbols_of_row(&ls[y], y, &numbers);
        let ghost added = gears_view(row@);
        append_gears(&mut gears, row);
        proof {
            assert(gears_view(gears@) =~= before + added);
            assert(with_numbers(symbols(rows, y + 1), all) =~= before + added);
        }
        y += 1;
    }
    Some(gears)
}

/// The symbols `found`, each with the numbers that `rows` note next to it.
pub open spec fn with_numbers(found: Seq<((int, int), char)>, rows: Seq<Seq<Found>>) -> Seq<
    ((int, int), char, Seq<u32>),
> {
    Seq::new(
        found.len(),
        |i: int| (found[i].0, found[i].1, noted(rows, rows.len() as int, found[i].0)),
    )
}

/// Moves the symbols of `from` behind those of `to`.
fn append_gears(to: &mut Gears, from: Gears)
    ensures
        gears_view(final(to)@) == gears_view(old(to)@) + gears_view(from@),
{
    let ghost before = gears_view(to@);
    let ghost added = gears_view(from@);
    let mut from = from;
    let mut taken: Gears = Vec::new();
    // take the symbols off the end, and put them on in turn
    while from.len() > 0
        invariant
            gears_view(from@) + gears_view(taken@).reverse() == added,
        decreases from@.len(),
    {
        let ghost f0 = gears_view(from@);
        let ghost t0 = gears_view(taken@);
        match from.pop() {
            Some(entry) => {
                let ghost e = gear_view(entry);
                taken.push(entry);
                assert(gears_view(from@) =~= f0.drop_last());
                assert(gears_view(taken@) =~= t0.push(e));
                assert(f0.last() == e);
                assert(gears_view(from@) + gears_view(taken@).reverse() =~= f0 + t0.reverse());
            },
            None => {},
        }
    }
    assert(gears_view(taken@).reverse() =~= added);
    while taken.len() > 0
        invariant
            gears_view(to@) + gears_view(taken@).reverse() == before + added,
        decreases taken@.len(),
    {
        let ghost o0 = gears_view(to@);
        let ghost t0 = gears_view(taken@);
        match taken.pop() {
            Some(entry) => {
                let ghost e = gear_view(entry);
                to.push(entry);
                assert(gears_view(taken@) =~= t0.drop_last());
                assert(gears_view(to@) =~= o0.push(e));
                assert(t0.last() == e);
                assert(gears_view(to@) + gears_view(taken@).reverse() =~= o0 + t0.reverse());
            },
            None => {},
        }
    }
    assert(gears_view(taken@).reverse() =~= Seq::<((int, int), char, Seq<u32>)>::empty());
    assert(gears_view(to@) + Seq::<((int, int), char, Seq<u32>)>::empty() =~= gears_view(to@));
}

/// Puts one more symbol behind the others.
fn push_gear(gears: &mut Gears, place: Point, symbol: char, part_numbers: Vec<u32>)
    ensures
        gears_view(final(gears)@) == gears_view(old(gears)@).push(
            ((place.0 as int, place.1 as int), symbol, part_numbers@),
        ),
{
    let ghost shown = gears_view(gears@);
    let ghost entry = ((place.0 as int, place.1 as int), symbol, part_numbers@);
    gears.push((place, Gear { symbol, part_numbers }));
    assert(gears_view(gears@) =~= shown.push(entry));
}

/// The symbols of row `y`, each with the numbers noted next to it.
fn symbols_of_row(line: &Vec<char>, y: usize, numbers: &Vec<Vec<(usize, usize, u32)>>) -> (r: Gears)
    ensures
        gears_view(r@) == with_numbers(
            symbols_in_row(line@, line@.len() as int, y as int),
            rows_view(numbers@),
        ),
{
    let ghost all = rows_view(numbers@);
    let mut gears: Gears = Vec::new();
    let mut x: usize = 0;
    assert(gears_view(gears@) =~= with_numbers(symbols_in_row(line@, 0, y as int), all));
    while x < line.len()
        invariant
            x <= line@.len(),
            all == rows_view(numbers@),
            gears_view(gears@) == with_numbers(symbols_in_row(line@, x as int, y as int), all),
        decreases line@.len() - x,
    {
        let c = line[x];
        if c != '.' && !(c >= '0' && c <= '9') {
            let part_numbers = numbers_next_to(numbers, (x, y));
            let ghost shown = gears_view(gears@);
            let ghost entry = ((x as int, y as int), c, part_numbers@);
            push_gear(&mut gears, (x, y), c, part_numbers);
            assert(with_numbers(symbols_in_row(line@, x + 1, y as int), all) =~= shown.push(entry));
        }
        x += 1;
    }
    gears
}

} // verus!
