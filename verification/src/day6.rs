//! Boat races: in how many ways a record can be reached.
use crate::text::{
    as_ints, chars_of, lines, lines_of, map_all, parse_all_unsigned, parse_unsigned, squeeze,
    squeezed, starts_with, strip_prefix, unsigned_of, unsigned_reader, views, words, words_of,
};
use vstd::prelude::*;

verus! {

/// A race: how long it lasts, and the distance to reach.
pub struct Race {
    duration: u64,
    record: u64,
}

/// `s` is the square root of `n`, rounded down.
pub open spec fn is_floor_sqrt(n: int, s: int) -> bool {
    0 <= s && s * s <= n < (s + 1) * (s + 1)
}

/// The square root of `n`, rounded down.
pub open spec fn floor_sqrt(n: int) -> int {
    choose|s: int| is_floor_sqrt(n, s)
}

/// The square root of `n`, rounded up.
pub open spec fn ceil_sqrt(n: int) -> int {
    if floor_sqrt(n) * floor_sqrt(n) == n {
        floor_sqrt(n)
    } else {
        floor_sqrt(n) + 1
    }
}

/// The count that `Race::constant_time_wins` gives for a race of `duration`
/// and `record`.
///
/// Holding the button for `t` covers `t * (duration - t)`, which is at least
/// `record` between the two roots `(duration - r) / 2` and
/// `(duration + r) / 2`, where `r` is the square root of
/// `duration * duration - 4 * record`. The count is that of the whole numbers
/// above the lower root and up to the upper root: the upper root rounded
/// down, less the lower root rounded down. Where the roots do not exist it
/// is 0.
pub open spec fn wins(duration: int, record: int) -> int {
    let under = duration * duration - 4 * record;
    if under < 0 {
        0
    } else {
        (duration + floor_sqrt(under)) / 2 - (duration - ceil_sqrt(under)) / 2
    }
}

/// Only one number is the square root of `n` rounded down.
pub proof fn lemma_floor_sqrt_unique(n: int, a: int, b: int)
    requires
        is_floor_sqrt(n, a),
        is_floor_sqrt(n, b),
    ensures
        a == b,
{
    if a < b {
        assert((a + 1) * (a + 1) <= b * b) by (nonlinear_arith)
            requires
                0 <= a,
                a + 1 <= b,
        ;
    } else if b < a {
        assert((b + 1) * (b + 1) <= a * a) by (nonlinear_arith)
            requires
                0 <= b,
                b + 1 <= a,
        ;
    }
}

/// The square root of `n`, rounded down.
pub fn integer_sqrt(n: u128) -> (s: u64)
    ensures
        is_floor_sqrt(n as int, s as int),
        s == floor_sqrt(n as int),
{
    let mut low: u128 = 0;
    let mut high: u128 = 0x1_0000_0000_0000_0000;
    assert(high * high > n) by (nonlinear_arith)
        requires
            high == 0x1_0000_0000_0000_0000,
            n <= u128::MAX,
    ;
    while high - low > 1
        invariant
            low < high <= 0x1_0000_0000_0000_0000,
            low * low <= n < high * high,
        decreases high - low,
    {
        let mid = low + (high - low) / 2;
        assert(mid * mid <= 0xffff_ffff_ffff_ffff * 0xffff_ffff_ffff_ffff) by (nonlinear_arith)
            requires
                0 <= mid <= 0xffff_ffff_ffff_ffff,
        ;
        if mid * mid <= n {
            low = mid;
        } else {
            high = mid;
        }
    }
    proof {
        assert(is_floor_sqrt(n as int, low as int));
        lemma_floor_sqrt_unique(n as int, low as int, floor_sqrt(n as int));
    }
    low as u64
}

impl Race {
    /// A race that lasts `duration` and whose record is `record`.
    pub fn new(duration: u64, record: u64) -> (race: Race)
        ensures
            race.duration() == duration,
            race.record() == record,
    {
        Race { duration, record }
    }

    /// How long the race lasts.
    pub closed spec fn duration(&self) -> u64 {
        self.duration
    }

    /// The distance to reach.
    pub closed spec fn record(&self) -> u64 {
        self.record
    }

    /// The number of whole holding times above the lower and up to the upper
    /// of the two times that reach the record exactly; 0 where no time
    /// reaches it.
    pub fn constant_time_wins(&self) -> (w: u64)
        ensures
            w == wins(self.duration() as int, self.record() as int),
    {
        let d = self.duration as u128;
        let r = self.record as u128;
        assert(d * d <= 0xffff_ffff_ffff_ffff * 0xffff_ffff_ffff_ffff) by (nonlinear_arith)
            requires
                0 <= d <= 0xffff_ffff_ffff_ffff,
        ;
        let square = d * d;
        if square < 4 * r {
            return 0;
        }
        let under = square - 4 * r;
        let floor = integer_sqrt(under) as u128;
        let ceil = if floor * floor == under {
            floor
        } else {
            floor + 1
        };
        proof {
            assert(floor <= d && ceil <= d) by (nonlinear_arith)
                requires
                    floor * floor <= under,
                    under <= d * d,
                    0 <= floor,
                    0 <= d,
                    ceil == floor || (ceil == floor + 1 && floor * floor != under),
            ;
        }
        let upper = (d + floor) / 2;
        let lower = (d - ceil) / 2;
        (upper - lower) as u64
    }
}

/// The product of the counts of `races`, as far as it fits in 64 bits:
/// `None` once the product of the first few counts no longer fits.
pub open spec fn product_of_wins(races: Seq<Race>) -> Option<int>
    decreases races.len(),
{
    if races.len() == 0 {
        Some(1int)
    } else {
        match product_of_wins(races.drop_last()) {
            Some(p) => {
                let q = p * wins(races.last().duration() as int, races.last().record() as int);
                if q <= u64::MAX {
                    Some(q)
                } else {
                    None
                }
            },
            None => None,
        }
    }
}

/// The product of the counts of all races; `None` where it does not fit in
/// 64 bits.
pub fn part1(input: &[Race]) -> (r: Option<u64>)
    ensures
        match r {
            Some(p) => product_of_wins(input@) == Some(p as int),
            None => product_of_wins(input@).is_none(),
        },
{
    let mut acc: u64 = 1;
    let mut i: usize = 0;
    while i < input.len()
        invariant
            i <= input@.len(),
            product_of_wins(input@.take(i as int)) == Some(acc as int),
        decreases input@.len() - i,
    {
        let w = input[i].constant_time_wins();
        proof {
            assert(input@.take(i + 1).drop_last() =~= input@.take(i as int));
            assert(input@.take(i + 1).last() == input@[i as int]);
        }
        match acc.checked_mul(w) {
            Some(next) => {
                acc = next;
            },
            None => {
                proof {
                    lemma_product_stays_none(input@, i + 1);
                }
                return None;
            },
        }
        i += 1;
    }
    assert(input@.take(i as int) =~= input@);
    Some(acc)
}

/// Once the product of the first `k` counts does not fit, neither does that
/// of all.
proof fn lemma_product_stays_none(races: Seq<Race>, k: int)
    requires
        0 <= k <= races.len(),
        product_of_wins(races.take(k)).is_none(),
    ensures
        product_of_wins(races).is_none(),
    decreases races.len() - k,
{
    if k < races.len() {
        assert(races.take(k + 1).drop_last() =~= races.take(k));
        lemma_product_stays_none(races, k + 1);
    } else {
        assert(races.take(k) =~= races);
    }
}

/// The count of the one race.
pub fn part2(input: &Race) -> (w: u64)
    ensures
        w == wins(input.duration() as int, input.record() as int),
{
    input.constant_time_wins()
}

/// The whole numbers, of 64 bits each, that follow `prefix` on `line`, white
/// space between them; `None` where the line does not start with `prefix` or
/// a word after it is no such number.
pub open spec fn numbers_after(line: Seq<char>, prefix: Seq<char>) -> Option<Seq<int>> {
    if starts_with(line, prefix) {
        map_all(
            words_of(line.subrange(prefix.len() as int, line.len() as int)),
            unsigned_reader(u64::MAX as int),
        )
    } else {
        None
    }
}

/// The whole number, of 64 bits, that the characters after `prefix` on
/// `line` write once the white space is taken out from among them.
pub open spec fn number_after(line: Seq<char>, prefix: Seq<char>) -> Option<int> {
    if starts_with(line, prefix) {
        unsigned_of(
            squeezed(line.subrange(prefix.len() as int, line.len() as int)),
            u64::MAX as int,
        )
    } else {
        None
    }
}

/// The races that a sheet lists: the durations on its first line after
/// `Time: `, the records on its second after `Distance: `, paired off in
/// order as far as both lines go.
pub open spec fn races_of(text: Seq<char>) -> Option<Seq<(int, int)>> {
    let ls = lines_of(text);
    if ls.len() < 2 {
        None
    } else {
        match (numbers_after(ls[0], "Time: "@), numbers_after(ls[1], "Distance: "@)) {
            (Some(times), Some(records)) => Some(
                Seq::new(
                    if times.len() <= records.len() {
                        times.len()
                    } else {
                        records.len()
                    },
                    |i: int| (times[i], records[i]),
                ),
            ),
            _ => None,
        }
    }
}

/// The one race that a sheet lists when the spaces between its digits are
/// ignored.
pub open spec fn race_of(text: Seq<char>) -> Option<(int, int)> {
    let ls = lines_of(text);
    if ls.len() < 2 {
        None
    } else {
        match (number_after(ls[0], "Time: "@), number_after(ls[1], "Distance: "@)) {
            (Some(time), Some(record)) => Some((time, record)),
            _ => None,
        }
    }
}

/// The durations and records of `races`.
pub open spec fn races_view(races: Seq<Race>) -> Seq<(int, int)> {
    Seq::new(races.len(), |i: int| (races[i].duration() as int, races[i].record() as int))
}

fn read_numbers(line: &Vec<char>, prefix: &str) -> (r: Option<Vec<u64>>)
    ensures
        match r {
            Some(v) => numbers_after(line@, prefix@) == Some(as_ints(v@)),
            None => numbers_after(line@, prefix@).is_none(),
        },
{
    let lead = chars_of(prefix);
    match strip_prefix(line, &lead) {
        Some(rest) => {
            let found = words(&rest);
            parse_all_unsigned(&found, u64::MAX)
        },
        None => None,
    }
}

fn read_number(line: &Vec<char>, prefix: &str) -> (r: Option<u64>)
    ensures
        match r {
            Some(v) => number_after(line@, prefix@) == Some(v as int),
            None => number_after(line@, prefix@).is_none(),
        },
{
    let lead = chars_of(prefix);
    match strip_prefix(line, &lead) {
        Some(rest) => {
            let digits = squeeze(&rest);
            parse_unsigned(&digits, u64::MAX)
        },
        None => None,
    }
}

/// Reads the races of a sheet; `None` where the sheet is not as `races_of`
/// describes.
pub fn parse_input(input: &str) -> (r: Option<Vec<Race>>)
    ensures
        match r {
            Some(races) => races_of(input@) == Some(races_view(races@)),
            None => races_of(input@).is_none(),
        },
{
    let chars = chars_of(input);
    let ls = lines(&chars);
    if ls.len() < 2 {
        return None;
    }
    assert(views(ls@)[0] == ls@[0]@);
    assert(views(ls@)[1] == ls@[1]@);
    let times = match read_numbers(&ls[0], "Time: ") {
        Some(t) => t,
        None => {
            return None;
        },
    };
    let records = match read_numbers(&ls[1], "Distance: ") {
        Some(d) => d,
        None => {
            return None;
        },
    };
    let n = if times.len() <= records.len() {
        times.len()
    } else {
        records.len()
    };
    let mut races: Vec<Race> = Vec::new();
    let mut i: usize = 0;
    while i < n
        invariant
            i <= n,
            n <= times@.len(),
            n <= records@.len(),
            races@.len() == i,
            forall|k: int|
                0 <= k < i ==> (#[trigger] races@[k]).duration() == times@[k] && races@[k].record()
                    == records@[k],
        decreases n - i,
    {
        races.push(Race::new(times[i], records[i]));
        i += 1;
    }
    assert(races_view(races@) =~= Seq::new(
        n as nat,
        |i: int| (as_ints(times@)[i], as_ints(records@)[i]),
    ));
    Some(races)
}

/// Reads the one race of a sheet, ignoring the spaces between digits; `None`
/// where the sheet is not as `race_of` describes.
pub fn parse_input_part2(input: &str) -> (r: Option<Race>)
    ensures
        match r {
            Some(race) => race_of(input@) == Some((race.duration() as int, race.record() as int)),
            None => race_of(input@).is_none(),
        },
{
    let chars = chars_of(input);
    let ls = lines(&chars);
    if ls.len() < 2 {
        return None;
    }
    assert(views(ls@)[0] == ls@[0]@);
    assert(views(ls@)[1] == ls@[1]@);
    let time = match read_number(&ls[0], "Time: ") {
        Some(t) => t,
        None => {
            return None;
        },
    };
    let record = match read_number(&ls[1], "Distance: ") {
        Some(d) => d,
        None => {
            return None;
        },
    };
    Some(Race::new(time, record))
}

} // verus!
