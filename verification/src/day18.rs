//! The lagoon: the number of cells that a dug trench encloses, trench included.
use crate::text::{
    ascii_words, ascii_words_of, chars_of, code_of, copy_range, hex_of, lemma_map_all_none,
    lemma_map_all_step, lines, lines_of, map_all, parse_hex, parse_signed, signed_of, views,
};
use vstd::prelude::*;

verus! {

/// One stretch of the trench: the letter of its direction and its length.
pub type Move = (u8, i32);

/// The step of a direction letter, as the change of `x` and of `y`: `U` up,
/// `D` down, `L` left and `R` right. No other letter is a direction.
pub open spec fn step_of(direction: u8) -> Option<(int, int)> {
    if direction == 85 {
        Some((0int, 1int))
    } else if direction == 68 {
        Some((0int, -1int))
    } else if direction == 76 {
        Some((-1int, 0int))
    } else if direction == 82 {
        Some((1int, 0int))
    } else {
        None
    }
}

/// The step of a direction letter; `None` for any other letter.
pub fn from_direction(direction: u8) -> (r: Option<(i32, i32)>)
    ensures
        match r {
            Some(d) => step_of(direction) == Some((d.0 as int, d.1 as int)),
            None => step_of(direction).is_none(),
        },
{
    if direction == 85 {
        Some((0, 1))
    } else if direction == 68 {
        Some((0, -1))
    } else if direction == 76 {
        Some((-1, 0))
    } else if direction == 82 {
        Some((1, 0))
    } else {
        None
    }
}

/// The determinant of the two points: `a.x * b.y - a.y * b.x`.
pub open spec fn det(a: (int, int), b: (int, int)) -> int {
    a.0 * b.1 - a.1 * b.0
}

/// The product of two values of 32 bits lies between `-(2^62 - 2^31)` and `2^62`.
proof fn lemma_product_range(a: int, b: int)
    requires
        -0x8000_0000 <= a <= 0x7fff_ffff,
        -0x8000_0000 <= b <= 0x7fff_ffff,
    ensures
        -0x3fff_ffff_8000_0000 <= a * b <= 0x4000_0000_0000_0000,
{
    if a >= 0 && b >= 0 {
        assert(0 <= a * b <= 0x7fff_ffff * 0x7fff_ffff) by (nonlinear_arith)
            requires
                0 <= a <= 0x7fff_ffff,
                0 <= b <= 0x7fff_ffff,
        ;
    } else if a < 0 && b < 0 {
        assert(0 <= a * b <= 0x8000_0000 * 0x8000_0000) by (nonlinear_arith)
            requires
                -0x8000_0000 <= a < 0,
                -0x8000_0000 <= b < 0,
        ;
    } else if a < 0 {
        assert(-0x8000_0000 * 0x7fff_ffff <= a * b <= 0) by (nonlinear_arith)
            requires
                -0x8000_0000 <= a < 0,
                0 <= b <= 0x7fff_ffff,
        ;
    } else {
        assert(-0x8000_0000 * 0x7fff_ffff <= a * b <= 0) by (nonlinear_arith)
            requires
                0 <= a <= 0x7fff_ffff,
                -0x8000_0000 <= b < 0,
        ;
    }
}

/// The determinant of two points.
pub fn determinant(a: (i32, i32), b: (i32, i32)) -> (d: i64)
    ensures
        d == det((a.0 as int, a.1 as int), (b.0 as int, b.1 as int)),
{
    let ax = a.0 as i64;
    let ay = a.1 as i64;
    let bx = b.0 as i64;
    let by = b.1 as i64;
    proof {
        lemma_product_range(ax as int, by as int);
        lemma_product_range(ay as int, bx as int);
    }
    ax * by - ay * bx
}

/// Where the digger stands and what it has summed up: its position, the sum
/// of the determinants of each position with the one before, and the sum of
/// the lengths.
pub struct Dig {
    pub x: int,
    pub y: int,
    pub area: int,
    pub perimeter: int,
}

/// Whether `v` is a value of 32 bits with a sign.
pub open spec fn fits_i32(v: int) -> bool {
    i32::MIN <= v <= i32::MAX
}

/// Whether `v` is a value of 64 bits with a sign.
pub open spec fn fits_i64(v: int) -> bool {
    i64::MIN <= v <= i64::MAX
}

/// The digger after one more move. `None` where the letter is no direction,
/// where the step or the new position does not fit in 32 bits, or a sum does
/// not fit in 64.
pub open spec fn dig_one(from: Dig, m: Move) -> Option<Dig> {
    match step_of(m.0) {
        Some(d) => {
            let x = from.x + d.0 * m.1;
            let y = from.y + d.1 * m.1;
            let area = from.area + det((x, y), (from.x, from.y));
            let perimeter = from.perimeter + m.1;
            if fits_i32(d.0 * m.1) && fits_i32(d.1 * m.1) && fits_i32(x) && fits_i32(y)
                && fits_i64(area) && fits_i64(perimeter) {
                Some(Dig { x, y, area, perimeter })
            } else {
                None
            }
        },
        None => None,
    }
}

/// The digger after all of `moves`, starting at the origin with nothing summed.
pub open spec fn dig(moves: Seq<Move>) -> Option<Dig>
    decreases moves.len(),
{
    if moves.len() == 0 {
        Some(Dig { x: 0, y: 0, area: 0, perimeter: 0 })
    } else {
        match dig(moves.drop_last()) {
            Some(d) => dig_one(d, moves.last()),
            None => None,
        }
    }
}

/// Half of `v`, rounded towards 0.
pub open spec fn half(v: int) -> int {
    if v >= 0 {
        v / 2
    } else {
        -((-v) / 2)
    }
}

/// The size of the lagoon: half the summed determinants, taken without its
/// sign, plus half the summed lengths, plus 1. `None` where the digger
/// fails or the size does not fit in 64 bits.
pub open spec fn lagoon(moves: Seq<Move>) -> Option<int> {
    match dig(moves) {
        Some(d) => {
            let inner = if half(d.area) >= 0 {
                half(d.area)
            } else {
                -half(d.area)
            };
            let size = inner + (half(d.perimeter) + 1);
            if fits_i64(half(d.perimeter) + 1) && fits_i64(size) {
                Some(size)
            } else {
                None
            }
        },
        None => None,
    }
}

proof fn lemma_dig_stays_none(moves: Seq<Move>, k: int)
    requires
        0 <= k <= moves.len(),
        dig(moves.take(k)).is_none(),
    ensures
        dig(moves).is_none(),
    decreases moves.len() - k,
{
    if k < moves.len() {
        assert(moves.take(k + 1).drop_last() =~= moves.take(k));
        lemma_dig_stays_none(moves, k + 1);
    } else {
        assert(moves.take(k) =~= moves);
    }
}

/// The size of the lagoon that `moves` dig.
pub fn lava(moves: &[Move]) -> (r: Option<i64>)
    ensures
        match r {
            Some(size) => lagoon(moves@) == Some(size as int),
            None => lagoon(moves@).is_none(),
        },
{
    let mut x: i32 = 0;
    let mut y: i32 = 0;
    let mut area: i64 = 0;
    let mut perimeter: i64 = 0;
    let mut i: usize = 0;
    assert(moves@.take(0) =~= Seq::<Move>::empty());
    while i < moves.len()
        invariant
            i <= moves@.len(),
            dig(moves@.take(i as int)) == Some(
                Dig { x: x as int, y: y as int, area: area as int, perimeter: perimeter as int },
            ),
        decreases moves@.len() - i,
    {
        proof {
            assert(moves@.take(i + 1).drop_last() =~= moves@.take(i as int));
            assert(moves@.take(i + 1).last() == moves@[i as int]);
        }
        let (direction, amount) = moves[i];
        let next = match from_direction(direction) {
            Some((dx, dy)) => {
                assert(dx == 0 || dx == 1 || dx == -1);
                assert(dy == 0 || dy == 1 || dy == -1);
                match (dx.checked_mul(amount), dy.checked_mul(amount)) {
                    (Some(sx), Some(sy)) => match (x.checked_add(sx), y.checked_add(sy)) {
                        (Some(nx), Some(ny)) => {
                            let d = determinant((nx, ny), (x, y));
                            match (area.checked_add(d), perimeter.checked_add(amount as i64)) {
                                (Some(a), Some(p)) => Some((nx, ny, a, p)),
                                _ => None,
                            }
                        },
                        _ => None,
                    },
                    _ => None,
                }
            },
            None => None,
        };
        match next {
            Some((nx, ny, a, p)) => {
                x = nx;
                y = ny;
                area = a;
                perimeter = p;
            },
            None => {
                proof {
                    lemma_dig_stays_none(moves@, i + 1);
                }
                return None;
            },
        }
        i += 1;
    }
    assert(moves@.take(i as int) =~= moves@);
    let halved = area / 2;
    let inner = if halved >= 0 {
        halved
    } else {
        -halved
    };
    match (perimeter / 2).checked_add(1) {
        Some(rim) => inner.checked_add(rim),
        None => None,
    }
}

/// The size of the lagoon.
pub fn part1(input: &[Move]) -> (r: Option<i64>)
    ensures
        match r {
            Some(size) => lagoon(input@) == Some(size as int),
            None => lagoon(input@).is_none(),
        },
{
    lava(input)
}

/// The size of the lagoon.
pub fn part2(input: &[Move]) -> (r: Option<i64>)
    ensures
        match r {
            Some(size) => lagoon(input@) == Some(size as int),
            None => lagoon(input@).is_none(),
        },
{
    lava(input)
}

/// The move that the first two words of `line` write: the first character of
/// the first, which must be of ASCII, is the direction letter; the second is
/// the length, a number of 32 bits.
pub open spec fn plain_move(line: Seq<char>) -> Option<(int, int)> {
    let words = ascii_words_of(line);
    if words.len() < 2 || words[0][0] as int >= 128 {
        None
    } else {
        match signed_of(words[1], i32::MIN as int, i32::MAX as int) {
            Some(amount) => Some((words[0][0] as int, amount)),
            None => None,
        }
    }
}

/// The move that the third word of `line` writes in code: its eighth
/// character is the digit of the direction, 0 right, 1 down, 2 left and 3
/// up, and what stands between its first two and its last two characters is
/// the length in base sixteen, a number of 32 bits without a sign bit set.
pub open spec fn coded_move(line: Seq<char>) -> Option<(int, int)> {
    let words = ascii_words_of(line);
    if words.len() < 3 || words[2].len() < 8 {
        None
    } else {
        let code = words[2];
        let letter = if code[7] == '0' {
            Some(82int)
        } else if code[7] == '1' {
            Some(68int)
        } else if code[7] == '2' {
            Some(76int)
        } else if code[7] == '3' {
            Some(85int)
        } else {
            None
        };
        match (letter, hex_of(code.subrange(2, code.len() - 2), i32::MAX as int)) {
            (Some(l), Some(amount)) => Some((l, amount)),
            _ => None,
        }
    }
}

/// Reads a move in plain writing.
pub open spec fn plain_reader() -> spec_fn(Seq<char>) -> Option<(int, int)> {
    |line: Seq<char>| plain_move(line)
}

/// Reads a move in code.
pub open spec fn coded_reader() -> spec_fn(Seq<char>) -> Option<(int, int)> {
    |line: Seq<char>| coded_move(line)
}

/// The moves as letters and lengths.
pub open spec fn moves_view(moves: Seq<Move>) -> Seq<(int, int)> {
    Seq::new(moves.len(), |i: int| (moves[i].0 as int, moves[i].1 as int))
}

fn read_plain(line: &Vec<char>) -> (r: Option<Move>)
    ensures
        match r {
            Some(m) => plain_move(line@) == Some((m.0 as int, m.1 as int)),
            None => plain_move(line@).is_none(),
        },
{
    let words = ascii_words(line);
    if words.len() < 2 {
        return None;
    }
    assert(views(words@)[0] == words@[0]@);
    assert(views(words@)[1] == words@[1]@);
    proof {
        crate::text::lemma_ascii_words_nonempty(line@, 0);
    }
    let letter = code_of(words[0][0]);
    if letter >= 128 {
        return None;
    }
    match parse_signed(&words[1], i32::MAX as u64) {
        Some(amount) => Some((letter as u8, amount as i32)),
        None => None,
    }
}

fn read_coded(line: &Vec<char>) -> (r: Option<Move>)
    ensures
        match r {
            Some(m) => coded_move(line@) == Some((m.0 as int, m.1 as int)),
            None => coded_move(line@).is_none(),
        },
{
    let words = ascii_words(line);
    if words.len() < 3 {
        return None;
    }
    assert(views(words@)[2] == words@[2]@);
    let code = &words[2];
    if code.len() < 8 {
        return None;
    }
    let digit = code[7];
    let letter: u8 = if digit == '0' {
        82
    } else if digit == '1' {
        68
    } else if digit == '2' {
        76
    } else if digit == '3' {
        85
    } else {
        return None;
    };
    let inner = copy_range(code, 2, code.len() - 2);
    match parse_hex(&inner, i32::MAX as u64) {
        Some(amount) => Some((letter, amount as i32)),
        None => None,
    }
}

#[verifier::loop_isolation(false)]
fn read_moves(input: &str, coded: bool) -> (r: Option<Vec<Move>>)
    ensures
        match r {
            Some(moves) => map_all(
                lines_of(input@),
                if coded {
                    coded_reader()
                } else {
                    plain_reader()
                },
            ) == Some(moves_view(moves@)),
            None => map_all(
                lines_of(input@),
                if coded {
                    coded_reader()
                } else {
                    plain_reader()
                },
            ).is_none(),
        },
{
    let chars = chars_of(input);
    let ls = lines(&chars);
    let ghost rows = views(ls@);
    let ghost f = if coded {
        coded_reader()
    } else {
        plain_reader()
    };
    let mut moves: Vec<Move> = Vec::new();
    let mut i: usize = 0;
    assert(rows.take(0) =~= Seq::<Seq<char>>::empty());
    assert(moves_view(moves@) =~= Seq::<(int, int)>::empty());
    while i < ls.len()
        invariant
            i <= ls@.len(),
            map_all(rows.take(i as int), f) == Some(moves_view(moves@)),
        decreases ls@.len() - i,
    {
        proof {
            lemma_map_all_step(rows, f, i as int);
        }
        let ghost before = moves_view(moves@);
        let read = if coded {
            read_coded(&ls[i])
        } else {
            read_plain(&ls[i])
        };
        match read {
            Some(m) => {
                moves.push(m);
                assert(moves_view(moves@) =~= before.push((m.0 as int, m.1 as int)));
            },
            None => {
                proof {
                    lemma_map_all_none(rows, f, i + 1);
                }
                return None;
            },
        }
        i += 1;
    }
    assert(rows.take(i as int) =~= rows);
    Some(moves)
}

/// Reads the moves in plain writing, one from each line; `None` where a
/// line is not as `plain_move` describes.
pub fn parse_part1(input: &str) -> (r: Option<Vec<Move>>)
    ensures
        match r {
            Some(moves) => map_all(lines_of(input@), plain_reader()) == Some(moves_view(moves@)),
            None => map_all(lines_of(input@), plain_reader()).is_none(),
        },
{
    read_moves(input, false)
}

/// Reads the moves in code, one from each line; `None` where a line is not
/// as `coded_move` describes.
pub fn parse_part2(input: &str) -> (r: Option<Vec<Move>>)
    ensures
        match r {
            Some(moves) => map_all(lines_of(input@), coded_reader()) == Some(moves_view(moves@)),
            None => map_all(lines_of(input@), coded_reader()).is_none(),
        },
{
    read_moves(input, true)
}

} // verus!
