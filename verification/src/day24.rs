//! Hailstones: where each is, and how fast it flies.
use crate::text::{
    chars_of, lemma_map_all_none, lemma_map_all_step, lines, lines_of, map_all, parse_signed,
    signed_of, split, split_on, trim, trimmed, views,
};
use vstd::prelude::*;

verus! {

/// A hailstone: its place `x`, `y`, `z`, and what each changes by in one
/// unit of time.
pub type Stone = (i64, i64, i64, i64, i64, i64);

/// Reads a number between white space.
pub open spec fn number_reader() -> spec_fn(Seq<char>) -> Option<int> {
    |s: Seq<char>| signed_of(trimmed(s), i64::MIN as int, i64::MAX as int)
}

/// The numbers that `side` lists, with commas between them.
pub open spec fn listed(side: Seq<char>) -> Option<Seq<int>> {
    map_all(split_on(trimmed(side), ','), number_reader())
}

/// The hailstone that `line` describes: three numbers for its place, an
/// `@`, and three numbers for its speed. Numbers after the third of a side
/// and what follows a second `@` are not read.
pub open spec fn stone_of(line: Seq<char>) -> Option<Stone> {
    let parts = split_on(line, '@');
    if parts.len() < 2 {
        None
    } else {
        match (listed(parts[0]), listed(parts[1])) {
            (Some(p), Some(v)) => if p.len() >= 3 && v.len() >= 3 {
                Some(
                    (p[0] as i64, p[1] as i64, p[2] as i64, v[0] as i64, v[1] as i64, v[2] as i64),
                )
            } else {
                None
            },
            _ => None,
        }
    }
}

/// Reads a hailstone.
pub open spec fn stone_reader() -> spec_fn(Seq<char>) -> Option<Stone> {
    |line: Seq<char>| stone_of(line)
}

/// The numbers as whole numbers.
pub open spec fn as_ints(v: Seq<i64>) -> Seq<int> {
    Seq::new(v.len(), |i: int| v[i] as int)
}

fn read_list(side: &Vec<char>) -> (r: Option<Vec<i64>>)
    ensures
        match r {
            Some(v) => listed(side@) == Some(as_ints(v@)),
            None => listed(side@).is_none(),
        },
{
    let inner = trim(side);
    let words = split(&inner, ',');
    let ghost all = views(words@);
    let ghost f = number_reader();
    let mut r: Vec<i64> = Vec::new();
    let mut i: usize = 0;
    assert(all.take(0) =~= Seq::<Seq<char>>::empty());
    assert(as_ints(r@) =~= Seq::<int>::empty());
    while i < words.len()
        invariant
            i <= words@.len(),
            all == views(words@),
            all == split_on(trimmed(side@), ','),
            f == number_reader(),
            map_all(all.take(i as int), f) == Some(as_ints(r@)),
        decreases words@.len() - i,
    {
        proof {
            lemma_map_all_step(all, f, i as int);
        }
        assert(all[i as int] == words@[i as int]@);
        let word = trim(&words[i]);
        let ghost before = as_ints(r@);
        match parse_signed(&word, 0x7fff_ffff_ffff_ffff) {
            Some(v) => {
                r.push(v);
                assert(as_ints(r@) =~= before.push(v as int));
            },
            None => {
                proof {
                    lemma_map_all_none(all, f, i + 1);
                }
                return None;
            },
        }
        i += 1;
    }
    assert(all.take(i as int) =~= all);
    Some(r)
}

fn read_stone(line: &Vec<char>) -> (r: Option<Stone>)
    ensures
        r == stone_of(line@),
{
    let parts = split(line, '@');
    if parts.len() < 2 {
        return None;
    }
    assert(views(parts@)[0] == parts@[0]@);
    assert(views(parts@)[1] == parts@[1]@);
    let p = read_list(&parts[0]);
    let v = read_list(&parts[1]);
    match (p, v) {
        (Some(p), Some(v)) => {
            if p.len() >= 3 && v.len() >= 3 {
                assert(as_ints(p@)[0] == p@[0] && as_ints(p@)[1] == p@[1] && as_ints(p@)[2] == p@[2]);
                assert(as_ints(v@)[0] == v@[0] && as_ints(v@)[1] == v@[1] && as_ints(v@)[2] == v@[2]);
                Some((p[0], p[1], p[2], v[0], v[1], v[2]))
            } else {
                None
            }
        },
        _ => None,
    }
}

/// Reads the hailstones, one from each line; `None` where a line
/// describes none.
pub fn parse(input: &str) -> (r: Option<Vec<Stone>>)
    ensures
        match r {
            Some(stones) => map_all(lines_of(input@), stone_reader()) == Some(stones@),
            None => map_all(lines_of(input@), stone_reader()).is_none(),
        },
{
    let chars = chars_of(input);
    let rows = lines(&chars);
    let ghost ls = views(rows@);
    let ghost f = stone_reader();
    let mut stones: Vec<Stone> = Vec::new();
    let mut i: usize = 0;
    assert(ls.take(0) =~= Seq::<Seq<char>>::empty());
    while i < rows.len()
        invariant
            i <= rows@.len(),
            ls == views(rows@),
            ls == lines_of(input@),
            f == stone_reader(),
            map_all(ls.take(i as int), f) == Some(stones@),
        decreases rows@.len() - i,
    {
        proof {
            lemma_map_all_step(ls, f, i as int);
        }
        assert(ls[i as int] == rows@[i as int]@);
        match read_stone(&rows[i]) {
            Some(stone) => {
                stones.push(stone);
            },
            None => {
                proof {
                    lemma_map_all_none(ls, f, i + 1);
                }
                return None;
            },
        }
        i += 1;
    }
    assert(ls.take(i as int) =~= ls);
    Some(stones)
}

} // verus!
