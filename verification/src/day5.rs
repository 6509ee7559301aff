//! The almanac: seeds carried through a chain of range maps.
use crate::text::{
    as_ints, chars_of, lemma_map_all_none, lemma_map_all_step, lines, lines_of,
    map_all, parse_all_unsigned, split_at_text, split_on_text, starts_with, strip_prefix,
    unsigned_reader, views, words, words_of,
};
use vstd::prelude::*;

verus! {

/// The seeds, and the sections of the almanac: each a list of mappings, each
/// of which gives the start of the destination range, the start of the
/// source range, and the length of both.
pub type SeedToLocations = (Vec<u64>, Vec<Vec<Vec<u64>>>);

/// What is left of an interval while a section is applied, and the pieces
/// given out so far: the interval's start and length, and the pieces as
/// starts and lengths.
pub struct Carving {
    pub low: int,
    pub len: int,
    pub out: Seq<(u64, u64)>,
}

/// The lesser of `a` and `b`.
pub open spec fn lesser(a: int, b: int) -> int {
    if a <= b {
        a
    } else {
        b
    }
}

/// The carving after the mapping `m` has been applied.
///
/// Where the source range starts within what is left, what lies before that
/// start is given out as it is, and then as much as the mapping covers is
/// given out moved to the destination. Where the source range starts before
/// what is left and reaches into it, as much as it covers is given out
/// moved. Otherwise nothing changes. `None` where the mapping has fewer
/// than three numbers or a sum on the way does not fit in 64 bits.
pub open spec fn carve(c: Carving, m: Seq<u64>) -> Option<Carving> {
    if m.len() < 3 {
        None
    } else {
        let destination = m[0] as int;
        let origin = m[1] as int;
        let length = m[2] as int;
        if origin >= c.low {
            if c.low + c.len > u64::MAX {
                None
            } else if origin < c.low + c.len {
                let out1 = if origin > c.low {
                    c.out.push((c.low as u64, (origin - c.low) as u64))
                } else {
                    c.out
                };
                let len1 = c.len - (origin - c.low);
                let l = lesser(length, len1);
                if origin + l > u64::MAX {
                    None
                } else {
                    Some(
                        Carving {
                            low: origin + l,
                            len: len1 - l,
                            out: out1.push((destination as u64, l as u64)),
                        },
                    )
                }
            } else {
                Some(c)
            }
        } else if origin + length > u64::MAX {
            None
        } else if origin + length > c.low {
            let l = lesser(origin + length - c.low, c.len);
            if c.low - origin + destination > u64::MAX || c.low + l > u64::MAX {
                None
            } else {
                Some(
                    Carving {
                        low: c.low + l,
                        len: c.len - l,
                        out: c.out.push(((c.low - origin + destination) as u64, l as u64)),
                    },
                )
            }
        } else {
            Some(c)
        }
    }
}

/// The carving after the mappings `section` have been applied in order.
pub open spec fn carved(c: Carving, section: Seq<Seq<u64>>) -> Option<Carving>
    decreases section.len(),
{
    if section.len() == 0 {
        Some(c)
    } else {
        match carved(c, section.drop_last()) {
            Some(mid) => carve(mid, section.last()),
            None => None,
        }
    }
}

/// The pieces that the interval starting at `low`, `len` long, becomes under
/// `section`: those carved out, and then what is left, if anything.
pub open spec fn pieces(low: u64, len: u64, section: Seq<Seq<u64>>) -> Option<Seq<(u64, u64)>> {
    match carved(Carving { low: low as int, len: len as int, out: Seq::empty() }, section) {
        Some(c) => if c.len > 0 {
            Some(c.out.push((c.low as u64, c.len as u64)))
        } else {
            Some(c.out)
        },
        None => None,
    }
}

/// The mappings of a section as sequences.
pub open spec fn section_view(section: Seq<Vec<u64>>) -> Seq<Seq<u64>> {
    Seq::new(section.len(), |i: int| section[i]@)
}

/// The sections as sequences.
pub open spec fn sections_view(sections: Seq<Vec<Vec<u64>>>) -> Seq<Seq<Seq<u64>>> {
    Seq::new(sections.len(), |i: int| section_view(sections[i]@))
}

proof fn lemma_carved_stays_none(c: Carving, section: Seq<Seq<u64>>, k: int)
    requires
        0 <= k <= section.len(),
        carved(c, section.take(k)).is_none(),
    ensures
        carved(c, section).is_none(),
    decreases section.len() - k,
{
    if k < section.len() {
        assert(section.take(k + 1).drop_last() =~= section.take(k));
        lemma_carved_stays_none(c, section, k + 1);
    } else {
        assert(section.take(k) =~= section);
    }
}

/// The pieces that an interval becomes under `section`.
#[verifier::loop_isolation(false)]
pub fn apply_section(interval: (u64, u64), section: &[Vec<u64>]) -> (r: Option<Vec<(u64, u64)>>)
    ensures
        match r {
            Some(seed) => pieces(interval.0, interval.1, section_view(section@)) == Some(seed@),
            None => pieces(interval.0, interval.1, section_view(section@)).is_none(),
        },
{
    let (mut low, mut ilen) = interval;
    let ghost all = section_view(section@);
    let ghost c0 = Carving { low: low as int, len: ilen as int, out: Seq::empty() };
    let mut seed: Vec<(u64, u64)> = Vec::new();
    let mut i: usize = 0;
    assert(all.take(0) =~= Seq::<Seq<u64>>::empty());
    while i < section.len()
        invariant
            i <= section@.len(),
            carved(c0, all.take(i as int)) == Some(
                Carving { low: low as int, len: ilen as int, out: seed@ },
            ),
        decreases section@.len() - i,
    {
        proof {
            assert(all.take(i + 1).drop_last() =~= all.take(i as int));
            assert(all.take(i + 1).last() == section@[i as int]@);
        }
        let mapping = &section[i];
        if mapping.len() < 3 {
            proof {
                lemma_carved_stays_none(c0, all, i + 1);
            }
            return None;
        }
        let (destination, origin, length) = (mapping[0], mapping[1], mapping[2]);
        if origin >= low {
            let end = match low.checked_add(ilen) {
                Some(e) => e,
                None => {
                    proof {
                        lemma_carved_stays_none(c0, all, i + 1);
                    }
                    return None;
                },
            };
            if origin < end {
                if origin > low {
                    seed.push((low, origin - low));
                    ilen -= origin - low;
                    low = origin;
                }
                let l = if length <= ilen {
                    length
                } else {
                    ilen
                };
                seed.push((destination, l));
                match low.checked_add(l) {
                    Some(next) => {
                        low = next;
                    },
                    None => {
                        proof {
                            lemma_carved_stays_none(c0, all, i + 1);
                        }
                        return None;
                    },
                }
                ilen -= l;
            }
        } else {
            let reach = match origin.checked_add(length) {
                Some(e) => e,
                None => {
                    proof {
                        lemma_carved_stays_none(c0, all, i + 1);
                    }
                    return None;
                },
            };
            if reach > low {
                let l = if reach - low <= ilen {
                    reach - low
                } else {
                    ilen
                };
                let moved = match (low - origin).checked_add(destination) {
                    Some(v) => v,
                    None => {
                        proof {
                            lemma_carved_stays_none(c0, all, i + 1);
                        }
                        return None;
                    },
                };
                seed.push((moved, l));
                match low.checked_add(l) {
                    Some(next) => {
                        low = next;
                    },
                    None => {
                        proof {
                            lemma_carved_stays_none(c0, all, i + 1);
                        }
                        return None;
                    },
                }
                ilen -= l;
            }
        }
        i += 1;
    }
    assert(all.take(i as int) =~= all);
    if ilen > 0 {
        seed.push((low, ilen));
    }
    Some(seed)
}

/// The pieces that each of `intervals` becomes under `section`, in order.
pub open spec fn pieces_of_all(intervals: Seq<(u64, u64)>, section: Seq<Seq<u64>>) -> Option<
    Seq<(u64, u64)>,
>
    decreases intervals.len(),
{
    if intervals.len() == 0 {
        Some(Seq::empty())
    } else {
        match (
            pieces_of_all(intervals.drop_last(), section),
            pieces(intervals.last().0, intervals.last().1, section),
        ) {
            (Some(head), Some(tail)) => Some(head + tail),
            _ => None,
        }
    }
}

/// The pieces that `intervals` become under all `sections`, one after the other.
pub open spec fn through(intervals: Seq<(u64, u64)>, sections: Seq<Seq<Seq<u64>>>) -> Option<
    Seq<(u64, u64)>,
>
    decreases sections.len(),
{
    if sections.len() == 0 {
        Some(intervals)
    } else {
        match pieces_of_all(intervals, sections.first()) {
            Some(next) => through(next, sections.drop_first()),
            None => None,
        }
    }
}

proof fn lemma_pieces_of_all_stays_none(intervals: Seq<(u64, u64)>, section: Seq<Seq<u64>>, k: int)
    requires
        0 <= k <= intervals.len(),
        pieces_of_all(intervals.take(k), section).is_none(),
    ensures
        pieces_of_all(intervals, section).is_none(),
    decreases intervals.len() - k,
{
    if k < intervals.len() {
        assert(intervals.take(k + 1).drop_last() =~= intervals.take(k));
        lemma_pieces_of_all_stays_none(intervals, section, k + 1);
    } else {
        assert(intervals.take(k) =~= intervals);
    }
}

/// The pieces that `intervals` become under `section`.
#[verifier::loop_isolation(false)]
fn apply_to_all(intervals: &Vec<(u64, u64)>, section: &Vec<Vec<u64>>) -> (r: Option<Vec<(u64, u64)>>)
    ensures
        match r {
            Some(out) => pieces_of_all(intervals@, section_view(section@)) == Some(out@),
            None => pieces_of_all(intervals@, section_view(section@)).is_none(),
        },
{
    let ghost sec = section_view(section@);
    let mut out: Vec<(u64, u64)> = Vec::new();
    let mut i: usize = 0;
    assert(intervals@.take(0) =~= Seq::<(u64, u64)>::empty());
    while i < intervals.len()
        invariant
            i <= intervals@.len(),
            pieces_of_all(intervals@.take(i as int), sec) == Some(out@),
        decreases intervals@.len() - i,
    {
        proof {
            assert(intervals@.take(i + 1).drop_last() =~= intervals@.take(i as int));
            assert(intervals@.take(i + 1).last() == intervals@[i as int]);
        }
        match apply_section(intervals[i], section.as_slice()) {
            Some(found) => {
                let ghost before = out@;
                let mut k: usize = 0;
                while k < found.len()
                    invariant
                        k <= found@.len(),
                        out@ == before + found@.take(k as int),
                    decreases found@.len() - k,
                {
                    out.push(found[k]);
                    k += 1;
                    assert(out@ =~= before + found@.take(k as int));
                }
                assert(found@.take(k as int) =~= found@);
            },
            None => {
                proof {
                    lemma_pieces_of_all_stays_none(intervals@, sec, i + 1);
                }
                return None;
            },
        }
        i += 1;
    }
    assert(intervals@.take(i as int) =~= intervals@);
    Some(out)
}

/// The pieces that an interval becomes under all `sections`, one after the other.
#[verifier::loop_isolation(false)]
pub fn apply_sections(interval: (u64, u64), sections: &[Vec<Vec<u64>>]) -> (r: Option<
    Vec<(u64, u64)>,
>)
    ensures
        match r {
            Some(out) => through(seq![interval], sections_view(sections@)) == Some(out@),
            None => through(seq![interval], sections_view(sections@)).is_none(),
        },
{
    let ghost all = sections_view(sections@);
    let mut current: Vec<(u64, u64)> = Vec::new();
    current.push(interval);
    assert(current@ =~= seq![interval]);
    let mut i: usize = 0;
    assert(all.skip(0) =~= all);
    while i < sections.len()
        invariant
            i <= sections@.len(),
            through(seq![interval], all) == through(current@, all.skip(i as int)),
        decreases sections@.len() - i,
    {
        proof {
            assert(all.skip(i as int).first() == section_view(sections@[i as int]@));
            assert(all.skip(i as int).drop_first() =~= all.skip(i + 1));
        }
        match apply_to_all(&current, &sections[i]) {
            Some(next) => {
                current = next;
            },
            None => {
                return None;
            },
        }
        i += 1;
    }
    Some(current)
}

/// Where `section` sends the number `s`: the first mapping whose source
/// range holds `s` moves it to the destination range; without such a
/// mapping it stays. `None` where a mapping looked at has fewer than three
/// numbers, or a sum on the way does not fit in 64 bits.
pub open spec fn sent(s: int, section: Seq<Seq<u64>>) -> Option<int>
    decreases section.len(),
{
    if section.len() == 0 {
        Some(s)
    } else {
        let m = section.first();
        if m.len() < 3 {
            None
        } else if s >= m[1] {
            if m[1] + m[2] > u64::MAX {
                None
            } else if s < m[1] + m[2] {
                if s - m[1] + m[0] > u64::MAX {
                    None
                } else {
                    Some(s - m[1] + m[0])
                }
            } else {
                sent(s, section.drop_first())
            }
        } else {
            sent(s, section.drop_first())
        }
    }
}

/// Where the sections, one after the other, send the number `s`.
pub open spec fn located(s: int, sections: Seq<Seq<Seq<u64>>>) -> Option<int>
    decreases sections.len(),
{
    if sections.len() == 0 {
        Some(s)
    } else {
        match sent(s, sections.first()) {
            Some(next) => located(next, sections.drop_first()),
            None => None,
        }
    }
}

/// Reads where the sections send a seed.
pub open spec fn locator(sections: Seq<Seq<Seq<u64>>>) -> spec_fn(u64) -> Option<int> {
    |seed: u64| located(seed as int, sections)
}

/// The least member of `s`; `None` where it has none.
pub open spec fn least(s: Seq<int>) -> Option<int>
    decreases s.len(),
{
    if s.len() == 0 {
        None
    } else {
        match least(s.drop_last()) {
            Some(m) => Some(lesser(m, s.last())),
            None => Some(s.last()),
        }
    }
}

/// The least of the places where the sections send the seeds. `None` where
/// there is no seed or a seed cannot be sent.
pub open spec fn nearest(seeds: Seq<u64>, sections: Seq<Seq<Seq<u64>>>) -> Option<int> {
    match map_all(seeds, locator(sections)) {
        Some(places) => least(places),
        None => None,
    }
}

#[verifier::loop_isolation(false)]
fn send(s: u64, section: &Vec<Vec<u64>>) -> (r: Option<u64>)
    ensures
        match r {
            Some(v) => sent(s as int, section_view(section@)) == Some(v as int),
            None => sent(s as int, section_view(section@)).is_none(),
        },
{
    let ghost all = section_view(section@);
    let mut i: usize = 0;
    assert(all.skip(0) =~= all);
    while i < section.len()
        invariant
            i <= section@.len(),
            sent(s as int, all) == sent(s as int, all.skip(i as int)),
        decreases section@.len() - i,
    {
        proof {
            assert(all.skip(i as int).first() == section@[i as int]@);
            assert(all.skip(i as int).drop_first() =~= all.skip(i + 1));
        }
        let m = &section[i];
        if m.len() < 3 {
            return None;
        }
        if s >= m[1] {
            match m[1].checked_add(m[2]) {
                Some(end) => {
                    if s < end {
                        return (s - m[1]).checked_add(m[0]);
                    }
                },
                None => {
                    return None;
                },
            }
        }
        i += 1;
    }
    Some(s)
}

#[verifier::loop_isolation(false)]
fn locate(seed: u64, maps: &Vec<Vec<Vec<u64>>>) -> (r: Option<u64>)
    ensures
        match r {
            Some(v) => located(seed as int, sections_view(maps@)) == Some(v as int),
            None => located(seed as int, sections_view(maps@)).is_none(),
        },
{
    let ghost all = sections_view(maps@);
    let mut s = seed;
    let mut i: usize = 0;
    assert(all.skip(0) =~= all);
    while i < maps.len()
        invariant
            i <= maps@.len(),
            located(seed as int, all) == located(s as int, all.skip(i as int)),
        decreases maps@.len() - i,
    {
        proof {
            assert(all.skip(i as int).first() == section_view(maps@[i as int]@));
            assert(all.skip(i as int).drop_first() =~= all.skip(i + 1));
        }
        match send(s, &maps[i]) {
            Some(next) => {
                s = next;
            },
            None => {
                return None;
            },
        }
        i += 1;
    }
    Some(s)
}

/// The least of the places where the sections send the seeds.
#[verifier::loop_isolation(false)]
pub fn solve_part1(input: &SeedToLocations) -> (r: Option<u64>)
    ensures
        match r {
            Some(v) => nearest(input.0@, sections_view(input.1@)) == Some(v as int),
            None => nearest(input.0@, sections_view(input.1@)).is_none(),
        },
{
    let seeds = &input.0;
    let maps = &input.1;
    let ghost f = locator(sections_view(maps@));
    let ghost mut places: Seq<int> = Seq::empty();
    let mut best: Option<u64> = None;
    let mut i: usize = 0;
    assert(seeds@.take(0) =~= Seq::<u64>::empty());
    while i < seeds.len()
        invariant
            i <= seeds@.len(),
            map_all(seeds@.take(i as int), f) == Some(places),
            match best {
                Some(b) => least(places) == Some(b as int),
                None => least(places).is_none(),
            },
        decreases seeds@.len() - i,
    {
        proof {
            lemma_map_all_step(seeds@, f, i as int);
        }
        match locate(seeds[i], maps) {
            Some(place) => {
                proof {
                    assert(places.push(place as int).drop_last() =~= places);
                    places = places.push(place as int);
                }
                best = match best {
                    Some(b) => Some(if b <= place {
                        b
                    } else {
                        place
                    }),
                    None => Some(place),
                };
            },
            None => {
                proof {
                    lemma_map_all_none(seeds@, f, i + 1);
                }
                return None;
            },
        }
        i += 1;
    }
    assert(seeds@.take(i as int) =~= seeds@);
    best
}

/// Reads a row of whole numbers of 64 bits, white space between them.
pub open spec fn row_reader() -> spec_fn(Seq<char>) -> Option<Seq<int>> {
    |line: Seq<char>| map_all(words_of(line), unsigned_reader(u64::MAX as int))
}

/// All but the first line of `block`.
pub open spec fn body_of(block: Seq<char>) -> Seq<Seq<char>> {
    if lines_of(block).len() == 0 {
        Seq::empty()
    } else {
        lines_of(block).drop_first()
    }
}

/// Reads a section: a heading line, and then one mapping on each line.
pub open spec fn section_reader() -> spec_fn(Seq<char>) -> Option<Seq<Seq<int>>> {
    |block: Seq<char>| map_all(body_of(block), row_reader())
}

/// The almanac that `text` writes: blocks parted by blank lines, the first
/// of which lists the seeds after `seeds: ` and each other of which is a
/// section.
pub open spec fn almanac_of(text: Seq<char>) -> Option<(Seq<int>, Seq<Seq<Seq<int>>>)> {
    let blocks = split_on_text(text, "\n\n"@);
    if !starts_with(blocks[0], "seeds: "@) {
        None
    } else {
        match (
            row_reader()(blocks[0].subrange("seeds: "@.len() as int, blocks[0].len() as int)),
            map_all(blocks.drop_first(), section_reader()),
        ) {
            (Some(seeds), Some(sections)) => Some((seeds, sections)),
            _ => None,
        }
    }
}

/// A section as sequences of mathematical integers.
pub open spec fn section_ints(section: Seq<Vec<u64>>) -> Seq<Seq<int>> {
    Seq::new(section.len(), |i: int| as_ints(section[i]@))
}

/// The sections as sequences of mathematical integers.
pub open spec fn sections_ints(sections: Seq<Vec<Vec<u64>>>) -> Seq<Seq<Seq<int>>> {
    Seq::new(sections.len(), |i: int| section_ints(sections[i]@))
}

#[verifier::loop_isolation(false)]
fn read_section(block: &Vec<char>) -> (r: Option<Vec<Vec<u64>>>)
    ensures
        match r {
            Some(section) => section_reader()(block@) == Some(section_ints(section@)),
            None => section_reader()(block@).is_none(),
        },
{
    let ls = lines(block);
    let ghost body = body_of(block@);
    let ghost f = row_reader();
    let mut out: Vec<Vec<u64>> = Vec::new();
    if ls.len() == 0 {
        assert(section_ints(out@) =~= Seq::<Seq<int>>::empty());
        return Some(out);
    }
    let mut i: usize = 1;
    assert(body.take(0) =~= Seq::<Seq<char>>::empty());
    assert(section_ints(out@) =~= Seq::<Seq<int>>::empty());
    while i < ls.len()
        invariant
            1 <= i <= ls@.len(),
            map_all(body.take(i - 1), f) == Some(section_ints(out@)),
        decreases ls@.len() - i,
    {
        proof {
            lemma_map_all_step(body, f, i - 1);
            assert(body[i - 1] == views(ls@)[i as int]);
            assert(views(ls@)[i as int] == ls@[i as int]@);
        }
        let ghost before = section_ints(out@);
        let found = words(&ls[i]);
        match parse_all_unsigned(&found, u64::MAX) {
            Some(row) => {
                let ghost entry = as_ints(row@);
                out.push(row);
                assert(section_ints(out@) =~= before.push(entry));
            },
            None => {
                proof {
                    lemma_map_all_none(body, f, i as int);
                }
                return None;
            },
        }
        i += 1;
    }
    assert(body.take(i - 1) =~= body);
    Some(out)
}

/// Reads the almanac; `None` where the text is not as `almanac_of` describes.
#[verifier::loop_isolation(false)]
pub fn read_input(input: &str) -> (r: Option<SeedToLocations>)
    ensures
        match r {
            Some(almanac) => almanac_of(input@) == Some(
                (as_ints(almanac.0@), sections_ints(almanac.1@)),
            ),
            None => almanac_of(input@).is_none(),
        },
{
    proof {
        reveal_strlit("\n\n");
    }
    let chars = chars_of(input);
    let blocks = split_at_text(&chars, "\n\n");
    let ghost texts = views(blocks@);
    assert(texts[0] == blocks@[0]@);
    let lead = chars_of("seeds: ");
    let seeds = match strip_prefix(&blocks[0], &lead) {
        Some(rest) => {
            let found = words(&rest);
            match parse_all_unsigned(&found, u64::MAX) {
                Some(v) => v,
                None => {
                    return None;
                },
            }
        },
        None => {
            return None;
        },
    };
    let ghost others = texts.drop_first();
    let ghost f = section_reader();
    let mut sections: Vec<Vec<Vec<u64>>> = Vec::new();
    let mut i: usize = 1;
    assert(others.take(0) =~= Seq::<Seq<char>>::empty());
    assert(sections_ints(sections@) =~= Seq::<Seq<Seq<int>>>::empty());
    while i < blocks.len()
        invariant
            1 <= i <= blocks@.len(),
            map_all(others.take(i - 1), f) == Some(sections_ints(sections@)),
        decreases blocks@.len() - i,
    {
        proof {
            lemma_map_all_step(others, f, i - 1);
            assert(others[i - 1] == blocks@[i as int]@);
        }
        let ghost before = sections_ints(sections@);
        match read_section(&blocks[i]) {
            Some(section) => {
                let ghost entry = section_ints(section@);
                sections.push(section);
                assert(sections_ints(sections@) =~= before.push(entry));
            },
            None => {
                proof {
                    lemma_map_all_none(others, f, i as int);
                }
                return None;
            },
        }
        i += 1;
    }
    assert(others.take(i - 1) =~= others);
    Some((seeds, sections))
}

/// `sorted` holds the mappings of `section`, each with at least two numbers,
/// in the order of their source ranges' starts.
pub open spec fn is_sorting(section: Seq<Seq<u64>>, sorted: Seq<Seq<u64>>) -> bool {
    &&& sorted.to_multiset() == section.to_multiset()
    &&& forall|i: int| 0 <= i < sorted.len() ==> (#[trigger] sorted[i]).len() >= 2
    &&& forall|i: int, j: int| 0 <= i <= j < sorted.len() ==> sorted[i][1] <= sorted[j][1]
}

/// Each of `sorted` is a sorting of the section of `sections` in its place.
pub open spec fn are_sortings(sections: Seq<Seq<Seq<u64>>>, sorted: Seq<Seq<Seq<u64>>>) -> bool {
    &&& sorted.len() == sections.len()
    &&& forall|i: int| 0 <= i < sections.len() ==> is_sorting(sections[i], #[trigger] sorted[i])
}

/// The intervals that `seeds` list: each two numbers a start and a length;
/// a number left over at the end counts for nothing.
pub open spec fn seed_ranges(seeds: Seq<u64>) -> Seq<(u64, u64)> {
    Seq::new(seeds.len() / 2, |k: int| (seeds[2 * k], seeds[2 * k + 1]))
}

/// The starts of `intervals`.
pub open spec fn lows(intervals: Seq<(u64, u64)>) -> Seq<int> {
    Seq::new(intervals.len(), |i: int| intervals[i].0 as int)
}

/// Reads the least start among the pieces that the sections make of an
/// interval.
pub open spec fn range_locator(sections: Seq<Seq<Seq<u64>>>) -> spec_fn((u64, u64)) -> Option<int> {
    |interval: (u64, u64)|
        match through(seq![interval], sections) {
            Some(found) => least(lows(found)),
            None => None,
        }
}

/// The least start of a piece that `sections` make of the seed ranges. `None`
/// where there is no range, a range leaves no piece, or a range cannot be
/// carried through.
pub open spec fn nearest_of_ranges(seeds: Seq<u64>, sections: Seq<Seq<Seq<u64>>>) -> Option<int> {
    match map_all(seed_ranges(seeds), range_locator(sections)) {
        Some(places) => least(places),
        None => None,
    }
}

broadcast use vstd::seq_lib::group_to_multiset_ensures;

/// The mappings of `section` in the order of their source ranges' starts;
/// `None` where a mapping has fewer than two numbers.
#[verifier::loop_isolation(false)]
fn sort_section(section: &Vec<Vec<u64>>) -> (r: Option<Vec<Vec<u64>>>)
    ensures
        match r {
            Some(sorted) => is_sorting(section_view(section@), section_view(sorted@)),
            None => exists|i: int| 0 <= i < section@.len() && (#[trigger] section@[i])@.len() < 2,
        },
{
    let ghost all = section_view(section@);
    let mut sorted: Vec<Vec<u64>> = Vec::new();
    let mut i: usize = 0;
    assert(all.take(0) =~= Seq::<Seq<u64>>::empty());
    assert(section_view(sorted@) =~= Seq::<Seq<u64>>::empty());
    while i < section.len()
        invariant
            i <= section@.len(),
            section_view(sorted@).to_multiset() == all.take(i as int).to_multiset(),
            forall|k: int| 0 <= k < sorted@.len() ==> (#[trigger] sorted@[k])@.len() >= 2,
            forall|a: int, b: int|
                0 <= a <= b < sorted@.len() ==> sorted@[a]@[1] <= sorted@[b]@[1],
        decreases section@.len() - i,
    {
        let row = &section[i];
        if row.len() < 2 {
            return None;
        }
        let key = row[1];
        let mut at: usize = 0;
        while at < sorted.len() && sorted[at][1] <= key
            invariant
                at <= sorted@.len(),
                forall|k: int| 0 <= k < at ==> (#[trigger] sorted@[k])@[1] <= key,
            decreases sorted@.len() - at,
        {
            at += 1;
        }
        let mut copy: Vec<u64> = Vec::new();
        let mut k: usize = 0;
        while k < row.len()
            invariant
                k <= row@.len(),
                copy@ == row@.take(k as int),
            decreases row@.len() - k,
        {
            copy.push(row[k]);
            k += 1;
            assert(copy@ =~= row@.take(k as int));
        }
        assert(row@.take(k as int) =~= row@);
        let ghost before = section_view(sorted@);
        let ghost old_sorted = sorted@;
        sorted.insert(at, copy);
        proof {
            assert(section_view(sorted@) =~= before.insert(at as int, row@));
            assert(all.take(i + 1) =~= all.take(i as int).push(row@));
            assert forall|a: int, b: int| 0 <= a <= b < sorted@.len() implies sorted@[a]@[1]
                <= sorted@[b]@[1] by {
                let oa = if a < at {
                    a
                } else {
                    a - 1
                };
                let ob = if b < at {
                    b
                } else {
                    b - 1
                };
                if a != at && b != at {
                    assert(old_sorted[oa]@[1] <= old_sorted[ob]@[1]);
                } else if a == at && b != at {
                    assert(old_sorted[at as int]@[1] <= old_sorted[ob]@[1]);
                }
            }
        }
        i += 1;
    }
    assert(all.take(i as int) =~= all);
    Some(sorted)
}

/// The least start of a piece that the sections, each with its mappings in
/// the order of their source ranges' starts, make of the seed ranges.
/// Mappings with equal starts may stand either way round.
#[verifier::loop_isolation(false)]
pub fn solve_part2(input: &SeedToLocations) -> (r: Option<u64>)
    ensures
        match r {
            Some(v) => exists|sorted: Seq<Seq<Seq<u64>>>| #[trigger]
                are_sortings(sections_view(input.1@), sorted) && nearest_of_ranges(
                    input.0@,
                    sorted,
                ) == Some(v as int),
            None => (exists|sorted: Seq<Seq<Seq<u64>>>| #[trigger]
                are_sortings(sections_view(input.1@), sorted) && nearest_of_ranges(
                    input.0@,
                    sorted,
                ).is_none()) || exists|i: int, j: int|
                0 <= i < input.1@.len() && 0 <= j < input.1@[i]@.len() && (
                #[trigger] input.1@[i]@[j])@.len() < 2,
        },
{
    let seeds = &input.0;
    let mut maps: Vec<Vec<Vec<u64>>> = Vec::new();
    let mut s: usize = 0;
    while s < input.1.len()
        invariant
            s <= input.1@.len(),
            maps@.len() == s,
            forall|k: int|
                0 <= k < s ==> is_sorting(
                    section_view(input.1@[k]@),
                    section_view(#[trigger] maps@[k]@),
                ),
        decreases input.1@.len() - s,
    {
        match sort_section(&input.1[s]) {
            Some(sorted) => {
                maps.push(sorted);
            },
            None => {
                return None;
            },
        }
        s += 1;
    }
    let ghost sorted = sections_view(maps@);
    assert(are_sortings(sections_view(input.1@), sorted));
    let ghost f = range_locator(sorted);
    let ghost ranges = seed_ranges(seeds@);
    let ghost mut places: Seq<int> = Seq::empty();
    let mut best: Option<u64> = None;
    let count = seeds.len() / 2;
    let mut i: usize = 0;
    assert(ranges.take(0) =~= Seq::<(u64, u64)>::empty());
    while i < count
        invariant
            i <= count,
            map_all(ranges.take(i as int), f) == Some(places),
            match best {
                Some(b) => least(places) == Some(b as int),
                None => least(places).is_none(),
            },
        decreases count - i,
    {
        proof {
            lemma_map_all_step(ranges, f, i as int);
        }
        let interval = (seeds[2 * i], seeds[2 * i + 1]);
        let found = match apply_sections(interval, maps.as_slice()) {
            Some(v) => v,
            None => {
                proof {
                    lemma_map_all_none(ranges, f, i + 1);
                }
                return None;
            },
        };
        let ghost starts = lows(found@);
        let mut low: Option<u64> = None;
        let mut k: usize = 0;
        assert(starts.take(0) =~= Seq::<int>::empty());
        while k < found.len()
            invariant
                k <= found@.len(),
                match low {
                    Some(b) => least(starts.take(k as int)) == Some(b as int),
                    None => least(starts.take(k as int)).is_none(),
                },
            decreases found@.len() - k,
        {
            proof {
                assert(starts.take(k + 1).drop_last() =~= starts.take(k as int));
                assert(starts.take(k + 1).last() == found@[k as int].0);
            }
            let here = found[k].0;
            low = match low {
                Some(b) => Some(if b <= here {
                    b
                } else {
                    here
                }),
                None => Some(here),
            };
            k += 1;
        }
        assert(starts.take(k as int) =~= starts);
        match low {
            Some(place) => {
                proof {
                    assert(places.push(place as int).drop_last() =~= places);
                    places = places.push(place as int);
                }
                best = match best {
                    Some(b) => Some(if b <= place {
                        b
                    } else {
                        place
                    }),
                    None => Some(place),
                };
            },
            None => {
                proof {
                    lemma_map_all_none(ranges, f, i + 1);
                }
                return None;
            },
        }
        i += 1;
    }
    assert(ranges.take(i as int) =~= ranges);
    best
}

} // verus!
