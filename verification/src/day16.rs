//! Beams of light in a field of mirrors and splitters: which tiles they light.
use crate::sets::lemma_bounded_len;
use crate::text::{byte_len, byte_length, chars_of, lines, lines_of, trim, trimmed, views};
use std::collections::HashSet;
use vstd::prelude::*;

verus! {

broadcast use vstd::std_specs::hash::group_hash_axioms;

/// The largest number of rows, and of tiles in a row, that a field may have.
pub const MAX_SIDE: usize = 65_535;

/// The heading of a beam.
#[derive(Clone, Copy, Debug, PartialEq, Eq, Structural, Hash)]
pub enum Heading {
    North,
    South,
    East,
    West,
}

/// A beam: the tile it is on, column `x` and row `y`, and its heading.
#[derive(Clone, Copy, Debug, PartialEq, Eq, Structural, Hash)]
pub struct Beam {
    pub x: i64,
    pub y: i64,
    pub heading: Heading,
}

/// A field of tiles. Rows may differ in length.
pub struct Grid {
    field: Vec<Vec<char>>,
    width: usize,
    height: usize,
}

impl Grid {
    #[verifier::type_invariant]
    spec fn inv(self) -> bool {
        &&& self.field@.len() <= MAX_SIDE
        &&& forall|i: int| 0 <= i < self.field@.len() ==> (#[trigger] self.field@[i])@.len() <= MAX_SIDE
        &&& self.width <= MAX_SIDE
        &&& self.height <= MAX_SIDE
    }

    /// The rows of tiles.
    pub closed spec fn rows(&self) -> Seq<Seq<char>> {
        views(self.field@)
    }

    /// The width that the field was declared with.
    pub closed spec fn spec_width(&self) -> nat {
        self.width as nat
    }

    /// The height that the field was declared with.
    pub closed spec fn spec_height(&self) -> nat {
        self.height as nat
    }

    /// A field of the rows `field`, declared `width` wide and `height` high;
    /// `None` where there are more than `MAX_SIDE` rows, a row has more than
    /// `MAX_SIDE` tiles, or the width or height declared is above `MAX_SIDE`.
    pub fn new(field: Vec<Vec<char>>, width: usize, height: usize) -> (r: Option<Grid>)
        ensures
            match r {
                Some(g) => {
                    &&& g.rows() == views(field@)
                    &&& g.spec_width() == width
                    &&& g.spec_height() == height
                    &&& fits(g.rows())
                    &&& width <= MAX_SIDE
                    &&& height <= MAX_SIDE
                },
                None => !fits(views(field@)) || width > MAX_SIDE || height > MAX_SIDE,
            },
    {
        if field.len() > MAX_SIDE || width > MAX_SIDE || height > MAX_SIDE {
            return None;
        }
        let mut i: usize = 0;
        while i < field.len()
            invariant
                i <= field@.len(),
                forall|k: int| 0 <= k < i ==> (#[trigger] field@[k])@.len() <= MAX_SIDE,
            decreases field@.len() - i,
        {
            if field[i].len() > MAX_SIDE {
                assert(views(field@)[i as int].len() > MAX_SIDE);
                return None;
            }
            i += 1;
        }
        Some(Grid { field, width, height })
    }

    /// The width that the field was declared with.
    pub fn width(&self) -> (w: usize)
        ensures
            w == self.spec_width(),
            w <= MAX_SIDE,
    {
        proof {
            use_type_invariant(self);
        }
        self.width
    }

    /// The height that the field was declared with.
    pub fn height(&self) -> (h: usize)
        ensures
            h == self.spec_height(),
            h <= MAX_SIDE,
    {
        proof {
            use_type_invariant(self);
        }
        self.height
    }

    /// The number of rows of tiles.
    pub fn row_count(&self) -> (n: usize)
        ensures
            n == self.rows().len(),
            fits(self.rows()),
    {
        proof {
            use_type_invariant(self);
        }
        self.field.len()
    }

    /// The number of tiles in row `y`.
    pub fn row_len(&self, y: usize) -> (n: usize)
        requires
            y < self.rows().len(),
        ensures
            n == self.rows()[y as int].len(),
            fits(self.rows()),
    {
        proof {
            use_type_invariant(self);
        }
        self.field[y].len()
    }

    /// The tile at column `x` of row `y`, if there is one.
    pub fn tile(&self, x: i64, y: i64) -> (t: Option<char>)
        ensures
            t == tile_at(self.rows(), x as int, y as int),
            fits(self.rows()),
    {
        proof {
            use_type_invariant(self);
        }
        if y < 0 || x < 0 || y as u64 >= self.field.len() as u64 {
            return None;
        }
        let row = &self.field[y as usize];
        if x as u64 >= row.len() as u64 {
            return None;
        }
        Some(row[x as usize])
    }
}

/// No more than `MAX_SIDE` rows, and no more than `MAX_SIDE` tiles in a row.
pub open spec fn fits(rows: Seq<Seq<char>>) -> bool {
    &&& rows.len() <= MAX_SIDE
    &&& forall|i: int| 0 <= i < rows.len() ==> (#[trigger] rows[i]).len() <= MAX_SIDE
}

/// The tile at column `x` of row `y`, if there is one.
pub open spec fn tile_at(rows: Seq<Seq<char>>, x: int, y: int) -> Option<char> {
    if 0 <= y < rows.len() && 0 <= x < rows[y].len() {
        Some(rows[y][x])
    } else {
        None
    }
}

/// The beam one tile further on heading `heading` from the tile of `beam`.
pub open spec fn moved(beam: Beam, heading: Heading) -> Beam {
    match heading {
        Heading::North => Beam { x: beam.x, y: (beam.y - 1) as i64, heading },
        Heading::South => Beam { x: beam.x, y: (beam.y + 1) as i64, heading },
        Heading::East => Beam { x: (beam.x + 1) as i64, y: beam.y, heading },
        Heading::West => Beam { x: (beam.x - 1) as i64, y: beam.y, heading },
    }
}

/// The beams that leave a tile on which `beam` falls: a mirror turns the
/// beam, a splitter met side-on splits it in two, and empty space or a
/// splitter met end-on lets it pass. No beam leaves a place without a tile,
/// nor a tile of any other kind.
pub open spec fn leaving(tile: Option<char>, beam: Beam) -> Seq<Beam> {
    match tile {
        Some(c) => if c == '/' {
            seq![
                moved(
                    beam,
                    match beam.heading {
                        Heading::North => Heading::East,
                        Heading::East => Heading::North,
                        Heading::South => Heading::West,
                        Heading::West => Heading::South,
                    },
                ),
            ]
        } else if c == '\\' {
            seq![
                moved(
                    beam,
                    match beam.heading {
                        Heading::North => Heading::West,
                        Heading::East => Heading::South,
                        Heading::South => Heading::East,
                        Heading::West => Heading::North,
                    },
                ),
            ]
        } else if c == '|' {
            if beam.heading is East || beam.heading is West {
                seq![moved(beam, Heading::North), moved(beam, Heading::South)]
            } else {
                seq![moved(beam, beam.heading)]
            }
        } else if c == '-' {
            if beam.heading is North || beam.heading is South {
                seq![moved(beam, Heading::East), moved(beam, Heading::West)]
            } else {
                seq![moved(beam, beam.heading)]
            }
        } else if c == '.' {
            seq![moved(beam, beam.heading)]
        } else {
            Seq::empty()
        },
        None => Seq::empty(),
    }
}

/// The beam falls on a tile of the field.
pub open spec fn on_field(rows: Seq<Seq<char>>, beam: Beam) -> bool {
    tile_at(rows, beam.x as int, beam.y as int) is Some
}

/// `path` follows a beam from `start` tile by tile: each beam of it falls on
/// a tile and is among those that leave the tile before.
pub open spec fn beam_path(rows: Seq<Seq<char>>, start: Beam, path: Seq<Beam>) -> bool {
    &&& path.len() > 0
    &&& path[0] == start
    &&& forall|i: int| 0 <= i < path.len() ==> on_field(rows, #[trigger] path[i])
    &&& forall|i: int|
        0 <= i < path.len() - 1 ==> leaving(
            tile_at(rows, path[i].x as int, path[i].y as int),
            path[i],
        ).contains(#[trigger] path[i + 1])
}

/// The light that enters as `start` reaches the tile of `beam` on its heading.
pub open spec fn lit(rows: Seq<Seq<char>>, start: Beam, beam: Beam) -> bool {
    exists|path: Seq<Beam>| #[trigger] beam_path(rows, start, path) && path.last() == beam
}

/// The light that enters as `start` reaches the tile `p`, column and row, on
/// heading `heading`.
pub open spec fn lit_on(rows: Seq<Seq<char>>, start: Beam, p: (int, int), heading: Heading) -> bool {
    lit(rows, start, Beam { x: p.0 as i64, y: p.1 as i64, heading })
}

/// The tiles of the field that the light entering as `start` reaches.
pub open spec fn energized(rows: Seq<Seq<char>>, start: Beam) -> Set<(int, int)> {
    Set::new(
        |p: (int, int)|
            tile_at(rows, p.0, p.1) is Some && exists|heading: Heading| #[trigger]
                lit_on(rows, start, p, heading),
    )
}

/// The beam one tile further on heading `heading`.
pub fn dt(beam: Beam, heading: Heading) -> (next: Beam)
    requires
        -1 <= beam.x <= MAX_SIDE,
        -1 <= beam.y <= MAX_SIDE,
    ensures
        next == moved(beam, heading),
{
    match heading {
        Heading::North => Beam { x: beam.x, y: beam.y - 1, heading },
        Heading::South => Beam { x: beam.x, y: beam.y + 1, heading },
        Heading::East => Beam { x: beam.x + 1, y: beam.y, heading },
        Heading::West => Beam { x: beam.x - 1, y: beam.y, heading },
    }
}

/// Adds to `explore` the beams that leave the tile on which `beam` falls.
pub fn propagate(beam: &Beam, grid: &Grid, explore: &mut Vec<Beam>)
    ensures
        final(explore)@ == old(explore)@ + leaving(
            tile_at(grid.rows(), beam.x as int, beam.y as int),
            *beam,
        ),
{
    let tile = grid.tile(beam.x, beam.y);
    let ghost before = explore@;
    match tile {
        None => {
            assert(before + Seq::<Beam>::empty() =~= before);
        },
        Some(c) => {
            let b = *beam;
            if c == '/' {
                let turned = match b.heading {
                    Heading::North => Heading::East,
                    Heading::East => Heading::North,
                    Heading::South => Heading::West,
                    Heading::West => Heading::South,
                };
                explore.push(dt(b, turned));
                assert(explore@ =~= before + leaving(tile, b));
            } else if c == '\\' {
                let turned = match b.heading {
                    Heading::North => Heading::West,
                    Heading::East => Heading::South,
                    Heading::South => Heading::East,
                    Heading::West => Heading::North,
                };
                explore.push(dt(b, turned));
                assert(explore@ =~= before + leaving(tile, b));
            } else if c == '|' {
                match b.heading {
                    Heading::East | Heading::West => {
                        explore.push(dt(b, Heading::North));
                        explore.push(dt(b, Heading::South));
                    },
                    _ => {
                        explore.push(dt(b, b.heading));
                    },
                }
                assert(explore@ =~= before + leaving(tile, b));
            } else if c == '-' {
                match b.heading {
                    Heading::North | Heading::South => {
                        explore.push(dt(b, Heading::East));
                        explore.push(dt(b, Heading::West));
                    },
                    _ => {
                        explore.push(dt(b, b.heading));
                    },
                }
                assert(explore@ =~= before + leaving(tile, b));
            } else if c == '.' {
                explore.push(dt(b, b.heading));
                assert(explore@ =~= before + leaving(tile, b));
            } else {
                assert(before + Seq::<Beam>::empty() =~= before);
            }
        },
    }
}

/// The number under which a beam on the field is remembered.
pub open spec fn beam_code(beam: Beam) -> int {
    (beam.y * 65536 + beam.x) * 4 + match beam.heading {
        Heading::North => 0int,
        Heading::South => 1int,
        Heading::East => 2int,
        Heading::West => 3int,
    }
}

fn code_of_beam(beam: Beam) -> (k: u64)
    requires
        0 <= beam.x <= MAX_SIDE,
        0 <= beam.y <= MAX_SIDE,
    ensures
        k == beam_code(beam),
        k < 0x4_0000_0000,
{
    let index: u64 = match beam.heading {
        Heading::North => 0,
        Heading::South => 1,
        Heading::East => 2,
        Heading::West => 3,
    };
    (beam.y as u64 * 65536 + beam.x as u64) * 4 + index
}

/// What holds while the light is followed: each beam found is lit, each beam
/// waiting that falls on a tile is lit, the entering beam is found or waits
/// if it falls on a tile, and so does every beam on the field that leaves the
/// tile of a beam found.
spec fn follow_inv(rows: Seq<Seq<char>>, start: Beam, found: Set<Beam>, waiting: Seq<Beam>) -> bool {
    &&& forall|b: Beam| #[trigger] found.contains(b) ==> lit(rows, start, b)
    &&& forall|i: int|
        0 <= i < waiting.len() && on_field(rows, #[trigger] waiting[i]) ==> lit(
            rows,
            start,
            waiting[i],
        )
    &&& on_field(rows, start) ==> found.contains(start) || waiting.contains(start)
    &&& forall|b: Beam, k: int|
        found.contains(b) && 0 <= k < leaving(tile_at(rows, b.x as int, b.y as int), b).len()
            && on_field(rows, #[trigger] leaving(tile_at(rows, b.x as int, b.y as int), b)[k])
            ==> found.contains(leaving(tile_at(rows, b.x as int, b.y as int), b)[k])
            || waiting.contains(leaving(tile_at(rows, b.x as int, b.y as int), b)[k])
}

/// Once no beam waits, every lit beam has been found.
proof fn lemma_all_found(rows: Seq<Seq<char>>, start: Beam, found: Set<Beam>, path: Seq<Beam>)
    requires
        follow_inv(rows, start, found, Seq::empty()),
        beam_path(rows, start, path),
    ensures
        found.contains(path.last()),
    decreases path.len(),
{
    if path.len() == 1 {
        assert(on_field(rows, path[0]));
    } else {
        let head = path.drop_last();
        assert(beam_path(rows, start, head)) by {
            assert forall|i: int| 0 <= i < head.len() implies on_field(rows, #[trigger] head[i]) by {
                assert(head[i] == path[i]);
            }
            assert forall|i: int| 0 <= i < head.len() - 1 implies leaving(
                tile_at(rows, head[i].x as int, head[i].y as int),
                head[i],
            ).contains(#[trigger] head[i + 1]) by {
                assert(head[i] == path[i]);
                assert(head[i + 1] == path[i + 1]);
            }
        }
        lemma_all_found(rows, start, found, head);
        let b = head.last();
        let n = path.len() - 2;
        assert(b == path[n]);
        let out = leaving(tile_at(rows, b.x as int, b.y as int), b);
        assert(out.contains(path[n + 1]));
        let k = choose|k: int| 0 <= k < out.len() && out[k] == path[n + 1];
        assert(on_field(rows, path[n + 1]));
        assert(on_field(rows, out[k]));
    }
}

/// A lit beam followed to a beam that leaves its tile and falls on the field
/// is a lit beam.
proof fn lemma_lit_next(rows: Seq<Seq<char>>, start: Beam, b: Beam, k: int)
    requires
        lit(rows, start, b),
        0 <= k < leaving(tile_at(rows, b.x as int, b.y as int), b).len(),
        on_field(rows, leaving(tile_at(rows, b.x as int, b.y as int), b)[k]),
    ensures
        lit(rows, start, leaving(tile_at(rows, b.x as int, b.y as int), b)[k]),
{
    let next = leaving(tile_at(rows, b.x as int, b.y as int), b)[k];
    let path = choose|path: Seq<Beam>| #[trigger] beam_path(rows, start, path) && path.last() == b;
    let longer = path.push(next);
    assert forall|i: int| 0 <= i < longer.len() implies on_field(rows, #[trigger] longer[i]) by {
        if i < path.len() {
            assert(longer[i] == path[i]);
        }
    }
    assert forall|i: int| 0 <= i < longer.len() - 1 implies leaving(
        tile_at(rows, longer[i].x as int, longer[i].y as int),
        longer[i],
    ).contains(#[trigger] longer[i + 1]) by {
        assert(longer[i] == path[i]);
        if i < path.len() - 1 {
            assert(longer[i + 1] == path[i + 1]);
        }
    }
    assert(beam_path(rows, start, longer) && longer.last() == next);
}

/// The set of the beams on the field whose codes are in `seen`.
spec fn beams_of(rows: Seq<Seq<char>>, seen: Set<u64>) -> Set<Beam> {
    Set::new(|b: Beam| on_field(rows, b) && seen.contains(beam_code(b) as u64))
}

/// Follows the light that enters as `start` and returns the codes of the
/// beams it becomes.
fn follow(grid: &Grid, start: Beam) -> (seen: HashSet<u64>)
    ensures
        fits(grid.rows()),
        forall|b: Beam|
            on_field(grid.rows(), b) ==> (seen@.contains(#[trigger] beam_code(b) as u64) <==> lit(
                grid.rows(),
                start,
                b,
            )),
{
    let ghost rows = grid.rows();
    let probe = grid.tile(0, 0);
    let mut seen: HashSet<u64> = HashSet::new();
    let mut explore: Vec<Beam> = Vec::new();
    explore.push(start);
    proof {
        assert(explore@.contains(start)) by {
            assert(explore@[0] == start);
        }
        assert forall|i: int|
            0 <= i < explore@.len() && on_field(rows, #[trigger] explore@[i]) implies lit(
            rows,
            start,
            explore@[i],
        ) by {
            let path = seq![start];
            assert(beam_path(rows, start, path) && path.last() == start);
        }
        assert(beams_of(rows, seen@) =~= Set::<Beam>::empty());
    }
    loop
        invariant
            rows == grid.rows(),
            fits(rows),
            seen@.finite(),
            forall|k: u64| #[trigger] seen@.contains(k) ==> k < 0x4_0000_0000,
            follow_inv(rows, start, beams_of(rows, seen@), explore@),
        decreases 0x4_0000_0000 - seen@.len(), explore@.len(),
    {
        proof {
            lemma_bounded_len(seen@, 0x4_0000_0000);
        }
        let ghost waiting = explore@;
        let ghost found = beams_of(rows, seen@);
        let next = explore.pop();
        match next {
            None => {
                proof {
                    assert(explore@ =~= Seq::<Beam>::empty());
                    assert forall|b: Beam| on_field(rows, b) implies (seen@.contains(
                        #[trigger] beam_code(b) as u64,
                    ) <==> lit(rows, start, b)) by {
                        if lit(rows, start, b) {
                            let path = choose|path: Seq<Beam>| #[trigger]
                                beam_path(rows, start, path) && path.last() == b;
                            lemma_all_found(rows, start, found, path);
                        }
                        if seen@.contains(beam_code(b) as u64) {
                            assert(found.contains(b));
                        }
                    }
                }
                return seen;
            },
            Some(beam) => {
                let ghost rest = explore@;
                assert(rest =~= waiting.drop_last());
                assert(beam == waiting.last());
                let tile = grid.tile(beam.x, beam.y);
                if tile.is_none() {
                    proof {
                        lemma_drop_waiting(rows, start, found, waiting);
                    }
                } else {
                    let key = code_of_beam(beam);
                    if seen.contains(&key) {
                        proof {
                            assert(found.contains(beam));
                            lemma_drop_waiting(rows, start, found, waiting);
                        }
                    } else {
                        let ghost old_seen = seen@;
                        seen.insert(key);
                        propagate(&beam, grid, &mut explore);
                        proof {
                            lemma_bounded_len(seen@, 0x4_0000_0000);
                            let grown = beams_of(rows, seen@);
                            assert(grown =~= found.insert(beam)) by {
                                assert forall|b: Beam| grown.contains(b) <==> found.insert(
                                    beam,
                                ).contains(b) by {
                                    if on_field(rows, b) && beam_code(b) == beam_code(beam) {
                                        assert(b == beam);
                                    }
                                }
                            }
                            lemma_expand_waiting(rows, start, found, waiting, explore@);
                        }
                    }
                }
            },
        }
    }
}

/// `follow_inv` survives dropping the last waiting beam where it does not
/// fall on the field or has been found.
proof fn lemma_drop_waiting(
    rows: Seq<Seq<char>>,
    start: Beam,
    found: Set<Beam>,
    waiting: Seq<Beam>,
)
    requires
        waiting.len() > 0,
        follow_inv(rows, start, found, waiting),
        !on_field(rows, waiting.last()) || found.contains(waiting.last()),
    ensures
        follow_inv(rows, start, found, waiting.drop_last()),
{
    let rest = waiting.drop_last();
    assert forall|i: int| 0 <= i < rest.len() && on_field(rows, #[trigger] rest[i]) implies lit(
        rows,
        start,
        rest[i],
    ) by {
        assert(rest[i] == waiting[i]);
    }
    assert forall|b: Beam| waiting.contains(b) && b != waiting.last() implies rest.contains(b) by {
        let i = choose|i: int| 0 <= i < waiting.len() && waiting[i] == b;
        assert(rest[i] == b);
    }
    assert forall|b: Beam, k: int|
        found.contains(b) && 0 <= k < leaving(tile_at(rows, b.x as int, b.y as int), b).len()
            && on_field(
            rows,
            #[trigger] leaving(tile_at(rows, b.x as int, b.y as int), b)[k],
        ) implies found.contains(leaving(tile_at(rows, b.x as int, b.y as int), b)[k])
        || rest.contains(leaving(tile_at(rows, b.x as int, b.y as int), b)[k]) by {
        let next = leaving(tile_at(rows, b.x as int, b.y as int), b)[k];
        if !found.contains(next) {
            assert(waiting.contains(next));
        }
    }
}

/// `follow_inv` survives finding the last waiting beam, where it falls on
/// the field, once the beams that leave its tile wait in its place.
proof fn lemma_expand_waiting(
    rows: Seq<Seq<char>>,
    start: Beam,
    found: Set<Beam>,
    waiting: Seq<Beam>,
    grown: Seq<Beam>,
)
    requires
        waiting.len() > 0,
        follow_inv(rows, start, found, waiting),
        on_field(rows, waiting.last()),
        grown == waiting.drop_last() + leaving(
            tile_at(rows, waiting.last().x as int, waiting.last().y as int),
            waiting.last(),
        ),
    ensures
        follow_inv(rows, start, found.insert(waiting.last()), grown),
{
    let beam = waiting.last();
    let rest = waiting.drop_last();
    let out = leaving(tile_at(rows, beam.x as int, beam.y as int), beam);
    let all = found.insert(beam);
    assert(lit(rows, start, beam));
    assert forall|i: int| 0 <= i < grown.len() && on_field(rows, #[trigger] grown[i]) implies lit(
        rows,
        start,
        grown[i],
    ) by {
        if i < rest.len() {
            assert(grown[i] == waiting[i]);
        } else {
            assert(grown[i] == out[i - rest.len()]);
            lemma_lit_next(rows, start, beam, i - rest.len());
        }
    }
    assert forall|b: Beam| waiting.contains(b) && b != beam implies grown.contains(b) by {
        let i = choose|i: int| 0 <= i < waiting.len() && waiting[i] == b;
        assert(grown[i] == b);
    }
    assert forall|b: Beam, k: int|
        all.contains(b) && 0 <= k < leaving(tile_at(rows, b.x as int, b.y as int), b).len()
            && on_field(
            rows,
            #[trigger] leaving(tile_at(rows, b.x as int, b.y as int), b)[k],
        ) implies all.contains(leaving(tile_at(rows, b.x as int, b.y as int), b)[k])
        || grown.contains(leaving(tile_at(rows, b.x as int, b.y as int), b)[k]) by {
        let next = leaving(tile_at(rows, b.x as int, b.y as int), b)[k];
        if b == beam {
            assert(grown[rest.len() + k] == next);
        } else if !found.contains(next) {
            assert(waiting.contains(next));
        }
    }
}

/// The tiles that the light entering as `start` reaches, among those of the
/// rows above row `y` and those of row `y` left of column `x`.
spec fn scanned(rows: Seq<Seq<char>>, start: Beam, y: int, x: int) -> Set<(int, int)> {
    Set::new(
        |p: (int, int)| energized(rows, start).contains(p) && (p.1 < y || (p.1 == y && p.0 < x)),
    )
}

/// The number of tiles that the light entering as `start` reaches.
pub fn energize(grid: &Grid, start: Beam) -> (count: usize)
    ensures
        energized(grid.rows(), start).finite(),
        count == energized(grid.rows(), start).len(),
{
    let seen = follow(grid, start);
    let ghost rows = grid.rows();
    let height = grid.row_count();
    let mut count: usize = 0;
    let mut y: usize = 0;
    assert(scanned(rows, start, 0, 0) =~= Set::<(int, int)>::empty());
    while y < height
        invariant
            rows == grid.rows(),
            fits(rows),
            height == rows.len(),
            y <= height,
            count <= y * 65535,
            scanned(rows, start, y as int, 0).finite(),
            count == scanned(rows, start, y as int, 0).len(),
            forall|b: Beam|
                on_field(rows, b) ==> (seen@.contains(#[trigger] beam_code(b) as u64) <==> lit(
                    rows,
                    start,
                    b,
                )),
        decreases height - y,
    {
        let width = grid.row_len(y);
        let mut x: usize = 0;
        while x < width
            invariant
                rows == grid.rows(),
                fits(rows),
                height == rows.len(),
                y < height,
                width == rows[y as int].len(),
                x <= width,
                count <= y * 65535 + x,
                scanned(rows, start, y as int, x as int).finite(),
                count == scanned(rows, start, y as int, x as int).len(),
                forall|b: Beam|
                    on_field(rows, b) ==> (seen@.contains(#[trigger] beam_code(b) as u64) <==> lit(
                        rows,
                        start,
                        b,
                    )),
            decreases width - x,
        {
            let north = Beam { x: x as i64, y: y as i64, heading: Heading::North };
            let south = Beam { x: x as i64, y: y as i64, heading: Heading::South };
            let east = Beam { x: x as i64, y: y as i64, heading: Heading::East };
            let west = Beam { x: x as i64, y: y as i64, heading: Heading::West };
            let reached = seen.contains(&code_of_beam(north)) || seen.contains(&code_of_beam(south))
                || seen.contains(&code_of_beam(east)) || seen.contains(&code_of_beam(west));
            proof {
                let p = (x as int, y as int);
                let before = scanned(rows, start, y as int, x as int);
                let after = scanned(rows, start, y as int, x + 1);
                assert(on_field(rows, north) && on_field(rows, south) && on_field(rows, east)
                    && on_field(rows, west));
                assert(reached == energized(rows, start).contains(p)) by {
                    if reached {
                        if seen@.contains(beam_code(north) as u64) {
                            assert(lit_on(rows, start, p, Heading::North));
                        } else if seen@.contains(beam_code(south) as u64) {
                            assert(lit_on(rows, start, p, Heading::South));
                        } else if seen@.contains(beam_code(east) as u64) {
                            assert(lit_on(rows, start, p, Heading::East));
                        } else {
                            assert(lit_on(rows, start, p, Heading::West));
                        }
                    }
                    if energized(rows, start).contains(p) {
                        let h = choose|h: Heading| #[trigger] lit_on(rows, start, p, h);
                        match h {
                            Heading::North => {
                                assert(lit(rows, start, north));
                            },
                            Heading::South => {
                                assert(lit(rows, start, south));
                            },
                            Heading::East => {
                                assert(lit(rows, start, east));
                            },
                            Heading::West => {
                                assert(lit(rows, start, west));
                            },
                        }
                    }
                }
                if reached {
                    assert(after =~= before.insert(p));
                    assert(!before.contains(p));
                } else {
                    assert(after =~= before);
                }
            }
            if reached {
                count += 1;
            }
            x += 1;
        }
        proof {
            assert(scanned(rows, start, y as int, width as int) =~= scanned(
                rows,
                start,
                y + 1,
                0,
            ));
        }
        y += 1;
    }
    proof {
        assert(scanned(rows, start, height as int, 0) =~= energized(rows, start));
    }
    count
}

/// The number of tiles lit by the light that enters at column `x` of row `y`
/// on heading `heading`.
pub open spec fn lit_count(rows: Seq<Seq<char>>, x: int, y: int, heading: Heading) -> nat {
    energized(rows, Beam { x: x as i64, y: y as i64, heading }).len()
}

/// The greater of `a` and `b`.
pub open spec fn greater(a: nat, b: nat) -> nat {
    if a >= b {
        a
    } else {
        b
    }
}

/// The most tiles lit by light that enters one of the first `k` rows at its
/// left end heading east, or at column `width - 1` heading west.
pub open spec fn best_of_rows(rows: Seq<Seq<char>>, width: int, k: int) -> nat
    decreases k,
{
    if k <= 0 {
        0
    } else {
        greater(
            greater(best_of_rows(rows, width, k - 1), lit_count(rows, 0, k - 1, Heading::East)),
            lit_count(rows, width - 1, k - 1, Heading::West),
        )
    }
}

/// The most tiles lit by light that enters one of the first `k` columns at
/// its top heading south, or at row `height - 1` heading north.
pub open spec fn best_of_columns(rows: Seq<Seq<char>>, height: int, k: int) -> nat
    decreases k,
{
    if k <= 0 {
        0
    } else {
        greater(
            greater(best_of_columns(rows, height, k - 1), lit_count(rows, k - 1, 0, Heading::South)),
            lit_count(rows, k - 1, height - 1, Heading::North),
        )
    }
}

/// The most tiles that light entering at the edge of the field can reach.
pub fn max_energized(grid: &Grid) -> (m: usize)
    ensures
        m == greater(
            best_of_rows(grid.rows(), grid.spec_width() as int, grid.spec_height() as int),
            best_of_columns(grid.rows(), grid.spec_height() as int, grid.spec_width() as int),
        ),
{
    let width = grid.width();
    let height = grid.height();
    let mut m: usize = 0;
    let mut y: usize = 0;
    while y < height
        invariant
            y <= height <= MAX_SIDE,
            width <= MAX_SIDE,
            m == best_of_rows(grid.rows(), width as int, y as int),
        decreases height - y,
    {
        let a = energize(grid, Beam { x: 0, y: y as i64, heading: Heading::East });
        if a > m {
            m = a;
        }
        let b = energize(grid, Beam { x: width as i64 - 1, y: y as i64, heading: Heading::West });
        if b > m {
            m = b;
        }
        y += 1;
    }
    let ghost by_rows = m;
    let mut best: usize = 0;
    let mut x: usize = 0;
    while x < width
        invariant
            x <= width <= MAX_SIDE,
            height <= MAX_SIDE,
            best == best_of_columns(grid.rows(), height as int, x as int),
        decreases width - x,
    {
        let a = energize(grid, Beam { x: x as i64, y: 0, heading: Heading::South });
        if a > best {
            best = a;
        }
        let b = energize(grid, Beam { x: x as i64, y: height as i64 - 1, heading: Heading::North });
        if b > best {
            best = b;
        }
        x += 1;
    }
    if best > m {
        best
    } else {
        m
    }
}

/// The rows of a field read from `lines`: each line that is not empty,
/// without the white space at its ends.
pub open spec fn field_of(lines: Seq<Seq<char>>) -> Seq<Seq<char>>
    decreases lines.len(),
{
    if lines.len() == 0 {
        Seq::empty()
    } else if lines.last().len() == 0 {
        field_of(lines.drop_last())
    } else {
        field_of(lines.drop_last()).push(trimmed(lines.last()))
    }
}

/// Reads a field: its rows are the lines that are not empty, trimmed; it is
/// declared as wide as the first line has bytes and as high as there are
/// lines. `None` where there is no line, or where the field does not fit.
pub fn parse(input: &str) -> (r: Option<Grid>)
    ensures
        match r {
            Some(g) => {
                &&& lines_of(input@).len() > 0
                &&& g.rows() == field_of(lines_of(input@))
                &&& g.spec_width() == byte_len(lines_of(input@)[0])
                &&& g.spec_height() == lines_of(input@).len()
            },
            None => {
                ||| lines_of(input@).len() == 0
                ||| !fits(field_of(lines_of(input@)))
                ||| byte_len(lines_of(input@)[0]) > MAX_SIDE
                ||| lines_of(input@).len() > MAX_SIDE
            },
        },
{
    let chars = chars_of(input);
    let all = lines(&chars);
    let ghost ls = lines_of(input@);
    if all.len() == 0 {
        return None;
    }
    assert(views(all@)[0] == all@[0]@);
    let width = match byte_length(&all[0]) {
        Some(w) => w,
        None => {
            return None;
        },
    };
    let mut field: Vec<Vec<char>> = Vec::new();
    let mut i: usize = 0;
    assert(ls.take(0) =~= Seq::<Seq<char>>::empty());
    while i < all.len()
        invariant
            i <= all@.len(),
            ls == views(all@),
            views(field@) == field_of(ls.take(i as int)),
        decreases all@.len() - i,
    {
        proof {
            assert(ls.take(i + 1).drop_last() =~= ls.take(i as int));
            assert(ls.take(i + 1).last() == all@[i as int]@);
        }
        if all[i].len() > 0 {
            let row = trim(&all[i]);
            proof {
                crate::text::lemma_views_push(field@, row);
            }
            field.push(row);
        }
        i += 1;
    }
    assert(ls.take(i as int) =~= ls);
    Grid::new(field, width, all.len())
}

/// The number of tiles lit by light that enters the top-left tile heading east.
pub fn part1(input: &Grid) -> (count: usize)
    ensures
        count == lit_count(input.rows(), 0, 0, Heading::East),
{
    energize(input, Beam { x: 0, y: 0, heading: Heading::East })
}

/// The most tiles that light entering at the edge of the field can reach.
pub fn part2(input: &Grid) -> (m: usize)
    ensures
        m == greater(
            best_of_rows(input.rows(), input.spec_width() as int, input.spec_height() as int),
            best_of_columns(input.rows(), input.spec_height() as int, input.spec_width() as int),
        ),
{
    max_energized(input)
}

} // verus!
