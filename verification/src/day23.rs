//! The hiking trails: ways from the top row to the bottom row.
use crate::day21::{next_to, Direction, Point};
use crate::flags::{
    lemma_unset_after, lemma_unset_blank, lemma_unset_monotone, lemma_unset_nonnegative, unset,
};
use crate::text::{chars_of, lemma_map_all_none, lemma_map_all_step, lines, lines_of, map_all, views};
use vstd::prelude::*;

verus! {

/// A tile of the map.
#[derive(Clone, Copy, Debug, PartialEq, Eq, Structural)]
pub enum Tile {
    Path,
    Forest,
    Slope(Direction),
}

/// The map: rows of tiles.
pub type HikingMap = Vec<Vec<Tile>>;

/// The tile that `c` draws: `.` a path, `#` forest, and `^`, `v`, `<` and
/// `>` slopes to the north, south, west and east.
pub open spec fn tile_of(c: char) -> Option<Tile> {
    if c == '.' {
        Some(Tile::Path)
    } else if c == '#' {
        Some(Tile::Forest)
    } else if c == '^' {
        Some(Tile::Slope(Direction::North))
    } else if c == 'v' {
        Some(Tile::Slope(Direction::South))
    } else if c == '<' {
        Some(Tile::Slope(Direction::West))
    } else if c == '>' {
        Some(Tile::Slope(Direction::East))
    } else {
        None
    }
}

/// Reads a tile.
pub open spec fn tile_reader() -> spec_fn(char) -> Option<Tile> {
    |c: char| tile_of(c)
}

/// Reads a row of tiles.
pub open spec fn row_reader() -> spec_fn(Seq<char>) -> Option<Seq<Tile>> {
    |line: Seq<char>| map_all(line, tile_reader())
}

/// The rows of the map.
pub open spec fn map_view(map: Seq<Vec<Tile>>) -> Seq<Seq<Tile>> {
    Seq::new(map.len(), |i: int| map[i]@)
}

fn read_tile(c: char) -> (r: Option<Tile>)
    ensures
        r == tile_of(c),
{
    if c == '.' {
        Some(Tile::Path)
    } else if c == '#' {
        Some(Tile::Forest)
    } else if c == '^' {
        Some(Tile::Slope(Direction::North))
    } else if c == 'v' {
        Some(Tile::Slope(Direction::South))
    } else if c == '<' {
        Some(Tile::Slope(Direction::West))
    } else if c == '>' {
        Some(Tile::Slope(Direction::East))
    } else {
        None
    }
}

#[verifier::loop_isolation(false)]
fn read_row(line: &Vec<char>) -> (r: Option<Vec<Tile>>)
    ensures
        match r {
            Some(row) => map_all(line@, tile_reader()) == Some(row@),
            None => map_all(line@, tile_reader()).is_none(),
        },
{
    let ghost f = tile_reader();
    let mut row: Vec<Tile> = Vec::new();
    let mut i: usize = 0;
    assert(line@.take(0) =~= Seq::<char>::empty());
    while i < line.len()
        invariant
            i <= line@.len(),
            map_all(line@.take(i as int), f) == Some(row@),
        decreases line@.len() - i,
    {
        proof {
            lemma_map_all_step(line@, f, i as int);
        }
        match read_tile(line[i]) {
            Some(t) => {
                row.push(t);
            },
            None => {
                proof {
                    lemma_map_all_none(line@, f, i + 1);
                }
                return None;
            },
        }
        i += 1;
    }
    assert(line@.take(i as int) =~= line@);
    Some(row)
}

/// Reads the map, one row from each line; `None` where a character draws
/// no tile.
#[verifier::loop_isolation(false)]
pub fn parse(input: &str) -> (r: Option<HikingMap>)
    ensures
        match r {
            Some(map) => map_all(lines_of(input@), row_reader()) == Some(map_view(map@)),
            None => map_all(lines_of(input@), row_reader()).is_none(),
        },
{
    let chars = chars_of(input);
    let ls = lines(&chars);
    let ghost rows = views(ls@);
    let ghost f = row_reader();
    let mut map: HikingMap = Vec::new();
    let mut i: usize = 0;
    assert(rows.take(0) =~= Seq::<Seq<char>>::empty());
    assert(map_view(map@) =~= Seq::<Seq<Tile>>::empty());
    while i < ls.len()
        invariant
            i <= ls@.len(),
            map_all(rows.take(i as int), f) == Some(map_view(map@)),
        decreases ls@.len() - i,
    {
        proof {
            lemma_map_all_step(rows, f, i as int);
        }
        let ghost before = map_view(map@);
        match read_row(&ls[i]) {
            Some(row) => {
                let ghost entry = row@;
                map.push(row);
                assert(map_view(map@) =~= before.push(entry));
            },
            None => {
                proof {
                    lemma_map_all_none(rows, f, i + 1);
                }
                return None;
            },
        }
        i += 1;
    }
    assert(rows.take(i as int) =~= rows);
    Some(map)
}

/// The column of the first path among the first `k` tiles of `row`.
pub open spec fn first_path(row: Seq<Tile>, k: int) -> Option<int>
    decreases k,
{
    if k <= 0 {
        None
    } else {
        match first_path(row, k - 1) {
            Some(x) => Some(x),
            None => if row[k - 1] is Path {
                Some(k - 1)
            } else {
                None
            },
        }
    }
}

proof fn lemma_first_path_stays(row: Seq<Tile>, k: int, n: int)
    requires
        0 <= k <= n,
        first_path(row, k).is_some(),
    ensures
        first_path(row, n) == first_path(row, k),
    decreases n - k,
{
    if k < n {
        lemma_first_path_stays(row, k, n - 1);
    }
}

/// The first path of row `y`.
#[verifier::loop_isolation(false)]
fn path_in_row(hiking_map: &[Vec<Tile>], y: usize) -> (r: Option<Point>)
    requires
        y < hiking_map@.len(),
        y <= isize::MAX,
        hiking_map@[y as int]@.len() <= isize::MAX,
    ensures
        match r {
            Some(p) => first_path(hiking_map@[y as int]@, hiking_map@[y as int]@.len() as int)
                == Some(p.x as int) && p.y == y,
            None => first_path(hiking_map@[y as int]@, hiking_map@[y as int]@.len() as int).is_none(),
        },
{
    let row = &hiking_map[y];
    let mut x: usize = 0;
    while x < row.len()
        invariant
            x <= row@.len(),
            first_path(row@, x as int).is_none(),
        decreases row@.len() - x,
    {
        match row[x] {
            Tile::Path => {
                proof {
                    lemma_first_path_stays(row@, x + 1, row@.len() as int);
                }
                return Some(Point { x: x as isize, y: y as isize });
            },
            _ => {},
        }
        x += 1;
    }
    None
}

/// The map has a row, and its sides can be counted with a sign.
pub open spec fn countable(rows: Seq<Seq<Tile>>) -> bool {
    &&& 1 <= rows.len() <= isize::MAX
    &&& forall|y: int| 0 <= y < rows.len() ==> (#[trigger] rows[y]).len() <= isize::MAX
}

/// The start of the hike: the first path of the first row.
pub fn starting_point(hiking_map: &[Vec<Tile>]) -> (r: Option<Point>)
    requires
        countable(map_view(hiking_map@)),
    ensures
        match r {
            Some(p) => first_path(hiking_map@[0]@, hiking_map@[0]@.len() as int) == Some(p.x as int)
                && p.y == 0,
            None => first_path(hiking_map@[0]@, hiking_map@[0]@.len() as int).is_none(),
        },
{
    assert(map_view(hiking_map@)[0] == hiking_map@[0]@);
    path_in_row(hiking_map, 0)
}

/// The end of the hike: the first path of the last row.
pub fn finishing_point(hiking_map: &[Vec<Tile>]) -> (r: Option<Point>)
    requires
        countable(map_view(hiking_map@)),
    ensures
        match r {
            Some(p) => first_path(
                hiking_map@[hiking_map@.len() - 1]@,
                hiking_map@[hiking_map@.len() - 1]@.len() as int,
            ) == Some(p.x as int) && p.y == hiking_map@.len() - 1,
            None => first_path(
                hiking_map@[hiking_map@.len() - 1]@,
                hiking_map@[hiking_map@.len() - 1]@.len() as int,
            ).is_none(),
        },
{
    let last = hiking_map.len() - 1;
    assert(map_view(hiking_map@)[last as int] == hiking_map@[last as int]@);
    path_in_row(hiking_map, last)
}

/// The last place of the map: the last column of the first row, in the last row.
pub fn bottom_right(hiking_map: &[Vec<Tile>]) -> (r: Point)
    requires
        countable(map_view(hiking_map@)),
    ensures
        r.x == hiking_map@[0]@.len() - 1,
        r.y == hiking_map@.len() - 1,
{
    assert(map_view(hiking_map@)[0] == hiking_map@[0]@);
    Point { x: hiking_map[0].len() as isize - 1, y: hiking_map.len() as isize - 1 }
}

/// Whether a hiker may step from a place next to `next` onto `next` going
/// on heading `dir`: it lies within the rows and the width of the first row
/// and on its own row, and holds a path, or a slope, which must lead the
/// same way unless slopes are ignored.
pub open spec fn may_enter(rows: Seq<Seq<Tile>>, next: Point, dir: Direction, ignore_slopes: bool) -> bool {
    &&& 0 <= next.x <= rows[0].len() - 1
    &&& 0 <= next.y <= rows.len() - 1
    &&& next.x < rows[next.y as int].len()
    &&& match rows[next.y as int][next.x as int] {
        Tile::Path => true,
        Tile::Slope(d) => ignore_slopes || d == dir,
        Tile::Forest => false,
    }
}

/// Whether `p` lies within the rows and the width of the first row.
pub open spec fn inside(rows: Seq<Seq<Tile>>, p: Point) -> bool {
    0 <= p.x <= rows[0].len() - 1 && 0 <= p.y <= rows.len() - 1
}

/// The places next to `point` that a hiker may step onto: to the north,
/// south, east and west, in that order.
pub open spec fn steps_from(rows: Seq<Seq<Tile>>, point: Point, ignore_slopes: bool) -> Seq<Point> {
    (if may_enter(rows, next_to(point, Direction::North), Direction::North, ignore_slopes) {
        seq![next_to(point, Direction::North)]
    } else {
        Seq::empty()
    }) + (if may_enter(rows, next_to(point, Direction::South), Direction::South, ignore_slopes) {
        seq![next_to(point, Direction::South)]
    } else {
        Seq::empty()
    }) + (if may_enter(rows, next_to(point, Direction::East), Direction::East, ignore_slopes) {
        seq![next_to(point, Direction::East)]
    } else {
        Seq::empty()
    }) + (if may_enter(rows, next_to(point, Direction::West), Direction::West, ignore_slopes) {
        seq![next_to(point, Direction::West)]
    } else {
        Seq::empty()
    })
}

fn enter(hiking_map: &[Vec<Tile>], next: Point, dir: Direction, ignore_slopes: bool) -> (r: bool)
    requires
        countable(map_view(hiking_map@)),
    ensures
        r == may_enter(map_view(hiking_map@), next, dir, ignore_slopes),
{
    let ghost rows = map_view(hiking_map@);
    assert(rows[0] == hiking_map@[0]@);
    let corner = bottom_right(hiking_map);
    if next.x >= 0 && next.x <= corner.x && next.y >= 0 && next.y <= corner.y {
        assert(rows[next.y as int] == hiking_map@[next.y as int]@);
        let row = &hiking_map[next.y as usize];
        if next.x as usize >= row.len() {
            return false;
        }
        match row[next.x as usize] {
            Tile::Path => true,
            Tile::Slope(d) => ignore_slopes || same_heading(d, dir),
            Tile::Forest => false,
        }
    } else {
        false
    }
}

fn same_heading(a: Direction, b: Direction) -> (r: bool)
    ensures
        r == (a == b),
{
    match (a, b) {
        (Direction::North, Direction::North) => true,
        (Direction::South, Direction::South) => true,
        (Direction::East, Direction::East) => true,
        (Direction::West, Direction::West) => true,
        _ => false,
    }
}

/// The places next to `point` that a hiker may step onto.
pub fn adjacent(point: Point, hiking_map: &[Vec<Tile>], ignore_slopes: bool) -> (r: Vec<Point>)
    requires
        countable(map_view(hiking_map@)),
        isize::MIN < point.x < isize::MAX,
        isize::MIN < point.y < isize::MAX,
    ensures
        r@ == steps_from(map_view(hiking_map@), point, ignore_slopes),
        forall|i: int| 0 <= i < r@.len() ==> inside(map_view(hiking_map@), #[trigger] r@[i]),
{
    let mut r: Vec<Point> = Vec::new();
    let north = point.neighbour(Direction::North);
    if enter(hiking_map, north, Direction::North, ignore_slopes) {
        r.push(north);
    }
    let south = point.neighbour(Direction::South);
    if enter(hiking_map, south, Direction::South, ignore_slopes) {
        r.push(south);
    }
    let east = point.neighbour(Direction::East);
    if enter(hiking_map, east, Direction::East, ignore_slopes) {
        r.push(east);
    }
    let west = point.neighbour(Direction::West);
    if enter(hiking_map, west, Direction::West, ignore_slopes) {
        r.push(west);
    }
    assert(r@ =~= steps_from(map_view(hiking_map@), point, ignore_slopes));
    r
}

/// The start of the hike: the first path of the first row.
pub open spec fn start_of(rows: Seq<Seq<Tile>>) -> Option<Point> {
    match first_path(rows[0], rows[0].len() as int) {
        Some(x) => Some(Point { x: x as isize, y: 0 }),
        None => None,
    }
}

/// The end of the hike: the first path of the last row.
pub open spec fn finish_of(rows: Seq<Seq<Tile>>) -> Option<Point> {
    match first_path(rows.last(), rows.last().len() as int) {
        Some(x) => Some(Point { x: x as isize, y: (rows.len() - 1) as isize }),
        None => None,
    }
}

/// Those of `steps` that are not among `seen`, in their order.
pub open spec fn unvisited(steps: Seq<Point>, seen: Seq<Point>) -> Seq<Point>
    decreases steps.len(),
{
    if steps.len() == 0 {
        Seq::empty()
    } else if seen.contains(steps.last()) {
        unvisited(steps.drop_last(), seen)
    } else {
        unvisited(steps.drop_last(), seen).push(steps.last())
    }
}

/// Where a hiker comes out who stands on `pos` after `dist` steps, having
/// been on the places `seen`, and who walks on for as long as exactly one
/// place next to them is new: the place where the walk ends, and the steps
/// counted there. The walk also ends where the count can grow no further.
pub open spec fn corridor(
    rows: Seq<Seq<Tile>>,
    ignore_slopes: bool,
    seen: Seq<Point>,
    pos: Point,
    dist: nat,
) -> (Point, nat)
    decreases usize::MAX - dist,
{
    let next = unvisited(steps_from(rows, pos, ignore_slopes), seen.push(pos));
    if next.len() == 1 && dist < usize::MAX {
        corridor(rows, ignore_slopes, seen.push(pos), next[0], dist + 1)
    } else {
        (pos, dist)
    }
}

/// The place of the entry for `p` in `ways`.
pub open spec fn slot(ways: Seq<(Point, usize)>, p: Point) -> Option<int>
    decreases ways.len(),
{
    if ways.len() == 0 {
        None
    } else {
        match slot(ways.drop_last(), p) {
            Some(i) => Some(i),
            None => if ways.last().0 == p {
                Some(ways.len() - 1)
            } else {
                None
            },
        }
    }
}

/// `ways` with `dist` steps to `p` noted: a place that has an entry keeps
/// the longer of the two walks.
pub open spec fn noted(ways: Seq<(Point, usize)>, p: Point, dist: usize) -> Seq<(Point, usize)> {
    match slot(ways, p) {
        Some(i) => ways.update(
            i,
            (
                p,
                if ways[i].1 < dist {
                    dist
                } else {
                    ways[i].1
                },
            ),
        ),
        None => ways.push((p, dist)),
    }
}

/// The ends of the walks that begin with a step from `point` onto one of
/// `starts`, each with its length.
pub open spec fn ends_from(
    rows: Seq<Seq<Tile>>,
    ignore_slopes: bool,
    point: Point,
    starts: Seq<Point>,
) -> Seq<(Point, usize)>
    decreases starts.len(),
{
    if starts.len() == 0 {
        Seq::empty()
    } else {
        let end = corridor(rows, ignore_slopes, seq![point], starts.last(), 1);
        noted(ends_from(rows, ignore_slopes, point, starts.drop_last()), end.0, end.1 as usize)
    }
}

/// The places where the walks from `point` end, each with the length of
/// the longest walk to it; none from the end of the hike.
pub open spec fn connected_points(rows: Seq<Seq<Tile>>, ignore_slopes: bool, point: Point) -> Seq<
    (Point, usize),
> {
    if finish_of(rows) == Some(point) {
        Seq::empty()
    } else {
        ends_from(rows, ignore_slopes, point, steps_from(rows, point, ignore_slopes))
    }
}

proof fn lemma_slot_range(ways: Seq<(Point, usize)>, p: Point)
    ensures
        match slot(ways, p) {
            Some(i) => 0 <= i < ways.len() && ways[i].0 == p,
            None => forall|i: int| 0 <= i < ways.len() ==> (#[trigger] ways[i]).0 != p,
        },
    decreases ways.len(),
{
    if ways.len() > 0 {
        lemma_slot_range(ways.drop_last(), p);
        if slot(ways.drop_last(), p).is_none() {
            assert forall|i: int| 0 <= i < ways.len() - 1 implies (#[trigger] ways[i]).0 != p by {
                assert(ways.drop_last()[i] == ways[i]);
            }
        }
    }
}

proof fn lemma_slot_stays(ways: Seq<(Point, usize)>, p: Point, k: int)
    requires
        0 <= k <= ways.len(),
        slot(ways.take(k), p).is_some(),
    ensures
        slot(ways, p) == slot(ways.take(k), p),
    decreases ways.len(),
{
    if k == ways.len() {
        assert(ways.take(k) =~= ways);
    } else {
        assert(ways.drop_last().take(k) =~= ways.take(k));
        lemma_slot_stays(ways.drop_last(), p, k);
    }
}

fn holds(seen: &Vec<Point>, p: Point) -> (b: bool)
    ensures
        b == seen@.contains(p),
{
    let mut i: usize = 0;
    while i < seen.len()
        invariant
            i <= seen@.len(),
            forall|k: int| 0 <= k < i ==> seen@[k] != p,
        decreases seen@.len() - i,
    {
        if seen[i] == p {
            return true;
        }
        i += 1;
    }
    false
}

fn keep_unvisited(steps: &Vec<Point>, seen: &Vec<Point>) -> (r: Vec<Point>)
    ensures
        r@ == unvisited(steps@, seen@),
        forall|i: int| 0 <= i < r@.len() ==> steps@.contains(#[trigger] r@[i]),
{
    let mut r: Vec<Point> = Vec::new();
    let mut i: usize = 0;
    assert(steps@.take(0) =~= Seq::<Point>::empty());
    while i < steps.len()
        invariant
            i <= steps@.len(),
            r@ == unvisited(steps@.take(i as int), seen@),
            forall|k: int| 0 <= k < r@.len() ==> steps@.contains(#[trigger] r@[k]),
        decreases steps@.len() - i,
    {
        assert(steps@.take(i + 1).drop_last() =~= steps@.take(i as int));
        assert(steps@.take(i + 1).last() == steps@[i as int]);
        if !holds(seen, steps[i]) {
            r.push(steps[i]);
        }
        i += 1;
    }
    assert(steps@.take(i as int) =~= steps@);
    r
}

/// Walks on from `starting`, one step from `point`, to where the walk ends.
fn follow(hiking_map: &[Vec<Tile>], ignore_slopes: bool, point: Point, starting: Point) -> (r: (
    Point,
    usize,
))
    requires
        countable(map_view(hiking_map@)),
        inside(map_view(hiking_map@), starting),
    ensures
        r.0 == corridor(map_view(hiking_map@), ignore_slopes, seq![point], starting, 1).0,
        r.1 == corridor(map_view(hiking_map@), ignore_slopes, seq![point], starting, 1).1,
        inside(map_view(hiking_map@), r.0),
{
    let ghost rows = map_view(hiking_map@);
    let mut seen: Vec<Point> = Vec::new();
    seen.push(point);
    assert(seen@ =~= seq![point]);
    let mut pos = starting;
    let mut dist: usize = 1;
    assert(rows[0] == hiking_map@[0]@);
    loop
        invariant
            rows == map_view(hiking_map@),
            countable(rows),
            inside(rows, pos),
            corridor(rows, ignore_slopes, seen@, pos, dist as nat) == corridor(
                rows,
                ignore_slopes,
                seq![point],
                starting,
                1,
            ),
        decreases usize::MAX - dist,
    {
        let ghost before = seen@;
        seen.push(pos);
        let steps = adjacent(pos, hiking_map, ignore_slopes);
        let next = keep_unvisited(&steps, &seen);
        if next.len() == 1 && dist < usize::MAX {
            assert(steps@.contains(next@[0]));
            pos = next[0];
            dist += 1;
        } else {
            return (pos, dist);
        }
    }
}

/// Notes `dist` steps to `p`.
fn note_end(ways: &mut Vec<(Point, usize)>, p: Point, dist: usize)
    ensures
        final(ways)@ == noted(old(ways)@, p, dist),
{
    let ghost all = ways@;
    let mut i: usize = 0;
    assert(all.take(0) =~= Seq::<(Point, usize)>::empty());
    while i < ways.len()
        invariant
            i <= ways@.len(),
            ways@ == all,
            all == old(ways)@,
            slot(all.take(i as int), p).is_none(),
        decreases ways@.len() - i,
    {
        assert(all.take(i + 1).drop_last() =~= all.take(i as int));
        assert(all.take(i + 1).last() == all[i as int]);
        let entry = ways[i];
        if entry.0 == p {
            proof {
                lemma_slot_stays(all, p, i + 1);
            }
            let longer = if entry.1 < dist {
                dist
            } else {
                entry.1
            };
            ways.set(i, (p, longer));
            assert(slot(all, p) == Some(i as int));
            assert(ways@ =~= all.update(i as int, (p, longer)));
            return ;
        }
        i += 1;
    }
    assert(all.take(i as int) =~= all);
    ways.push((p, dist));
}

/// The places where the walks from `point` end, each with the length of
/// the longest walk to it.
pub fn get_connected_points(point: Point, hiking_map: &[Vec<Tile>], ignore_slopes: bool) -> (r: Vec<
    (Point, usize),
>)
    requires
        countable(map_view(hiking_map@)),
        finish_of(map_view(hiking_map@)).is_some(),
        isize::MIN < point.x < isize::MAX,
        isize::MIN < point.y < isize::MAX,
    ensures
        r@ == connected_points(map_view(hiking_map@), ignore_slopes, point),
        forall|i: int| 0 <= i < r@.len() ==> inside(map_view(hiking_map@), (#[trigger] r@[i]).0),
{
    let ghost rows = map_view(hiking_map@);
    let mut ways: Vec<(Point, usize)> = Vec::new();
    assert(rows.last() == hiking_map@[hiking_map@.len() - 1]@);
    match finishing_point(hiking_map) {
        Some(finish) => {
            assert(finish_of(rows) == Some(finish));
            if point == finish {
                return ways;
            }
        },
        None => {},
    }
    let starts = adjacent(point, hiking_map, ignore_slopes);
    let mut i: usize = 0;
    assert(starts@.take(0) =~= Seq::<Point>::empty());
    while i < starts.len()
        invariant
            i <= starts@.len(),
            rows == map_view(hiking_map@),
            countable(rows),
            forall|k: int| 0 <= k < starts@.len() ==> inside(rows, #[trigger] starts@[k]),
            ways@ == ends_from(rows, ignore_slopes, point, starts@.take(i as int)),
            forall|k: int| 0 <= k < ways@.len() ==> inside(rows, (#[trigger] ways@[k]).0),
        decreases starts@.len() - i,
    {
        assert(starts@.take(i + 1).drop_last() =~= starts@.take(i as int));
        assert(starts@.take(i + 1).last() == starts@[i as int]);
        let end = follow(hiking_map, ignore_slopes, point, starts[i]);
        let ghost before = ways@;
        proof {
            lemma_slot_range(before, end.0);
        }
        note_end(&mut ways, end.0, end.1);
        i += 1;
    }
    assert(starts@.take(i as int) =~= starts@);
    ways
}

/// The junctions of the trails, numbered from the start on, and from each
/// the walks to other junctions: the number of the junction where a walk
/// ends, and its length.
pub struct Chart {
    pub places: Vec<Point>,
    pub ways: Vec<Vec<(usize, usize)>>,
}

/// `list` says of each of `ends`, in their order, the number of its place
/// and its length.
pub open spec fn leads(places: Seq<Point>, list: Seq<(usize, usize)>, ends: Seq<(Point, usize)>) -> bool {
    &&& list.len() == ends.len()
    &&& forall|j: int|
        0 <= j < list.len() ==> (#[trigger] list[j]).0 < places.len() && places[list[j].0 as int]
            == ends[j].0 && list[j].1 == ends[j].1
}

/// The chart holds the start of the hike as its first junction, no
/// junction twice, for each junction the ends of the walks from it, and
/// every junction but the first as the end of a walk from an earlier one.
pub open spec fn charted(
    rows: Seq<Seq<Tile>>,
    ignore_slopes: bool,
    places: Seq<Point>,
    ways: Seq<Seq<(usize, usize)>>,
) -> bool {
    &&& places.len() > 0
    &&& start_of(rows) == Some(places[0])
    &&& places.no_duplicates()
    &&& ways.len() == places.len()
    &&& forall|i: int|
        0 <= i < places.len() ==> leads(
            places,
            #[trigger] ways[i],
            connected_points(rows, ignore_slopes, places[i]),
        )
    &&& forall|i: int| 0 < i < places.len() ==> #[trigger] reached_before(ways, i)
}

/// A walk from a junction before `i` ends at junction `i`.
pub open spec fn reached_before(ways: Seq<Seq<(usize, usize)>>, i: int) -> bool {
    exists|a: int, j: int| 0 <= a < i && a < ways.len() && 0 <= j < ways[a].len() && (#[trigger] ways[a][j]).0 == i
}

/// One of `ends` is the place `v`.
spec fn among(ends: Seq<(Point, usize)>, v: Point) -> bool {
    exists|j: int| 0 <= j < ends.len() && (#[trigger] ends[j]).0 == v
}

/// A walk from one of the first `bound` places ends at `v`.
spec fn named(lists: Seq<Seq<(Point, usize)>>, bound: int, v: Point) -> bool {
    exists|a: int, j: int|
        0 <= a < bound && a < lists.len() && 0 <= j < lists[a].len() && (#[trigger] lists[a][j]).0 == v
}

/// The number that stands for a place of a map `w` wide.
spec fn code(w: int, p: Point) -> int {
    p.y * w + p.x
}

proof fn lemma_code(w: int, h: int, p: Point, q: Point)
    requires
        0 <= p.x < w,
        0 <= q.x < w,
        0 <= p.y < h,
        0 <= q.y < h,
    ensures
        0 <= code(w, p) < h * w,
        code(w, p) == code(w, q) ==> p == q,
{
    assert(0 <= p.y * w && p.y * w + w <= h * w) by (nonlinear_arith)
        requires
            0 <= p.y < h,
            0 < w,
    ;
    if p.y < q.y {
        assert(p.y * w + w <= q.y * w) by (nonlinear_arith)
            requires
                p.y < q.y,
                0 < w,
        ;
    }
    if q.y < p.y {
        assert(q.y * w + w <= p.y * w) by (nonlinear_arith)
            requires
                q.y < p.y,
                0 < w,
        ;
    }
}

/// `codes` holds the numbers that stand for `places`, one for each.
spec fn tallied(rows: Seq<Seq<Tile>>, places: Seq<Point>, codes: Set<int>) -> bool {
    &&& codes.finite()
    &&& codes.len() == places.len()
    &&& forall|i: int| 0 <= i < places.len() ==> inside(rows, #[trigger] places[i])
    &&& forall|i: int| 0 <= i < places.len() ==> codes.contains(code(rows[0].len() as int, #[trigger] places[i]))
    &&& forall|c: int| #[trigger]
        codes.contains(c) ==> exists|i: int|
            0 <= i < places.len() && code(rows[0].len() as int, #[trigger] places[i]) == c
}

/// A new place inside the map can be tallied, and the places then number
/// no more than the map has room for.
proof fn lemma_tally(rows: Seq<Seq<Tile>>, places: Seq<Point>, codes: Set<int>, p: Point)
    requires
        tallied(rows, places, codes),
        inside(rows, p),
        !places.contains(p),
    ensures
        tallied(rows, places.push(p), codes.insert(code(rows[0].len() as int, p))),
        places.len() < rows.len() * rows[0].len(),
{
    let w = rows[0].len() as int;
    let h = rows.len() as int;
    let c = code(w, p);
    let more = places.push(p);
    let grown = codes.insert(c);
    lemma_code(w, h, p, p);
    if codes.contains(c) {
        let i = choose|i: int| 0 <= i < places.len() && code(w, #[trigger] places[i]) == c;
        lemma_code(w, h, p, places[i]);
        assert(places.contains(p));
    }
    assert forall|i: int| 0 <= i < more.len() implies inside(rows, #[trigger] more[i]) && grown.contains(
        code(w, more[i]),
    ) by {
        if i < places.len() {
            assert(more[i] == places[i]);
        }
    }
    assert forall|d: int| #[trigger] grown.contains(d) implies exists|i: int|
        0 <= i < more.len() && code(w, #[trigger] more[i]) == d by {
        if d == c {
            assert(more[places.len() as int] == p);
        } else {
            let i = choose|i: int| 0 <= i < places.len() && code(w, #[trigger] places[i]) == d;
            assert(more[i] == places[i]);
        }
    }
    assert(grown.subset_of(vstd::set_lib::set_int_range(0, h * w))) by {
        assert forall|d: int| grown.contains(d) implies 0 <= d < h * w by {
            let i = choose|i: int| 0 <= i < more.len() && code(w, #[trigger] more[i]) == d;
            lemma_code(w, h, more[i], more[i]);
        }
    }
    assert(0 <= h * w) by (nonlinear_arith)
        requires
            0 <= h,
            0 <= w,
    ;
    vstd::set_lib::lemma_int_range(0, h * w);
    vstd::set_lib::lemma_len_subset(grown, vstd::set_lib::set_int_range(0, h * w));
}

/// What has been found out of the trails so far: the junctions looked at,
/// with the ends of the walks from each, and those that wait.
spec fn exploring(
    rows: Seq<Seq<Tile>>,
    ignore_slopes: bool,
    start: Point,
    places: Seq<Point>,
    lists: Seq<Seq<(Point, usize)>>,
    stack: Seq<Point>,
) -> bool {
    &&& places.len() == lists.len()
    &&& places.no_duplicates()
    &&& if places.len() == 0 {
        stack == seq![start]
    } else {
        places[0] == start
    }
    &&& forall|i: int|
        0 <= i < places.len() ==> #[trigger] lists[i] == connected_points(rows, ignore_slopes, places[i])
    &&& forall|i: int| 0 < i < places.len() ==> named(lists, i, #[trigger] places[i])
    &&& forall|k: int|
        0 <= k < stack.len() ==> inside(rows, #[trigger] stack[k]) && (stack[k] == start || named(
            lists,
            places.len() as int,
            stack[k],
        ))
    &&& forall|i: int, j: int|
        0 <= i < lists.len() && 0 <= j < lists[i].len() ==> places.contains((#[trigger] lists[i][j]).0)
            || stack.contains(lists[i][j].0)
}

/// Dropping a place that waits and has been looked at keeps what was found.
proof fn lemma_explore_skip(
    rows: Seq<Seq<Tile>>,
    ignore_slopes: bool,
    start: Point,
    places: Seq<Point>,
    lists: Seq<Seq<(Point, usize)>>,
    stack: Seq<Point>,
)
    requires
        stack.len() > 0,
        exploring(rows, ignore_slopes, start, places, lists, stack),
        places.contains(stack.last()),
    ensures
        exploring(rows, ignore_slopes, start, places, lists, stack.drop_last()),
{
    let rest = stack.drop_last();
    assert forall|k: int| 0 <= k < rest.len() implies inside(rows, #[trigger] rest[k]) && (rest[k]
        == start || named(lists, places.len() as int, rest[k])) by {
        assert(rest[k] == stack[k]);
    }
    assert forall|i: int, j: int| 0 <= i < lists.len() && 0 <= j < lists[i].len() implies places.contains(
        (#[trigger] lists[i][j]).0,
    ) || rest.contains(lists[i][j].0) by {
        let v = lists[i][j].0;
        if !places.contains(v) {
            let k = choose|k: int| 0 <= k < stack.len() && stack[k] == v;
            assert(k < stack.len() - 1);
            assert(rest[k] == v);
        }
    }
}

/// Looking at the place that waits last, and letting the ends of the
/// walks from it wait, keeps what was found.
proof fn lemma_explore_look(
    rows: Seq<Seq<Tile>>,
    ignore_slopes: bool,
    start: Point,
    places: Seq<Point>,
    lists: Seq<Seq<(Point, usize)>>,
    stack: Seq<Point>,
    grown: Seq<Point>,
)
    requires
        stack.len() > 0,
        exploring(rows, ignore_slopes, start, places, lists, stack),
        !places.contains(stack.last()),
        grown.len() >= stack.len() - 1,
        forall|k: int| 0 <= k < stack.len() - 1 ==> grown[k] == stack[k],
        forall|k: int|
            stack.len() - 1 <= k < grown.len() ==> inside(rows, #[trigger] grown[k]) && among(
                connected_points(rows, ignore_slopes, stack.last()),
                grown[k],
            ),
        forall|j: int|
            0 <= j < connected_points(rows, ignore_slopes, stack.last()).len() ==> places.push(
                stack.last(),
            ).contains((#[trigger] connected_points(rows, ignore_slopes, stack.last())[j]).0)
                || grown.contains(connected_points(rows, ignore_slopes, stack.last())[j].0),
    ensures
        exploring(
            rows,
            ignore_slopes,
            start,
            places.push(stack.last()),
            lists.push(connected_points(rows, ignore_slopes, stack.last())),
            grown,
        ),
{
    let p = stack.last();
    let ends = connected_points(rows, ignore_slopes, p);
    let places2 = places.push(p);
    let lists2 = lists.push(ends);
    let n = places.len() as int;
    assert(places2.no_duplicates()) by {
        assert forall|i: int, j: int| 0 <= i < places2.len() && 0 <= j < places2.len() && i != j implies places2[i]
            != places2[j] by {
            if i < n && j < n {
                assert(places2[i] == places[i] && places2[j] == places[j]);
            } else if i < n {
                assert(places.contains(places[i]));
            } else {
                assert(places.contains(places[j]));
            }
        }
    }
    assert forall|v: Point, bound: int| bound <= n && named(lists, bound, v) implies named(
        lists2,
        bound,
        v,
    ) by {
        let (a, j) = choose|a: int, j: int|
            0 <= a < bound && a < lists.len() && 0 <= j < lists[a].len() && (#[trigger] lists[a][j]).0
                == v;
        assert(lists2[a][j].0 == v);
    }
    assert forall|i: int| 0 <= i < places2.len() implies #[trigger] lists2[i] == connected_points(
        rows,
        ignore_slopes,
        places2[i],
    ) by {
        if i < n {
            assert(lists2[i] == lists[i] && places2[i] == places[i]);
        }
    }
    assert forall|i: int| 0 < i < places2.len() implies named(lists2, i, #[trigger] places2[i]) by {
        if i < n {
            assert(places2[i] == places[i]);
            assert(named(lists, i, places[i]));
        } else {
            assert(stack[stack.len() - 1] == p);
            assert(p != start);
            assert(named(lists, n, p));
        }
    }
    if n == 0 {
        assert(p == start);
    } else {
        assert(places2[0] == places[0]);
    }
    assert forall|k: int| 0 <= k < grown.len() implies inside(rows, #[trigger] grown[k]) && (grown[k]
        == start || named(lists2, places2.len() as int, grown[k])) by {
        if k < stack.len() - 1 {
            assert(grown[k] == stack[k]);
            if stack[k] != start {
                assert(named(lists, n, stack[k]));
                assert(named(lists2, n, stack[k]));
                let (a, j) = choose|a: int, j: int|
                    0 <= a < n && a < lists2.len() && 0 <= j < lists2[a].len() && (
                    #[trigger] lists2[a][j]).0 == stack[k];
                assert(lists2[a][j].0 == grown[k]);
            }
        } else {
            let j = choose|j: int| 0 <= j < ends.len() && (#[trigger] ends[j]).0 == grown[k];
            assert(lists2[n][j].0 == grown[k]);
        }
    }
    assert forall|i: int, j: int| 0 <= i < lists2.len() && 0 <= j < lists2[i].len() implies places2.contains(
        (#[trigger] lists2[i][j]).0,
    ) || grown.contains(lists2[i][j].0) by {
        let v = lists2[i][j].0;
        if i < n {
            assert(lists2[i] == lists[i]);
            assert(places.contains(lists[i][j].0) || stack.contains(lists[i][j].0));
            if places.contains(v) {
                let k = choose|k: int| 0 <= k < places.len() && places[k] == v;
                assert(places2[k] == v);
            } else {
                let k = choose|k: int| 0 <= k < stack.len() && stack[k] == v;
                if k == stack.len() - 1 {
                    assert(places2[n] == v);
                } else {
                    assert(grown[k] == v);
                }
            }
        } else {
            assert(ends[j].0 == v);
        }
    }
}

/// Lets the ends of the walks wait that have not been looked at.
fn push_new(stack: &mut Vec<Point>, connected: &Vec<(Point, usize)>, places: &Vec<Point>)
    ensures
        final(stack)@.len() >= old(stack)@.len(),
        forall|k: int| 0 <= k < old(stack)@.len() ==> final(stack)@[k] == old(stack)@[k],
        forall|k: int|
            old(stack)@.len() <= k < final(stack)@.len() ==> among(connected@, #[trigger] final(stack)@[k]),
        forall|j: int|
            0 <= j < connected@.len() ==> places@.contains((#[trigger] connected@[j]).0)
                || final(stack)@.contains(connected@[j].0),
{
    let mut j: usize = 0;
    while j < connected.len()
        invariant
            j <= connected@.len(),
            stack@.len() >= old(stack)@.len(),
            forall|k: int| 0 <= k < old(stack)@.len() ==> stack@[k] == old(stack)@[k],
            forall|k: int| old(stack)@.len() <= k < stack@.len() ==> among(connected@, #[trigger] stack@[k]),
            forall|a: int|
                0 <= a < j ==> places@.contains((#[trigger] connected@[a]).0) || stack@.contains(
                    connected@[a].0,
                ),
        decreases connected@.len() - j,
    {
        let end = connected[j].0;
        let ghost before = stack@;
        if !holds(places, end) {
            stack.push(end);
            proof {
                assert(stack@[before.len() as int] == end);
                assert forall|k: int| old(stack)@.len() <= k < stack@.len() implies among(
                    connected@,
                    #[trigger] stack@[k],
                ) by {
                    if k < before.len() {
                        assert(stack@[k] == before[k]);
                    } else {
                        assert(connected@[j as int].0 == stack@[k]);
                    }
                }
                assert forall|a: int| 0 <= a < j + 1 implies places@.contains(
                    (#[trigger] connected@[a]).0,
                ) || stack@.contains(connected@[a].0) by {
                    if a < j && !places@.contains(connected@[a].0) {
                        let k = choose|k: int| 0 <= k < before.len() && before[k] == connected@[a].0;
                        assert(stack@[k] == connected@[a].0);
                    }
                }
            }
        }
        j += 1;
    }
}

/// Walks the trails from the start: the junctions, and the ends of the
/// walks from each.
fn explore(hiking_map: &[Vec<Tile>], ignore_slopes: bool) -> (r: (Vec<Point>, Vec<Vec<(Point, usize)>>))
    requires
        countable(map_view(hiking_map@)),
        start_of(map_view(hiking_map@)).is_some(),
        finish_of(map_view(hiking_map@)).is_some(),
    ensures
        exploring(
            map_view(hiking_map@),
            ignore_slopes,
            start_of(map_view(hiking_map@))->0,
            r.0@,
            views(r.1@),
            Seq::empty(),
        ),
        r.0@.len() > 0,
{
    let ghost rows = map_view(hiking_map@);
    assert(rows[0] == hiking_map@[0]@);
    let start = match starting_point(hiking_map) {
        Some(p) => p,
        None => Point { x: 0, y: 0 },
    };
    assert(start_of(rows) == Some(start));
    let mut places: Vec<Point> = Vec::new();
    let mut lists: Vec<Vec<(Point, usize)>> = Vec::new();
    let mut stack: Vec<Point> = Vec::new();
    stack.push(start);
    let ghost mut codes: Set<int> = Set::empty();
    proof {
        assert(stack@ =~= seq![start]);
        assert(views(lists@) =~= Seq::<Seq<(Point, usize)>>::empty());
        let f = first_path(rows[0], rows[0].len() as int);
        lemma_first_path_range(rows[0], rows[0].len() as int);
        assert(0 <= rows.len() * rows[0].len()) by (nonlinear_arith)
            requires
                0 <= rows.len(),
                0 <= rows[0].len(),
        ;
    }
    while stack.len() > 0
        invariant
            rows == map_view(hiking_map@),
            countable(rows),
            finish_of(rows).is_some(),
            start_of(rows) == Some(start),
            exploring(rows, ignore_slopes, start, places@, views(lists@), stack@),
            tallied(rows, places@, codes),
            places@.len() <= rows.len() * rows[0].len(),
            stack@.len() == 0 ==> places@.len() > 0,
        decreases rows.len() * rows[0].len() - places@.len(), stack@.len(),
    {
        let ghost waiting = stack@;
        let ghost found = views(lists@);
        let p = stack[stack.len() - 1];
        stack.pop();
        assert(stack@ =~= waiting.drop_last());
        if holds(&places, p) {
            proof {
                lemma_explore_skip(rows, ignore_slopes, start, places@, found, waiting);
            }
        } else {
            assert(inside(rows, waiting[waiting.len() - 1]));
            let connected = get_connected_points(p, hiking_map, ignore_slopes);
            push_new(&mut stack, &connected, &places);
            proof {
                lemma_tally(rows, places@, codes, p);
                codes = codes.insert(code(rows[0].len() as int, p));
                let ends = connected_points(rows, ignore_slopes, p);
                assert forall|j: int| 0 <= j < ends.len() implies places@.push(p).contains(
                    (#[trigger] ends[j]).0,
                ) || stack@.contains(ends[j].0) by {
                    if places@.contains(ends[j].0) {
                        let k = choose|k: int| 0 <= k < places@.len() && places@[k] == ends[j].0;
                        assert(places@.push(p)[k] == ends[j].0);
                    }
                }
                assert forall|k: int| waiting.len() - 1 <= k < stack@.len() implies inside(
                    rows,
                    #[trigger] stack@[k],
                ) && among(ends, stack@[k]) by {
                    assert(among(connected@, stack@[k]));
                    let j = choose|j: int| 0 <= j < connected@.len() && (#[trigger] connected@[j]).0 == stack@[k];
                    assert(inside(rows, connected@[j].0));
                }
                lemma_explore_look(rows, ignore_slopes, start, places@, found, waiting, stack@);
                assert(views(lists@.push(connected)) =~= found.push(ends));
            }
            places.push(p);
            lists.push(connected);
        }
    }
    proof {
        assert(stack@ =~= Seq::<Point>::empty());
    }
    (places, lists)
}

/// The column of the first path lies within the row.
proof fn lemma_first_path_range(row: Seq<Tile>, k: int)
    requires
        k <= row.len(),
    ensures
        match first_path(row, k) {
            Some(x) => 0 <= x < k,
            None => true,
        },
    decreases k,
{
    if k > 0 {
        lemma_first_path_range(row, k - 1);
    }
}

fn find_place(places: &Vec<Point>, p: Point) -> (r: Option<usize>)
    ensures
        match r {
            Some(i) => i < places@.len() && places@[i as int] == p,
            None => !places@.contains(p),
        },
{
    let mut i: usize = 0;
    while i < places.len()
        invariant
            i <= places@.len(),
            forall|k: int| 0 <= k < i ==> places@[k] != p,
        decreases places@.len() - i,
    {
        if places[i] == p {
            return Some(i);
        }
        i += 1;
    }
    None
}

/// Writes the number of its place for each of the ends.
fn number_list(places: &Vec<Point>, list: &Vec<(Point, usize)>) -> (r: Vec<(usize, usize)>)
    requires
        forall|j: int| 0 <= j < list@.len() ==> places@.contains((#[trigger] list@[j]).0),
    ensures
        leads(places@, r@, list@),
{
    let mut r: Vec<(usize, usize)> = Vec::new();
    let mut j: usize = 0;
    while j < list.len()
        invariant
            j <= list@.len(),
            r@.len() == j,
            forall|j: int| 0 <= j < list@.len() ==> places@.contains((#[trigger] list@[j]).0),
            forall|k: int|
                0 <= k < j ==> (#[trigger] r@[k]).0 < places@.len() && places@[r@[k].0 as int]
                    == list@[k].0 && r@[k].1 == list@[k].1,
        decreases list@.len() - j,
    {
        let entry = list[j];
        assert(places@.contains(list@[j as int].0));
        let at = match find_place(places, entry.0) {
            Some(i) => i,
            None => 0,
        };
        r.push((at, entry.1));
        j += 1;
    }
    r
}

/// Charts the trails: the junctions that walks lead to from the start, and
/// from each the ends of the walks from it.
pub fn calculate_edges(hiking_map: &[Vec<Tile>], ignore_slopes: bool) -> (r: Chart)
    requires
        countable(map_view(hiking_map@)),
        start_of(map_view(hiking_map@)).is_some(),
        finish_of(map_view(hiking_map@)).is_some(),
    ensures
        charted(map_view(hiking_map@), ignore_slopes, r.places@, views(r.ways@)),
{
    let ghost rows = map_view(hiking_map@);
    let (places, lists) = explore(hiking_map, ignore_slopes);
    let ghost start = start_of(rows)->0;
    let ghost found = views(lists@);
    let mut ways: Vec<Vec<(usize, usize)>> = Vec::new();
    let mut i: usize = 0;
    while i < lists.len()
        invariant
            i <= lists@.len(),
            ways@.len() == i,
            found == views(lists@),
            exploring(rows, ignore_slopes, start, places@, found, Seq::empty()),
            forall|k: int| 0 <= k < i ==> leads(places@, (#[trigger] ways@[k])@, found[k]),
        decreases lists@.len() - i,
    {
        assert forall|j: int| 0 <= j < lists@[i as int]@.len() implies places@.contains(
            (#[trigger] lists@[i as int]@[j]).0,
        ) by {
            assert(found[i as int][j] == lists@[i as int]@[j]);
            assert(places@.contains(found[i as int][j].0) || Seq::<Point>::empty().contains(
                found[i as int][j].0,
            ));
        }
        let list = number_list(&places, &lists[i]);
        ways.push(list);
        i += 1;
    }
    proof {
        let w = views(ways@);
        assert forall|k: int| 0 <= k < places@.len() implies leads(
            places@,
            #[trigger] w[k],
            connected_points(rows, ignore_slopes, places@[k]),
        ) by {
            assert(leads(places@, ways@[k]@, found[k]));
        }
        assert forall|k: int| 0 < k < places@.len() implies #[trigger] reached_before(w, k) by {
            assert(named(found, k, places@[k]));
            let (a, j) = choose|a: int, j: int|
                0 <= a < k && a < found.len() && 0 <= j < found[a].len() && (#[trigger] found[a][j]).0
                    == places@[k];
            assert(leads(places@, ways@[a]@, found[a]));
            assert(places@[w[a][j].0 as int] == places@[k]);
            assert(w[a][j].0 == k);
        }
    }
    Chart { places, ways }
}

/// Every walk of the chart ends at one of its junctions.
pub open spec fn sound(g: Seq<Seq<(usize, usize)>>) -> bool {
    forall|a: int, j: int| 0 <= a < g.len() && 0 <= j < g[a].len() ==> (#[trigger] g[a][j]).0 < g.len()
}

/// No walk of the chart is longer than `d`.
pub open spec fn bounded(g: Seq<Seq<(usize, usize)>>, d: int) -> bool {
    forall|a: int, j: int| 0 <= a < g.len() && 0 <= j < g[a].len() ==> (#[trigger] g[a][j]).1 <= d
}

/// Whether `turns` says how to hike from junction `cur` to `finish`: at
/// each junction which walk to take. The hike comes to no junction that is
/// marked, nor to one twice, and ends when it first comes to `finish`.
pub open spec fn hike_ok(
    g: Seq<Seq<(usize, usize)>>,
    marks: Seq<bool>,
    cur: int,
    turns: Seq<int>,
    finish: int,
) -> bool
    decreases turns.len(),
{
    &&& 0 <= cur < g.len()
    &&& cur < marks.len()
    &&& !marks[cur]
    &&& if cur == finish {
        turns.len() == 0
    } else {
        &&& turns.len() > 0
        &&& 0 <= turns[0] < g[cur].len()
        &&& hike_ok(g, marks.update(cur, true), g[cur][turns[0]].0 as int, turns.drop_first(), finish)
    }
}

/// The length of the hike from `cur` that `turns` describes.
pub open spec fn hike_len(g: Seq<Seq<(usize, usize)>>, cur: int, turns: Seq<int>) -> int
    decreases turns.len(),
{
    if turns.len() == 0 {
        0
    } else {
        g[cur][turns[0]].1 + hike_len(g, g[cur][turns[0]].0 as int, turns.drop_first())
    }
}

/// `best` is the length of the longest hike from `cur` to `finish` that
/// avoids what is marked, counted from `so_far`, unless `before` is more.
pub open spec fn is_best(
    g: Seq<Seq<(usize, usize)>>,
    marks: Seq<bool>,
    cur: int,
    finish: int,
    so_far: int,
    before: int,
    best: int,
) -> bool {
    &&& before <= best
    &&& forall|turns: Seq<int>| #[trigger]
        hike_ok(g, marks, cur, turns, finish) ==> so_far + hike_len(g, cur, turns) <= best
    &&& best == before || exists|turns: Seq<int>| #[trigger]
        hike_ok(g, marks, cur, turns, finish) && so_far + hike_len(g, cur, turns) == best
}

/// Tries every hike on from `current_point` and keeps the length of the
/// longest that comes to `finishing_point` in `max_path_len`. `path` marks
/// the junctions that the hike has come to; `path_len` is its length so far.
pub fn check_all_paths(
    current_point: usize,
    finishing_point: usize,
    path: &mut Vec<bool>,
    path_len: usize,
    edges: &Vec<Vec<(usize, usize)>>,
    max_path_len: &mut usize,
)
    requires
        sound(views(edges@)),
        current_point < edges@.len(),
        old(path)@.len() == edges@.len(),
        exists|d: int|
            0 <= d && #[trigger] bounded(views(edges@), d) && path_len + unset(
                old(path)@,
                edges@.len() as int,
            ) * d <= usize::MAX,
    ensures
        final(path)@ == old(path)@,
        is_best(
            views(edges@),
            old(path)@,
            current_point as int,
            finishing_point as int,
            path_len as int,
            *old(max_path_len) as int,
            *final(max_path_len) as int,
        ),
    decreases unset(old(path)@, edges@.len() as int),
{
    let ghost g = views(edges@);
    let ghost marks = path@;
    let ghost before = *max_path_len;
    let ghost n = edges@.len() as int;
    if path[current_point] {
        return ;
    }
    path.set(current_point, true);
    let ghost marked = path@;
    assert(marked =~= marks.update(current_point as int, true));
    if current_point == finishing_point {
        if *max_path_len < path_len {
            *max_path_len = path_len;
        }
        path.set(current_point, false);
        proof {
            assert(path@ =~= marks);
            assert(hike_ok(g, marks, current_point as int, Seq::<int>::empty(), finishing_point as int));
        }
        return ;
    }
    let ghost d = choose|d: int| 0 <= d && #[trigger] bounded(g, d) && path_len + unset(marks, n) * d <= usize::MAX;
    proof {
        lemma_unset_after(marks, current_point as int, n);
        lemma_unset_nonnegative(marked, n);
        assert(unset(marks, n) * d == unset(marked, n) * d + d) by (nonlinear_arith)
            requires
                unset(marks, n) == unset(marked, n) + 1,
        ;
        assert(0 <= unset(marked, n) * d) by (nonlinear_arith)
            requires
                0 <= unset(marked, n),
                0 <= d,
        ;
    }
    assert(g[current_point as int] == edges@[current_point as int]@);
    let mut j: usize = 0;
    while j < edges[current_point].len()
        invariant
            j <= edges@[current_point as int]@.len(),
            g == views(edges@),
            n == edges@.len(),
            sound(g),
            bounded(g, d),
            0 <= d,
            current_point < n,
            current_point != finishing_point,
            marks.len() == n,
            !marks[current_point as int],
            marked == marks.update(current_point as int, true),
            path@ == marked,
            path_len + d + unset(marked, n) * d <= usize::MAX,
            0 <= unset(marked, n) * d,
            0 <= unset(marked, n) < unset(marks, n),
            marks == old(path)@,
            before == *old(max_path_len),
            g[current_point as int] == edges@[current_point as int]@,
            before <= *max_path_len,
            forall|turns: Seq<int>| #[trigger]
                hike_ok(g, marks, current_point as int, turns, finishing_point as int) && turns[0] < j
                    ==> path_len + hike_len(g, current_point as int, turns) <= *max_path_len,
            *max_path_len == before || exists|turns: Seq<int>| #[trigger]
                hike_ok(g, marks, current_point as int, turns, finishing_point as int) && path_len
                    + hike_len(g, current_point as int, turns) == *max_path_len,
        decreases edges@[current_point as int]@.len() - j,
    {
        let way = edges[current_point][j];
        let ghost earlier = *max_path_len;
        assert(g[current_point as int][j as int] == way);
        assert(bounded(g, d) && path_len + way.1 + unset(marked, n) * d <= usize::MAX);
        check_all_paths(way.0, finishing_point, path, path_len + way.1, edges, max_path_len);
        proof {
            let cur = current_point as int;
            let fin = finishing_point as int;
            assert forall|turns: Seq<int>| #[trigger]
                hike_ok(g, marks, cur, turns, fin) && turns[0] < j + 1 implies path_len + hike_len(
                g,
                cur,
                turns,
            ) <= *max_path_len by {
                if turns[0] == j {
                    assert(hike_ok(g, marked, way.0 as int, turns.drop_first(), fin));
                }
            }
            if *max_path_len != earlier {
                let rest = choose|rest: Seq<int>| #[trigger]
                    hike_ok(g, marked, way.0 as int, rest, fin) && path_len + way.1 + hike_len(
                        g,
                        way.0 as int,
                        rest,
                    ) == *max_path_len;
                let turns = seq![j as int] + rest;
                assert(turns.drop_first() =~= rest);
                assert(hike_ok(g, marks, cur, turns, fin));
                assert(path_len + hike_len(g, cur, turns) == *max_path_len);
            }
        }
        j += 1;
    }
    path.set(current_point, false);
    proof {
        assert(path@ =~= marks);
    }
}

/// The longest of the walks of the chart.
fn longest_walk(edges: &Vec<Vec<(usize, usize)>>) -> (d: usize)
    ensures
        bounded(views(edges@), d as int),
        d == 0 || exists|a: int, j: int|
            0 <= a < edges@.len() && 0 <= j < edges@[a]@.len() && (#[trigger] edges@[a]@[j]).1 == d,
{
    let ghost g = views(edges@);
    let mut d: usize = 0;
    let mut a: usize = 0;
    while a < edges.len()
        invariant
            a <= edges@.len(),
            g == views(edges@),
            forall|x: int, j: int| 0 <= x < a && 0 <= j < g[x].len() ==> (#[trigger] g[x][j]).1 <= d,
            d == 0 || exists|x: int, j: int|
                0 <= x < edges@.len() && 0 <= j < edges@[x]@.len() && (#[trigger] edges@[x]@[j]).1 == d,
        decreases edges@.len() - a,
    {
        let mut j: usize = 0;
        assert(g[a as int] == edges@[a as int]@);
        while j < edges[a].len()
            invariant
                a < edges@.len(),
                j <= edges@[a as int]@.len(),
                g == views(edges@),
                g[a as int] == edges@[a as int]@,
                forall|x: int, j: int| 0 <= x < a && 0 <= j < g[x].len() ==> (#[trigger] g[x][j]).1 <= d,
                forall|k: int| 0 <= k < j ==> (#[trigger] g[a as int][k]).1 <= d,
                d == 0 || exists|x: int, j: int|
                    0 <= x < edges@.len() && 0 <= j < edges@[x]@.len() && (#[trigger] edges@[x]@[j]).1
                        == d,
            decreases edges@[a as int]@.len() - j,
        {
            if edges[a][j].1 > d {
                d = edges[a][j].1;
                assert(edges@[a as int]@[j as int].1 == d);
            }
            j += 1;
        }
        a += 1;
    }
    d
}

/// Some walk of the chart, taken as often as the chart has junctions, is
/// longer than can be counted.
pub open spec fn too_long(g: Seq<Seq<(usize, usize)>>) -> bool {
    exists|a: int, j: int|
        0 <= a < g.len() && 0 <= j < g[a].len() && (#[trigger] g[a][j]).1 * g.len() > usize::MAX
}

/// A list of `n` marks of which none is set.
pub open spec fn blank(n: nat) -> Seq<bool> {
    Seq::new(n, |i: int| false)
}

/// `best` is the length of the longest hike from `start` to `finish` that
/// comes to no junction twice; 0 where there is no such hike.
pub open spec fn is_longest(g: Seq<Seq<(usize, usize)>>, start: int, finish: int, best: int) -> bool {
    is_best(g, blank(g.len()), start, finish, 0, 0, best)
}

/// The length of the longest hike along the chart from `start` to `finish`
/// that comes to no junction twice; `None` where the chart is too long.
pub fn longest_hike(edges: &Vec<Vec<(usize, usize)>>, start: usize, finish: usize) -> (r: Option<usize>)
    requires
        sound(views(edges@)),
        start < edges@.len(),
    ensures
        r.is_none() <==> too_long(views(edges@)),
        match r {
            Some(best) => is_longest(views(edges@), start as int, finish as int, best as int),
            None => true,
        },
{
    let ghost g = views(edges@);
    let n = edges.len();
    let d = longest_walk(edges);
    match n.checked_mul(d) {
        None => {
            proof {
                let (a, j) = choose|a: int, j: int|
                    0 <= a < edges@.len() && 0 <= j < edges@[a]@.len() && (#[trigger] edges@[a]@[j]).1 == d;
                assert(g[a][j].1 * g.len() > usize::MAX) by (nonlinear_arith)
                    requires
                        g[a][j].1 == d,
                        g.len() == n,
                        n * d > usize::MAX,
                ;
            }
            return None;
        },
        Some(_) => {},
    }
    proof {
        assert forall|a: int, j: int| 0 <= a < g.len() && 0 <= j < g[a].len() implies !((
        #[trigger] g[a][j]).1 * g.len() > usize::MAX) by {
            let w = g[a][j].1;
            assert(w * n <= n * d) by (nonlinear_arith)
                requires
                    0 <= w <= d,
                    0 <= n,
            ;
        }
    }
    let mut path: Vec<bool> = Vec::new();
    let mut i: usize = 0;
    while i < n
        invariant
            i <= n,
            path@.len() == i,
            forall|k: int| 0 <= k < i ==> !path@[k],
        decreases n - i,
    {
        path.push(false);
        i += 1;
    }
    let mut best: usize = 0;
    proof {
        assert(path@ =~= blank(n as nat));
        lemma_unset_blank(path@, n as int);
        assert(0 <= d as int && bounded(g, d as int) && 0 + unset(path@, n as int) * d <= usize::MAX)
            by {
            assert(unset(path@, n as int) * d == n * d) by (nonlinear_arith)
                requires
                    unset(path@, n as int) == n,
            ;
        }
    }
    check_all_paths(start, finish, &mut path, 0, edges, &mut best);
    Some(best)
}

/// What the longest hike of a map is, over a chart of it: `None` where the
/// chart is too long, 0 where no walks lead to the end of the hike.
pub open spec fn hiked(
    rows: Seq<Seq<Tile>>,
    ignore_slopes: bool,
    places: Seq<Point>,
    ways: Seq<Seq<(usize, usize)>>,
    r: Option<usize>,
) -> bool {
    &&& charted(rows, ignore_slopes, places, ways)
    &&& r.is_none() <==> too_long(ways)
    &&& match r {
        Some(best) => if places.contains(finish_of(rows)->0) {
            exists|f: int|
                0 <= f < places.len() && #[trigger] places[f] == finish_of(rows)->0 && is_longest(
                    ways,
                    0,
                    f,
                    best as int,
                )
        } else {
            best == 0
        },
        None => true,
    }
}

/// A chart of a map is sound.
proof fn lemma_chart_sound(
    rows: Seq<Seq<Tile>>,
    ignore_slopes: bool,
    places: Seq<Point>,
    ways: Seq<Seq<(usize, usize)>>,
)
    requires
        charted(rows, ignore_slopes, places, ways),
    ensures
        sound(ways),
{
    assert forall|a: int, j: int| 0 <= a < ways.len() && 0 <= j < ways[a].len() implies (
    #[trigger] ways[a][j]).0 < ways.len() by {
        assert(leads(places, ways[a], connected_points(rows, ignore_slopes, places[a])));
    }
}

/// The longest hike from the start to the end that comes to no place
/// twice, where slopes may be walked either way.
pub fn longest_path_without_slopes(hiking_map: &[Vec<Tile>]) -> (r: Option<usize>)
    requires
        countable(map_view(hiking_map@)),
        start_of(map_view(hiking_map@)).is_some(),
        finish_of(map_view(hiking_map@)).is_some(),
    ensures
        exists|places: Seq<Point>, ways: Seq<Seq<(usize, usize)>>| #[trigger]
            hiked(map_view(hiking_map@), true, places, ways, r),
{
    let ghost rows = map_view(hiking_map@);
    let chart = calculate_edges(hiking_map, true);
    let ghost places = chart.places@;
    let ghost ways = views(chart.ways@);
    proof {
        lemma_chart_sound(rows, true, places, ways);
        assert(rows.last() == hiking_map@[hiking_map@.len() - 1]@);
    }
    let end = match finishing_point(hiking_map) {
        Some(p) => p,
        None => Point { x: 0, y: 0 },
    };
    assert(finish_of(rows) == Some(end));
    let r = match find_place(&chart.places, end) {
        Some(f) => longest_hike(&chart.ways, 0, f),
        None => {
            // no junction is the end: the search comes to every hike and
            // finds none that ends there
            match longest_hike(&chart.ways, 0, chart.ways.len()) {
                Some(best) => {
                    proof {
                        let g = ways;
                        if best != 0 {
                            let turns = choose|turns: Seq<int>| #[trigger]
                                hike_ok(g, blank(g.len()), 0, turns, g.len() as int) && 0 + hike_len(
                                    g,
                                    0,
                                    turns,
                                ) == best;
                            lemma_no_hike_outside(g, blank(g.len()), 0, turns);
                        }
                    }
                    Some(best)
                },
                None => None,
            }
        },
    };
    assert(hiked(rows, true, places, ways, r));
    r
}

/// No hike ends at a junction that the chart does not have.
proof fn lemma_no_hike_outside(g: Seq<Seq<(usize, usize)>>, marks: Seq<bool>, cur: int, turns: Seq<int>)
    requires
        sound(g),
    ensures
        !hike_ok(g, marks, cur, turns, g.len() as int),
    decreases turns.len(),
{
    if hike_ok(g, marks, cur, turns, g.len() as int) {
        lemma_no_hike_outside(g, marks.update(cur, true), g[cur][turns[0]].0 as int, turns.drop_first());
    }
}

/// The longest hike where slopes may be walked either way.
pub fn part2(input: &HikingMap) -> (r: Option<usize>)
    requires
        countable(map_view(input@)),
        start_of(map_view(input@)).is_some(),
        finish_of(map_view(input@)).is_some(),
    ensures
        exists|places: Seq<Point>, ways: Seq<Seq<(usize, usize)>>| #[trigger]
            hiked(map_view(input@), true, places, ways, r),
{
    longest_path_without_slopes(input.as_slice())
}

/// The junction where the walks end that `turns` names one after the
/// other from `from` on: at each junction, which walk to take.
pub open spec fn walk_end(g: Seq<Seq<(usize, usize)>>, from: int, turns: Seq<int>) -> int
    decreases turns.len(),
{
    if turns.len() == 0 {
        from
    } else {
        g[walk_end(g, from, turns.drop_last())][turns.last()].0 as int
    }
}

/// Whether `turns` names a walk of the chart at each junction it comes to.
pub open spec fn walk_ok(g: Seq<Seq<(usize, usize)>>, from: int, turns: Seq<int>) -> bool
    decreases turns.len(),
{
    &&& 0 <= from < g.len()
    &&& turns.len() > 0 ==> walk_ok(g, from, turns.drop_last()) && 0 <= turns.last() < g[walk_end(
        g,
        from,
        turns.drop_last(),
    )].len()
}

/// The length of the walks that `turns` names, taken together.
pub open spec fn walk_len(g: Seq<Seq<(usize, usize)>>, from: int, turns: Seq<int>) -> int
    decreases turns.len(),
{
    if turns.len() == 0 {
        0
    } else {
        walk_len(g, from, turns.drop_last()) + g[walk_end(g, from, turns.drop_last())][turns.last()].1
    }
}

/// Walks lead from `v` to `t`, one at least.
pub open spec fn reaches(g: Seq<Seq<(usize, usize)>>, v: int, t: int) -> bool {
    exists|turns: Seq<int>| #[trigger] walk_ok(g, v, turns) && turns.len() > 0 && walk_end(g, v, turns) == t
}

/// Walks lead round in a circle.
pub open spec fn circle(g: Seq<Seq<(usize, usize)>>) -> bool {
    exists|v: int| #[trigger] reaches(g, v, v)
}

/// `best` is the length of the longest way along walks of the chart from
/// `start` to `finish`.
pub open spec fn is_longest_walk(g: Seq<Seq<(usize, usize)>>, start: int, finish: int, best: int) -> bool {
    &&& exists|turns: Seq<int>| #[trigger]
        walk_ok(g, start, turns) && walk_end(g, start, turns) == finish && walk_len(g, start, turns)
            == best
    &&& forall|turns: Seq<int>| #[trigger]
        walk_ok(g, start, turns) && walk_end(g, start, turns) == finish ==> walk_len(g, start, turns)
            <= best
}

/// A way along walks ends at a junction of the chart.
proof fn lemma_walk_inside(g: Seq<Seq<(usize, usize)>>, from: int, turns: Seq<int>)
    requires
        sound(g),
        walk_ok(g, from, turns),
    ensures
        0 <= walk_end(g, from, turns) < g.len(),
    decreases turns.len(),
{
    if turns.len() > 0 {
        lemma_walk_inside(g, from, turns.drop_last());
    }
}

/// A way along walks can be followed by one more walk.
proof fn lemma_walk_push(g: Seq<Seq<(usize, usize)>>, from: int, turns: Seq<int>, j: int)
    requires
        walk_ok(g, from, turns),
        0 <= j < g[walk_end(g, from, turns)].len(),
    ensures
        walk_ok(g, from, turns.push(j)),
        walk_end(g, from, turns.push(j)) == g[walk_end(g, from, turns)][j].0,
        walk_len(g, from, turns.push(j)) == walk_len(g, from, turns) + g[walk_end(g, from, turns)][j].1,
{
    assert(turns.push(j).drop_last() =~= turns);
}

/// Where walks lead from `v` to `u`, and a walk from `u` to `t`, walks
/// lead from `v` to `t`.
proof fn lemma_reaches_on(g: Seq<Seq<(usize, usize)>>, v: int, u: int, j: int)
    requires
        0 <= u < g.len(),
        0 <= j < g[u].len(),
        v == u || reaches(g, v, u),
        0 <= v < g.len(),
    ensures
        reaches(g, v, g[u][j].0 as int),
{
    if v != u || reaches(g, v, u) {
        let turns = if reaches(g, v, u) {
            choose|turns: Seq<int>| #[trigger] walk_ok(g, v, turns) && turns.len() > 0 && walk_end(g, v, turns) == u
        } else {
            Seq::<int>::empty()
        };
        lemma_walk_push(g, v, turns, j);
        assert(walk_ok(g, v, turns.push(j)) && turns.push(j).len() > 0);
    } else {
        let turns = Seq::<int>::empty();
        lemma_walk_push(g, v, turns, j);
        assert(walk_ok(g, v, turns.push(j)) && turns.push(j).len() > 0);
    }
}

/// `t` stands among the first `k` of `sorted`.
pub open spec fn earlier(sorted: Seq<usize>, k: int, t: int) -> bool {
    exists|i: int| 0 <= i < k && i < sorted.len() && #[trigger] sorted[i] == t
}

/// The junctions in `sorted` are those done with; none stands there twice;
/// and every walk from one of them ends at one that stands before it.
pub open spec fn sorted_inv(
    g: Seq<Seq<(usize, usize)>>,
    sorted: Seq<usize>,
    visited: Seq<bool>,
    entered: Seq<bool>,
) -> bool {
    &&& visited.len() == g.len()
    &&& entered.len() == g.len()
    &&& forall|v: int| 0 <= v < g.len() && #[trigger] visited[v] ==> entered[v]
    &&& forall|k: int| 0 <= k < sorted.len() ==> (#[trigger] sorted[k]) < g.len() && visited[sorted[k] as int]
    &&& forall|v: int| 0 <= v < g.len() && #[trigger] visited[v] ==> earlier(sorted, sorted.len() as int, v)
    &&& sorted.no_duplicates()
    &&& forall|k: int, j: int|
        0 <= k < sorted.len() && 0 <= j < g[sorted[k] as int].len() ==> earlier(
            sorted,
            k,
            (#[trigger] g[sorted[k] as int][j]).0 as int,
        )
}

/// A junction done with can be put behind the others once every walk from
/// it ends at one done with.
proof fn lemma_sorted_push(
    g: Seq<Seq<(usize, usize)>>,
    sorted: Seq<usize>,
    visited: Seq<bool>,
    entered: Seq<bool>,
    current: usize,
)
    requires
        sound(g),
        sorted_inv(g, sorted, visited, entered),
        current < g.len(),
        entered[current as int],
        !visited[current as int],
        forall|j: int| 0 <= j < g[current as int].len() ==> visited[(#[trigger] g[current as int][j]).0 as int],
    ensures
        sorted_inv(g, sorted.push(current), visited.update(current as int, true), entered),
{
    let more = sorted.push(current);
    let done = visited.update(current as int, true);
    let m = sorted.len() as int;
    assert forall|k: int| 0 <= k < more.len() implies (#[trigger] more[k]) < g.len() && done[more[k] as int] by {
        if k < m {
            assert(more[k] == sorted[k]);
        }
    }
    assert forall|v: int| 0 <= v < g.len() && #[trigger] done[v] implies earlier(more, more.len() as int, v) by {
        if v == current {
            assert(more[m] == v);
        } else {
            assert(visited[v]);
            let i = choose|i: int| 0 <= i < m && i < sorted.len() && #[trigger] sorted[i] == v;
            assert(more[i] == v);
        }
    }
    assert(more.no_duplicates()) by {
        assert forall|a: int, b: int| 0 <= a < more.len() && 0 <= b < more.len() && a != b implies more[a]
            != more[b] by {
            if a < m && b < m {
                assert(more[a] == sorted[a] && more[b] == sorted[b]);
            } else if a < m {
                assert(more[a] == sorted[a]);
                assert(visited[sorted[a] as int]);
            } else {
                assert(more[b] == sorted[b]);
                assert(visited[sorted[b] as int]);
            }
        }
    }
    assert forall|k: int, j: int| 0 <= k < more.len() && 0 <= j < g[more[k] as int].len() implies earlier(
        more,
        k,
        (#[trigger] g[more[k] as int][j]).0 as int,
    ) by {
        let t = g[more[k] as int][j].0 as int;
        if k < m {
            assert(more[k] == sorted[k]);
            assert(earlier(sorted, k, g[sorted[k] as int][j].0 as int));
            let i = choose|i: int| 0 <= i < k && i < sorted.len() && #[trigger] sorted[i] == t;
            assert(more[i] == t);
        } else {
            assert(more[k] == current);
            assert(visited[g[current as int][j].0 as int]);
            let i = choose|i: int| 0 <= i < m && i < sorted.len() && #[trigger] sorted[i] == t;
            assert(more[i] == t);
        }
    }
}

/// Puts the junctions that walks lead to from `current_point` into
/// `sorted`, each behind all those that its walks end at, and
/// `current_point` last. `entered` marks the junctions that the sorting has
/// come to, `visited` those done with. Gives up, with `false`, where walks
/// lead round in a circle.
pub fn topological_sort(
    edges: &Vec<Vec<(usize, usize)>>,
    current_point: usize,
    sorted: &mut Vec<usize>,
    visited: &mut Vec<bool>,
    entered: &mut Vec<bool>,
) -> (ok: bool)
    requires
        sound(views(edges@)),
        current_point < edges@.len(),
        sorted_inv(views(edges@), old(sorted)@, old(visited)@, old(entered)@),
        !old(entered)@[current_point as int],
        forall|v: int|
            0 <= v < edges@.len() && #[trigger] old(entered)@[v] && !old(visited)@[v] ==> reaches(
                views(edges@),
                v,
                current_point as int,
            ),
    ensures
        !ok ==> circle(views(edges@)),
        ok ==> sorted_inv(views(edges@), final(sorted)@, final(visited)@, final(entered)@),
        ok ==> final(sorted)@.len() > 0 && final(sorted)@.last() == current_point,
        ok ==> forall|v: int| 0 <= v < edges@.len() && old(entered)@[v] ==> #[trigger] final(entered)@[v],
        ok ==> forall|v: int|
            0 <= v < edges@.len() ==> (#[trigger] final(entered)@[v] && !final(visited)@[v] <==> old(
                entered,
            )@[v] && !old(visited)@[v]),
    decreases unset(old(entered)@, edges@.len() as int),
{
    let ghost g = views(edges@);
    let ghost n = edges@.len() as int;
    let ghost entered0 = entered@;
    let ghost visited0 = visited@;
    entered.set(current_point, true);
    let ghost marked = entered@;
    proof {
        assert(marked =~= entered0.update(current_point as int, true));
        lemma_unset_after(entered0, current_point as int, n);
        lemma_unset_nonnegative(marked, n);
    }
    assert(g[current_point as int] == edges@[current_point as int]@);
    let mut j: usize = 0;
    while j < edges[current_point].len()
        invariant
            j <= edges@[current_point as int]@.len(),
            g == views(edges@),
            n == edges@.len(),
            sound(g),
            current_point < n,
            g[current_point as int] == edges@[current_point as int]@,
            entered0 == old(entered)@,
            visited0 == old(visited)@,
            entered0.len() == n,
            visited0.len() == n,
            !entered0[current_point as int],
            sorted_inv(g, sorted@, visited@, entered@),
            entered@[current_point as int],
            !visited@[current_point as int],
            forall|v: int| 0 <= v < n && entered0[v] ==> #[trigger] entered@[v],
            forall|v: int|
                0 <= v < n && v != current_point ==> (#[trigger] entered@[v] && !visited@[v] <==> entered0[v]
                    && !visited0[v]),
            forall|v: int|
                0 <= v < n && #[trigger] entered0[v] && !visited0[v] ==> reaches(g, v, current_point as int),
            forall|a: int| 0 <= a < j ==> visited@[(#[trigger] g[current_point as int][a]).0 as int],
            0 <= unset(entered@, n) < unset(entered0, n),
        decreases edges@[current_point as int]@.len() - j,
    {
        let next = edges[current_point][j].0;
        assert(g[current_point as int][j as int].0 == next);
        assert(next < n);
        if !visited[next] {
            if entered[next] {
                proof {
                    if next == current_point {
                        lemma_reaches_on(g, current_point as int, current_point as int, j as int);
                    } else {
                        assert(entered0[next as int] && !visited0[next as int]);
                        lemma_reaches_on(g, next as int, current_point as int, j as int);
                    }
                    assert(reaches(g, next as int, next as int));
                }
                return false;
            }
            let ghost entered1 = entered@;
            let ghost visited1 = visited@;
            proof {
                assert forall|v: int| 0 <= v < n && #[trigger] entered1[v] && !visited1[v] implies reaches(
                    g,
                    v,
                    next as int,
                ) by {
                    if v != current_point {
                        assert(entered0[v] && !visited0[v]);
                    }
                    lemma_reaches_on(g, v, current_point as int, j as int);
                }
            }
            if !topological_sort(edges, next, sorted, visited, entered) {
                return false;
            }
            proof {
                lemma_unset_monotone(entered1, entered@, n);
                lemma_unset_nonnegative(entered@, n);
                assert forall|a: int| 0 <= a < j + 1 implies visited@[(
                #[trigger] g[current_point as int][a]).0 as int] by {
                    let t = g[current_point as int][a].0 as int;
                    if a < j {
                        assert(visited1[t]);
                        assert(entered1[t]);
                        if !visited@[t] {
                            assert(entered@[t] && !visited@[t]);
                        }
                    } else {
                        assert(sorted@[sorted@.len() - 1] == next);
                    }
                }
                assert forall|v: int| 0 <= v < n && v != current_point implies (#[trigger] entered@[v]
                    && !visited@[v] <==> entered0[v] && !visited0[v]) by {
                    assert(entered@[v] && !visited@[v] <==> entered1[v] && !visited1[v]);
                }
                assert(entered@[current_point as int] && !visited@[current_point as int]) by {
                    assert(entered1[current_point as int] && !visited1[current_point as int]);
                }
            }
        }
        j += 1;
    }
    proof {
        lemma_sorted_push(g, sorted@, visited@, entered@, current_point);
    }
    let ghost visited2 = visited@;
    visited.set(current_point, true);
    sorted.push(current_point);
    proof {
        assert(visited@ =~= visited2.update(current_point as int, true));
    }
    true
}

/// Why no longest way was found.
#[derive(Clone, Copy, Debug, PartialEq, Eq)]
pub enum HikeError {
    /// Walks lead round in a circle.
    Circle,
    /// No walks lead to the end of the hike.
    NoWay,
    /// A way is longer than can be counted.
    TooLong,
}

/// `x` stands in `sorted` at place `k` or behind it.
spec fn later(sorted: Seq<usize>, k: int, x: int) -> bool {
    exists|i: int| k <= i < sorted.len() && #[trigger] sorted[i] == x
}

/// Every way from a junction done with ends at a junction done with.
proof fn lemma_walk_sorted(
    g: Seq<Seq<(usize, usize)>>,
    sorted: Seq<usize>,
    visited: Seq<bool>,
    entered: Seq<bool>,
    start: int,
    turns: Seq<int>,
)
    requires
        sound(g),
        sorted_inv(g, sorted, visited, entered),
        0 <= start < g.len(),
        visited[start],
        walk_ok(g, start, turns),
    ensures
        0 <= walk_end(g, start, turns) < g.len(),
        visited[walk_end(g, start, turns)],
    decreases turns.len(),
{
    lemma_walk_inside(g, start, turns);
    if turns.len() > 0 {
        let head = turns.drop_last();
        lemma_walk_sorted(g, sorted, visited, entered, start, head);
        let x = walk_end(g, start, head);
        assert(earlier(sorted, sorted.len() as int, x));
        let i = choose|i: int| 0 <= i < sorted.len() && i < sorted.len() && #[trigger] sorted[i] == x;
        let t = g[sorted[i] as int][turns.last()].0 as int;
        assert(earlier(sorted, i, t));
        let i2 = choose|i2: int| 0 <= i2 < i && i2 < sorted.len() && #[trigger] sorted[i2] == t;
        assert(visited[sorted[i2] as int]);
    }
}

/// A way to the junction that stands just before place `k` is empty, or
/// its last walk begins at a junction that stands at `k` or behind it.
proof fn lemma_source_later(
    g: Seq<Seq<(usize, usize)>>,
    sorted: Seq<usize>,
    visited: Seq<bool>,
    entered: Seq<bool>,
    start: int,
    k: int,
    turns: Seq<int>,
)
    requires
        sound(g),
        sorted_inv(g, sorted, visited, entered),
        0 <= start < g.len(),
        visited[start],
        walk_ok(g, start, turns),
        1 <= k <= sorted.len(),
        walk_end(g, start, turns) == sorted[k - 1],
        turns.len() > 0,
    ensures
        later(sorted, k, walk_end(g, start, turns.drop_last())),
{
    let head = turns.drop_last();
    lemma_walk_sorted(g, sorted, visited, entered, start, head);
    let x = walk_end(g, start, head);
    assert(earlier(sorted, sorted.len() as int, x));
    let i = choose|i: int| 0 <= i < sorted.len() && i < sorted.len() && #[trigger] sorted[i] == x;
    let t = g[sorted[i] as int][turns.last()].0 as int;
    assert(earlier(sorted, i, t));
    let i2 = choose|i2: int| 0 <= i2 < i && i2 < sorted.len() && #[trigger] sorted[i2] == t;
    assert(sorted[i2] == sorted[k - 1]);
    assert(i2 == k - 1);
    assert(k <= i);
}

/// Each junction that ways are known to has a way of the length noted.
spec fn attained(g: Seq<Seq<(usize, usize)>>, start: int, dist: Seq<usize>, reached: Seq<bool>) -> bool {
    forall|v: int|
        0 <= v < g.len() && #[trigger] reached[v] ==> exists|turns: Seq<int>| #[trigger]
            walk_ok(g, start, turns) && walk_end(g, start, turns) == v && walk_len(g, start, turns)
                == dist[v]
}

/// The way has been taken into account: it is empty, or its last walk
/// begins at a junction at place `k` or behind it, or at `u` and is one of
/// the first `j` walks from there.
spec fn counted(
    g: Seq<Seq<(usize, usize)>>,
    sorted: Seq<usize>,
    start: int,
    k: int,
    u: int,
    j: int,
    turns: Seq<int>,
) -> bool {
    turns.len() == 0 || later(sorted, k, walk_end(g, start, turns.drop_last())) || (walk_end(
        g,
        start,
        turns.drop_last(),
    ) == u && turns.last() < j)
}

/// No way taken into account is longer than the length noted for its end.
spec fn covered(
    g: Seq<Seq<(usize, usize)>>,
    sorted: Seq<usize>,
    start: int,
    k: int,
    u: int,
    j: int,
    dist: Seq<usize>,
    reached: Seq<bool>,
) -> bool {
    forall|turns: Seq<int>| #[trigger]
        walk_ok(g, start, turns) && counted(g, sorted, start, k, u, j, turns) ==> reached[walk_end(
            g,
            start,
            turns,
        )] && walk_len(g, start, turns) <= dist[walk_end(g, start, turns)]
}

/// Some way from `start` is longer than can be counted.
pub open spec fn overlong(g: Seq<Seq<(usize, usize)>>, start: int) -> bool {
    exists|turns: Seq<int>| #[trigger] walk_ok(g, start, turns) && walk_len(g, start, turns) > usize::MAX
}

/// No way leads from `start` to `finish`.
pub open spec fn no_way(g: Seq<Seq<(usize, usize)>>, start: int, finish: int) -> bool {
    forall|turns: Seq<int>| #[trigger] walk_ok(g, start, turns) ==> walk_end(g, start, turns) != finish
}

/// The longest way from `start` to `finish`, from the junctions sorted so
/// that every walk ends before the junction where it begins.
fn longest_from(
    edges: &Vec<Vec<(usize, usize)>>,
    sorted: &Vec<usize>,
    start: usize,
    finish: usize,
    Ghost(visited): Ghost<Seq<bool>>,
    Ghost(entered): Ghost<Seq<bool>>,
) -> (r: Result<usize, HikeError>)
    requires
        sound(views(edges@)),
        sorted_inv(views(edges@), sorted@, visited, entered),
        start < edges@.len(),
        finish < edges@.len(),
        visited[start as int],
    ensures
        match r {
            Ok(best) => is_longest_walk(views(edges@), start as int, finish as int, best as int),
            Err(HikeError::NoWay) => no_way(views(edges@), start as int, finish as int),
            Err(HikeError::TooLong) => overlong(views(edges@), start as int),
            Err(HikeError::Circle) => false,
        },
{
    let ghost g = views(edges@);
    let n = edges.len();
    let m = sorted.len();
    let mut dist: Vec<usize> = Vec::new();
    let mut reached: Vec<bool> = Vec::new();
    let mut i: usize = 0;
    while i < n
        invariant
            i <= n,
            dist@.len() == i,
            reached@.len() == i,
            forall|v: int| 0 <= v < i ==> dist@[v] == 0 && !reached@[v],
        decreases n - i,
    {
        dist.push(0);
        reached.push(false);
        i += 1;
    }
    reached.set(start, true);
    proof {
        let none = Seq::<int>::empty();
        assert(walk_ok(g, start as int, none) && walk_end(g, start as int, none) == start && walk_len(
            g,
            start as int,
            none,
        ) == 0);
        assert forall|turns: Seq<int>| #[trigger]
            walk_ok(g, start as int, turns) && counted(g, sorted@, start as int, m as int, -1, 0, turns) implies reached@[walk_end(
            g,
            start as int,
            turns,
        )] && walk_len(g, start as int, turns) <= dist@[walk_end(g, start as int, turns)] by {
            assert(turns.len() == 0);
        }
    }
    let mut k: usize = m;
    while k > 0
        invariant
            k <= m,
            m == sorted@.len(),
            n == edges@.len(),
            g == views(edges@),
            sound(g),
            sorted_inv(g, sorted@, visited, entered),
            start < n,
            visited[start as int],
            dist@.len() == n,
            reached@.len() == n,
            attained(g, start as int, dist@, reached@),
            covered(g, sorted@, start as int, k as int, -1, 0, dist@, reached@),
        decreases k,
    {
        let u = sorted[k - 1];
        assert(g[u as int] == edges@[u as int]@);
        let du = dist[u];
        let ghost s = start as int;
        if reached[u] {
            let ghost to_u = choose|turns: Seq<int>| #[trigger]
                walk_ok(g, s, turns) && walk_end(g, s, turns) == u && walk_len(g, s, turns) == du;
            proof {
                assert forall|turns: Seq<int>| #[trigger]
                    walk_ok(g, s, turns) && walk_end(g, s, turns) == u implies walk_len(g, s, turns)
                    <= du by {
                    if turns.len() > 0 {
                        lemma_source_later(g, sorted@, visited, entered, s, k as int, turns);
                    }
                    assert(counted(g, sorted@, s, k as int, -1, 0, turns));
                }
                assert forall|turns: Seq<int>| #[trigger]
                    walk_ok(g, s, turns) && counted(g, sorted@, s, k as int, u as int, 0, turns) implies reached@[walk_end(
                    g,
                    s,
                    turns,
                )] && walk_len(g, s, turns) <= dist@[walk_end(g, s, turns)] by {
                    assert(counted(g, sorted@, s, k as int, -1, 0, turns));
                }
            }
            let mut j: usize = 0;
            while j < edges[u].len()
                invariant
                    j <= edges@[u as int]@.len(),
                    1 <= k <= m,
                    m == sorted@.len(),
                    n == edges@.len(),
                    g == views(edges@),
                    g[u as int] == edges@[u as int]@,
                    sound(g),
                    u < n,
                    s == start,
                    start < n,
                    dist@.len() == n,
                    reached@.len() == n,
                    walk_ok(g, s, to_u) && walk_end(g, s, to_u) == u && walk_len(g, s, to_u) == du,
                    forall|turns: Seq<int>| #[trigger]
                        walk_ok(g, s, turns) && walk_end(g, s, turns) == u ==> walk_len(g, s, turns) <= du,
                    attained(g, s, dist@, reached@),
                    covered(g, sorted@, s, k as int, u as int, j as int, dist@, reached@),
                decreases edges@[u as int]@.len() - j,
            {
                let way = edges[u][j];
                assert(g[u as int][j as int] == way);
                let t = way.0;
                assert(t < n);
                let ghost dist0 = dist@;
                let ghost reached0 = reached@;
                proof {
                    lemma_walk_push(g, s, to_u, j as int);
                }
                let nd = match du.checked_add(way.1) {
                    Some(nd) => nd,
                    None => {
                        assert(walk_ok(g, s, to_u.push(j as int)) && walk_len(g, s, to_u.push(j as int))
                            > usize::MAX);
                        return Err(HikeError::TooLong);
                    },
                };
                if !reached[t] || dist[t] < nd {
                    dist.set(t, nd);
                }
                reached.set(t, true);
                proof {
                    assert forall|v: int| 0 <= v < g.len() && #[trigger] reached@[v] implies exists|
                        turns: Seq<int>,
                    | #[trigger]
                        walk_ok(g, s, turns) && walk_end(g, s, turns) == v && walk_len(g, s, turns)
                            == dist@[v] by {
                        if v == t && dist@[v] == nd {
                            let w = to_u.push(j as int);
                            assert(walk_ok(g, s, w) && walk_end(g, s, w) == v && walk_len(g, s, w) == dist@[v]);
                        } else {
                            assert(reached0[v]);
                            assert(dist@[v] == dist0[v]);
                            let w = choose|turns: Seq<int>| #[trigger]
                                walk_ok(g, s, turns) && walk_end(g, s, turns) == v && walk_len(g, s, turns)
                                    == dist0[v];
                            assert(walk_ok(g, s, w) && walk_end(g, s, w) == v && walk_len(g, s, w) == dist@[v]);
                        }
                    }
                    assert forall|turns: Seq<int>| #[trigger]
                        walk_ok(g, s, turns) && counted(g, sorted@, s, k as int, u as int, j + 1, turns) implies reached@[walk_end(
                        g,
                        s,
                        turns,
                    )] && walk_len(g, s, turns) <= dist@[walk_end(g, s, turns)] by {
                        lemma_walk_inside(g, s, turns);
                        let e = walk_end(g, s, turns);
                        if counted(g, sorted@, s, k as int, u as int, j as int, turns) {
                            assert(reached0[e] && walk_len(g, s, turns) <= dist0[e]);
                        } else {
                            let head = turns.drop_last();
                            assert(walk_ok(g, s, head) && walk_end(g, s, head) == u);
                            assert(walk_len(g, s, head) <= du);
                            assert(e == t);
                        }
                    }
                }
                j += 1;
            }
        }
        proof {
            assert forall|turns: Seq<int>| #[trigger]
                walk_ok(g, s, turns) && counted(g, sorted@, s, k - 1, -1, 0, turns) implies reached@[walk_end(
                g,
                s,
                turns,
            )] && walk_len(g, s, turns) <= dist@[walk_end(g, s, turns)] by {
                if turns.len() > 0 {
                    let head = turns.drop_last();
                    let x = walk_end(g, s, head);
                    let i = choose|i: int| k - 1 <= i < sorted@.len() && #[trigger] sorted@[i] == x;
                    if i == k - 1 {
                        assert(x == u);
                        if reached@[u as int] {
                            assert(counted(g, sorted@, s, k as int, u as int, g[u as int].len() as int, turns));
                        } else {
                            if head.len() > 0 {
                                lemma_source_later(g, sorted@, visited, entered, s, k as int, head);
                            }
                            assert(walk_ok(g, s, head));
                            assert(counted(g, sorted@, s, k as int, -1, 0, head));
                            assert(covered(g, sorted@, s, k as int, -1, 0, dist@, reached@));
                            assert(reached@[walk_end(g, s, head)]);
                            assert(false);
                        }
                    } else {
                        assert(later(sorted@, k as int, x));
                        assert(counted(g, sorted@, s, k as int, -1, 0, turns));
                        if reached@[u as int] {
                            assert(counted(g, sorted@, s, k as int, u as int, g[u as int].len() as int, turns));
                        }
                    }
                } else if reached@[u as int] {
                    assert(counted(g, sorted@, s, k as int, u as int, g[u as int].len() as int, turns));
                }
            }
        }
        k -= 1;
    }
    proof {
        let s = start as int;
        assert forall|turns: Seq<int>| #[trigger] walk_ok(g, s, turns) implies counted(
            g,
            sorted@,
            s,
            0,
            -1,
            0,
            turns,
        ) by {
            if turns.len() > 0 {
                let head = turns.drop_last();
                lemma_walk_sorted(g, sorted@, visited, entered, s, head);
                let x = walk_end(g, s, head);
                assert(earlier(sorted@, sorted@.len() as int, x));
                let i = choose|i: int| 0 <= i < sorted@.len() && i < sorted@.len() && #[trigger] sorted@[i] == x;
                assert(later(sorted@, 0, x));
            }
        }
    }
    if reached[finish] {
        Ok(dist[finish])
    } else {
        Err(HikeError::NoWay)
    }
}

/// Those of the walks `list` that do not end at junction `start`.
pub open spec fn kept_ways(list: Seq<(usize, usize)>, start: int) -> Seq<(usize, usize)>
    decreases list.len(),
{
    if list.len() == 0 {
        Seq::empty()
    } else if list.last().0 == start {
        kept_ways(list.drop_last(), start)
    } else {
        kept_ways(list.drop_last(), start).push(list.last())
    }
}

/// The chart without the walks that lead back to junction `start`.
pub open spec fn pruned(g: Seq<Seq<(usize, usize)>>, start: int) -> Seq<Seq<(usize, usize)>> {
    Seq::new(g.len(), |a: int| kept_ways(g[a], start))
}

/// Every walk kept is one of the list.
proof fn lemma_kept_ways(list: Seq<(usize, usize)>, start: int)
    ensures
        forall|j: int|
            0 <= j < kept_ways(list, start).len() ==> list.contains(#[trigger] kept_ways(list, start)[j]),
    decreases list.len(),
{
    if list.len() > 0 {
        let head = list.drop_last();
        lemma_kept_ways(head, start);
        assert forall|j: int| 0 <= j < kept_ways(list, start).len() implies list.contains(
            #[trigger] kept_ways(list, start)[j],
        ) by {
            let w = kept_ways(list, start)[j];
            if j < kept_ways(head, start).len() {
                assert(w == kept_ways(head, start)[j]);
                let i = choose|i: int| 0 <= i < head.len() && head[i] == w;
                assert(list[i] == w);
            } else {
                assert(list[list.len() - 1] == w);
            }
        }
    }
}

/// Takes away the walks that lead back to junction `start`.
fn prune(edges: &Vec<Vec<(usize, usize)>>, start: usize) -> (r: Vec<Vec<(usize, usize)>>)
    requires
        sound(views(edges@)),
    ensures
        views(r@) == pruned(views(edges@), start as int),
        sound(views(r@)),
        r@.len() == edges@.len(),
{
    let ghost g = views(edges@);
    let mut r: Vec<Vec<(usize, usize)>> = Vec::new();
    let mut a: usize = 0;
    while a < edges.len()
        invariant
            a <= edges@.len(),
            g == views(edges@),
            sound(g),
            r@.len() == a,
            forall|x: int| 0 <= x < a ==> (#[trigger] r@[x])@ == kept_ways(g[x], start as int),
        decreases edges@.len() - a,
    {
        let list = &edges[a];
        assert(g[a as int] == list@);
        let mut kept: Vec<(usize, usize)> = Vec::new();
        let mut j: usize = 0;
        assert(list@.take(0) =~= Seq::<(usize, usize)>::empty());
        while j < list.len()
            invariant
                j <= list@.len(),
                kept@ == kept_ways(list@.take(j as int), start as int),
            decreases list@.len() - j,
        {
            assert(list@.take(j + 1).drop_last() =~= list@.take(j as int));
            assert(list@.take(j + 1).last() == list@[j as int]);
            if list[j].0 != start {
                kept.push(list[j]);
            }
            j += 1;
        }
        assert(list@.take(j as int) =~= list@);
        r.push(kept);
        a += 1;
    }
    proof {
        let p = pruned(g, start as int);
        assert(views(r@) =~= p);
        assert forall|x: int, j: int| 0 <= x < p.len() && 0 <= j < p[x].len() implies (#[trigger] p[x][j]).0
            < p.len() by {
            lemma_kept_ways(g[x], start as int);
            let w = p[x][j];
            let i = choose|i: int| 0 <= i < g[x].len() && g[x][i] == w;
            assert(g[x][i].0 < g.len());
        }
    }
    r
}

/// What the longest way of a map is where slopes are walked downhill
/// only, over a chart of it. Walks that lead back to the start are left
/// out.
pub open spec fn climbed(
    rows: Seq<Seq<Tile>>,
    places: Seq<Point>,
    ways: Seq<Seq<(usize, usize)>>,
    r: Result<usize, HikeError>,
) -> bool {
    &&& charted(rows, false, places, ways)
    &&& match r {
        Ok(best) => exists|f: int|
            0 <= f < places.len() && #[trigger] places[f] == finish_of(rows)->0 && is_longest_walk(
                pruned(ways, 0),
                0,
                f,
                best as int,
            ),
        Err(HikeError::Circle) => circle(pruned(ways, 0)),
        Err(HikeError::NoWay) => forall|f: int|
            0 <= f < places.len() && #[trigger] places[f] == finish_of(rows)->0 ==> no_way(
                pruned(ways, 0),
                0,
                f,
            ),
        Err(HikeError::TooLong) => overlong(pruned(ways, 0), 0),
    }
}

/// The longest way from the start to the end of the hike where slopes are
/// walked downhill only.
pub fn longest_path_with_slopes(hiking_map: &[Vec<Tile>]) -> (r: Result<usize, HikeError>)
    requires
        countable(map_view(hiking_map@)),
        start_of(map_view(hiking_map@)).is_some(),
        finish_of(map_view(hiking_map@)).is_some(),
    ensures
        exists|places: Seq<Point>, ways: Seq<Seq<(usize, usize)>>| #[trigger]
            climbed(map_view(hiking_map@), places, ways, r),
{
    let ghost rows = map_view(hiking_map@);
    let chart = calculate_edges(hiking_map, false);
    let ghost places = chart.places@;
    let ghost g = views(chart.ways@);
    proof {
        lemma_chart_sound(rows, false, places, g);
        assert(rows.last() == hiking_map@[hiking_map@.len() - 1]@);
    }
    let ways = prune(&chart.ways, 0);
    let ghost h = views(ways@);
    let n = ways.len();
    let mut visited: Vec<bool> = Vec::new();
    let mut entered: Vec<bool> = Vec::new();
    let mut i: usize = 0;
    while i < n
        invariant
            i <= n,
            visited@.len() == i,
            entered@.len() == i,
            forall|v: int| 0 <= v < i ==> !visited@[v] && !entered@[v],
        decreases n - i,
    {
        visited.push(false);
        entered.push(false);
        i += 1;
    }
    let mut sorted: Vec<usize> = Vec::new();
    if !topological_sort(&ways, 0, &mut sorted, &mut visited, &mut entered) {
        let r = Err(HikeError::Circle);
        assert(climbed(rows, places, g, r));
        return r;
    }
    let end = match finishing_point(hiking_map) {
        Some(p) => p,
        None => Point { x: 0, y: 0 },
    };
    assert(finish_of(rows) == Some(end));
    let r = match find_place(&chart.places, end) {
        Some(f) => {
            assert(sorted@[sorted@.len() - 1] == 0);
            longest_from(&ways, &sorted, 0, f, Ghost(visited@), Ghost(entered@))
        },
        None => Err(HikeError::NoWay),
    };
    proof {
        match r {
            Ok(best) => {
                let f = choose|f: int| 0 <= f < places.len() && places[f] == end;
                assert(places.no_duplicates());
            },
            Err(HikeError::NoWay) => {
                assert forall|f: int| 0 <= f < places.len() && #[trigger] places[f] == end implies no_way(
                    h,
                    0,
                    f,
                ) by {
                    assert(places.contains(end));
                }
            },
            _ => {},
        }
        assert(climbed(rows, places, g, r));
    }
    r
}

/// The longest hike where slopes are walked downhill only.
pub fn part1(input: &HikingMap) -> (r: Result<usize, HikeError>)
    requires
        countable(map_view(input@)),
        start_of(map_view(input@)).is_some(),
        finish_of(map_view(input@)).is_some(),
    ensures
        exists|places: Seq<Point>, ways: Seq<Seq<(usize, usize)>>| #[trigger]
            climbed(map_view(input@), places, ways, r),
{
    longest_path_with_slopes(input.as_slice())
}

} // verus!
