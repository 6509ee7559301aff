//! The garden: plots that can be reached in a given number of steps.
use crate::text::{chars_of, lines, lines_of, views};
use vstd::prelude::*;

verus! {

/// The garden: rows of plots, `#` for a rock.
pub type Grid = Vec<Vec<char>>;

/// A place: column `x` and row `y`.
#[derive(Clone, Copy, Debug, PartialEq, Eq, Structural)]
pub struct Point {
    pub x: isize,
    pub y: isize,
}

/// One of the four headings.
#[derive(Clone, Copy, Debug, PartialEq, Eq, Structural)]
pub enum Direction {
    North,
    South,
    East,
    West,
}

/// The place next to `p` on heading `d`. Rows grow southwards.
pub open spec fn next_to(p: Point, d: Direction) -> Point {
    match d {
        Direction::North => Point { x: p.x, y: (p.y - 1) as isize },
        Direction::South => Point { x: p.x, y: (p.y + 1) as isize },
        Direction::East => Point { x: (p.x + 1) as isize, y: p.y },
        Direction::West => Point { x: (p.x - 1) as isize, y: p.y },
    }
}

impl Point {
    /// The place next to this one on heading `d`.
    pub fn neighbour(self, d: Direction) -> (r: Point)
        requires
            isize::MIN < self.x < isize::MAX,
            isize::MIN < self.y < isize::MAX,
        ensures
            r == next_to(self, d),
    {
        match d {
            Direction::North => Point { x: self.x, y: self.y - 1 },
            Direction::South => Point { x: self.x, y: self.y + 1 },
            Direction::East => Point { x: self.x + 1, y: self.y },
            Direction::West => Point { x: self.x - 1, y: self.y },
        }
    }
}

/// Whether `p` lies within the rows and within the width of the first row.
pub open spec fn within(rows: Seq<Seq<char>>, p: Point) -> bool {
    0 <= p.x < rows[0].len() && 0 <= p.y < rows.len()
}

/// Whether `p` lies in the garden, which has a row and whose sides can be
/// counted with a sign.
pub fn grid_contains(grid: &Grid, p: Point) -> (r: bool)
    requires
        grid@.len() >= 1,
        grid@.len() <= isize::MAX,
        grid@[0]@.len() <= isize::MAX,
    ensures
        r == within(views(grid@), p),
{
    assert(views(grid@)[0] == grid@[0]@);
    p.x >= 0 && p.y >= 0 && p.x < grid[0].len() as isize && p.y < grid.len() as isize
}

/// Whether the plot at `p` holds no rock.
pub open spec fn free(rows: Seq<Seq<char>>, p: Point) -> bool {
    rows[p.y as int][p.x as int] != '#'
}

/// Whether the plot at `p`, a place on a row of the garden, holds no rock.
pub fn passable(grid: &Grid, p: Point) -> (r: bool)
    requires
        0 <= p.y < grid@.len(),
        0 <= p.x < grid@[p.y as int]@.len(),
    ensures
        r == free(views(grid@), p),
{
    assert(views(grid@)[p.y as int] == grid@[p.y as int]@);
    grid[p.y as usize][p.x as usize] != '#'
}

/// The perimeter foretold for step `cur_count`, from the perimeters and
/// offsets measured: with `q` the quotient and `r` the remainder of the
/// step by 131, it is `(q - 1) * (past_perims[131] + past_perims_offsets[r])
/// + past_perims[r + 131]`.
pub open spec fn foretold(cur_count: int, past_perims: Seq<usize>, past_perims_offsets: Seq<usize>) -> int {
    ((cur_count / 131) - 1) * (past_perims[131] + past_perims_offsets[cur_count % 131])
        + past_perims[cur_count % 131 + 131]
}

/// The perimeter foretold for step `cur_count`; `None` where it does not fit.
pub fn predict_perimeter(cur_count: usize, past_perims: &[usize], past_perims_offsets: &[usize]) -> (r:
    Option<usize>)
    requires
        cur_count >= 131,
        past_perims@.len() >= 262,
        past_perims_offsets@.len() >= 131,
    ensures
        match r {
            Some(v) => v == foretold(cur_count as int, past_perims@, past_perims_offsets@),
            None => foretold(cur_count as int, past_perims@, past_perims_offsets@) > usize::MAX,
        },
{
    let term2 = past_perims_offsets[cur_count % 131];
    let rounds = cur_count / 131 - 1;
    let base = past_perims[cur_count % 131 + 131];
    let ghost q = rounds as int;
    let ghost a = past_perims@[131] as int;
    let ghost b = term2 as int;
    match past_perims[131].checked_add(term2) {
        Some(sum) => match rounds.checked_mul(sum) {
            Some(product) => product.checked_add(base),
            None => None,
        },
        None => {
            if rounds == 0 {
                assert(q * (a + b) == 0) by (nonlinear_arith)
                    requires
                        q == 0,
                ;
                Some(base)
            } else {
                assert(q * (a + b) >= a + b) by (nonlinear_arith)
                    requires
                        q >= 1,
                        a + b >= 0,
                ;
                None
            }
        },
    }
}

/// The garden has a row, no row is shorter than the first, and its sides
/// can be counted with a sign.
pub open spec fn walkable(rows: Seq<Seq<char>>) -> bool {
    &&& 1 <= rows.len() <= isize::MAX
    &&& rows[0].len() <= isize::MAX
    &&& forall|y: int| 0 <= y < rows.len() ==> (#[trigger] rows[y]).len() >= rows[0].len()
}

/// The plots that one step leads to from a plot of `from`: the plots next
/// to it that lie in the garden and hold no rock.
pub open spec fn one_step(rows: Seq<Seq<char>>, from: Set<Point>) -> Set<Point> {
    Set::new(
        |n: Point|
            within(rows, n) && free(rows, n) && exists|p: Point, d: Direction|
                from.contains(p) && #[trigger] next_to(p, d) == n,
    )
}

/// The plots on which exactly `k` steps from `start` can end.
pub open spec fn reach(rows: Seq<Seq<char>>, start: Point, k: nat) -> Set<Point>
    decreases k,
{
    if k == 0 {
        set![start]
    } else {
        one_step(rows, reach(rows, start, (k - 1) as nat))
    }
}

/// Whether a step from one of the first `bound` plots of `from` leads to `q`.
spec fn came_from(from: Seq<Point>, bound: int, q: Point) -> bool {
    exists|j: int, d: Direction| 0 <= j < bound && #[trigger] next_to(from[j], d) == q
}

/// Puts `n` behind the plots of `next` where it lies in the garden, holds
/// no rock, and is not among them yet.
fn try_add(grid: &Grid, seen: &mut Vec<Vec<bool>>, next: &mut Vec<Point>, n: Point)
    requires
        walkable(views(grid@)),
        old(seen)@.len() == views(grid@).len(),
        forall|k: int| 0 <= k < views(grid@).len() ==> (#[trigger] old(seen)@[k])@.len() == views(grid@)[0].len(),
        old(next)@.no_duplicates(),
        forall|q: Point|
            #[trigger] old(next)@.contains(q) <==> within(views(grid@), q) && old(seen)@[q.y as int]@[q.x as int],
    ensures
        final(seen)@.len() == views(grid@).len(),
        forall|k: int| 0 <= k < views(grid@).len() ==> (#[trigger] final(seen)@[k])@.len() == views(grid@)[0].len(),
        final(next)@.no_duplicates(),
        forall|q: Point|
            #[trigger] final(next)@.contains(q) <==> within(views(grid@), q) && final(seen)@[q.y as int]@[q.x as int],
        forall|q: Point|
            final(next)@.contains(q) <==> old(next)@.contains(q) || (q == n && within(
                views(grid@),
                n,
            ) && free(views(grid@), n)),
{
    let ghost rows = views(grid@);
    let ghost shown = next@;
    let ghost marks = seen@;
    assert(rows[0] == grid@[0]@);
    if grid_contains(grid, n) {
        assert(rows[n.y as int].len() >= rows[0].len());
        assert(rows[n.y as int] == grid@[n.y as int]@);
        if passable(grid, n) && !seen[n.y as usize][n.x as usize] {
            seen[n.y as usize][n.x as usize] = true;
            next.push(n);
            proof {
                assert(!shown.contains(n));
                assert(seen@.len() == rows.len());
                assert forall|k: int| 0 <= k < rows.len() implies (#[trigger] seen@[k])@.len()
                    == rows[0].len() by {
                    assert(marks[k]@.len() == rows[0].len());
                }
                assert forall|q: Point|
                    #[trigger] next@.contains(q) <==> shown.contains(q) || q == n by {
                    if q == n {
                        assert(next@[next@.len() - 1] == q);
                    }
                    if shown.contains(q) {
                        let a = choose|a: int| 0 <= a < shown.len() && shown[a] == q;
                        assert(next@[a] == q);
                    }
                    if next@.contains(q) && q != n {
                        let a = choose|a: int| 0 <= a < next@.len() && next@[a] == q;
                        assert(shown[a] == q);
                    }
                }
                assert forall|q: Point|
                    #[trigger] next@.contains(q) <==> within(rows, q) && seen@[q.y as int]@[q.x as int] by {
                    assert(next@.contains(q) <==> shown.contains(q) || q == n);
                    assert(shown.contains(q) <==> within(rows, q) && marks[q.y as int]@[q.x as int]);
                    if within(rows, q) {
                        if q.y == n.y && q.x == n.x {
                            assert(q == n);
                        } else {
                            assert(seen@[q.y as int]@[q.x as int] == marks[q.y as int]@[q.x as int]);
                        }
                    }
                }
                assert(next@.no_duplicates()) by {
                    assert forall|a: int, b: int|
                        0 <= a < next@.len() && 0 <= b < next@.len() && a != b implies next@[a]
                        != next@[b] by {
                        if a < shown.len() && b < shown.len() {
                            assert(shown[a] != shown[b]);
                        } else if a < shown.len() {
                            assert(shown.contains(shown[a]));
                        } else if b < shown.len() {
                            assert(shown.contains(shown[b]));
                        }
                    }
                }
            }
        }
    }
}

/// The plots that one step leads to from the plots `from`, each once.
#[verifier::loop_isolation(false)]
fn step_all(grid: &Grid, from: &Vec<Point>) -> (next: Vec<Point>)
    requires
        walkable(views(grid@)),
        forall|i: int|
            0 <= i < from@.len() ==> isize::MIN < (#[trigger] from@[i]).x < isize::MAX && isize::MIN
                < from@[i].y < isize::MAX,
    ensures
        next@.no_duplicates(),
        next@.to_set() == one_step(views(grid@), from@.to_set()),
        forall|i: int| 0 <= i < next@.len() ==> within(views(grid@), #[trigger] next@[i]),
{
    let ghost rows = views(grid@);
    assert(rows[0] == grid@[0]@);
    let width = grid[0].len();
    let mut seen: Vec<Vec<bool>> = Vec::new();
    let mut y: usize = 0;
    while y < grid.len()
        invariant
            y <= grid@.len(),
            seen@.len() == y,
            forall|k: int| 0 <= k < y ==> (#[trigger] seen@[k])@.len() == width,
            forall|k: int, x: int| 0 <= k < y && 0 <= x < width ==> !(#[trigger] seen@[k]@[x]),
        decreases grid@.len() - y,
    {
        let mut row: Vec<bool> = Vec::new();
        let mut x: usize = 0;
        while x < width
            invariant
                x <= width,
                row@.len() == x,
                forall|k: int| 0 <= k < x ==> !row@[k],
            decreases width - x,
        {
            row.push(false);
            x += 1;
        }
        seen.push(row);
        y += 1;
    }
    let mut next: Vec<Point> = Vec::new();
    let mut i: usize = 0;
    while i < from.len()
        invariant
            i <= from@.len(),
            seen@.len() == rows.len(),
            forall|k: int| 0 <= k < rows.len() ==> (#[trigger] seen@[k])@.len() == rows[0].len(),
            next@.no_duplicates(),
            forall|q: Point|
                #[trigger] next@.contains(q) <==> within(rows, q) && seen@[q.y as int]@[q.x as int],
            forall|q: Point|
                #[trigger] next@.contains(q) ==> within(rows, q) && free(rows, q) && came_from(
                    from@,
                    i as int,
                    q,
                ),
            forall|j: int, d: Direction|
                0 <= j < i && within(rows, #[trigger] next_to(from@[j], d)) && free(
                    rows,
                    next_to(from@[j], d),
                ) ==> next@.contains(next_to(from@[j], d)),
        decreases from@.len() - i,
    {
        let pos = from[i];
        let ghost shown = next@;
        try_add(grid, &mut seen, &mut next, pos.neighbour(Direction::North));
        try_add(grid, &mut seen, &mut next, pos.neighbour(Direction::South));
        try_add(grid, &mut seen, &mut next, pos.neighbour(Direction::East));
        try_add(grid, &mut seen, &mut next, pos.neighbour(Direction::West));
        proof {
            assert forall|q: Point| #[trigger] next@.contains(q) implies within(rows, q) && free(
                rows,
                q,
            ) && came_from(from@, i + 1, q) by {
                if shown.contains(q) {
                    assert(came_from(from@, i as int, q));
                    let (j, d) = choose|j: int, d: Direction|
                        0 <= j < i && #[trigger] next_to(from@[j], d) == q;
                    assert(next_to(from@[j], d) == q);
                } else {
                    if q == next_to(pos, Direction::North) {
                        assert(next_to(from@[i as int], Direction::North) == q);
                    } else if q == next_to(pos, Direction::South) {
                        assert(next_to(from@[i as int], Direction::South) == q);
                    } else if q == next_to(pos, Direction::East) {
                        assert(next_to(from@[i as int], Direction::East) == q);
                    } else {
                        assert(next_to(from@[i as int], Direction::West) == q);
                    }
                }
            }
            assert forall|j: int, d: Direction|
                0 <= j < i + 1 && within(rows, #[trigger] next_to(from@[j], d)) && free(
                    rows,
                    next_to(from@[j], d),
                ) implies next@.contains(next_to(from@[j], d)) by {
                if j < i {
                    assert(shown.contains(next_to(from@[j], d)));
                } else {
                    match d {
                        Direction::North => {},
                        Direction::South => {},
                        Direction::East => {},
                        Direction::West => {},
                    }
                }
            }
        }
        i += 1;
    }
    proof {
        let wanted = one_step(rows, from@.to_set());
        assert forall|q: Point| next@.to_set().contains(q) <==> wanted.contains(q) by {
            if next@.contains(q) {
                assert(came_from(from@, i as int, q));
                let (j, d) = choose|j: int, d: Direction|
                    0 <= j < i && #[trigger] next_to(from@[j], d) == q;
                assert(from@.contains(from@[j]));
                assert(next_to(from@[j], d) == q);
            }
            if wanted.contains(q) {
                let (p, d) = choose|p: Point, d: Direction|
                    from@.to_set().contains(p) && #[trigger] next_to(p, d) == q;
                assert(from@.contains(p));
                let j = choose|j: int| 0 <= j < from@.len() && from@[j] == p;
                assert(next_to(from@[j], d) == q);
            }
        }
        assert(next@.to_set() =~= wanted);
        assert forall|a: int| 0 <= a < next@.len() implies within(rows, #[trigger] next@[a]) by {
            assert(next@.contains(next@[a]));
        }
    }
    next
}

/// The number of plots on which exactly `max_steps` steps from `start` can end.
#[verifier::loop_isolation(false)]
pub fn visit(grid: &Grid, start: Point, max_steps: usize) -> (r: usize)
    requires
        walkable(views(grid@)),
        isize::MIN < start.x < isize::MAX,
        isize::MIN < start.y < isize::MAX,
    ensures
        reach(views(grid@), start, max_steps as nat).finite(),
        r == reach(views(grid@), start, max_steps as nat).len(),
{
    let ghost rows = views(grid@);
    let mut current: Vec<Point> = Vec::new();
    current.push(start);
    assert(current@.to_set() =~= set![start]) by {
        assert(current@[0] == start);
        assert forall|p: Point| current@.to_set().contains(p) <==> set![start].contains(p) by {
            if current@.contains(p) {
                let a = choose|a: int| 0 <= a < current@.len() && current@[a] == p;
            }
            if p == start {
                assert(current@[0] == p);
            }
        }
    }
    let mut k: usize = 0;
    while k < max_steps
        invariant
            k <= max_steps,
            current@.no_duplicates(),
            current@.to_set() == reach(rows, start, k as nat),
            forall|i: int|
                0 <= i < current@.len() ==> isize::MIN < (#[trigger] current@[i]).x < isize::MAX
                    && isize::MIN < current@[i].y < isize::MAX,
        decreases max_steps - k,
    {
        current = step_all(grid, &current);
        k += 1;
    }
    proof {
        current@.unique_seq_to_set();
    }
    current.len()
}

/// The garden and the start that `text` draws: one row from each line, and
/// the first place of an `S`, row by row.
pub open spec fn garden_of(text: Seq<char>) -> Option<(Seq<Seq<char>>, (int, int))> {
    match crate::day10::start_of(lines_of(text), lines_of(text).len() as int) {
        Some(p) => Some((lines_of(text), p)),
        None => None,
    }
}

/// Reads the garden and the start; `None` where there is no start or it
/// lies beyond what can be counted with a sign.
pub fn parse(input: &str) -> (r: Option<(Grid, Point)>)
    ensures
        match r {
            Some((grid, start)) => garden_of(input@) == Some(
                (views(grid@), (start.x as int, start.y as int)),
            ),
            None => garden_of(input@) matches Some((rows, p)) ==> p.0 > isize::MAX || p.1
                > isize::MAX,
        },
{
    let chars = chars_of(input);
    let grid = lines(&chars);
    match crate::day10::find_starting_pos(&grid) {
        Some(p) => {
            if p.0 > isize::MAX as usize || p.1 > isize::MAX as usize {
                None
            } else {
                Some((grid, Point { x: p.0 as isize, y: p.1 as isize }))
            }
        },
        None => None,
    }
}

/// The number of plots on which exactly 64 steps from the start can end.
pub fn part1(input: &(Grid, Point)) -> (r: usize)
    requires
        walkable(views(input.0@)),
        isize::MIN < input.1.x < isize::MAX,
        isize::MIN < input.1.y < isize::MAX,
    ensures
        r == reach(views(input.0@), input.1, 64).len(),
{
    visit(&input.0, input.1, 64)
}

/// The remainder of `a` by `b` that is not negative.
pub fn pos_mod(a: isize, b: isize) -> (r: isize)
    requires
        b > 0,
    ensures
        r == a as int % b as int,
        0 <= r < b,
{
    if a >= 0 {
        a % b
    } else {
        let k = -(a + 1);
        let m = k % b;
        proof {
            let q = k as int / b as int;
            vstd::arithmetic::div_mod::lemma_fundamental_div_mod(k as int, b as int);
            assert(a as int == (-q - 1) * b + (b - 1 - m)) by (nonlinear_arith)
                requires
                    k == b * q + m,
                    a == -(k + 1),
            ;
            vstd::arithmetic::div_mod::lemma_fundamental_div_mod_converse(
                a as int,
                b as int,
                -q - 1,
                b - 1 - m,
            );
        }
        b - 1 - m
    }
}

/// How far from the start the plots are followed one by one.
pub const SPAN: isize = 394;

/// Whether the plot at `p` holds no rock, in a garden that repeats without
/// end in every direction.
pub open spec fn open_plot(rows: Seq<Seq<char>>, p: Point) -> bool {
    rows[p.y as int % rows.len() as int][p.x as int % rows[0].len() as int] != '#'
}

/// The plots come to so far, in the order in which they were, and those
/// of them that were come to last.
pub struct Front {
    pub seen: Seq<Point>,
    pub ring: Seq<Point>,
}

/// The front with the plot `n`, where it holds no rock and is new.
pub open spec fn met(rows: Seq<Seq<char>>, f: Front, n: Point) -> Front {
    if open_plot(rows, n) && !f.seen.contains(n) {
        Front { seen: f.seen.push(n), ring: f.ring.push(n) }
    } else {
        f
    }
}

/// The front with the plots next to `p`: to the north, south, east and west.
pub open spec fn around(rows: Seq<Seq<char>>, f: Front, p: Point) -> Front {
    met(
        rows,
        met(
            rows,
            met(rows, met(rows, f, next_to(p, Direction::North)), next_to(p, Direction::South)),
            next_to(p, Direction::East),
        ),
        next_to(p, Direction::West),
    )
}

/// The front after a step from each plot of `ring`: the new plots that a
/// step leads to, and all that were `seen` with them.
pub open spec fn spread(rows: Seq<Seq<char>>, seen: Seq<Point>, ring: Seq<Point>) -> Front
    decreases ring.len(),
{
    if ring.len() == 0 {
        Front { seen, ring: Seq::empty() }
    } else {
        around(rows, spread(rows, seen, ring.drop_last()), ring.last())
    }
}

/// The front after `k` steps from `start`: its ring holds the plots that
/// `k` steps lead to and fewer do not.
pub open spec fn level(rows: Seq<Seq<char>>, start: Point, k: nat) -> Front
    decreases k,
{
    if k == 0 {
        Front { seen: seq![start], ring: seq![start] }
    } else {
        spread(rows, level(rows, start, (k - 1) as nat).seen, level(rows, start, (k - 1) as nat).ring)
    }
}

/// The number of plots that `k` steps lead to and fewer do not.
pub open spec fn plots(rows: Seq<Seq<char>>, start: Point, k: nat) -> nat {
    level(rows, start, k).ring.len()
}

/// The plot that the mark in row `i` and column `j` stands for.
spec fn spot(start: Point, i: int, j: int) -> Point {
    Point { x: (start.x + j - SPAN) as isize, y: (start.y + i - SPAN) as isize }
}

/// `p` lies no more than `reach` columns and rows from `start`.
spec fn near(start: Point, p: Point, reach: int) -> bool {
    -reach <= p.x - start.x <= reach && -reach <= p.y - start.y <= reach
}

/// The marks say which plots have been seen, all of them near the start.
spec fn marked(marks: Seq<Seq<bool>>, start: Point, seen: Seq<Point>, reach: int) -> bool {
    &&& marks.len() == 2 * SPAN + 1
    &&& forall|i: int| 0 <= i < marks.len() ==> (#[trigger] marks[i]).len() == 2 * SPAN + 1
    &&& forall|k: int| 0 <= k < seen.len() ==> near(start, #[trigger] seen[k], reach)
    &&& forall|i: int, j: int|
        0 <= i < 2 * SPAN + 1 && 0 <= j < 2 * SPAN + 1 ==> (#[trigger] marks[i][j] <==> seen.contains(
            spot(start, i, j),
        ))
}

/// Takes the plot `n` into the front where it holds no rock and is new.
fn meet(
    grid: &Grid,
    marks: &mut Vec<Vec<bool>>,
    next: &mut Vec<Point>,
    n: Point,
    start: Point,
    Ghost(seen): Ghost<Seq<Point>>,
    Ghost(reach): Ghost<int>,
)
    requires
        walkable(views(grid@)),
        views(grid@)[0].len() > 0,
        isize::MIN + SPAN < start.x < isize::MAX - SPAN,
        isize::MIN + SPAN < start.y < isize::MAX - SPAN,
        0 <= reach <= SPAN,
        near(start, n, reach),
        marked(views(old(marks)@), start, seen, reach),
        forall|k: int| 0 <= k < old(next)@.len() ==> near(start, #[trigger] old(next)@[k], reach),
    ensures
        marked(
            views(final(marks)@),
            start,
            met(views(grid@), (Front { seen, ring: old(next)@ }), n).seen,
            reach,
        ),
        final(next)@ == met(views(grid@), (Front { seen, ring: old(next)@ }), n).ring,
        forall|k: int| 0 <= k < final(next)@.len() ==> near(start, #[trigger] final(next)@[k], reach),
{
    let ghost rows = views(grid@);
    let ghost before = views(marks@);
    assert(rows[0] == grid@[0]@);
    let wx = pos_mod(n.x, grid[0].len() as isize);
    let wy = pos_mod(n.y, grid.len() as isize);
    assert(rows[wy as int] == grid@[wy as int]@);
    assert(rows[wy as int].len() >= rows[0].len());
    let open = grid[wy as usize][wx as usize] != '#';
    let i = (n.y - start.y + SPAN) as usize;
    let j = (n.x - start.x + SPAN) as usize;
    assert(spot(start, i as int, j as int) == n);
    assert(before[i as int] == marks@[i as int]@);
    if open && !marks[i][j] {
        marks[i][j] = true;
        next.push(n);
        proof {
            let after = views(marks@);
            let more = seen.push(n);
            assert(marks@.len() == before.len());
            assert forall|a: int| 0 <= a < after.len() implies (#[trigger] after[a]).len() == 2 * SPAN + 1 by {
                assert(before[a].len() == 2 * SPAN + 1);
            }
            assert forall|k: int| 0 <= k < more.len() implies near(start, #[trigger] more[k], reach) by {
                if k < seen.len() {
                    assert(more[k] == seen[k]);
                }
            }
            assert forall|a: int, b: int| 0 <= a < 2 * SPAN + 1 && 0 <= b < 2 * SPAN + 1 implies (
            #[trigger] after[a][b] <==> more.contains(spot(start, a, b))) by {
                let q = spot(start, a, b);
                assert(before[a][b] <==> seen.contains(q));
                if a == i && b == j {
                    assert(more[seen.len() as int] == q);
                } else {
                    assert(q != n);
                    assert(after[a][b] == before[a][b]);
                    if seen.contains(q) {
                        let k = choose|k: int| 0 <= k < seen.len() && seen[k] == q;
                        assert(more[k] == q);
                    }
                    if more.contains(q) {
                        let k = choose|k: int| 0 <= k < more.len() && more[k] == q;
                        assert(seen[k] == q);
                    }
                }
            }
        }
    }
}

/// Takes a step from each plot of `ring`: gives the new plots.
fn spread_ring(
    grid: &Grid,
    marks: &mut Vec<Vec<bool>>,
    ring: &Vec<Point>,
    start: Point,
    Ghost(seen): Ghost<Seq<Point>>,
    Ghost(reach): Ghost<int>,
) -> (next: Vec<Point>)
    requires
        walkable(views(grid@)),
        views(grid@)[0].len() > 0,
        isize::MIN + SPAN < start.x < isize::MAX - SPAN,
        isize::MIN + SPAN < start.y < isize::MAX - SPAN,
        0 <= reach < SPAN,
        marked(views(old(marks)@), start, seen, reach),
        forall|k: int| 0 <= k < ring@.len() ==> near(start, #[trigger] ring@[k], reach),
    ensures
        marked(views(final(marks)@), start, spread(views(grid@), seen, ring@).seen, reach + 1),
        next@ == spread(views(grid@), seen, ring@).ring,
        forall|k: int| 0 <= k < next@.len() ==> near(start, #[trigger] next@[k], reach + 1),
{
    let ghost rows = views(grid@);
    let mut next: Vec<Point> = Vec::new();
    let mut i: usize = 0;
    assert(ring@.take(0) =~= Seq::<Point>::empty());
    while i < ring.len()
        invariant
            i <= ring@.len(),
            rows == views(grid@),
            walkable(rows),
            rows[0].len() > 0,
            isize::MIN + SPAN < start.x < isize::MAX - SPAN,
            isize::MIN + SPAN < start.y < isize::MAX - SPAN,
            0 <= reach < SPAN,
            forall|k: int| 0 <= k < ring@.len() ==> near(start, #[trigger] ring@[k], reach),
            marked(views(marks@), start, spread(rows, seen, ring@.take(i as int)).seen, reach + 1),
            next@ == spread(rows, seen, ring@.take(i as int)).ring,
            forall|k: int| 0 <= k < next@.len() ==> near(start, #[trigger] next@[k], reach + 1),
        decreases ring@.len() - i,
    {
        assert(ring@.take(i + 1).drop_last() =~= ring@.take(i as int));
        assert(ring@.take(i + 1).last() == ring@[i as int]);
        let p = ring[i];
        assert(near(start, ring@[i as int], reach));
        let ghost f0 = spread(rows, seen, ring@.take(i as int));
        let ghost f1 = met(rows, f0, next_to(p, Direction::North));
        let ghost f2 = met(rows, f1, next_to(p, Direction::South));
        let ghost f3 = met(rows, f2, next_to(p, Direction::East));
        meet(grid, marks, &mut next, p.neighbour(Direction::North), start, Ghost(f0.seen), Ghost(reach + 1));
        meet(grid, marks, &mut next, p.neighbour(Direction::South), start, Ghost(f1.seen), Ghost(reach + 1));
        meet(grid, marks, &mut next, p.neighbour(Direction::East), start, Ghost(f2.seen), Ghost(reach + 1));
        meet(grid, marks, &mut next, p.neighbour(Direction::West), start, Ghost(f3.seen), Ghost(reach + 1));
        i += 1;
    }
    assert(ring@.take(i as int) =~= ring@);
    next
}

/// What the last steps come to: from the plots of the two steps before
/// `c`, two steps at a time, with the perimeter foretold for each, until
/// `max_steps` have been taken.
pub open spec fn extended(
    prev2: int,
    prev: int,
    c: int,
    max_steps: int,
    past_perims: Seq<usize>,
    offsets: Seq<usize>,
) -> Option<usize>
    decreases max_steps - c,
{
    let np2 = prev2 + foretold(c + 1, past_perims, offsets);
    let np = prev + foretold(c + 2, past_perims, offsets);
    if np2 > usize::MAX || np > usize::MAX || c + 2 > usize::MAX {
        None
    } else if c + 2 >= max_steps {
        Some(np as usize)
    } else {
        extended(np2, np, c + 2, max_steps, past_perims, offsets)
    }
}

/// What the survey comes to once the plots have been followed for `k`
/// steps: nothing unless that is 393 steps.
pub open spec fn finished(
    max_steps: usize,
    k: nat,
    reached: Seq<usize>,
    past_perims: Seq<usize>,
    offsets: Seq<usize>,
) -> Option<usize> {
    if k != 393 {
        None
    } else if reached[391] + foretold(393, past_perims, offsets) > usize::MAX {
        None
    } else {
        extended(
            reached[390] as int,
            reached[391] + foretold(393, past_perims, offsets),
            393,
            max_steps as int,
            past_perims,
            offsets,
        )
    }
}

/// The survey from step `k` on. For each step the new plots are counted:
/// the perimeter. A step's count is its perimeter and the count of the
/// step two before it. The perimeters of the first 262 steps are kept;
/// from each of the next 131 the difference is kept to the perimeter 131
/// steps before it and that of step 131 together. The survey stops after
/// 393 steps, after `max_steps`, or where a step leads to no new plot.
pub open spec fn survey(
    rows: Seq<Seq<char>>,
    start: Point,
    max_steps: usize,
    k: nat,
    reached: Seq<usize>,
    past_perims: Seq<usize>,
    offsets: Seq<usize>,
) -> Option<usize>
    decreases 393 - k,
{
    let gardens = plots(rows, start, k);
    if k >= 393 || k >= max_steps || plots(rows, start, k + 1) == 0 {
        finished(max_steps, k, reached, past_perims, offsets)
    } else {
        let total = gardens + if k >= 2 {
            reached[k - 2] as int
        } else {
            0
        };
        if total > usize::MAX {
            None
        } else if k < 262 {
            survey(rows, start, max_steps, k + 1, reached.push(total as usize), past_perims.push(gardens as usize), offsets)
        } else {
            let predicted = past_perims[131] + past_perims[k - 131];
            if predicted > usize::MAX || gardens < predicted {
                None
            } else {
                survey(
                    rows,
                    start,
                    max_steps,
                    k + 1,
                    reached.push(total as usize),
                    past_perims,
                    offsets.push((gardens - predicted) as usize),
                )
            }
        }
    }
}

/// The number of plots that `max_steps` steps from `start` can end on in
/// a garden that repeats without end, foretold from the first 393 steps.
/// `None` unless plots are found for 393 steps, and where a number does
/// not fit or a difference would be negative.
pub fn visit_infinite(grid: &Grid, start: Point, max_steps: usize) -> (r: Option<usize>)
    requires
        walkable(views(grid@)),
        views(grid@)[0].len() > 0,
        isize::MIN + SPAN < start.x < isize::MAX - SPAN,
        isize::MIN + SPAN < start.y < isize::MAX - SPAN,
    ensures
        r == survey(views(grid@), start, max_steps, 0, Seq::empty(), Seq::empty(), Seq::empty()),
{
    let ghost rows = views(grid@);
    let ghost goal = survey(rows, start, max_steps, 0, Seq::empty(), Seq::empty(), Seq::empty());
    let side: usize = 789;
    let mut marks: Vec<Vec<bool>> = Vec::new();
    let mut i: usize = 0;
    while i < side
        invariant
            i <= side,
            side == 789,
            marks@.len() == i,
            forall|a: int| 0 <= a < i ==> (#[trigger] marks@[a])@.len() == side,
            forall|a: int, b: int| 0 <= a < i && 0 <= b < side ==> !(#[trigger] marks@[a]@[b]),
        decreases side - i,
    {
        let mut row: Vec<bool> = Vec::new();
        let mut j: usize = 0;
        while j < side
            invariant
                j <= side,
                row@.len() == j,
                forall|b: int| 0 <= b < j ==> !row@[b],
            decreases side - j,
        {
            row.push(false);
            j += 1;
        }
        marks.push(row);
        i += 1;
    }
    marks[394][394] = true;
    let mut ring: Vec<Point> = Vec::new();
    ring.push(start);
    let ghost mut seen: Seq<Point> = seq![start];
    let mut reached: Vec<usize> = Vec::new();
    let mut past_perims: Vec<usize> = Vec::new();
    let mut offsets: Vec<usize> = Vec::new();
    let mut k: usize = 0;
    proof {
        assert(ring@ =~= seq![start]);
        let m = views(marks@);
        assert forall|a: int, b: int| 0 <= a < 2 * SPAN + 1 && 0 <= b < 2 * SPAN + 1 implies (
        #[trigger] m[a][b] <==> seen.contains(spot(start, a, b))) by {
            if a == 394 && b == 394 {
                assert(seen[0] == spot(start, a, b));
            } else {
                assert(spot(start, a, b) != start);
            }
        }
        assert(marked(m, start, seen, 0));
    }
    loop
        invariant_except_break
            seen == level(rows, start, k as nat).seen,
            ring@ == level(rows, start, k as nat).ring,
            marked(views(marks@), start, seen, k as int),
            forall|a: int| 0 <= a < ring@.len() ==> near(start, #[trigger] ring@[a], k as int),
            survey(rows, start, max_steps, k as nat, reached@, past_perims@, offsets@) == goal,
        invariant
            rows == views(grid@),
            walkable(rows),
            rows[0].len() > 0,
            isize::MIN + SPAN < start.x < isize::MAX - SPAN,
            isize::MIN + SPAN < start.y < isize::MAX - SPAN,
            k <= 393,
            reached@.len() == k,
            past_perims@.len() == if k < 262 {
                k as int
            } else {
                262
            },
            offsets@.len() == if k < 262 {
                0
            } else {
                k - 262
            },
            goal == survey(rows, start, max_steps, 0, Seq::empty(), Seq::empty(), Seq::empty()),
        ensures
            finished(max_steps, k as nat, reached@, past_perims@, offsets@) == goal,
        decreases 393 - k,
    {
        let gardens = ring.len();
        if k >= 393 || k >= max_steps {
            break ;
        }
        let next = spread_ring(grid, &mut marks, &ring, start, Ghost(seen), Ghost(k as int));
        if next.len() == 0 {
            break ;
        }
        let interior = if k >= 2 {
            reached[k - 2]
        } else {
            0
        };
        let total = match gardens.checked_add(interior) {
            Some(total) => total,
            None => {
                return None;
            },
        };
        if k < 262 {
            past_perims.push(gardens);
        } else {
            let predicted = match past_perims[131].checked_add(past_perims[k - 131]) {
                Some(predicted) => predicted,
                None => {
                    return None;
                },
            };
            if gardens < predicted {
                return None;
            }
            offsets.push(gardens - predicted);
        }
        reached.push(total);
        proof {
            seen = spread(rows, seen, ring@).seen;
        }
        ring = next;
        k += 1;
    }
    if k != 393 {
        return None;
    }
    let first = match predict_perimeter(393, past_perims.as_slice(), offsets.as_slice()) {
        Some(first) => first,
        None => {
            return None;
        },
    };
    let mut prev2 = reached[390];
    let mut prev = match reached[391].checked_add(first) {
        Some(prev) => prev,
        None => {
            return None;
        },
    };
    let mut c: usize = 393;
    loop
        invariant
            393 <= c,
            past_perims@.len() == 262,
            offsets@.len() == 131,
            extended(prev2 as int, prev as int, c as int, max_steps as int, past_perims@, offsets@) == goal,
            goal == survey(views(grid@), start, max_steps, 0, Seq::empty(), Seq::empty(), Seq::empty()),
        decreases max_steps - c,
    {
        if c > usize::MAX - 2 {
            return None;
        }
        let a = match predict_perimeter(c + 1, past_perims.as_slice(), offsets.as_slice()) {
            Some(a) => a,
            None => {
                return None;
            },
        };
        let b = match predict_perimeter(c + 2, past_perims.as_slice(), offsets.as_slice()) {
            Some(b) => b,
            None => {
                return None;
            },
        };
        let np2 = match prev2.checked_add(a) {
            Some(np2) => np2,
            None => {
                return None;
            },
        };
        let np = match prev.checked_add(b) {
            Some(np) => np,
            None => {
                return None;
            },
        };
        prev2 = np2;
        prev = np;
        c += 2;
        if c >= max_steps {
            return Some(prev);
        }
    }
}

/// The number of plots that 26501365 steps from the start can end on in
/// a garden that repeats without end.
pub fn part2(input: &(Grid, Point)) -> (r: Option<usize>)
    requires
        walkable(views(input.0@)),
        views(input.0@)[0].len() > 0,
        isize::MIN + SPAN < input.1.x < isize::MAX - SPAN,
        isize::MIN + SPAN < input.1.y < isize::MAX - SPAN,
    ensures
        r == survey(views(input.0@), input.1, 26501365, 0, Seq::empty(), Seq::empty(), Seq::empty()),
{
    visit_infinite(&input.0, input.1, 26501365)
}

} // verus!
