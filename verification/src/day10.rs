//! The pipe maze: the loop of pipes through the start, and what it encloses.
use crate::text::{chars_of, lines, lines_of, trim, trimmed, views};
use vstd::prelude::*;

verus! {

/// The maze: rows of tiles.
pub type Grid = Vec<Vec<char>>;

/// A place in the maze: column and row.
pub type Point = (usize, usize);

/// The tile at column `x` of row `y`, if there is one.
pub open spec fn tile_at(rows: Seq<Seq<char>>, x: int, y: int) -> Option<char> {
    if 0 <= y < rows.len() && 0 <= x < rows[y].len() {
        Some(rows[y][x])
    } else {
        None
    }
}

/// The first place of an `S` among the first `k` tiles of `row`, in row `y`.
pub open spec fn start_in_row(row: Seq<char>, k: int, y: int) -> Option<(int, int)>
    decreases k,
{
    if k <= 0 {
        None
    } else {
        match start_in_row(row, k - 1, y) {
            Some(p) => Some(p),
            None => if row[k - 1] == 'S' {
                Some((k - 1, y))
            } else {
                None
            },
        }
    }
}

/// The first place of an `S` in the first `k` rows, row by row.
pub open spec fn start_of(rows: Seq<Seq<char>>, k: int) -> Option<(int, int)>
    decreases k,
{
    if k <= 0 {
        None
    } else {
        match start_of(rows, k - 1) {
            Some(p) => Some(p),
            None => start_in_row(rows[k - 1], rows[k - 1].len() as int, k - 1),
        }
    }
}

/// The place of the start: the first `S`, row by row. `None` where there is none.
#[verifier::loop_isolation(false)]
pub fn find_starting_pos(grid: &Grid) -> (r: Option<Point>)
    ensures
        match r {
            Some(p) => start_of(views(grid@), grid@.len() as int) == Some((p.0 as int, p.1 as int)),
            None => start_of(views(grid@), grid@.len() as int).is_none(),
        },
{
    let ghost rows = views(grid@);
    let mut y: usize = 0;
    while y < grid.len()
        invariant
            y <= grid@.len(),
            start_of(rows, y as int).is_none(),
        decreases grid@.len() - y,
    {
        let row = &grid[y];
        assert(rows[y as int] == row@);
        let mut x: usize = 0;
        while x < row.len()
            invariant
                x <= row@.len(),
                start_in_row(row@, x as int, y as int).is_none(),
            decreases row@.len() - x,
        {
            if row[x] == 'S' {
                proof {
                    lemma_start_in_row_stays(row@, x + 1, row@.len() as int, y as int);
                    lemma_start_of_stays(rows, y + 1, grid@.len() as int);
                }
                return Some((x, y));
            }
            x += 1;
        }
        y += 1;
    }
    None
}

proof fn lemma_start_in_row_stays(row: Seq<char>, k: int, n: int, y: int)
    requires
        0 <= k <= n,
        start_in_row(row, k, y).is_some(),
    ensures
        start_in_row(row, n, y) == start_in_row(row, k, y),
    decreases n - k,
{
    if k < n {
        lemma_start_in_row_stays(row, k, n - 1, y);
    }
}

proof fn lemma_start_of_stays(rows: Seq<Seq<char>>, k: int, n: int)
    requires
        0 <= k <= n,
        start_of(rows, k).is_some(),
    ensures
        start_of(rows, n) == start_of(rows, k),
    decreases n - k,
{
    if k < n {
        lemma_start_of_stays(rows, k, n - 1);
    }
}

/// `v` less 1, or the greatest number where `v` is 0.
pub open spec fn before(v: usize) -> usize {
    if v == 0 {
        usize::MAX
    } else {
        (v - 1) as usize
    }
}

/// The two places that the pipe `tile` at `point` joins: `|` above and
/// below, `-` left and right, `L` above and right, `J` left and above, `7`
/// left and below, `F` below and right. No other tile joins places.
pub open spec fn joined(tile: char, point: Point) -> Option<(Point, Point)> {
    let left = (before(point.0), point.1);
    let right = ((point.0 + 1) as usize, point.1);
    let above = (point.0, before(point.1));
    let below = (point.0, (point.1 + 1) as usize);
    if tile == '|' {
        Some((above, below))
    } else if tile == '-' {
        Some((left, right))
    } else if tile == 'L' {
        Some((above, right))
    } else if tile == 'J' {
        Some((left, above))
    } else if tile == '7' {
        Some((left, below))
    } else if tile == 'F' {
        Some((below, right))
    } else {
        None
    }
}

/// The places that the tile at `point` joins, where `point` lies within the
/// rows and within the width of the first row, and on its own row.
pub open spec fn connected(rows: Seq<Seq<char>>, point: Point) -> Option<(Point, Point)> {
    if point.1 >= rows.len() || point.0 >= rows[0].len() || point.0 >= rows[point.1 as int].len() {
        None
    } else {
        joined(rows[point.1 as int][point.0 as int], point)
    }
}

fn same(a: Point, b: Point) -> (r: bool)
    ensures
        r == (a == b),
{
    a.0 == b.0 && a.1 == b.1
}

fn back(v: usize) -> (r: usize)
    ensures
        r == before(v),
{
    if v == 0 {
        usize::MAX
    } else {
        v - 1
    }
}

/// The two places that the pipe at `point` joins. `None` where `point`
/// lies outside the maze or holds no pipe.
pub fn connections(grid: &Grid, point: Point) -> (r: Option<(Point, Point)>)
    ensures
        r == connected(views(grid@), point),
{
    let ghost rows = views(grid@);
    if point.1 >= grid.len() {
        return None;
    }
    assert(rows[0] == grid@[0]@);
    assert(rows[point.1 as int] == grid@[point.1 as int]@);
    if point.0 >= grid[0].len() || point.0 >= grid[point.1].len() {
        return None;
    }
    let item = grid[point.1][point.0];
    let left = (back(point.0), point.1);
    let right = (point.0 + 1, point.1);
    let above = (point.0, back(point.1));
    let below = (point.0, point.1 + 1);
    if item == '|' {
        Some((above, below))
    } else if item == '-' {
        Some((left, right))
    } else if item == 'L' {
        Some((above, right))
    } else if item == 'J' {
        Some((left, above))
    } else if item == '7' {
        Some((left, below))
    } else if item == 'F' {
        Some((below, right))
    } else {
        None
    }
}

/// The places left of, right of, above and below `point`.
pub open spec fn neighbours_of(point: Point) -> Seq<Point> {
    seq![
        (before(point.0), point.1),
        ((point.0 + 1) as usize, point.1),
        (point.0, before(point.1)),
        (point.0, (point.1 + 1) as usize),
    ]
}

/// The places left of, right of, above and below `point`, where `point` is
/// not on the last column or row that can be counted.
pub fn cardinal_neighbours(point: Point) -> (r: Vec<Point>)
    requires
        point.0 < usize::MAX,
        point.1 < usize::MAX,
    ensures
        r@ == neighbours_of(point),
{
    let mut r: Vec<Point> = Vec::new();
    r.push((back(point.0), point.1));
    r.push((point.0 + 1, point.1));
    r.push((point.0, back(point.1)));
    r.push((point.0, point.1 + 1));
    assert(r@ =~= neighbours_of(point));
    r
}

/// The first of the first `k` neighbours of `s` whose pipe joins `s`; `s`
/// itself where none does.
pub open spec fn first_step(rows: Seq<Seq<char>>, s: Point, k: int) -> Point
    decreases k,
{
    if k <= 0 {
        s
    } else if first_step(rows, s, k - 1) != s {
        first_step(rows, s, k - 1)
    } else {
        let n = neighbours_of(s)[k - 1];
        match connected(rows, n) {
            Some((a, b)) => if n != s && (a == s || b == s) {
                n
            } else {
                s
            },
            None => s,
        }
    }
}

/// The pipes of the loop from `curr` on, when `last` was the place before
/// and `found` holds the pipes so far, taking at most `fuel` more steps.
/// From each pipe the loop goes on to the one of its two ends that is not
/// the place it came from. `None` where the loop leaves the maze, meets a
/// tile that is no pipe, or does not close within the steps allowed.
pub open spec fn traced(rows: Seq<Seq<char>>, curr: Point, found: Seq<Point>, fuel: nat) -> Option<
    Seq<Point>,
>
    decreases fuel,
{
    match tile_at(rows, curr.0 as int, curr.1 as int) {
        Some(c) => if c == 'S' {
            Some(found)
        } else if fuel == 0 {
            None
        } else {
            match connected(rows, curr) {
                Some((c1, c2)) => traced(
                    rows,
                    if c1 == found.last() {
                        c2
                    } else {
                        c1
                    },
                    found.push(curr),
                    (fuel - 1) as nat,
                ),
                None => None,
            }
        },
        None => None,
    }
}

/// The number of tiles in the first `k` rows.
pub open spec fn area(rows: Seq<Seq<char>>, k: int) -> int
    decreases k,
{
    if k <= 0 {
        0
    } else {
        area(rows, k - 1) + rows[k - 1].len()
    }
}

/// The steps allowed to a loop: one for each tile, as far as that number fits.
pub open spec fn allowance(rows: Seq<Seq<char>>) -> nat {
    if area(rows, rows.len() as int) > usize::MAX {
        usize::MAX as nat
    } else if area(rows, rows.len() as int) < 0 {
        0
    } else {
        area(rows, rows.len() as int) as nat
    }
}

/// The pipes of the loop through the start, beginning with the start.
pub open spec fn loop_of(rows: Seq<Seq<char>>) -> Option<Seq<Point>> {
    match start_of(rows, rows.len() as int) {
        Some(p) => {
            let s = (p.0 as usize, p.1 as usize);
            if s.0 == usize::MAX || s.1 == usize::MAX {
                None
            } else {
                traced(rows, first_step(rows, s, 4), seq![s], allowance(rows))
            }
        },
        None => None,
    }
}

fn tile(grid: &Grid, p: Point) -> (r: Option<char>)
    ensures
        r == tile_at(views(grid@), p.0 as int, p.1 as int),
{
    if p.1 >= grid.len() {
        return None;
    }
    assert(views(grid@)[p.1 as int] == grid@[p.1 as int]@);
    if p.0 >= grid[p.1].len() {
        return None;
    }
    Some(grid[p.1][p.0])
}

proof fn lemma_area_nonnegative(rows: Seq<Seq<char>>, k: int)
    ensures
        0 <= area(rows, k),
    decreases k,
{
    if k > 0 {
        lemma_area_nonnegative(rows, k - 1);
    }
}

fn count_tiles(grid: &Grid) -> (n: usize)
    ensures
        n == allowance(views(grid@)),
{
    let ghost rows = views(grid@);
    let mut n: usize = 0;
    let mut full = false;
    let mut y: usize = 0;
    while y < grid.len()
        invariant
            y <= grid@.len(),
            rows == views(grid@),
            !full ==> n == area(rows, y as int),
            full ==> area(rows, y as int) > usize::MAX && n == usize::MAX,
        decreases grid@.len() - y,
    {
        assert(rows[y as int] == grid@[y as int]@);
        proof {
            lemma_area_nonnegative(rows, y as int);
        }
        if !full {
            match n.checked_add(grid[y].len()) {
                Some(v) => {
                    n = v;
                },
                None => {
                    full = true;
                    n = usize::MAX;
                },
            }
        }
        y += 1;
    }
    n
}

/// The pipes of the loop through the start, beginning with the start.
/// `None` where there is no start or the pipes from it do not close.
#[verifier::loop_isolation(false)]
pub fn find_pipes(grid: &Grid) -> (r: Option<Vec<Point>>)
    ensures
        match r {
            Some(pipes) => loop_of(views(grid@)) == Some(pipes@),
            None => loop_of(views(grid@)).is_none(),
        },
{
    let ghost rows = views(grid@);
    let s = match find_starting_pos(grid) {
        Some(s) => s,
        None => {
            return None;
        },
    };
    if s.0 == usize::MAX || s.1 == usize::MAX {
        return None;
    }
    let mut curr = s;
    let neighbours = cardinal_neighbours(s);
    let mut k: usize = 0;
    while k < 4 && same(curr, s)
        invariant
            k <= 4,
            curr == first_step(rows, s, k as int),
            neighbours@ == neighbours_of(s),
        decreases 4 - k,
    {
        let n = neighbours[k];
        if !same(n, s) {
            match connections(grid, n) {
                Some((a, b)) => {
                    if same(a, s) || same(b, s) {
                        curr = n;
                    }
                },
                None => {},
            }
        }
        k += 1;
    }
    proof {
        lemma_first_step_stays(rows, s, k as int);
    }
    let mut pipes: Vec<Point> = Vec::new();
    pipes.push(s);
    assert(pipes@ =~= seq![s]);
    let mut fuel = count_tiles(grid);
    loop
        invariant
            pipes@.len() >= 1,
            loop_of(rows) == traced(rows, curr, pipes@, fuel as nat),
        decreases fuel,
    {
        match tile(grid, curr) {
            Some(c) => {
                if c == 'S' {
                    return Some(pipes);
                }
            },
            None => {
                return None;
            },
        }
        if fuel == 0 {
            return None;
        }
        let (c1, c2) = match connections(grid, curr) {
            Some(ends) => ends,
            None => {
                return None;
            },
        };
        let next = if same(c1, pipes[pipes.len() - 1]) {
            c2
        } else {
            c1
        };
        pipes.push(curr);
        curr = next;
        fuel -= 1;
    }
}

/// Once a neighbour has been found, the later ones are not looked at.
proof fn lemma_first_step_stays(rows: Seq<Seq<char>>, s: Point, k: int)
    requires
        0 <= k <= 4,
        k == 4 || first_step(rows, s, k) != s,
    ensures
        first_step(rows, s, 4) == first_step(rows, s, k),
    decreases 4 - k,
{
    if k < 4 {
        lemma_first_step_stays(rows, s, k + 1);
    }
}

/// The number of tiles among the first `k` of `row` that hold `symbol`.
pub open spec fn count_in_row(row: Seq<char>, k: int, symbol: char) -> int
    decreases k,
{
    if k <= 0 {
        0
    } else {
        count_in_row(row, k - 1, symbol) + if row[k - 1] == symbol {
            1int
        } else {
            0int
        }
    }
}

/// The number of tiles in the first `k` rows that hold `symbol`.
pub open spec fn count_of(rows: Seq<Seq<char>>, k: int, symbol: char) -> int
    decreases k,
{
    if k <= 0 {
        0
    } else {
        count_of(rows, k - 1, symbol) + count_in_row(rows[k - 1], rows[k - 1].len() as int, symbol)
    }
}

proof fn lemma_count_in_row_range(row: Seq<char>, k: int, symbol: char)
    requires
        0 <= k,
    ensures
        0 <= count_in_row(row, k, symbol) <= k,
    decreases k,
{
    if k > 0 {
        lemma_count_in_row_range(row, k - 1, symbol);
    }
}

proof fn lemma_count_of_grows(rows: Seq<Seq<char>>, k: int, n: int, symbol: char)
    requires
        0 <= k <= n,
    ensures
        0 <= count_of(rows, k, symbol) <= count_of(rows, n, symbol),
    decreases n - k,
{
    if k < n {
        lemma_count_of_grows(rows, k + 1, n, symbol);
        lemma_count_in_row_range(rows[k], rows[k].len() as int, symbol);
    }
    lemma_count_of_nonnegative(rows, k, symbol);
}

proof fn lemma_count_of_nonnegative(rows: Seq<Seq<char>>, k: int, symbol: char)
    ensures
        0 <= count_of(rows, k, symbol),
    decreases k,
{
    if k > 0 {
        lemma_count_of_nonnegative(rows, k - 1, symbol);
        lemma_count_in_row_range(rows[k - 1], rows[k - 1].len() as int, symbol);
    }
}

/// The number of tiles that hold `symbol`; `None` where it does not fit.
#[verifier::loop_isolation(false)]
pub fn count_symbol_occurrence(grid: &Grid, symbol: char) -> (r: Option<usize>)
    ensures
        match r {
            Some(n) => n == count_of(views(grid@), grid@.len() as int, symbol),
            None => count_of(views(grid@), grid@.len() as int, symbol) > usize::MAX,
        },
{
    let ghost rows = views(grid@);
    let mut n: usize = 0;
    let mut y: usize = 0;
    while y < grid.len()
        invariant
            y <= grid@.len(),
            n == count_of(rows, y as int, symbol),
        decreases grid@.len() - y,
    {
        let row = &grid[y];
        assert(rows[y as int] == row@);
        let mut here: usize = 0;
        let mut x: usize = 0;
        while x < row.len()
            invariant
                x <= row@.len(),
                here == count_in_row(row@, x as int, symbol),
                here <= x,
            decreases row@.len() - x,
        {
            if row[x] == symbol {
                here += 1;
            }
            x += 1;
        }
        match n.checked_add(here) {
            Some(v) => {
                n = v;
            },
            None => {
                proof {
                    lemma_count_of_grows(rows, y + 1, grid@.len() as int, symbol);
                }
                return None;
            },
        }
        y += 1;
    }
    Some(n)
}

/// The number of steps to the pipe of the loop farthest from the start:
/// half the number of its pipes.
pub fn part1(input: &Grid) -> (r: Option<usize>)
    ensures
        match r {
            Some(n) => loop_of(views(input@)) matches Some(pipes) && n == pipes.len() / 2,
            None => loop_of(views(input@)).is_none(),
        },
{
    match find_pipes(input) {
        Some(pipes) => Some(pipes.len() / 2),
        None => None,
    }
}

/// The rows of a maze read from `lines`: each line that is not empty once
/// trimmed, trimmed and with a dot put before and after it.
pub open spec fn framed(lines: Seq<Seq<char>>) -> Seq<Seq<char>>
    decreases lines.len(),
{
    if lines.len() == 0 {
        Seq::empty()
    } else if trimmed(lines.last()).len() == 0 {
        framed(lines.drop_last())
    } else {
        framed(lines.drop_last()).push(seq!['.'] + trimmed(lines.last()) + seq!['.'])
    }
}

/// A row of `n` dots.
pub open spec fn dots(n: nat) -> Seq<char> {
    Seq::new(n, |i: int| '.')
}

/// The maze that `text` draws: its rows framed, between a row of dots above
/// and one below, each as long as the first framed row. `None` where the
/// text has no row.
pub open spec fn maze_of(text: Seq<char>) -> Option<Seq<Seq<char>>> {
    let rows = framed(lines_of(text));
    if rows.len() == 0 {
        None
    } else {
        Some(seq![dots(rows[0].len())] + rows + seq![dots(rows[0].len())])
    }
}

fn row_of_dots(n: usize) -> (r: Vec<char>)
    ensures
        r@ == dots(n as nat),
{
    let mut r: Vec<char> = Vec::new();
    let mut i: usize = 0;
    while i < n
        invariant
            i <= n,
            r@.len() == i,
            forall|k: int| 0 <= k < i ==> r@[k] == '.',
        decreases n - i,
    {
        r.push('.');
        i += 1;
    }
    assert(r@ =~= dots(n as nat));
    r
}

/// Reads the maze; `None` where the text has no row.
#[verifier::loop_isolation(false)]
pub fn parse(input: &str) -> (r: Option<Grid>)
    ensures
        match r {
            Some(grid) => maze_of(input@) == Some(views(grid@)),
            None => maze_of(input@).is_none(),
        },
{
    let chars = chars_of(input);
    let ls = lines(&chars);
    let ghost texts = views(ls@);
    let mut rows: Grid = Vec::new();
    let mut i: usize = 0;
    assert(texts.take(0) =~= Seq::<Seq<char>>::empty());
    assert(views(rows@) =~= Seq::<Seq<char>>::empty());
    while i < ls.len()
        invariant
            i <= ls@.len(),
            views(rows@) == framed(texts.take(i as int)),
        decreases ls@.len() - i,
    {
        proof {
            assert(texts.take(i + 1).drop_last() =~= texts.take(i as int));
            assert(texts.take(i + 1).last() == ls@[i as int]@);
        }
        let bare = trim(&ls[i]);
        if bare.len() > 0 {
            let mut row: Vec<char> = Vec::new();
            row.push('.');
            let mut k: usize = 0;
            while k < bare.len()
                invariant
                    k <= bare@.len(),
                    row@ == seq!['.'] + bare@.take(k as int),
                decreases bare@.len() - k,
            {
                row.push(bare[k]);
                k += 1;
                assert(row@ =~= seq!['.'] + bare@.take(k as int));
            }
            assert(bare@.take(k as int) =~= bare@);
            row.push('.');
            assert(row@ =~= seq!['.'] + bare@ + seq!['.']);
            proof {
                crate::text::lemma_views_push(rows@, row);
            }
            rows.push(row);
        }
        i += 1;
    }
    assert(texts.take(i as int) =~= texts);
    if rows.len() == 0 {
        return None;
    }
    let ghost inner = views(rows@);
    assert(inner[0] == rows@[0]@);
    let width = rows[0].len();
    let mut grid: Grid = Vec::new();
    grid.push(row_of_dots(width));
    assert(views(grid@) =~= seq![dots(width as nat)] + inner.take(0));
    let mut y: usize = 0;
    while y < rows.len()
        invariant
            y <= rows@.len(),
            views(grid@) == seq![dots(width as nat)] + inner.take(y as int),
        decreases rows@.len() - y,
    {
        let row = crate::text::copy_range(&rows[y], 0, rows[y].len());
        assert(row@ =~= inner[y as int]);
        let ghost before = views(grid@);
        proof {
            crate::text::lemma_views_push(grid@, row);
        }
        grid.push(row);
        y += 1;
        assert(views(grid@) =~= seq![dots(width as nat)] + inner.take(y as int));
    }
    assert(inner.take(y as int) =~= inner);
    let last = row_of_dots(width);
    proof {
        crate::text::lemma_views_push(grid@, last);
    }
    grid.push(last);
    assert(views(grid@) =~= seq![dots(width as nat)] + inner + seq![dots(width as nat)]);
    Some(grid)
}

/// A set of places, held as a mask over the maze.
pub struct PipeSet {
    mask: Vec<Vec<bool>>,
    count: usize,
}

impl View for PipeSet {
    type V = Set<Point>;

    closed spec fn view(&self) -> Set<Point> {
        Set::new(
            |p: Point|
                p.1 < self.mask@.len() && p.0 < self.mask@[p.1 as int]@.len()
                    && self.mask@[p.1 as int]@[p.0 as int],
        )
    }
}

impl PipeSet {
    /// The number of places in the set.
    pub closed spec fn spec_len(&self) -> usize {
        self.count
    }

    #[verifier::type_invariant]
    spec fn inv(self) -> bool {
        self@.finite() && self@.len() == self.count
    }

    /// The set of those of `pipes` that lie in `grid`.
    #[verifier::loop_isolation(false)]
    pub fn new(grid: &Grid, pipes: &Vec<Point>) -> (r: PipeSet)
        ensures
            forall|p: Point|
                r@.contains(p) <==> pipes@.contains(p) && tile_at(
                    views(grid@),
                    p.0 as int,
                    p.1 as int,
                ) is Some,
            r@.finite(),
            r@.len() == r.spec_len(),
    {
        let ghost rows = views(grid@);
        let mut mask: Vec<Vec<bool>> = Vec::new();
        let mut y: usize = 0;
        while y < grid.len()
            invariant
                y <= grid@.len(),
                mask@.len() == y,
                forall|k: int| 0 <= k < y ==> (#[trigger] mask@[k])@.len() == rows[k].len(),
                forall|k: int, x: int|
                    0 <= k < y && 0 <= x < rows[k].len() ==> !(#[trigger] mask@[k]@[x]),
            decreases grid@.len() - y,
        {
            assert(rows[y as int] == grid@[y as int]@);
            let n = grid[y].len();
            let mut row: Vec<bool> = Vec::new();
            let mut x: usize = 0;
            while x < n
                invariant
                    x <= n,
                    row@.len() == x,
                    forall|k: int| 0 <= k < x ==> !row@[k],
                decreases n - x,
            {
                row.push(false);
                x += 1;
            }
            mask.push(row);
            y += 1;
        }
        let mut count: usize = 0;
        let ghost mut held: Set<Point> = Set::empty();
        let mut i: usize = 0;
        while i < pipes.len()
            invariant
                i <= pipes@.len(),
                held.finite(),
                held.len() == count,
                count <= i,
                forall|q: Point|
                    held.contains(q) <==> q.1 < mask@.len() && q.0 < mask@[q.1 as int]@.len()
                        && mask@[q.1 as int]@[q.0 as int],
                mask@.len() == rows.len(),
                forall|k: int| 0 <= k < rows.len() ==> (#[trigger] mask@[k])@.len() == rows[k].len(),
                forall|k: int, x: int|
                    0 <= k < rows.len() && 0 <= x < rows[k].len() ==> (#[trigger] mask@[k]@[x]
                        <==> exists|j: int|
                        0 <= j < i && #[trigger] pipes@[j] == (x as usize, k as usize)),
            decreases pipes@.len() - i,
        {
            let p = pipes[i];
            let ghost before = mask@;
            if p.1 < mask.len() && p.0 < mask[p.1].len() {
                if !mask[p.1][p.0] {
                    mask[p.1][p.0] = true;
                    count += 1;
                    proof {
                        held = held.insert(p);
                    }
                }
            }
            proof {
                assert forall|k: int, x: int|
                    0 <= k < rows.len() && 0 <= x < rows[k].len() implies (#[trigger] mask@[k]@[x]
                    <==> exists|j: int|
                    0 <= j < i + 1 && #[trigger] pipes@[j] == (x as usize, k as usize)) by {
                    if before[k]@[x] {
                        let j = choose|j: int|
                            0 <= j < i && #[trigger] pipes@[j] == (x as usize, k as usize);
                        assert(pipes@[j] == (x as usize, k as usize));
                    }
                    if p == (x as usize, k as usize) {
                        assert(pipes@[i as int] == (x as usize, k as usize));
                    }
                }
            }
            i += 1;
        }
        proof {
            let shown = Set::new(
                |q: Point|
                    q.1 < mask@.len() && q.0 < mask@[q.1 as int]@.len() && mask@[q.1 as int]@[q.0 as int],
            );
            assert(shown =~= held);
        }
        let r = PipeSet { mask, count };
        proof {
            assert forall|p: Point|
                r@.contains(p) <==> pipes@.contains(p) && tile_at(rows, p.0 as int, p.1 as int)
                    is Some by {
                if r@.contains(p) {
                    let j = choose|j: int|
                        0 <= j < pipes@.len() && #[trigger] pipes@[j] == (
                            p.0 as int as usize,
                            p.1 as int as usize,
                        );
                    assert(pipes@[j] == p);
                }
                if pipes@.contains(p) && tile_at(rows, p.0 as int, p.1 as int) is Some {
                    let j = choose|j: int| 0 <= j < pipes@.len() && pipes@[j] == p;
                    assert(pipes@[j] == (p.0 as int as usize, p.1 as int as usize));
                }
            }
        }
        r
    }

    /// Whether `p` is in the set.
    pub fn contains(&self, p: Point) -> (r: bool)
        ensures
            r == self@.contains(p),
    {
        p.1 < self.mask.len() && p.0 < self.mask[p.1].len() && self.mask[p.1][p.0]
    }

    /// The number of places in the set.
    pub fn len(&self) -> (n: usize)
        ensures
            n == self.spec_len(),
            self@.finite(),
            n == self@.len(),
    {
        proof {
            use_type_invariant(self);
        }
        self.count
    }
}

/// Every row is at least as long as the first.
pub open spec fn full_rows(rows: Seq<Seq<char>>) -> bool {
    forall|y: int| 0 <= y < rows.len() ==> (#[trigger] rows[y]).len() >= rows[0].len()
}

/// Whether the flood may enter `p`: it lies within the rows and the width
/// of the first row, is not marked yet, and is no pipe.
pub open spec fn open_to(rows: Seq<Seq<char>>, pipes: Set<Point>, p: Point) -> bool {
    p.1 < rows.len() && p.0 < rows[0].len() && rows[p.1 as int][p.0 as int] != 'X'
        && !pipes.contains(p)
}

/// `path` leads from `start` from place to neighbouring place, each open to
/// the flood.
pub open spec fn flood_path(rows: Seq<Seq<char>>, pipes: Set<Point>, start: Point, path: Seq<Point>) -> bool {
    &&& path.len() > 0
    &&& path[0] == start
    &&& forall|i: int| 0 <= i < path.len() ==> open_to(rows, pipes, #[trigger] path[i])
    &&& forall|i: int|
        0 <= i < path.len() - 1 ==> neighbours_of(path[i]).contains(#[trigger] path[i + 1])
}

/// Whether the flood from `start` reaches `p`.
pub open spec fn flooded(rows: Seq<Seq<char>>, pipes: Set<Point>, start: Point, p: Point) -> bool {
    exists|path: Seq<Point>| #[trigger] flood_path(rows, pipes, start, path) && path.last() == p
}

/// The maze with the places that the flood from `start` reaches marked `X`.
pub open spec fn marked_from(rows: Seq<Seq<char>>, pipes: Set<Point>, start: Point) -> Seq<Seq<char>> {
    Seq::new(
        rows.len(),
        |y: int|
            Seq::new(
                rows[y].len(),
                |x: int|
                    if flooded(rows, pipes, start, (x as usize, y as usize)) {
                        'X'
                    } else {
                        rows[y][x]
                    },
            ),
    )
}

/// What holds while the flood spreads from `start`: the places marked so
/// far are reached by it; each place waiting is reached if it is open; the
/// start is marked or waits if it is open; and so is each open neighbour of
/// a place marked.
spec fn flood_inv(
    rows: Seq<Seq<char>>,
    pipes: Set<Point>,
    start: Point,
    done: Set<Point>,
    waiting: Seq<Point>,
) -> bool {
    &&& forall|p: Point| #[trigger] done.contains(p) ==> flooded(rows, pipes, start, p)
    &&& forall|i: int|
        0 <= i < waiting.len() && open_to(rows, pipes, #[trigger] waiting[i]) ==> flooded(
            rows,
            pipes,
            start,
            waiting[i],
        )
    &&& open_to(rows, pipes, start) ==> done.contains(start) || waiting.contains(start)
    &&& forall|p: Point, k: int|
        done.contains(p) && 0 <= k < 4 && open_to(rows, pipes, #[trigger] neighbours_of(p)[k])
            ==> done.contains(neighbours_of(p)[k]) || waiting.contains(neighbours_of(p)[k])
}

/// Once no place waits, every place that the flood reaches is marked.
proof fn lemma_all_marked(
    rows: Seq<Seq<char>>,
    pipes: Set<Point>,
    start: Point,
    done: Set<Point>,
    path: Seq<Point>,
)
    requires
        flood_inv(rows, pipes, start, done, Seq::empty()),
        flood_path(rows, pipes, start, path),
    ensures
        done.contains(path.last()),
    decreases path.len(),
{
    if path.len() == 1 {
        assert(open_to(rows, pipes, path[0]));
    } else {
        let head = path.drop_last();
        assert(flood_path(rows, pipes, start, head)) by {
            assert forall|i: int| 0 <= i < head.len() implies open_to(
                rows,
                pipes,
                #[trigger] head[i],
            ) by {
                assert(head[i] == path[i]);
            }
            assert forall|i: int| 0 <= i < head.len() - 1 implies neighbours_of(head[i]).contains(
                #[trigger] head[i + 1],
            ) by {
                assert(head[i] == path[i]);
                assert(head[i + 1] == path[i + 1]);
            }
        }
        lemma_all_marked(rows, pipes, start, done, head);
        let n = path.len() - 2;
        let b = head.last();
        assert(b == path[n]);
        assert(neighbours_of(b).contains(path[n + 1]));
        let k = choose|k: int| 0 <= k < neighbours_of(b).len() && neighbours_of(b)[k] == path[n + 1];
        assert(open_to(rows, pipes, path[n + 1]));
        assert(open_to(rows, pipes, neighbours_of(b)[k]));
    }
}

/// A place that the flood reaches passes it on to each open neighbour.
proof fn lemma_flood_next(rows: Seq<Seq<char>>, pipes: Set<Point>, start: Point, p: Point, k: int)
    requires
        flooded(rows, pipes, start, p),
        0 <= k < 4,
        open_to(rows, pipes, neighbours_of(p)[k]),
    ensures
        flooded(rows, pipes, start, neighbours_of(p)[k]),
{
    let next = neighbours_of(p)[k];
    let path = choose|path: Seq<Point>| #[trigger]
        flood_path(rows, pipes, start, path) && path.last() == p;
    let longer = path.push(next);
    assert forall|i: int| 0 <= i < longer.len() implies open_to(rows, pipes, #[trigger] longer[i]) by {
        if i < path.len() {
            assert(longer[i] == path[i]);
        }
    }
    assert forall|i: int| 0 <= i < longer.len() - 1 implies neighbours_of(longer[i]).contains(
        #[trigger] longer[i + 1],
    ) by {
        assert(longer[i] == path[i]);
        if i < path.len() - 1 {
            assert(longer[i + 1] == path[i + 1]);
        }
    }
    assert(flood_path(rows, pipes, start, longer) && longer.last() == next);
}

/// The maze `rows` with the places of `done` marked `X`.
spec fn marked_with(rows: Seq<Seq<char>>, done: Set<Point>) -> Seq<Seq<char>> {
    Seq::new(
        rows.len(),
        |y: int|
            Seq::new(
                rows[y].len(),
                |x: int|
                    if done.contains((x as usize, y as usize)) {
                        'X'
                    } else {
                        rows[y][x]
                    },
            ),
    )
}

/// The number of tiles in the first `k` rows that are not marked.
spec fn unmarked(rows: Seq<Seq<char>>, k: int) -> int {
    area(rows, k) - count_of(rows, k, 'X')
}

proof fn lemma_count_in_row_mark(row: Seq<char>, x: int, k: int)
    requires
        0 <= x < row.len(),
        0 <= k <= row.len(),
        row[x] != 'X',
    ensures
        count_in_row(row.update(x, 'X'), k, 'X') == count_in_row(row, k, 'X') + if x < k {
            1int
        } else {
            0int
        },
    decreases k,
{
    if k > 0 {
        lemma_count_in_row_mark(row, x, k - 1);
    }
}

proof fn lemma_unmarked_after_mark(rows: Seq<Seq<char>>, x: int, y: int, k: int)
    requires
        0 <= y < rows.len(),
        0 <= x < rows[y].len(),
        rows[y][x] != 'X',
        0 <= k <= rows.len(),
    ensures
        unmarked(rows.update(y, rows[y].update(x, 'X')), k) == unmarked(rows, k) - if y < k {
            1int
        } else {
            0int
        },
        0 <= unmarked(rows, k),
    decreases k,
{
    let after = rows.update(y, rows[y].update(x, 'X'));
    if k > 0 {
        lemma_unmarked_after_mark(rows, x, y, k - 1);
        lemma_count_in_row_range(rows[k - 1], rows[k - 1].len() as int, 'X');
        if k - 1 == y {
            lemma_count_in_row_mark(rows[y], x, rows[y].len() as int);
        } else {
            assert(after[k - 1] == rows[k - 1]);
        }
    }
}

/// There are no more marked tiles than tiles.
proof fn lemma_unmarked_nonnegative(rows: Seq<Seq<char>>, k: int)
    requires
        0 <= k <= rows.len(),
    ensures
        0 <= unmarked(rows, k),
    decreases k,
{
    if k > 0 {
        lemma_unmarked_nonnegative(rows, k - 1);
        lemma_count_in_row_range(rows[k - 1], rows[k - 1].len() as int, 'X');
    }
}

/// `flood_inv` survives dropping the last waiting place where it is not
/// open to the flood or is marked.
proof fn lemma_drop_place(
    rows: Seq<Seq<char>>,
    pipes: Set<Point>,
    start: Point,
    done: Set<Point>,
    waiting: Seq<Point>,
)
    requires
        waiting.len() > 0,
        flood_inv(rows, pipes, start, done, waiting),
        !open_to(rows, pipes, waiting.last()) || done.contains(waiting.last()),
    ensures
        flood_inv(rows, pipes, start, done, waiting.drop_last()),
{
    let rest = waiting.drop_last();
    assert forall|i: int|
        0 <= i < rest.len() && open_to(rows, pipes, #[trigger] rest[i]) implies flooded(
        rows,
        pipes,
        start,
        rest[i],
    ) by {
        assert(rest[i] == waiting[i]);
    }
    assert forall|p: Point| waiting.contains(p) && p != waiting.last() implies rest.contains(p) by {
        let i = choose|i: int| 0 <= i < waiting.len() && waiting[i] == p;
        assert(rest[i] == p);
    }
    assert forall|p: Point, k: int|
        done.contains(p) && 0 <= k < 4 && open_to(
            rows,
            pipes,
            #[trigger] neighbours_of(p)[k],
        ) implies done.contains(neighbours_of(p)[k]) || rest.contains(neighbours_of(p)[k]) by {
        let next = neighbours_of(p)[k];
        if !done.contains(next) {
            assert(waiting.contains(next));
        }
    }
}

/// `flood_inv` survives marking the last waiting place, where it is open,
/// once its neighbours wait in its place.
proof fn lemma_spread(
    rows: Seq<Seq<char>>,
    pipes: Set<Point>,
    start: Point,
    done: Set<Point>,
    waiting: Seq<Point>,
    grown: Seq<Point>,
)
    requires
        waiting.len() > 0,
        flood_inv(rows, pipes, start, done, waiting),
        open_to(rows, pipes, waiting.last()),
        grown == waiting.drop_last() + neighbours_of(waiting.last()),
    ensures
        flood_inv(rows, pipes, start, done.insert(waiting.last()), grown),
{
    let place = waiting.last();
    let rest = waiting.drop_last();
    let out = neighbours_of(place);
    let all = done.insert(place);
    assert(flooded(rows, pipes, start, place));
    assert forall|i: int|
        0 <= i < grown.len() && open_to(rows, pipes, #[trigger] grown[i]) implies flooded(
        rows,
        pipes,
        start,
        grown[i],
    ) by {
        if i < rest.len() {
            assert(grown[i] == waiting[i]);
        } else {
            assert(grown[i] == out[i - rest.len()]);
            lemma_flood_next(rows, pipes, start, place, i - rest.len());
        }
    }
    assert forall|p: Point| waiting.contains(p) && p != place implies grown.contains(p) by {
        let i = choose|i: int| 0 <= i < waiting.len() && waiting[i] == p;
        assert(grown[i] == p);
    }
    assert forall|p: Point, k: int|
        all.contains(p) && 0 <= k < 4 && open_to(
            rows,
            pipes,
            #[trigger] neighbours_of(p)[k],
        ) implies all.contains(neighbours_of(p)[k]) || grown.contains(neighbours_of(p)[k]) by {
        let next = neighbours_of(p)[k];
        if p == place {
            assert(grown[rest.len() + k] == next);
        } else if !done.contains(next) {
            assert(waiting.contains(next));
        }
    }
}

/// Marks with `X` every place that the flood from `curr` reaches: the
/// places open to it that a way from `curr` leads to, from neighbour to
/// neighbour through open places.
pub fn search_and_mark(grid: Grid, curr: Point, pipes: &PipeSet) -> (r: Grid)
    requires
        full_rows(views(grid@)),
    ensures
        views(r@) == marked_from(views(grid@), pipes@, curr),
{
    let ghost rows0 = views(grid@);
    let ghost ps = pipes@;
    let mut g = grid;
    let mut waiting: Vec<Point> = Vec::new();
    waiting.push(curr);
    let ghost mut done: Set<Point> = Set::empty();
    proof {
        assert(waiting@.contains(curr)) by {
            assert(waiting@[0] == curr);
        }
        assert forall|i: int|
            0 <= i < waiting@.len() && open_to(rows0, ps, #[trigger] waiting@[i]) implies flooded(
            rows0,
            ps,
            curr,
            waiting@[i],
        ) by {
            let path = seq![curr];
            assert(flood_path(rows0, ps, curr, path) && path.last() == curr);
        }
        assert(views(g@) =~~= marked_with(rows0, done));
        lemma_unmarked_nonnegative(views(g@), g@.len() as int);
    }
    loop
        invariant
            rows0 == views(grid@),
            ps == pipes@,
            full_rows(rows0),
            views(g@) == marked_with(rows0, done),
            forall|p: Point| #[trigger] done.contains(p) ==> open_to(rows0, ps, p),
            flood_inv(rows0, ps, curr, done, waiting@),
            0 <= unmarked(views(g@), g@.len() as int),
        decreases unmarked(views(g@), g@.len() as int), waiting@.len(),
    {
        let ghost queue = waiting@;
        let ghost now = views(g@);
        let next = waiting.pop();
        match next {
            None => {
                proof {
                    assert(waiting@ =~= Seq::<Point>::empty());
                    assert(views(g@) =~~= marked_from(rows0, ps, curr)) by {
                        assert forall|p: Point| flooded(rows0, ps, curr, p) <==> done.contains(p) by {
                            if flooded(rows0, ps, curr, p) {
                                let path = choose|path: Seq<Point>| #[trigger]
                                    flood_path(rows0, ps, curr, path) && path.last() == p;
                                lemma_all_marked(rows0, ps, curr, done, path);
                            }
                        }
                    }
                }
                return g;
            },
            Some(p) => {
                assert(waiting@ =~= queue.drop_last());
                assert(p == queue.last());
                let inside = p.1 < g.len() && p.0 < g[0].len();
                proof {
                    if p.1 < rows0.len() {
                        assert(now[0] == g@[0]@);
                        assert(now[p.1 as int] == g@[p.1 as int]@);
                        assert(rows0[p.1 as int].len() >= rows0[0].len());
                    }
                }
                if !inside {
                    proof {
                        lemma_drop_place(rows0, ps, curr, done, queue);
                    }
                } else if g[p.1][p.0] == 'X' {
                    proof {
                        lemma_drop_place(rows0, ps, curr, done, queue);
                    }
                } else if pipes.contains(p) {
                    proof {
                        lemma_drop_place(rows0, ps, curr, done, queue);
                    }
                } else {
                    let neighbours = cardinal_neighbours(p);
                    g[p.1][p.0] = 'X';
                    waiting.push(neighbours[0]);
                    waiting.push(neighbours[1]);
                    waiting.push(neighbours[2]);
                    waiting.push(neighbours[3]);
                    proof {
                        assert(open_to(rows0, ps, p));
                        assert(waiting@ =~= queue.drop_last() + neighbours_of(p));
                        lemma_spread(rows0, ps, curr, done, queue, waiting@);
                        lemma_unmarked_after_mark(now, p.0 as int, p.1 as int, now.len() as int);
                        assert(views(g@) =~~= now.update(
                            p.1 as int,
                            now[p.1 as int].update(p.0 as int, 'X'),
                        ));
                        let before = done;
                        done = done.insert(p);
                        let after = views(g@);
                        let wanted = marked_with(rows0, done);
                        assert(after.len() == wanted.len());
                        assert forall|y: int| 0 <= y < after.len() implies #[trigger] after[y]
                            =~= wanted[y] by {
                            assert(now[y] == marked_with(rows0, before)[y]);
                            assert forall|x: int| 0 <= x < after[y].len() implies after[y][x]
                                == wanted[y][x] by {
                                assert(after[y] == g@[y]@);
                                assert(g@[y].len() == after[y].len());
                                assert(g@.len() == after.len());
                                if x == p.0 && y == p.1 {
                                } else {
                                    assert((x as usize, y as usize) != p);
                                    assert(now[y][x] == marked_with(rows0, before)[y][x]);
                                }
                            }
                        }
                        assert(after =~= wanted);
                        lemma_unmarked_nonnegative(after, after.len() as int);
                    }
                }
            },
        }
    }
}

/// The two places to the right of the step from `previous` to `segment`,
/// for a step of one place to the right, down, to the left or up; none for
/// any other step.
pub open spec fn right_of(previous: Point, segment: Point) -> Seq<Point> {
    let x = segment.0;
    let y = segment.1;
    if x == previous.0 + 1 && y == previous.1 {
        seq![(x, (y + 1) as usize), (before(x), (y + 1) as usize)]
    } else if x == previous.0 && y == previous.1 + 1 {
        seq![(before(x), before(y)), (before(x), y)]
    } else if x + 1 == previous.0 && y == previous.1 {
        seq![(x, before(y)), ((x + 1) as usize, before(y))]
    } else if x == previous.0 && y + 1 == previous.1 {
        seq![((x + 1) as usize, y), ((x + 1) as usize, (y + 1) as usize)]
    } else {
        Seq::empty()
    }
}

/// The places to the right of each step along the first `k` of `pipes`,
/// the first step leading from `start` to the first pipe.
pub open spec fn seeds(start: Point, pipes: Seq<Point>, k: int) -> Seq<Point>
    decreases k,
{
    if k <= 0 {
        Seq::empty()
    } else {
        seeds(start, pipes, k - 1) + right_of(
            if k == 1 {
                start
            } else {
                pipes[k - 2]
            },
            pipes[k - 1],
        )
    }
}

/// The maze after the floods from the first `k` of `seeds`, one after the other.
pub open spec fn flooded_from(rows: Seq<Seq<char>>, pipes: Set<Point>, seeds: Seq<Point>, k: int) -> Seq<
    Seq<char>,
>
    decreases k,
{
    if k <= 0 {
        rows
    } else {
        marked_from(flooded_from(rows, pipes, seeds, k - 1), pipes, seeds[k - 1])
    }
}

/// Flooding keeps the rows as long as they are.
proof fn lemma_marked_from_shape(rows: Seq<Seq<char>>, pipes: Set<Point>, start: Point)
    requires
        full_rows(rows),
    ensures
        full_rows(marked_from(rows, pipes, start)),
        marked_from(rows, pipes, start).len() == rows.len(),
{
    let after = marked_from(rows, pipes, start);
    assert forall|y: int| 0 <= y < after.len() implies (#[trigger] after[y]).len()
        >= after[0].len() by {
        assert(rows[y].len() >= rows[0].len());
    }
}

fn all_rows_full(grid: &Grid) -> (r: bool)
    ensures
        r == full_rows(views(grid@)),
{
    let ghost rows = views(grid@);
    if grid.len() == 0 {
        return true;
    }
    assert(rows[0] == grid@[0]@);
    let width = grid[0].len();
    let mut y: usize = 0;
    while y < grid.len()
        invariant
            y <= grid@.len(),
            rows == views(grid@),
            width == rows[0].len(),
            forall|k: int| 0 <= k < y ==> (#[trigger] rows[k]).len() >= width,
        decreases grid@.len() - y,
    {
        assert(rows[y as int] == grid@[y as int]@);
        if grid[y].len() < width {
            return false;
        }
        y += 1;
    }
    true
}

/// The places to the right of the step from `previous` to `segment`.
fn step_seeds(previous: Point, segment: Point) -> (r: Option<Vec<Point>>)
    ensures
        match r {
            Some(v) => v@ == right_of(previous, segment) && segment.0 < usize::MAX && segment.1
                < usize::MAX,
            None => segment.0 == usize::MAX || segment.1 == usize::MAX || previous.0 == usize::MAX
                || previous.1 == usize::MAX,
        },
{
    if segment.0 == usize::MAX || segment.1 == usize::MAX || previous.0 == usize::MAX || previous.1
        == usize::MAX {
        return None;
    }
    let x = segment.0;
    let y = segment.1;
    let mut v: Vec<Point> = Vec::new();
    if x == previous.0 + 1 && y == previous.1 {
        v.push((x, y + 1));
        v.push((back(x), y + 1));
    } else if x == previous.0 && y == previous.1 + 1 {
        v.push((back(x), back(y)));
        v.push((back(x), y));
    } else if x + 1 == previous.0 && y == previous.1 {
        v.push((x, back(y)));
        v.push((x + 1, back(y)));
    } else if x == previous.0 && y + 1 == previous.1 {
        v.push((x + 1, y));
        v.push((x + 1, y + 1));
    }
    assert(v@ =~= right_of(previous, segment));
    Some(v)
}

/// Whether the maze can be marked: no row is shorter than the first, there
/// is a loop, and none of its pipes lies on the last column or row that can
/// be counted.
pub open spec fn markable(rows: Seq<Seq<char>>) -> bool {
    &&& full_rows(rows)
    &&& loop_of(rows) matches Some(pipes) && forall|i: int|
        0 <= i < pipes.len() ==> (#[trigger] pipes[i]).0 < usize::MAX && pipes[i].1 < usize::MAX
}

/// The pipes of the loop that lie in the maze.
pub open spec fn loop_set(rows: Seq<Seq<char>>) -> Set<Point> {
    Set::new(
        |p: Point|
            loop_of(rows) matches Some(pipes) && pipes.contains(p) && tile_at(
                rows,
                p.0 as int,
                p.1 as int,
            ) is Some,
    )
}

/// The maze with what lies to the right of its loop marked.
pub open spec fn marked_maze(rows: Seq<Seq<char>>) -> Seq<Seq<char>> {
    let pipes = loop_of(rows).unwrap();
    flooded_from(
        rows,
        loop_set(rows),
        seeds(pipes[0], pipes, pipes.len() as int),
        seeds(pipes[0], pipes, pipes.len() as int).len() as int,
    )
}

/// The number of tiles that the loop encloses.
pub open spec fn enclosed(rows: Seq<Seq<char>>) -> Option<int> {
    if !markable(rows) {
        None
    } else {
        let marked = marked_maze(rows);
        let n = count_of(marked, marked.len() as int, 'X');
        if n > usize::MAX {
            None
        } else if marked.len() > 0 && marked[0].len() > 0 && marked[0][0] == 'X' {
            let total = marked.len() * marked[0].len();
            if total > usize::MAX || total - n < 0 || total - n - loop_set(rows).len() < 0 {
                None
            } else {
                Some(total - n - loop_set(rows).len())
            }
        } else {
            Some(n)
        }
    }
}

/// The maze with what lies to the right of the loop marked, and the set of
/// the loop's pipes: going along the loop from the start, the flood is let
/// in at the two places to the right of each step. `None` where there is no
/// loop, a row is shorter than the first, or a pipe lies on the last column
/// or row that can be counted.
#[verifier::loop_isolation(false)]
pub fn mark_grid(grid: Grid) -> (r: Option<(Grid, PipeSet)>)
    ensures
        match r {
            Some((marked, pipe_set)) => {
                &&& loop_of(views(grid@)) matches Some(pipes) && {
                    &&& forall|p: Point|
                        pipe_set@.contains(p) <==> pipes.contains(p) && tile_at(
                            views(grid@),
                            p.0 as int,
                            p.1 as int,
                        ) is Some
                    &&& views(marked@) == flooded_from(
                        views(grid@),
                        pipe_set@,
                        seeds(pipes[0], pipes, pipes.len() as int),
                        seeds(pipes[0], pipes, pipes.len() as int).len() as int,
                    )
                }
                &&& pipe_set@.finite()
                &&& pipe_set@.len() == pipe_set.spec_len()
                &&& markable(views(grid@))
            },
            None => !markable(views(grid@)),
        },
{
    let ghost rows0 = views(grid@);
    if !all_rows_full(&grid) {
        return None;
    }
    let pipes = match find_pipes(&grid) {
        Some(p) => p,
        None => {
            return None;
        },
    };
    proof {
        lemma_loop_starts(rows0);
    }
    let starting_point = pipes[0];
    let pipe_set = PipeSet::new(&grid, &pipes);
    let ghost ps = pipe_set@;
    let mut points_to_mark: Vec<Point> = Vec::new();
    let mut previous = starting_point;
    let mut i: usize = 0;
    while i < pipes.len()
        invariant
            i <= pipes@.len(),
            pipes@.len() >= 1,
            starting_point == pipes@[0],
            previous == if i == 0 {
                starting_point
            } else {
                pipes@[i - 1]
            },
            points_to_mark@ == seeds(starting_point, pipes@, i as int),
            forall|j: int|
                0 <= j < i ==> (#[trigger] pipes@[j]).0 < usize::MAX && pipes@[j].1 < usize::MAX,
        decreases pipes@.len() - i,
    {
        let segment = pipes[i];
        match step_seeds(previous, segment) {
            Some(found) => {
                assert(pipes@[i as int].0 < usize::MAX && pipes@[i as int].1 < usize::MAX);
                let ghost before = points_to_mark@;
                let mut k: usize = 0;
                while k < found.len()
                    invariant
                        k <= found@.len(),
                        points_to_mark@ == before + found@.take(k as int),
                    decreases found@.len() - k,
                {
                    points_to_mark.push(found[k]);
                    k += 1;
                    assert(points_to_mark@ =~= before + found@.take(k as int));
                }
                assert(found@.take(k as int) =~= found@);
            },
            None => {
                proof {
                    if i > 0 {
                        assert(pipes@[i - 1].0 < usize::MAX && pipes@[i - 1].1 < usize::MAX);
                    }
                    assert(pipes@[i as int].0 == usize::MAX || pipes@[i as int].1 == usize::MAX
                        || pipes@[0].0 == usize::MAX || pipes@[0].1 == usize::MAX);
                }
                return None;
            },
        }
        previous = segment;
        i += 1;
    }
    let mut marked_grid = grid;
    let mut k: usize = 0;
    while k < points_to_mark.len()
        invariant
            k <= points_to_mark@.len(),
            full_rows(views(marked_grid@)),
            views(marked_grid@) == flooded_from(rows0, ps, points_to_mark@, k as int),
        decreases points_to_mark@.len() - k,
    {
        let ghost now = views(marked_grid@);
        proof {
            lemma_marked_from_shape(now, ps, points_to_mark@[k as int]);
        }
        marked_grid = search_and_mark(marked_grid, points_to_mark[k], &pipe_set);
        k += 1;
    }
    Some((marked_grid, pipe_set))
}

/// A loop found begins with a place.
proof fn lemma_loop_starts(rows: Seq<Seq<char>>)
    ensures
        loop_of(rows) matches Some(pipes) ==> pipes.len() >= 1,
{
    match start_of(rows, rows.len() as int) {
        Some(p) => {
            let s = (p.0 as usize, p.1 as usize);
            if s.0 != usize::MAX && s.1 != usize::MAX {
                lemma_traced_keeps(rows, first_step(rows, s, 4), seq![s], allowance(rows));
            }
        },
        None => {},
    }
}

/// A loop traced begins with the pipes it began with.
proof fn lemma_traced_keeps(rows: Seq<Seq<char>>, curr: Point, found: Seq<Point>, fuel: nat)
    requires
        found.len() >= 1,
    ensures
        traced(rows, curr, found, fuel) matches Some(pipes) ==> pipes.len() >= found.len()
            && pipes[0] == found[0],
    decreases fuel,
{
    match tile_at(rows, curr.0 as int, curr.1 as int) {
        Some(c) => {
            if c != 'S' && fuel > 0 {
                match connected(rows, curr) {
                    Some((c1, c2)) => {
                        lemma_traced_keeps(
                            rows,
                            if c1 == found.last() {
                                c2
                            } else {
                                c1
                            },
                            found.push(curr),
                            (fuel - 1) as nat,
                        );
                    },
                    None => {},
                }
            }
        },
        None => {},
    }
}

/// The number of tiles that the loop encloses: the tiles marked to its
/// right, or where the flood has reached the top-left corner and so has
/// marked the outside, the tiles that are neither marked nor pipes of the
/// loop. `None` where the maze cannot be marked or a number does not fit.
pub fn part2(input: &Grid) -> (r: Option<usize>)
    ensures
        match r {
            Some(v) => enclosed(views(input@)) == Some(v as int),
            None => enclosed(views(input@)).is_none(),
        },
{
    let ghost rows = views(input@);
    let copy = copy_grid(input);
    let (marked_grid, pipe_set) = match mark_grid(copy) {
        Some(found) => found,
        None => {
            return None;
        },
    };
    proof {
        assert(pipe_set@ =~= loop_set(rows));
        assert(views(marked_grid@) == marked_maze(rows));
    }
    let num_marked = match count_symbol_occurrence(&marked_grid, 'X') {
        Some(n) => n,
        None => {
            return None;
        },
    };
    let ghost marked = views(marked_grid@);
    if marked_grid.len() > 0 {
        assert(marked[0] == marked_grid@[0]@);
    }
    if marked_grid.len() > 0 && marked_grid[0].len() > 0 && marked_grid[0][0] == 'X' {
        let total = match marked_grid.len().checked_mul(marked_grid[0].len()) {
            Some(t) => t,
            None => {
                return None;
            },
        };
        match total.checked_sub(num_marked) {
            Some(rest) => rest.checked_sub(pipe_set.len()),
            None => None,
        }
    } else {
        Some(num_marked)
    }
}

fn copy_grid(grid: &Grid) -> (r: Grid)
    ensures
        views(r@) == views(grid@),
{
    let mut r: Grid = Vec::new();
    let mut y: usize = 0;
    while y < grid.len()
        invariant
            y <= grid@.len(),
            r@.len() == y,
            forall|i: int| 0 <= i < y ==> (#[trigger] r@[i])@ == grid@[i]@,
        decreases grid@.len() - y,
    {
        let row = crate::text::copy_range(&grid[y], 0, grid[y].len());
        assert(row@ =~= grid@[y as int]@);
        r.push(row);
        y += 1;
    }
    assert(views(r@) =~= views(grid@));
    r
}

} // verus!
