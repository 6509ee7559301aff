//! Galaxies in an expanding sky: the sum of the distances between all pairs.
use crate::text::{byte_len, byte_length, chars_of, lines, lines_of, views};
use vstd::prelude::*;

verus! {

/// A place in the sky: row and column.
pub type Point = (usize, usize);

/// The column `j` after the columns `cols` have each been widened by
/// `expansion`, taking the last of `cols` first: a column is moved by each
/// widened column that lies left of where it then stands.
pub open spec fn shifted(j: int, cols: Seq<usize>, expansion: int) -> int
    decreases cols.len(),
{
    if cols.len() == 0 {
        j
    } else {
        shifted(
            if j > cols.last() {
                j + expansion
            } else {
                j
            },
            cols.drop_last(),
            expansion,
        )
    }
}

/// Every column of `coords` after widening fits.
pub open spec fn expansion_fits(coords: Seq<Point>, cols: Seq<usize>, expansion: int) -> bool {
    forall|k: int| 0 <= k < coords.len() ==> shifted((#[trigger] coords[k]).1 as int, cols, expansion) <= usize::MAX
}

/// Widening a column by nothing negative never moves it left.
proof fn lemma_shifted_grows(j: int, cols: Seq<usize>, expansion: int)
    requires
        0 <= expansion,
    ensures
        j <= shifted(j, cols, expansion),
    decreases cols.len(),
{
    if cols.len() > 0 {
        lemma_shifted_grows(
            if j > cols.last() {
                j + expansion
            } else {
                j
            },
            cols.drop_last(),
            expansion,
        );
    }
}

/// The column `j` after widening; `None` where it does not fit.
fn shift(j: usize, cols: &Vec<usize>, expansion: usize) -> (r: Option<usize>)
    ensures
        match r {
            Some(v) => v == shifted(j as int, cols@, expansion as int),
            None => shifted(j as int, cols@, expansion as int) > usize::MAX,
        },
{
    let mut at: usize = j;
    let mut i: usize = cols.len();
    assert(cols@.take(i as int) =~= cols@);
    while i > 0
        invariant
            i <= cols@.len(),
            shifted(j as int, cols@, expansion as int) == shifted(
                at as int,
                cols@.take(i as int),
                expansion as int,
            ),
        decreases i,
    {
        proof {
            assert(cols@.take(i as int).drop_last() =~= cols@.take(i - 1));
            assert(cols@.take(i as int).last() == cols@[i - 1]);
        }
        if at > cols[i - 1] {
            match at.checked_add(expansion) {
                Some(next) => {
                    at = next;
                },
                None => {
                    proof {
                        lemma_shifted_grows(at + expansion, cols@.take(i - 1), expansion as int);
                    }
                    return None;
                },
            }
        }
        i -= 1;
    }
    Some(at)
}

/// The galaxies `coords` after each of the empty columns `empty_cols` has
/// been widened by `expansion`: rows stay, columns move as `shifted` says.
/// `None` where a column does not fit.
pub fn expand(coords: Vec<Point>, empty_cols: Vec<usize>, expansion: usize) -> (r: Option<
    Vec<Point>,
>)
    ensures
        match r {
            Some(out) => {
                &&& expansion_fits(coords@, empty_cols@, expansion as int)
                &&& out@.len() == coords@.len()
                &&& forall|k: int|
                    0 <= k < coords@.len() ==> (#[trigger] out@[k]).0 == coords@[k].0 && out@[k].1
                        == shifted(coords@[k].1 as int, empty_cols@, expansion as int)
            },
            None => !expansion_fits(coords@, empty_cols@, expansion as int),
        },
{
    let mut out: Vec<Point> = Vec::new();
    let mut k: usize = 0;
    while k < coords.len()
        invariant
            k <= coords@.len(),
            out@.len() == k,
            forall|i: int|
                0 <= i < k ==> (#[trigger] out@[i]).0 == coords@[i].0 && out@[i].1 == shifted(
                    coords@[i].1 as int,
                    empty_cols@,
                    expansion as int,
                ),
        decreases coords@.len() - k,
    {
        let (row, col) = coords[k];
        match shift(col, &empty_cols, expansion) {
            Some(moved) => {
                out.push((row, moved));
            },
            None => {
                assert(shifted(coords@[k as int].1 as int, empty_cols@, expansion as int)
                    > usize::MAX);
                return None;
            },
        }
        k += 1;
    }
    assert forall|i: int| 0 <= i < coords@.len() implies shifted(
        (#[trigger] coords@[i]).1 as int,
        empty_cols@,
        expansion as int,
    ) <= usize::MAX by {
        assert(out@[i].1 == shifted(coords@[i].1 as int, empty_cols@, expansion as int));
    }
    Some(out)
}

/// The distance between two places along rows and columns.
pub open spec fn distance(a: Point, b: Point) -> int {
    (if a.0 >= b.0 {
        a.0 - b.0
    } else {
        b.0 - a.0
    }) + (if a.1 >= b.1 {
        a.1 - b.1
    } else {
        b.1 - a.1
    })
}

/// The sum of the distances from `p` to each of the first `k` of `coords`.
pub open spec fn distances_to(coords: Seq<Point>, k: int, p: Point) -> int
    decreases k,
{
    if k <= 0 {
        0
    } else {
        distances_to(coords, k - 1, p) + distance(coords[k - 1], p)
    }
}

/// The sum of the distances between every two of the first `k` of `coords`.
pub open spec fn pair_distances(coords: Seq<Point>, k: int) -> int
    decreases k,
{
    if k <= 0 {
        0
    } else {
        pair_distances(coords, k - 1) + distances_to(coords, k - 1, coords[k - 1])
    }
}

proof fn lemma_distances_to_grow(coords: Seq<Point>, k: int, n: int, p: Point)
    requires
        0 <= k <= n,
    ensures
        0 <= distances_to(coords, k, p) <= distances_to(coords, n, p),
    decreases n - k,
{
    if k < n {
        lemma_distances_to_grow(coords, k + 1, n, p);
    }
    lemma_distances_to_nonnegative(coords, k, p);
}

proof fn lemma_distances_to_nonnegative(coords: Seq<Point>, k: int, p: Point)
    ensures
        0 <= distances_to(coords, k, p),
    decreases k,
{
    if k > 0 {
        lemma_distances_to_nonnegative(coords, k - 1, p);
    }
}

proof fn lemma_pair_distances_grow(coords: Seq<Point>, k: int, n: int)
    requires
        0 <= k <= n,
    ensures
        0 <= pair_distances(coords, k) <= pair_distances(coords, n),
    decreases n - k,
{
    if k < n {
        lemma_pair_distances_grow(coords, k + 1, n);
        lemma_distances_to_nonnegative(coords, k, coords[k]);
    }
    lemma_pair_distances_nonnegative(coords, k);
}

proof fn lemma_pair_distances_nonnegative(coords: Seq<Point>, k: int)
    ensures
        0 <= pair_distances(coords, k),
    decreases k,
{
    if k > 0 {
        lemma_pair_distances_nonnegative(coords, k - 1);
        lemma_distances_to_nonnegative(coords, k - 1, coords[k - 1]);
    }
}

/// The sum of the distances between every two of `coords`; `None` where it
/// does not fit.
#[verifier::loop_isolation(false)]
pub fn shortest_distance_sum(coords: Vec<Point>) -> (r: Option<usize>)
    ensures
        match r {
            Some(n) => n == pair_distances(coords@, coords@.len() as int),
            None => pair_distances(coords@, coords@.len() as int) > usize::MAX,
        },
{
    let count = coords.len();
    let mut n: usize = 0;
    let mut right: usize = 0;
    while right < count
        invariant
            right <= count,
            n == pair_distances(coords@, right as int),
        decreases count - right,
    {
        let here = coords[right];
        let mut row: usize = 0;
        let mut left: usize = 0;
        while left < right
            invariant
                left <= right < count,
                row == distances_to(coords@, left as int, here),
            decreases right - left,
        {
            let there = coords[left];
            let di = if there.0 >= here.0 {
                there.0 - here.0
            } else {
                here.0 - there.0
            };
            let dj = if there.1 >= here.1 {
                there.1 - here.1
            } else {
                here.1 - there.1
            };
            let next = match di.checked_add(dj) {
                Some(d) => row.checked_add(d),
                None => None,
            };
            match next {
                Some(v) => {
                    row = v;
                },
                None => {
                    proof {
                        lemma_distances_to_grow(coords@, left + 1, right as int, here);
                        lemma_distances_to_nonnegative(coords@, left as int, here);
                        lemma_pair_distances_nonnegative(coords@, right as int);
                        lemma_pair_distances_grow(coords@, right + 1, count as int);
                    }
                    return None;
                },
            }
            left += 1;
        }
        match n.checked_add(row) {
            Some(v) => {
                n = v;
            },
            None => {
                proof {
                    lemma_pair_distances_grow(coords@, right + 1, count as int);
                }
                return None;
            },
        }
        right += 1;
    }
    Some(n)
}

/// The galaxies `coords` after widening, as `expand` gives them.
pub open spec fn expanded(coords: Seq<Point>, cols: Seq<usize>, expansion: int) -> Seq<Point> {
    Seq::new(coords.len(), |k: int| (coords[k].0, shifted(coords[k].1 as int, cols, expansion) as usize))
}

/// The sum of the distances between every two galaxies after widening;
/// `None` where a column or the sum does not fit.
pub open spec fn widened_sum(coords: Seq<Point>, cols: Seq<usize>, expansion: int) -> Option<int> {
    if expansion_fits(coords, cols, expansion) && pair_distances(
        expanded(coords, cols, expansion),
        coords.len() as int,
    ) <= usize::MAX {
        Some(pair_distances(expanded(coords, cols, expansion), coords.len() as int))
    } else {
        None
    }
}

fn copy_points(v: &Vec<Point>) -> (r: Vec<Point>)
    ensures
        r@ == v@,
{
    let mut r: Vec<Point> = Vec::new();
    let mut i: usize = 0;
    while i < v.len()
        invariant
            i <= v@.len(),
            r@ == v@.take(i as int),
        decreases v@.len() - i,
    {
        r.push(v[i]);
        i += 1;
        assert(r@ =~= v@.take(i as int));
    }
    assert(v@.take(i as int) =~= v@);
    r
}

fn copy_sizes(v: &Vec<usize>) -> (r: Vec<usize>)
    ensures
        r@ == v@,
{
    let mut r: Vec<usize> = Vec::new();
    let mut i: usize = 0;
    while i < v.len()
        invariant
            i <= v@.len(),
            r@ == v@.take(i as int),
        decreases v@.len() - i,
    {
        r.push(v[i]);
        i += 1;
        assert(r@ =~= v@.take(i as int));
    }
    assert(v@.take(i as int) =~= v@);
    r
}

fn widened(input: &(Vec<Point>, Vec<usize>), expansion: usize) -> (r: Option<usize>)
    ensures
        match r {
            Some(n) => widened_sum(input.0@, input.1@, expansion as int) == Some(n as int),
            None => widened_sum(input.0@, input.1@, expansion as int).is_none(),
        },
{
    match expand(copy_points(&input.0), copy_sizes(&input.1), expansion) {
        Some(coords) => {
            assert(coords@ =~= expanded(input.0@, input.1@, expansion as int));
            shortest_distance_sum(coords)
        },
        None => None,
    }
}

/// The sum of the distances once each empty column is one wider.
pub fn part1(input: &(Vec<Point>, Vec<usize>)) -> (r: Option<usize>)
    ensures
        match r {
            Some(n) => widened_sum(input.0@, input.1@, 1) == Some(n as int),
            None => widened_sum(input.0@, input.1@, 1).is_none(),
        },
{
    widened(input, 1)
}

/// The sum of the distances once each empty column is 999 999 wider.
pub fn part2(input: &(Vec<Point>, Vec<usize>)) -> (r: Option<usize>)
    ensures
        match r {
            Some(n) => widened_sum(input.0@, input.1@, 999_999) == Some(n as int),
            None => widened_sum(input.0@, input.1@, 999_999).is_none(),
        },
{
    widened(input, 999_999)
}

/// The places of the galaxies in `line`: the indices of its `#`, ascending.
pub open spec fn marks(line: Seq<char>) -> Seq<int>
    decreases line.len(),
{
    if line.len() == 0 {
        Seq::empty()
    } else if line.last() == '#' {
        marks(line.drop_last()).push(line.len() - 1)
    } else {
        marks(line.drop_last())
    }
}

/// The galaxies read so far and the rows gained so far by empty lines.
pub struct Sky {
    pub coords: Seq<(int, int)>,
    pub offset: int,
}

/// The sky after the lines `lines`: each galaxy stands in the row of its
/// line, counted from 0, plus the rows gained by the empty lines before it,
/// `step` for each; and in the column of its character. `None` where a row
/// or the rows gained do not fit.
pub open spec fn sky_of(lines: Seq<Seq<char>>, step: int) -> Option<Sky>
    decreases lines.len(),
{
    if lines.len() == 0 {
        Some(Sky { coords: Seq::empty(), offset: 0 })
    } else {
        match sky_of(lines.drop_last(), step) {
            Some(sky) => {
                let i = lines.len() - 1;
                let found = marks(lines.last());
                if found.len() > 0 && i + sky.offset > usize::MAX {
                    None
                } else if found.len() == 0 && sky.offset + step > usize::MAX {
                    None
                } else {
                    Some(
                        Sky {
                            coords: sky.coords + Seq::new(
                                found.len(),
                                |k: int| (i + sky.offset, found[k]),
                            ),
                            offset: if found.len() == 0 {
                                sky.offset + step
                            } else {
                                sky.offset
                            },
                        },
                    )
                }
            },
            None => None,
        }
    }
}

/// Whether a galaxy stands in column `j` of one of `lines`.
pub open spec fn column_marked(lines: Seq<Seq<char>>, j: int) -> bool {
    exists|i: int| 0 <= i < lines.len() && 0 <= j < (#[trigger] lines[i]).len() && lines[i][j] == '#'
}

/// The columns below `k` without a galaxy, ascending.
pub open spec fn free_columns(lines: Seq<Seq<char>>, k: int) -> Seq<int>
    decreases k,
{
    if k <= 0 {
        Seq::empty()
    } else if column_marked(lines, k - 1) {
        free_columns(lines, k - 1)
    } else {
        free_columns(lines, k - 1).push(k - 1)
    }
}

/// The galaxies as rows and columns.
pub open spec fn points_view(coords: Seq<Point>) -> Seq<(int, int)> {
    Seq::new(coords.len(), |i: int| (coords[i].0 as int, coords[i].1 as int))
}

/// The members of `v` as mathematical integers.
pub open spec fn columns_view(v: Seq<usize>) -> Seq<int> {
    Seq::new(v.len(), |i: int| v[i] as int)
}

/// The sky that `text` draws: its galaxies, with `step` rows gained for each
/// empty line, and the columns without a galaxy among as many columns as
/// the first line has bytes. `None` where there is no line, or that number
/// or a row does not fit.
pub open spec fn chart_of(text: Seq<char>, step: int) -> Option<(Seq<(int, int)>, Seq<int>)> {
    let ls = lines_of(text);
    if ls.len() == 0 || byte_len(ls[0]) > usize::MAX {
        None
    } else {
        match sky_of(ls, step) {
            Some(sky) => Some((sky.coords, free_columns(ls, byte_len(ls[0])))),
            None => None,
        }
    }
}

proof fn lemma_sky_stays_none(lines: Seq<Seq<char>>, step: int, k: int)
    requires
        0 <= k <= lines.len(),
        sky_of(lines.take(k), step).is_none(),
    ensures
        sky_of(lines, step).is_none(),
    decreases lines.len() - k,
{
    if k < lines.len() {
        assert(lines.take(k + 1).drop_last() =~= lines.take(k));
        lemma_sky_stays_none(lines, step, k + 1);
    } else {
        assert(lines.take(k) =~= lines);
    }
}

/// The places of the galaxies in `line`.
fn find_marks(line: &Vec<char>) -> (r: Vec<usize>)
    ensures
        columns_view(r@) == marks(line@),
        forall|k: int| 0 <= k < r@.len() ==> (#[trigger] r@[k]) < line@.len() && line@[r@[k] as int]
            == '#',
        forall|j: int| 0 <= j < line@.len() && line@[j] == '#' ==> exists|k: int|
            0 <= k < r@.len() && #[trigger] r@[k] == j,
{
    let mut r: Vec<usize> = Vec::new();
    let mut j: usize = 0;
    assert(line@.take(0) =~= Seq::<char>::empty());
    assert(columns_view(r@) =~= Seq::<int>::empty());
    while j < line.len()
        invariant
            j <= line@.len(),
            columns_view(r@) == marks(line@.take(j as int)),
            forall|k: int|
                0 <= k < r@.len() ==> (#[trigger] r@[k]) < j && line@[r@[k] as int] == '#',
            forall|x: int| 0 <= x < j && line@[x] == '#' ==> exists|k: int|
                0 <= k < r@.len() && #[trigger] r@[k] == x,
        decreases line@.len() - j,
    {
        proof {
            assert(line@.take(j + 1).drop_last() =~= line@.take(j as int));
            assert(line@.take(j + 1).last() == line@[j as int]);
        }
        if line[j] == '#' {
            let ghost before = columns_view(r@);
            let ghost old_r = r@;
            r.push(j);
            assert(columns_view(r@) =~= before.push(j as int));
            assert forall|x: int| 0 <= x < j + 1 && line@[x] == '#' implies exists|k: int|
                0 <= k < r@.len() && #[trigger] r@[k] == x by {
                if x < j {
                    let k = choose|k: int| 0 <= k < old_r.len() && #[trigger] old_r[k] == x;
                    assert(r@[k] == x);
                } else {
                    assert(r@[r@.len() - 1] == x);
                }
            }
        }
        j += 1;
    }
    assert(line@.take(j as int) =~= line@);
    r
}

/// Reads the sky, with `step` rows gained for each empty line.
#[verifier::loop_isolation(false)]
fn chart(input: &str, step: usize) -> (r: Option<(Vec<Point>, Vec<usize>)>)
    ensures
        match r {
            Some(found) => chart_of(input@, step as int) == Some(
                (points_view(found.0@), columns_view(found.1@)),
            ),
            None => chart_of(input@, step as int).is_none(),
        },
{
    let chars = chars_of(input);
    let ls = lines(&chars);
    let ghost rows = views(ls@);
    if ls.len() == 0 {
        return None;
    }
    assert(rows[0] == ls@[0]@);
    let width = match byte_length(&ls[0]) {
        Some(w) => w,
        None => {
            return None;
        },
    };
    let mut marked: Vec<bool> = Vec::new();
    let mut w: usize = 0;
    while w < width
        invariant
            w <= width,
            marked@.len() == w,
            forall|j: int| 0 <= j < w ==> !(#[trigger] marked@[j]),
        decreases width - w,
    {
        marked.push(false);
        w += 1;
    }
    let mut coords: Vec<Point> = Vec::new();
    let mut row_offset: usize = 0;
    let mut i: usize = 0;
    assert(rows.take(0) =~= Seq::<Seq<char>>::empty());
    assert(points_view(coords@) =~= Seq::<(int, int)>::empty());
    while i < ls.len()
        invariant
            i <= ls@.len(),
            marked@.len() == width,
            sky_of(rows.take(i as int), step as int) == Some(
                Sky { coords: points_view(coords@), offset: row_offset as int },
            ),
            forall|j: int|
                0 <= j < width ==> #[trigger] marked@[j] == column_marked(rows.take(i as int), j),
        decreases ls@.len() - i,
    {
        proof {
            assert(rows.take(i + 1).drop_last() =~= rows.take(i as int));
            assert(rows.take(i + 1).last() == ls@[i as int]@);
        }
        let found = find_marks(&ls[i]);
        let ghost line = ls@[i as int]@;
        let ghost before = points_view(coords@);
        let ghost old_marked = marked@;
        if found.len() > 0 {
            let row = match i.checked_add(row_offset) {
                Some(v) => v,
                None => {
                    proof {
                        lemma_sky_stays_none(rows, step as int, i + 1);
                    }
                    return None;
                },
            };
            let mut k: usize = 0;
            while k < found.len()
                invariant
                    k <= found@.len(),
                    marked@.len() == width,
                    points_view(coords@) == before + Seq::new(
                        k as nat,
                        |t: int| (row as int, marks(line)[t]),
                    ),
                    forall|j: int|
                        0 <= j < width ==> #[trigger] marked@[j] == (old_marked[j] || exists|t: int|
                            0 <= t < k && #[trigger] found@[t] == j),
                decreases found@.len() - k,
            {
                let j = found[k];
                let ghost shown = points_view(coords@);
                let ghost flags = marked@;
                assert(columns_view(found@)[k as int] == j);
                coords.push((row, j));
                assert(marks(line)[k as int] == j);
                assert(points_view(coords@) =~= shown.push((row as int, j as int)));
                assert(points_view(coords@) =~= before + Seq::new(
                    (k + 1) as nat,
                    |t: int| (row as int, marks(line)[t]),
                ));
                if j < width {
                    marked.set(j, true);
                }
                proof {
                    assert forall|x: int| 0 <= x < width implies #[trigger] marked@[x] == (
                    old_marked[x] || exists|t: int| 0 <= t < k + 1 && #[trigger] found@[t] == x) by {
                        if flags[x] && !old_marked[x] {
                            let t = choose|t: int| 0 <= t < k && #[trigger] found@[t] == x;
                            assert(found@[t] == x);
                        }
                        if exists|t: int| 0 <= t < k + 1 && #[trigger] found@[t] == x {
                            let t = choose|t: int| 0 <= t < k + 1 && #[trigger] found@[t] == x;
                            if t < k {
                                assert(found@[t] == x);
                            }
                        }
                    }
                }
                k += 1;
            }
            assert(marks(line).len() == found@.len());
        } else {
            assert(marks(line).len() == 0);
            assert(before + Seq::new(0nat, |t: int| (i + row_offset, marks(line)[t])) =~= before);
            match row_offset.checked_add(step) {
                Some(v) => {
                    row_offset = v;
                },
                None => {
                    proof {
                        lemma_sky_stays_none(rows, step as int, i + 1);
                    }
                    return None;
                },
            }
        }
        proof {
            let short = rows.take(i as int);
            let long = rows.take(i + 1);
            assert forall|j: int| 0 <= j < width implies #[trigger] marked@[j] == column_marked(
                long,
                j,
            ) by {
                if column_marked(short, j) {
                    let a = choose|a: int|
                        0 <= a < short.len() && 0 <= j < (#[trigger] short[a]).len() && short[a][j]
                            == '#';
                    assert(long[a] == short[a]);
                }
                if column_marked(long, j) {
                    let a = choose|a: int|
                        0 <= a < long.len() && 0 <= j < (#[trigger] long[a]).len() && long[a][j]
                            == '#';
                    if a < i {
                        assert(short[a] == long[a]);
                    } else {
                        assert(long[a] == line);
                        let t = choose|t: int| 0 <= t < found@.len() && #[trigger] found@[t] == j;
                        assert(found@[t] == j);
                    }
                }
                if marked@[j] && !old_marked[j] {
                    let t = choose|t: int| 0 <= t < found@.len() && #[trigger] found@[t] == j;
                    assert(long[i as int] == line);
                    assert(line[j] == '#');
                }
            }
        }
        i += 1;
    }
    assert(rows.take(i as int) =~= rows);
    let mut empty_cols: Vec<usize> = Vec::new();
    let mut j: usize = 0;
    assert(columns_view(empty_cols@) =~= Seq::<int>::empty());
    while j < width
        invariant
            j <= width,
            columns_view(empty_cols@) == free_columns(rows, j as int),
        decreases width - j,
    {
        if !marked[j] {
            let ghost before = columns_view(empty_cols@);
            empty_cols.push(j);
            assert(columns_view(empty_cols@) =~= before.push(j as int));
        }
        j += 1;
    }
    Some((coords, empty_cols))
}

/// Reads the sky, each empty line counting for two.
pub fn parse(input: &str) -> (r: Option<(Vec<Point>, Vec<usize>)>)
    ensures
        match r {
            Some(found) => chart_of(input@, 1) == Some(
                (points_view(found.0@), columns_view(found.1@)),
            ),
            None => chart_of(input@, 1).is_none(),
        },
{
    chart(input, 1)
}

/// Reads the sky, each empty line counting for a million.
pub fn parse_with_ancient_expansion(input: &str) -> (r: Option<(Vec<Point>, Vec<usize>)>)
    ensures
        match r {
            Some(found) => chart_of(input@, 999_999) == Some(
                (points_view(found.0@), columns_view(found.1@)),
            ),
            None => chart_of(input@, 999_999).is_none(),
        },
{
    chart(input, 999_999)
}

} // verus!
