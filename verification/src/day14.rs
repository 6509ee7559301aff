//! Rocks on a tilting platform.
use crate::text::views;
use vstd::string::StringSliceAdditionalSpecFns;
use vstd::prelude::*;

verus! {

/// The platform: rows of cells. A cell holds `O` for a round rock, `.` for
/// a gap, and anything else for something fixed.
pub type Board = Vec<Vec<u8>>;

/// Whether the cell holds a round rock or a gap.
pub open spec fn loose(c: u8) -> bool {
    c == 79 || c == 46
}

/// Column `x` of the cells `b`, from the top.
pub open spec fn column(b: Seq<Seq<u8>>, x: int) -> Seq<u8> {
    Seq::new(b.len(), |y: int| b[y][x])
}

/// The number of round rocks among the first `upto` cells of `col`.
pub open spec fn rocks(col: Seq<u8>, upto: int) -> int
    decreases upto,
{
    if upto <= 0 {
        0
    } else {
        rocks(col, upto - 1) + if col[upto - 1] == 79 {
            1int
        } else {
            0int
        }
    }
}

/// The platform can be tilted: it has a row, and no row is shorter than the
/// first.
pub open spec fn tiltable(b: Seq<Seq<u8>>) -> bool {
    b.len() >= 1 && forall|y: int| 0 <= y < b.len() ==> (#[trigger] b[y]).len() >= b[0].len()
}

/// `new` is the column `old` after its rocks have rolled to the top: what is
/// fixed stays; rocks and gaps fill the same cells as before; no rock lies
/// right below a gap; and above each fixed cell, and in all, there are as
/// many rocks as before.
pub open spec fn column_tilted(old: Seq<u8>, new: Seq<u8>) -> bool {
    &&& new.len() == old.len()
    &&& forall|y: int|
        0 <= y < old.len() ==> loose(#[trigger] new[y]) == loose(old[y]) && (!loose(old[y])
            ==> new[y] == old[y])
    &&& forall|y: int| 0 <= y < old.len() - 1 ==> !(#[trigger] new[y + 1] == 79 && new[y] == 46)
    &&& forall|b: int|
        0 <= b <= old.len() && (b == old.len() || !loose(old[b])) ==> #[trigger] rocks(new, b)
            == rocks(old, b)
}

/// `new` is the platform `old` tilted north: each column of the first row's
/// width is tilted, and rows keep their length and what lies beyond that width.
pub open spec fn tilted(old: Seq<Seq<u8>>, new: Seq<Seq<u8>>) -> bool {
    &&& new.len() == old.len()
    &&& forall|y: int| 0 <= y < old.len() ==> (#[trigger] new[y]).len() == old[y].len()
    &&& forall|x: int|
        0 <= x < old[0].len() ==> column_tilted(#[trigger] column(old, x), column(new, x))
    &&& forall|y: int, x: int|
        0 <= y < old.len() && old[0].len() <= x < old[y].len() ==> #[trigger] new[y][x]
            == old[y][x]
}

/// Changing a cell at or below `upto` leaves the count above it as it was.
proof fn lemma_rocks_update_below(col: Seq<u8>, i: int, v: u8, upto: int)
    requires
        0 <= upto <= i < col.len(),
    ensures
        rocks(col.update(i, v), upto) == rocks(col, upto),
    decreases upto,
{
    if upto > 0 {
        lemma_rocks_update_below(col, i, v, upto - 1);
    }
}

/// Changing a cell above `upto` changes the count by what the cell gains.
proof fn lemma_rocks_update_above(col: Seq<u8>, i: int, v: u8, upto: int)
    requires
        0 <= i < upto <= col.len(),
    ensures
        rocks(col.update(i, v), upto) == rocks(col, upto) - (if col[i] == 79 {
            1int
        } else {
            0int
        }) + (if v == 79 {
            1int
        } else {
            0int
        }),
    decreases upto,
{
    if upto - 1 > i {
        lemma_rocks_update_above(col, i, v, upto - 1);
    } else {
        lemma_rocks_update_below(col, i, v, upto - 1);
    }
}

/// Tilts column `x`.
fn tilt_column(board: &mut Board, x: usize)
    requires
        tiltable(views(old(board)@)),
        x < old(board)@[0]@.len(),
    ensures
        final(board)@.len() == old(board)@.len(),
        forall|y: int| 0 <= y < old(board)@.len() ==> (#[trigger] final(board)@[y])@.len() == old(
            board,
        )@[y]@.len(),
        forall|y: int, k: int|
            0 <= y < old(board)@.len() && 0 <= k < old(board)@[y]@.len() && k != x
                ==> #[trigger] final(board)@[y]@[k] == old(board)@[y]@[k],
        column_tilted(column(views(old(board)@), x as int), column(views(final(board)@), x as int)),
{
    let h = board.len();
    let ghost c0 = column(views(board@), x as int);
    let ghost mut col = c0;
    let mut free: usize = 0;
    let ghost mut start: int = 0;
    let mut y: usize = 0;
    while y < h
        invariant
            h == old(board)@.len(),
            board@.len() == h,
            x < old(board)@[0]@.len(),
            tiltable(views(old(board)@)),
            c0 == column(views(old(board)@), x as int),
            col == column(views(board@), x as int),
            forall|r: int| 0 <= r < h ==> (#[trigger] board@[r])@.len() == old(board)@[r]@.len(),
            forall|r: int, k: int|
                0 <= r < h && 0 <= k < old(board)@[r]@.len() && k != x ==> #[trigger] board@[r]@[k]
                    == old(board)@[r]@[k],
            y <= h,
            forall|r: int| y <= r < h ==> col[r] == c0[r],
            forall|r: int|
                0 <= r < y ==> loose(#[trigger] col[r]) == loose(c0[r]) && (!loose(c0[r]) ==> col[r]
                    == c0[r]),
            0 <= start <= free <= y,
            forall|r: int| start <= r < free ==> col[r] == 79,
            forall|r: int| free <= r < y ==> col[r] == 46,
            forall|r: int| 0 <= r && r + 1 < y ==> !(#[trigger] col[r + 1] == 79 && col[r] == 46),
            start > 0 ==> !loose(c0[start - 1]),
            forall|b: int|
                0 <= b <= start && (b == h || !loose(c0[b])) ==> #[trigger] rocks(col, b) == rocks(
                    c0,
                    b,
                ),
            rocks(col, y as int) == rocks(c0, y as int),
        decreases h - y,
    {
        assert(views(old(board)@)[y as int].len() >= views(old(board)@)[0].len());
        assert(views(board@)[y as int] == board@[y as int]@);
        let c = board[y][x];
        assert(c == col[y as int]);
        if c == 79 {
            if free < y {
                assert(views(old(board)@)[free as int].len() >= views(old(board)@)[0].len());
                let ghost before = col;
                board[free][x] = 79;
                board[y][x] = 46;
                proof {
                    col = before.update(free as int, 79u8).update(y as int, 46u8);
                    assert(column(views(board@), x as int) =~= col);
                    let mid = before.update(free as int, 79u8);
                    lemma_rocks_update_above(before, free as int, 79u8, y + 1);
                    lemma_rocks_update_above(mid, y as int, 46u8, y + 1);
                    assert forall|b: int|
                        0 <= b <= start && (b == h || !loose(c0[b])) implies #[trigger] rocks(
                        col,
                        b,
                    ) == rocks(c0, b) by {
                        lemma_rocks_update_below(before, free as int, 79u8, b);
                        lemma_rocks_update_below(mid, y as int, 46u8, b);
                    }
                }
            }
            free = free + 1;
        } else if c != 46 {
            free = y + 1;
            proof {
                let before = start;
                start = y + 1;
                assert forall|b: int|
                    0 <= b <= start && (b == h || !loose(c0[b])) implies #[trigger] rocks(col, b)
                    == rocks(c0, b) by {
                    if b <= before {
                    } else if b < y {
                        assert(loose(col[b]));
                        assert(loose(c0[b]));
                    } else if b == y {
                    } else {
                        assert(rocks(col, y + 1) == rocks(col, y as int));
                        assert(rocks(c0, y + 1) == rocks(c0, y as int));
                    }
                }
            }
        }
        y = y + 1;
    }
    proof {
        assert forall|b: int| 0 <= b <= h && (b == h || !loose(c0[b])) implies #[trigger] rocks(
            col,
            b,
        ) == rocks(c0, b) by {
            if b > start && b < h {
                assert(loose(col[b]));
            }
        }
    }
}

/// Tilts the platform north: in each column the round rocks roll up until a
/// fixed cell, another rock or the edge stops them.
pub fn tilt_north(board: &mut Board)
    requires
        tiltable(views(old(board)@)),
    ensures
        tilted(views(old(board)@), views(final(board)@)),
{
    let w = board[0].len();
    let ghost b0 = views(board@);
    assert(b0[0] == board@[0]@);
    let mut x: usize = 0;
    while x < w
        invariant
            x <= w,
            w == b0[0].len(),
            b0 == views(old(board)@),
            tiltable(b0),
            board@.len() == b0.len(),
            forall|y: int| 0 <= y < b0.len() ==> (#[trigger] board@[y])@.len() == b0[y].len(),
            forall|k: int|
                0 <= k < x ==> column_tilted(#[trigger] column(b0, k), column(views(board@), k)),
            forall|y: int, k: int|
                0 <= y < b0.len() && x <= k < b0[y].len() ==> #[trigger] board@[y]@[k] == b0[y][k],
        decreases w - x,
    {
        let ghost before = views(board@);
        assert(tiltable(before)) by {
            assert forall|y: int| 0 <= y < before.len() implies (#[trigger] before[y]).len()
                >= before[0].len() by {
                assert(before[y] == board@[y]@);
                assert(before[0] == board@[0]@);
                assert(b0[y].len() >= b0[0].len());
            }
        }
        assert(column(before, x as int) =~= column(b0, x as int)) by {
            assert forall|y: int| 0 <= y < b0.len() implies column(before, x as int)[y] == column(
                b0,
                x as int,
            )[y] by {
                assert(b0[y].len() >= b0[0].len());
                assert(board@[y]@[x as int] == b0[y][x as int]);
            }
        }
        tilt_column(board, x);
        proof {
            let after = views(board@);
            assert forall|k: int| 0 <= k < x implies column_tilted(
                #[trigger] column(b0, k),
                column(after, k),
            ) by {
                assert(column(after, k) =~= column(before, k)) by {
                    assert forall|y: int| 0 <= y < b0.len() implies column(after, k)[y] == column(
                        before,
                        k,
                    )[y] by {
                        assert(b0[y].len() >= b0[0].len());
                    }
                }
            }
        }
        x = x + 1;
    }
    proof {
        let after = views(board@);
        assert forall|y: int| 0 <= y < b0.len() implies (#[trigger] after[y]).len()
            == b0[y].len() by {
            assert(after[y] == board@[y]@);
        }
    }
}

/// Every row has the width of the first, and there is a row and a column.
pub open spec fn rectangular(b: Seq<Seq<u8>>) -> bool {
    &&& b.len() >= 1
    &&& b[0].len() >= 1
    &&& forall|y: int| 0 <= y < b.len() ==> (#[trigger] b[y]).len() == b[0].len()
}

/// The platform turned a quarter clockwise: as many rows as the first row of
/// `b` has cells, each as long as `b` has rows; what was the first column,
/// read from the bottom up, is the first row.
pub open spec fn rotated(b: Seq<Seq<u8>>) -> Seq<Seq<u8>> {
    Seq::new(b[0].len(), |c: int| Seq::new(b.len(), |k: int| b[b.len() - 1 - k][c]))
}

/// The platform turned a quarter clockwise.
pub fn rotate(board: &Board) -> (new_board: Board)
    requires
        tiltable(views(board@)),
    ensures
        views(new_board@) == rotated(views(board@)),
{
    let h = board.len();
    let ghost b = views(board@);
    assert(b[0] == board@[0]@);
    let w = board[0].len();
    let mut new_board: Board = Vec::new();
    let mut c: usize = 0;
    while c < w
        invariant
            c <= w,
            h == board@.len(),
            b == views(board@),
            w == b[0].len(),
            tiltable(b),
            new_board@.len() == c,
            forall|i: int| 0 <= i < c ==> (#[trigger] new_board@[i])@ == rotated(b)[i],
        decreases w - c,
    {
        let mut row: Vec<u8> = Vec::new();
        let mut k: usize = 0;
        while k < h
            invariant
                k <= h,
                c < w,
                h == board@.len(),
                b == views(board@),
                w == b[0].len(),
                tiltable(b),
                row@.len() == k,
                forall|i: int| 0 <= i < k ==> #[trigger] row@[i] == b[h - 1 - i][c as int],
            decreases h - k,
        {
            assert(b[h - 1 - k].len() >= b[0].len());
            assert(b[h - 1 - k] == board@[h - 1 - k]@);
            row.push(board[h - 1 - k][c]);
            k += 1;
        }
        assert(row@ =~= rotated(b)[c as int]);
        new_board.push(row);
        c += 1;
    }
    assert(views(new_board@) =~= rotated(b));
    new_board
}

/// The number of round rocks among the first `upto` cells of `row`.
pub open spec fn rocks_in(row: Seq<u8>) -> int {
    rocks(row, row.len() as int)
}

/// The load of the first `upto` rows on the north beam: each round rock
/// weighs as many as there are rows from its own to the last.
pub open spec fn load_of(b: Seq<Seq<u8>>, upto: int) -> int
    decreases upto,
{
    if upto <= 0 {
        0
    } else {
        load_of(b, upto - 1) + (b.len() - (upto - 1)) * rocks_in(b[upto - 1])
    }
}

proof fn lemma_rocks_range(col: Seq<u8>, upto: int)
    requires
        0 <= upto,
    ensures
        0 <= rocks(col, upto) <= upto,
    decreases upto,
{
    if upto > 0 {
        lemma_rocks_range(col, upto - 1);
    }
}

proof fn lemma_load_grows(b: Seq<Seq<u8>>, k: int, n: int)
    requires
        0 <= k <= n <= b.len(),
    ensures
        0 <= load_of(b, k) <= load_of(b, n),
    decreases n - k,
{
    if k < n {
        lemma_load_grows(b, k + 1, n);
        lemma_rocks_range(b[k], b[k].len() as int);
        assert(0 <= (b.len() - k) * rocks_in(b[k])) by (nonlinear_arith)
            requires
                0 <= b.len() - k,
                0 <= rocks_in(b[k]),
        ;
    }
    lemma_load_nonnegative(b, k);
}

proof fn lemma_load_nonnegative(b: Seq<Seq<u8>>, k: int)
    requires
        k <= b.len(),
    ensures
        0 <= load_of(b, k),
    decreases k,
{
    if k > 0 {
        lemma_load_nonnegative(b, k - 1);
        lemma_rocks_range(b[k - 1], b[k - 1].len() as int);
        assert(0 <= (b.len() - (k - 1)) * rocks_in(b[k - 1])) by (nonlinear_arith)
            requires
                0 <= b.len() - (k - 1),
                0 <= rocks_in(b[k - 1]),
        ;
    }
}

/// The load on the north beam; `None` where it does not fit.
#[verifier::loop_isolation(false)]
pub fn load(board: &Board) -> (r: Option<usize>)
    ensures
        match r {
            Some(l) => l == load_of(views(board@), board@.len() as int),
            None => load_of(views(board@), board@.len() as int) > usize::MAX,
        },
{
    let len = board.len();
    let ghost b = views(board@);
    let mut total: usize = 0;
    let mut y: usize = 0;
    while y < len
        invariant
            y <= len,
            total == load_of(b, y as int),
        decreases len - y,
    {
        let row = &board[y];
        assert(b[y as int] == row@);
        let mut count: usize = 0;
        let mut x: usize = 0;
        while x < row.len()
            invariant
                x <= row@.len(),
                count == rocks(row@, x as int),
                count <= x,
            decreases row@.len() - x,
        {
            if row[x] == 79 {
                count += 1;
            }
            x += 1;
        }
        let next = match (len - y).checked_mul(count) {
            Some(weight) => total.checked_add(weight),
            None => None,
        };
        match next {
            Some(t) => {
                total = t;
            },
            None => {
                proof {
                    lemma_load_grows(b, y + 1, len as int);
                    lemma_load_nonnegative(b, y as int);
                }
                return None;
            },
        }
        y += 1;
    }
    Some(total)
}

fn copy_board(board: &Board) -> (r: Board)
    ensures
        views(r@) == views(board@),
{
    let mut r: Board = Vec::new();
    let mut y: usize = 0;
    while y < board.len()
        invariant
            y <= board@.len(),
            r@.len() == y,
            forall|i: int| 0 <= i < y ==> (#[trigger] r@[i])@ == board@[i]@,
        decreases board@.len() - y,
    {
        let row = &board[y];
        let mut copy: Vec<u8> = Vec::new();
        let mut x: usize = 0;
        while x < row.len()
            invariant
                x <= row@.len(),
                copy@ == row@.take(x as int),
            decreases row@.len() - x,
        {
            copy.push(row[x]);
            x += 1;
            assert(copy@ =~= row@.take(x as int));
        }
        assert(row@.take(x as int) =~= row@);
        r.push(copy);
        y += 1;
    }
    assert(views(r@) =~= views(board@));
    r
}

fn same_board(a: &Board, b: &Board) -> (r: bool)
    ensures
        r == (views(a@) == views(b@)),
{
    if a.len() != b.len() {
        return false;
    }
    let mut y: usize = 0;
    while y < a.len()
        invariant
            y <= a@.len(),
            a@.len() == b@.len(),
            forall|i: int| 0 <= i < y ==> (#[trigger] a@[i])@ == b@[i]@,
        decreases a@.len() - y,
    {
        let ra = &a[y];
        let rb = &b[y];
        if ra.len() != rb.len() {
            assert(views(a@)[y as int] != views(b@)[y as int]);
            return false;
        }
        let mut x: usize = 0;
        while x < ra.len()
            invariant
                x <= ra@.len(),
                ra@.len() == rb@.len(),
                ra@ == a@[y as int]@,
                rb@ == b@[y as int]@,
                y < a@.len(),
                a@.len() == b@.len(),
                forall|i: int| 0 <= i < x ==> ra@[i] == rb@[i],
            decreases ra@.len() - x,
        {
            if ra[x] != rb[x] {
                assert(views(a@)[y as int] != views(b@)[y as int]);
                return false;
            }
            x += 1;
        }
        assert(ra@ =~= rb@);
        y += 1;
    }
    assert(views(a@) =~= views(b@));
    true
}

/// The load on the north beam once the platform has been tilted north.
/// `None` where tilting changes nothing, or the load does not fit.
pub fn part1(input: &Board) -> (r: Option<usize>)
    requires
        tiltable(views(input@)),
    ensures
        exists|after: Seq<Seq<u8>>| #[trigger]
            tilted(views(input@), after) && match r {
                Some(l) => after != views(input@) && l == load_of(after, after.len() as int),
                None => after == views(input@) || load_of(after, after.len() as int) > usize::MAX,
            },
{
    let mut mine = copy_board(input);
    tilt_north(&mut mine);
    let ghost after = views(mine@);
    let r = if same_board(&mine, input) {
        None
    } else {
        load(&mine)
    };
    assert(tilted(views(input@), after));
    r
}

/// `b` is the platform `a` tilted north and then turned a quarter clockwise.
pub open spec fn turned(a: Seq<Seq<u8>>, b: Seq<Seq<u8>>) -> bool {
    exists|mid: Seq<Seq<u8>>| #[trigger] tilted(a, mid) && b == rotated(mid)
}

/// `b` is the platform `a` after one spin cycle: tilted and turned four times.
#[verifier::opaque]
pub open spec fn spun(a: Seq<Seq<u8>>, b: Seq<Seq<u8>>) -> bool {
    exists|b1: Seq<Seq<u8>>, b2: Seq<Seq<u8>>, b3: Seq<Seq<u8>>|
        #![trigger turned(a, b1), turned(b1, b2), turned(b2, b3)]
        turned(a, b1) && turned(b1, b2) && turned(b2, b3) && turned(b3, b)
}

/// The cycles to run in all.
pub const CYCLES: usize = 1_000_000_000;

/// Whether the spinning stops after cycle `i` of `history`, which holds the
/// platform before the first cycle and after each one so far: it does where
/// the platform after cycle `i` was seen before, last after cycle `j`, and
/// the cycles still to run are a multiple of `i - j`.
#[verifier::opaque]
pub open spec fn stops(history: Seq<Seq<Seq<u8>>>, i: int) -> bool {
    exists|j: int|
        1 <= j < i && #[trigger] history[j] == history[i] && (forall|k: int|
            j < k < i ==> #[trigger] history[k] != history[i]) && (CYCLES - i) % (i - j) == 0
}

/// `history` is a record of spinning `start`: it begins with `start`, each
/// platform in it is the one before after one more cycle, and the spinning
/// stopped after none but the last cycle, which is the last that `stops`
/// allows or cycle `CYCLES - 1`.
pub open spec fn is_record(start: Seq<Seq<u8>>, history: Seq<Seq<Seq<u8>>>) -> bool {
    &&& 1 <= history.len() <= CYCLES
    &&& history[0] == start
    &&& forall|i: int| 0 <= i < history.len() - 1 ==> spun(#[trigger] history[i], history[i + 1])
    &&& forall|i: int| 1 <= i < history.len() - 1 ==> !stops(history, i)
    &&& history.len() == CYCLES || stops(history, history.len() - 1)
}

proof fn lemma_tilted_rectangular(a: Seq<Seq<u8>>, mid: Seq<Seq<u8>>)
    requires
        rectangular(a),
        tilted(a, mid),
    ensures
        rectangular(mid),
        rectangular(rotated(mid)),
        tiltable(mid),
{
    assert(mid[0].len() == a[0].len());
    assert forall|y: int| 0 <= y < mid.len() implies (#[trigger] mid[y]).len() == mid[0].len() by {
        assert(a[y].len() == a[0].len());
    }
}

fn spin(board: Board) -> (r: Board)
    requires
        rectangular(views(board@)),
    ensures
        spun(views(board@), views(r@)),
        rectangular(views(r@)),
{
    let ghost a = views(board@);
    let mut t0 = board;
    tilt_north(&mut t0);
    proof {
        lemma_tilted_rectangular(a, views(t0@));
    }
    let b1 = rotate(&t0);
    assert(turned(a, views(b1@)));
    let ghost v1 = views(b1@);
    let mut t1 = b1;
    tilt_north(&mut t1);
    proof {
        lemma_tilted_rectangular(v1, views(t1@));
    }
    let b2 = rotate(&t1);
    assert(turned(v1, views(b2@)));
    let ghost v2 = views(b2@);
    let mut t2 = b2;
    tilt_north(&mut t2);
    proof {
        lemma_tilted_rectangular(v2, views(t2@));
    }
    let b3 = rotate(&t2);
    assert(turned(v2, views(b3@)));
    let ghost v3 = views(b3@);
    let mut t3 = b3;
    tilt_north(&mut t3);
    proof {
        lemma_tilted_rectangular(v3, views(t3@));
    }
    let b4 = rotate(&t3);
    assert(turned(v3, views(b4@)));
    assert(spun(a, views(b4@))) by {
        reveal(spun);
    }
    b4
}

/// Whether cycle `i` stops depends on the record up to that cycle alone.
proof fn lemma_stops_prefix(a: Seq<Seq<Seq<u8>>>, b: Seq<Seq<Seq<u8>>>, i: int)
    requires
        1 <= i < a.len(),
        i < b.len(),
        forall|k: int| 0 <= k <= i ==> a[k] == b[k],
    ensures
        stops(a, i) == stops(b, i),
{
    reveal(stops);
    if stops(a, i) {
        let j = choose|j: int|
            1 <= j < i && #[trigger] a[j] == a[i] && (forall|k: int|
                j < k < i ==> #[trigger] a[k] != a[i]) && (CYCLES - i) % (i - j) == 0;
        assert(b[j] == b[i]);
        assert forall|k: int| j < k < i implies #[trigger] b[k] != b[i] by {
            assert(a[k] != a[i]);
        }
    }
    if stops(b, i) {
        let j = choose|j: int|
            1 <= j < i && #[trigger] b[j] == b[i] && (forall|k: int|
                j < k < i ==> #[trigger] b[k] != b[i]) && (CYCLES - i) % (i - j) == 0;
        assert(a[j] == a[i]);
        assert forall|k: int| j < k < i implies #[trigger] a[k] != a[i] by {
            assert(b[k] != b[i]);
        }
    }
}

/// The place of the last of `seen` that equals `mine`, if any does.
fn last_seen(seen: &Vec<Board>, mine: &Board) -> (r: Option<usize>)
    ensures
        match r {
            Some(j) => j < seen@.len() && views(seen@[j as int]@) == views(mine@) && forall|k: int|
                j < k < seen@.len() ==> views(#[trigger] seen@[k]@) != views(mine@),
            None => forall|k: int| 0 <= k < seen@.len() ==> views(#[trigger] seen@[k]@) != views(
                mine@,
            ),
        },
{
    let mut j: usize = seen.len();
    while j > 0
        invariant
            j <= seen@.len(),
            forall|k: int| j <= k < seen@.len() ==> views(#[trigger] seen@[k]@) != views(mine@),
        decreases j,
    {
        if same_board(&seen[j - 1], mine) {
            return Some(j - 1);
        }
        j -= 1;
    }
    None
}

/// Whether the spinning stops after the cycle that made `now`, the cycles
/// before having made `seen`.
fn stops_now(seen: &Vec<Board>, mine: &Board, Ghost(history): Ghost<Seq<Seq<Seq<u8>>>>) -> (r: bool)
    requires
        seen@.len() + 2 == history.len(),
        history.len() <= CYCLES,
        forall|k: int| 0 <= k < seen@.len() ==> views(#[trigger] seen@[k]@) == history[k + 1],
        history.last() == views(mine@),
    ensures
        r == stops(history, history.len() - 1),
{
    let i = seen.len() + 1;
    proof {
        reveal(stops);
    }
    match last_seen(seen, mine) {
        Some(at) => {
            let j = at + 1;
            let r = (CYCLES - i) % (i - j) == 0;
            proof {
                assert(history[j as int] == history[i as int]);
                assert forall|k: int| j < k < i implies #[trigger] history[k] != history[i as int] by {
                    assert(views(seen@[k - 1]@) != views(mine@));
                }
                if stops(history, i as int) {
                    let jj = choose|jj: int|
                        1 <= jj < i && #[trigger] history[jj] == history[i as int] && (forall|
                            k: int,
                        |
                            jj < k < i ==> #[trigger] history[k] != history[i as int]) && (CYCLES
                            - i) % (i - jj) == 0;
                    if jj < j {
                        assert(history[j as int] != history[i as int]);
                    }
                    if j < jj {
                        assert(views(seen@[jj - 1]@) != views(mine@));
                    }
                }
            }
            r
        },
        None => {
            proof {
                if stops(history, i as int) {
                    let jj = choose|jj: int|
                        1 <= jj < i && #[trigger] history[jj] == history[i as int] && (forall|
                            k: int,
                        |
                            jj < k < i ==> #[trigger] history[k] != history[i as int]) && (CYCLES
                            - i) % (i - jj) == 0;
                    assert(views(seen@[jj - 1]@) != views(mine@));
                }
            }
            false
        },
    }
}

/// A record that has not stopped stays one after one more cycle, which is
/// its last where that cycle stops or is cycle `CYCLES - 1`.
proof fn lemma_record_grows(
    start: Seq<Seq<u8>>,
    history: Seq<Seq<Seq<u8>>>,
    next: Seq<Seq<u8>>,
)
    requires
        1 <= history.len() < CYCLES,
        history[0] == start,
        forall|i: int| 0 <= i < history.len() - 1 ==> spun(#[trigger] history[i], history[i + 1]),
        forall|i: int| 1 <= i < history.len() ==> !stops(history, i),
        spun(history.last(), next),
    ensures
        forall|i: int|
            0 <= i < history.push(next).len() - 1 ==> spun(
                #[trigger] history.push(next)[i],
                history.push(next)[i + 1],
            ),
        forall|i: int| 1 <= i < history.len() ==> !stops(history.push(next), i),
        history.push(next)[0] == start,
{
    let now = history.push(next);
    assert forall|i: int| 0 <= i < now.len() - 1 implies spun(#[trigger] now[i], now[i + 1]) by {
        if i < history.len() - 1 {
            assert(spun(history[i], history[i + 1]));
        }
    }
    assert forall|i: int| 1 <= i < history.len() implies !stops(now, i) by {
        lemma_stops_prefix(history, now, i);
    }
}

/// The load on the north beam after the spin cycles, for some record of the
/// spinning. `None` where the load does not fit.
pub fn part2(input: &Board) -> (r: Option<usize>)
    requires
        rectangular(views(input@)),
    ensures
        exists|history: Seq<Seq<Seq<u8>>>| #[trigger]
            is_record(views(input@), history) && match r {
                Some(l) => l == load_of(history.last(), history.last().len() as int),
                None => load_of(history.last(), history.last().len() as int) > usize::MAX,
            },
{
    let ghost start = views(input@);
    let ghost mut history: Seq<Seq<Seq<u8>>> = seq![start];
    let mut mine = copy_board(input);
    let mut seen: Vec<Board> = Vec::new();
    let mut i: usize = 1;
    let mut done = false;
    while i < CYCLES && !done
        invariant
            1 <= i <= CYCLES,
            start == views(input@),
            rectangular(views(mine@)),
            history.len() == seen@.len() + 1,
            history.len() == if done {
                i + 1
            } else {
                i as int
            },
            history[0] == start,
            history.last() == views(mine@),
            forall|k: int| 0 <= k < seen@.len() ==> views(#[trigger] seen@[k]@) == history[k + 1],
            forall|k: int| 0 <= k < history.len() - 1 ==> spun(#[trigger] history[k], history[k + 1]),
            forall|k: int| 1 <= k < i ==> !stops(history, k),
            done ==> stops(history, i as int) && i < CYCLES,
        decreases CYCLES - i, (if done { 0int } else { 1int }),
    {
        let ghost before = history;
        mine = spin(mine);
        proof {
            lemma_record_grows(start, before, views(mine@));
            history = before.push(views(mine@));
        }
        let stop = stops_now(&seen, &mine, Ghost(history));
        let kept = copy_board(&mine);
        seen.push(kept);
        if stop {
            done = true;
        } else {
            i += 1;
        }
    }
    proof {
        assert(is_record(start, history));
    }
    load(&mine)
}

/// The platform read from `input`: one row from each line, one cell from
/// each byte.
pub fn parse(input: &str) -> (board: Board)
    ensures
        crate::grid::rows_view(board@) == crate::grid::lines_of(input.spec_bytes()),
{
    crate::grid::split_lines(input.as_bytes())
}

} // verus!
