//! Falling bricks: which bricks rest on which, and what falls when one is
//! taken away.
use crate::text::{
    as_ints, chars_of, lemma_map_all_none, lemma_map_all_some, lemma_map_all_step, lines,
    lines_of, map_all, no_digit, parse_all_unsigned, split_at_non_digits, split_where,
    unsigned_reader, views,
};
use vstd::prelude::*;

verus! {

/// A brick: the least and the greatest of its `x`, `y` and `z`, as
/// `(x1, y1, z1, x2, y2, z2)`.
pub type Brick = (usize, usize, usize, usize, usize, usize);

/// The bricks, in the order in which they come to rest.
pub type Bricks = Vec<Brick>;

/// Whether the brick fills the cell `(x, y, z)`.
pub open spec fn covers(b: Brick, x: int, y: int, z: int) -> bool {
    b.0 <= x <= b.3 && b.1 <= y <= b.4 && b.2 <= z <= b.5
}

/// The last of the first `k` bricks that fills the cell `(x, y, z)`.
pub open spec fn holder(settled: Seq<Brick>, k: int, x: int, y: int, z: int) -> Option<int>
    decreases k,
{
    if k <= 0 {
        None
    } else if covers(settled[k - 1], x, y, z) {
        Some(k - 1)
    } else {
        holder(settled, k - 1, x, y, z)
    }
}

/// Whether one of the first `k` bricks fills a cell at height `z` over
/// which the brick `b` stands.
pub open spec fn held_at(settled: Seq<Brick>, k: int, b: Brick, z: int) -> bool {
    exists|x: int, y: int|
        b.0 <= x <= b.3 && b.1 <= y <= b.4 && #[trigger] holder(settled, k, x, y, z).is_some()
}

/// The height at which the brick `b`, whose bottom is at `z1`, comes to
/// rest on the first `k` bricks: it sinks while its bottom is above 1 and
/// nothing holds it.
pub open spec fn rest_height(settled: Seq<Brick>, k: int, b: Brick, z1: int) -> int
    decreases z1,
{
    if z1 > 1 && !held_at(settled, k, b, z1 - 1) {
        rest_height(settled, k, b, z1 - 1)
    } else {
        z1
    }
}

/// The brick `b` at rest on the first `k` bricks.
pub open spec fn at_rest(settled: Seq<Brick>, k: int, b: Brick) -> Brick {
    let z1 = rest_height(settled, k, b, b.2 as int);
    (b.0, b.1, z1 as usize, b.3, b.4, (b.5 - (b.2 - z1)) as usize)
}

/// The first `k` bricks at rest, each on those before it.
pub open spec fn settled(bricks: Seq<Brick>, k: int) -> Seq<Brick>
    decreases k,
{
    if k <= 0 {
        Seq::empty()
    } else {
        settled(bricks, k - 1).push(at_rest(settled(bricks, k - 1), k - 1, bricks[k - 1]))
    }
}

/// Whether brick `j` holds brick `i` up: it is the last brick before `i`
/// that fills a cell right under `i`.
pub open spec fn holds_up(rest: Seq<Brick>, j: int, i: int) -> bool {
    exists|x: int, y: int|
        rest[i].0 <= x <= rest[i].3 && rest[i].1 <= y <= rest[i].4 && #[trigger] holder(
            rest,
            i,
            x,
            y,
            rest[i].2 - 1,
        ) == Some(j)
}

/// A brick sinks no lower than height 1, and no higher than it was.
proof fn lemma_rest_height_range(settled: Seq<Brick>, k: int, b: Brick, z1: int)
    requires
        z1 >= 1,
    ensures
        1 <= rest_height(settled, k, b, z1) <= z1,
    decreases z1,
{
    if z1 > 1 && !held_at(settled, k, b, z1 - 1) {
        lemma_rest_height_range(settled, k, b, z1 - 1);
    }
}

/// A holder is one of the bricks looked at, and fills the cell.
proof fn lemma_holder(settled: Seq<Brick>, k: int, x: int, y: int, z: int)
    requires
        0 <= k <= settled.len(),
    ensures
        holder(settled, k, x, y, z) matches Some(j) ==> 0 <= j < k && covers(settled[j], x, y, z),
        holder(settled, k, x, y, z).is_none() ==> forall|j: int|
            0 <= j < k ==> !covers(#[trigger] settled[j], x, y, z),
    decreases k,
{
    if k > 0 {
        lemma_holder(settled, k - 1, x, y, z);
    }
}

/// Whether the brick `a` fills a cell at height `z` over which `b` stands.
spec fn meets(a: Brick, b: Brick, z: int) -> bool {
    a.2 <= z <= a.5 && (if a.0 >= b.0 {
        a.0
    } else {
        b.0
    }) <= (if a.3 <= b.3 {
        a.3
    } else {
        b.3
    }) && (if a.1 >= b.1 {
        a.1
    } else {
        b.1
    }) <= (if a.4 <= b.4 {
        a.4
    } else {
        b.4
    })
}

fn meet(a: Brick, b: Brick, z: usize) -> (r: bool)
    ensures
        r == meets(a, b, z as int),
{
    let x_low = if a.0 >= b.0 {
        a.0
    } else {
        b.0
    };
    let x_high = if a.3 <= b.3 {
        a.3
    } else {
        b.3
    };
    let y_low = if a.1 >= b.1 {
        a.1
    } else {
        b.1
    };
    let y_high = if a.4 <= b.4 {
        a.4
    } else {
        b.4
    };
    a.2 <= z && z <= a.5 && x_low <= x_high && y_low <= y_high
}

/// A brick is held at a height where one of the bricks before meets it.
proof fn lemma_held_is_met(settled: Seq<Brick>, k: int, b: Brick, z: int)
    requires
        0 <= k <= settled.len(),
    ensures
        held_at(settled, k, b, z) <==> exists|j: int| 0 <= j < k && meets(#[trigger] settled[j], b, z),
{
    if held_at(settled, k, b, z) {
        let (x, y) = choose|x: int, y: int|
            b.0 <= x <= b.3 && b.1 <= y <= b.4 && #[trigger] holder(settled, k, x, y, z).is_some();
        lemma_holder(settled, k, x, y, z);
        let j = holder(settled, k, x, y, z).unwrap();
        assert(meets(settled[j], b, z));
    }
    if exists|j: int| 0 <= j < k && meets(#[trigger] settled[j], b, z) {
        let j = choose|j: int| 0 <= j < k && meets(#[trigger] settled[j], b, z);
        let a = settled[j];
        let x = if a.0 >= b.0 {
            a.0 as int
        } else {
            b.0 as int
        };
        let y = if a.1 >= b.1 {
            a.1 as int
        } else {
            b.1 as int
        };
        lemma_holder(settled, k, x, y, z);
        assert(covers(settled[j], x, y, z));
        assert(holder(settled, k, x, y, z).is_some());
    }
}

/// There are as many bricks at rest as were let fall.
proof fn lemma_settled_len(bricks: Seq<Brick>, k: int)
    requires
        0 <= k,
    ensures
        settled(bricks, k).len() == k,
    decreases k,
{
    if k > 0 {
        lemma_settled_len(bricks, k - 1);
    }
}

/// Whether one of `rest` meets `b` at height `z`.
#[verifier::loop_isolation(false)]
fn held(rest: &Vec<Brick>, b: Brick, z: usize) -> (r: bool)
    ensures
        r == held_at(rest@, rest@.len() as int, b, z as int),
{
    proof {
        lemma_held_is_met(rest@, rest@.len() as int, b, z as int);
    }
    let mut j: usize = 0;
    while j < rest.len()
        invariant
            j <= rest@.len(),
            forall|k: int| 0 <= k < j ==> !meets(#[trigger] rest@[k], b, z as int),
        decreases rest@.len() - j,
    {
        if meet(rest[j], b, z) {
            return true;
        }
        j += 1;
    }
    false
}

/// The bricks at rest, each on those before it. `None` where a brick's
/// bottom is at height 0 or its top is below its bottom.
#[verifier::loop_isolation(false)]
pub fn settle(bricks: &Bricks) -> (r: Option<Bricks>)
    ensures
        match r {
            Some(rest) => rest@ == settled(bricks@, bricks@.len() as int) && well_formed(bricks@),
            None => !well_formed(bricks@),
        },
{
    let mut rest: Bricks = Vec::new();
    let mut i: usize = 0;
    while i < bricks.len()
        invariant
            i <= bricks@.len(),
            rest@ == settled(bricks@, i as int),
            forall|k: int| 0 <= k < i ==> (#[trigger] bricks@[k]).2 >= 1 && bricks@[k].5 >= bricks@[k].2,
        decreases bricks@.len() - i,
    {
        let b = bricks[i];
        if b.2 == 0 || b.5 < b.2 {
            return None;
        }
        let mut z1 = b.2;
        let ghost before = settled(bricks@, i as int);
        proof {
            lemma_settled_len(bricks@, i as int);
        }
        while z1 > 1 && !held(&rest, b, z1 - 1)
            invariant
                1 <= z1 <= b.2,
                rest_height(before, i as int, b, b.2 as int) == rest_height(
                    before,
                    i as int,
                    b,
                    z1 as int,
                ),
            decreases z1,
        {
            z1 -= 1;
        }
        let z2 = b.5 - (b.2 - z1);
        assert(rest_height(before, i as int, b, z1 as int) == z1);
        assert(at_rest(before, i as int, b) == (b.0, b.1, z1, b.3, b.4, z2));
        rest.push((b.0, b.1, z1, b.3, b.4, z2));
        i += 1;
    }
    Some(rest)
}

/// Every brick's bottom is at height 1 or above, and not above its top.
pub open spec fn well_formed(bricks: Seq<Brick>) -> bool {
    forall|k: int| 0 <= k < bricks.len() ==> (#[trigger] bricks[k]).2 >= 1 && bricks[k].5 >= bricks[k].2
}

/// The last of the first `k` bricks of `rest` that fills the cell.
#[verifier::loop_isolation(false)]
fn find_holder(rest: &Vec<Brick>, k: usize, x: usize, y: usize, z: usize) -> (r: Option<usize>)
    requires
        k <= rest@.len(),
    ensures
        match r {
            Some(j) => holder(rest@, k as int, x as int, y as int, z as int) == Some(j as int) && j
                < k,
            None => holder(rest@, k as int, x as int, y as int, z as int).is_none(),
        },
{
    let mut j: usize = k;
    while j > 0
        invariant
            j <= k,
            holder(rest@, k as int, x as int, y as int, z as int) == holder(
                rest@,
                j as int,
                x as int,
                y as int,
                z as int,
            ),
        decreases j,
    {
        let b = rest[j - 1];
        if b.0 <= x && x <= b.3 && b.1 <= y && y <= b.4 && b.2 <= z && z <= b.5 {
            return Some(j - 1);
        }
        j -= 1;
    }
    None
}

/// The bricks that hold brick `i` up, each once.
#[verifier::loop_isolation(false)]
fn holders_of(rest: &Vec<Brick>, i: usize) -> (r: Vec<usize>)
    requires
        i < rest@.len(),
        rest@[i as int].2 >= 1,
    ensures
        r@.no_duplicates(),
        forall|j: usize| #[trigger] r@.contains(j) <==> holds_up(rest@, j as int, i as int),
{
    let b = rest[i];
    let z = b.2 - 1;
    let mut found: Vec<usize> = Vec::new();
    if b.0 > b.3 || b.1 > b.4 {
        proof {
            assert forall|j: usize| #[trigger] found@.contains(j) <==> holds_up(
                rest@,
                j as int,
                i as int,
            ) by {}
        }
        return found;
    }
    let mut x: usize = b.0;
    let mut x_done = false;
    while !x_done
        invariant
            b.0 <= x <= b.3,
            x_done ==> x == b.3,
            found@.no_duplicates(),
            forall|j: usize|
                #[trigger] found@.contains(j) <==> exists|cx: int, cy: int|
                    b.0 <= cx < (if x_done {
                        x + 1
                    } else {
                        x as int
                    }) && b.1 <= cy <= b.4 && #[trigger] holder(rest@, i as int, cx, cy, z as int)
                        == Some(j as int),
        decreases b.3 - x, (if x_done { 0int } else { 1int }),
    {
        let mut y: usize = b.1;
        let mut y_done = false;
        while !y_done
            invariant
                b.0 <= x <= b.3,
                b.1 <= y <= b.4,
                y_done ==> y == b.4,
                !x_done,
                found@.no_duplicates(),
                forall|j: usize|
                    #[trigger] found@.contains(j) <==> exists|
                        cx: int,
                        cy: int,
                    |
                        ((b.0 <= cx < x && b.1 <= cy <= b.4) || (cx == x && b.1 <= cy < (if y_done {
                            y + 1
                        } else {
                            y as int
                        }))) && #[trigger] holder(rest@, i as int, cx, cy, z as int) == Some(j as int),
            decreases b.4 - y, (if y_done { 0int } else { 1int }),
        {
            let ghost shown = found@;
            let hit = find_holder(rest, i, x, y, z);
            let mut added = false;
            match hit {
                Some(j) => {
                    let mut k: usize = 0;
                    let mut present = false;
                    while k < found.len()
                        invariant
                            k <= found@.len(),
                            present == exists|a: int| 0 <= a < k && found@[a] == j,
                        decreases found@.len() - k,
                    {
                        if found[k] == j {
                            present = true;
                        }
                        k += 1;
                    }
                    if !present {
                        found.push(j);
                        added = true;
                    }
                },
                None => {},
            }
            proof {
                assert forall|j: usize|
                    #[trigger] found@.contains(j) <==> exists|
                        cx: int,
                        cy: int,
                    |
                        ((b.0 <= cx < x && b.1 <= cy <= b.4) || (cx == x && b.1 <= cy < y + 1))
                            && #[trigger] holder(rest@, i as int, cx, cy, z as int) == Some(j as int) by {
                    if shown.contains(j) {
                        let a = choose|a: int| 0 <= a < shown.len() && shown[a] == j;
                        assert(found@[a] == j);
                        let (cx, cy) = choose|cx: int, cy: int|
                            ((b.0 <= cx < x && b.1 <= cy <= b.4) || (cx == x && b.1 <= cy < y))
                                && #[trigger] holder(rest@, i as int, cx, cy, z as int) == Some(j as int);
                        assert(holder(rest@, i as int, cx, cy, z as int) == Some(j as int));
                    }
                    if found@.contains(j) && !shown.contains(j) {
                        let a = choose|a: int| 0 <= a < found@.len() && found@[a] == j;
                        if a < shown.len() {
                            assert(shown[a] == j);
                        }
                        assert(holder(rest@, i as int, x as int, y as int, z as int) == Some(j as int));
                    }
                    if exists|cx: int, cy: int|
                        ((b.0 <= cx < x && b.1 <= cy <= b.4) || (cx == x && b.1 <= cy < y + 1))
                            && #[trigger] holder(rest@, i as int, cx, cy, z as int) == Some(j as int) {
                        let (cx, cy) = choose|cx: int, cy: int|
                            ((b.0 <= cx < x && b.1 <= cy <= b.4) || (cx == x && b.1 <= cy < y + 1))
                                && #[trigger] holder(rest@, i as int, cx, cy, z as int) == Some(j as int);
                        lemma_holder(rest@, i as int, cx, cy, z as int);
                        if cx == x && cy == y {
                            if added {
                                assert(found@[found@.len() - 1] == j);
                            } else {
                                let a = choose|a: int| 0 <= a < shown.len() && shown[a] == j;
                                assert(found@[a] == j);
                            }
                        } else {
                            assert(holder(rest@, i as int, cx, cy, z as int) == Some(j as int));
                            assert(shown.contains(j));
                            let a = choose|a: int| 0 <= a < shown.len() && shown[a] == j;
                            assert(found@[a] == j);
                        }
                    }
                }
            }
            if y == b.4 {
                y_done = true;
            } else {
                y += 1;
            }
        }
        proof {
            assert forall|j: usize| #[trigger] found@.contains(j) <==> exists|cx: int, cy: int|
                b.0 <= cx < x + 1 && b.1 <= cy <= b.4 && #[trigger] holder(
                    rest@,
                    i as int,
                    cx,
                    cy,
                    z as int,
                ) == Some(j as int) by {
                if found@.contains(j) {
                    let (cx, cy) = choose|cx: int, cy: int|
                        ((b.0 <= cx < x && b.1 <= cy <= b.4) || (cx == x && b.1 <= cy < y + 1))
                            && #[trigger] holder(rest@, i as int, cx, cy, z as int) == Some(
                            j as int,
                        );
                    assert(holder(rest@, i as int, cx, cy, z as int) == Some(j as int));
                }
                if exists|cx: int, cy: int|
                    b.0 <= cx < x + 1 && b.1 <= cy <= b.4 && #[trigger] holder(
                        rest@,
                        i as int,
                        cx,
                        cy,
                        z as int,
                    ) == Some(j as int) {
                    let (cx, cy) = choose|cx: int, cy: int|
                        b.0 <= cx < x + 1 && b.1 <= cy <= b.4 && #[trigger] holder(
                            rest@,
                            i as int,
                            cx,
                            cy,
                            z as int,
                        ) == Some(j as int);
                    assert(holder(rest@, i as int, cx, cy, z as int) == Some(j as int));
                }
            }
        }
        if x == b.3 {
            x_done = true;
        } else {
            x += 1;
        }
    }
    proof {
        assert forall|j: usize|
            #[trigger] found@.contains(j) <==> holds_up(rest@, j as int, i as int) by {
            if found@.contains(j) {
                let (cx, cy) = choose|cx: int, cy: int|
                    b.0 <= cx < x + 1 && b.1 <= cy <= b.4 && #[trigger] holder(
                        rest@,
                        i as int,
                        cx,
                        cy,
                        z as int,
                    ) == Some(j as int);
                assert(holder(rest@, i as int, cx, cy, rest@[i as int].2 - 1) == Some(j as int));
            }
            if holds_up(rest@, j as int, i as int) {
                let (cx, cy) = choose|cx: int, cy: int|
                    b.0 <= cx <= b.3 && b.1 <= cy <= b.4 && #[trigger] holder(
                        rest@,
                        i as int,
                        cx,
                        cy,
                        rest@[i as int].2 - 1,
                    ) == Some(j as int);
                lemma_holder(rest@, i as int, cx, cy, z as int);
                assert(holder(rest@, i as int, cx, cy, z as int) == Some(j as int));
            }
        }
    }
    found
}

/// Whether brick `c` is held up by bricks that are all in `falling`, and by
/// at least one brick.
pub open spec fn loses_hold(rest: Seq<Brick>, falling: Set<int>, c: int) -> bool {
    &&& exists|j: int| holds_up(rest, j, c)
    &&& forall|j: int| holds_up(rest, j, c) ==> falling.contains(j)
}

/// The bricks that have fallen `k` rounds after brick `b` was taken away:
/// in each round the bricks fall that have lost all their hold.
pub open spec fn fallen(rest: Seq<Brick>, b: int, k: nat) -> Set<int>
    decreases k,
{
    if k == 0 {
        set![b]
    } else {
        let before = fallen(rest, b, (k - 1) as nat);
        Set::new(|c: int| before.contains(c) || (0 <= c < rest.len() && loses_hold(rest, before, c)))
    }
}

/// The bricks that fall when brick `b` is taken away, `b` among them.
pub open spec fn falling(rest: Seq<Brick>, b: int) -> Set<int> {
    fallen(rest, b, rest.len())
}

/// The number of bricks below `n` that are in `set`.
pub open spec fn count_in(set: Set<int>, n: int) -> int
    decreases n,
{
    if n <= 0 {
        0
    } else {
        count_in(set, n - 1) + if set.contains(n - 1) {
            1int
        } else {
            0int
        }
    }
}

/// Once a round lets nothing fall, no later round does.
proof fn lemma_fallen_stays(rest: Seq<Brick>, b: int, k: nat, m: nat)
    requires
        fallen(rest, b, k + 1) == fallen(rest, b, k),
        k <= m,
    ensures
        fallen(rest, b, m) == fallen(rest, b, k),
    decreases m,
{
    if m > k {
        lemma_fallen_stays(rest, b, k, (m - 1) as nat);
        assert(fallen(rest, b, m) =~= fallen(rest, b, k + 1));
    }
}

/// The lists `below` name, for each brick, the bricks that hold it up.
pub open spec fn lists_holders(rest: Seq<Brick>, below: Seq<Vec<usize>>) -> bool {
    &&& below.len() == rest.len()
    &&& forall|i: int, j: usize|
        0 <= i < rest.len() ==> (#[trigger] below[i]@.contains(j) <==> holds_up(rest, j as int, i))
}

/// A brick is held up only by bricks before it.
proof fn lemma_holds_up_range(rest: Seq<Brick>, j: int, i: int)
    requires
        0 <= i < rest.len(),
        holds_up(rest, j, i),
    ensures
        0 <= j < i,
{
    let (x, y) = choose|x: int, y: int|
        rest[i].0 <= x <= rest[i].3 && rest[i].1 <= y <= rest[i].4 && #[trigger] holder(
            rest,
            i,
            x,
            y,
            rest[i].2 - 1,
        ) == Some(j);
    lemma_holder(rest, i, x, y, rest[i].2 - 1);
}

/// For each brick whether it falls when `brick` is taken away.
#[verifier::loop_isolation(false)]
fn disintegrate(below: &Vec<Vec<usize>>, brick: usize, Ghost(rest): Ghost<Seq<Brick>>) -> (flags:
    Vec<bool>)
    requires
        lists_holders(rest, below@),
        brick < below@.len(),
    ensures
        flags@.len() == below@.len(),
        forall|c: int| 0 <= c < flags@.len() ==> flags@[c] == falling(rest, brick as int).contains(c),
{
    let n = below.len();
    let mut flags: Vec<bool> = Vec::new();
    let mut c: usize = 0;
    while c < n
        invariant
            c <= n,
            flags@.len() == c,
            forall|a: int| 0 <= a < c ==> flags@[a] == (a == brick),
        decreases n - c,
    {
        flags.push(c == brick);
        c += 1;
    }
    let mut round: usize = 0;
    let mut changed = true;
    while changed && round < n
        invariant
            round <= n,
            flags@.len() == n,
            forall|a: int| 0 <= a < n ==> flags@[a] == fallen(rest, brick as int, round as nat).contains(a),
            !changed ==> falling(rest, brick as int) == fallen(rest, brick as int, round as nat),
        decreases n - round, (if changed { 1int } else { 0int }),
    {
        let ghost before = fallen(rest, brick as int, round as nat);
        let ghost after = fallen(rest, brick as int, (round + 1) as nat);
        let mut next: Vec<bool> = Vec::new();
        let mut any = false;
        let mut c: usize = 0;
        while c < n
            invariant
                c <= n,
                next@.len() == c,
                forall|a: int| 0 <= a < c ==> next@[a] == after.contains(a),
                any == exists|a: int| 0 <= a < c && next@[a] != flags@[a],
            decreases n - c,
        {
            let holders = &below[c];
            let mut all = holders.len() > 0;
            let mut k: usize = 0;
            while k < holders.len()
                invariant
                    k <= holders@.len(),
                    all == (holders@.len() > 0 && forall|a: int|
                        0 <= a < k ==> before.contains(#[trigger] holders@[a] as int)),
                decreases holders@.len() - k,
            {
                proof {
                    assert(holders@.contains(holders@[k as int]));
                    lemma_holds_up_range(rest, holders@[k as int] as int, c as int);
                }
                if !flags[holders[k]] {
                    all = false;
                }
                k += 1;
            }
            proof {
                assert(all == loses_hold(rest, before, c as int)) by {
                    if all {
                        assert(holders@.contains(holders@[0]));
                        assert(holds_up(rest, holders@[0] as int, c as int));
                        assert forall|j: int| holds_up(rest, j, c as int) implies before.contains(
                            j,
                        ) by {
                            lemma_holds_up_range(rest, j, c as int);
                            assert(holders@.contains(j as usize));
                            let a = choose|a: int|
                                0 <= a < holders@.len() && holders@[a] == j as usize;
                            assert(before.contains(holders@[a] as int));
                        }
                    }
                    if loses_hold(rest, before, c as int) {
                        let j = choose|j: int| holds_up(rest, j, c as int);
                        lemma_holds_up_range(rest, j, c as int);
                        assert(holders@.contains(j as usize));
                        assert forall|a: int| 0 <= a < holders@.len() implies before.contains(
                            #[trigger] holders@[a] as int,
                        ) by {
                            assert(holders@.contains(holders@[a]));
                            assert(holds_up(rest, holders@[a] as int, c as int));
                        }
                    }
                }
            }
            let now = flags[c] || all;
            if now != flags[c] {
                any = true;
            }
            next.push(now);
            c += 1;
        }
        proof {
            if !any {
                assert forall|a: int| after.contains(a) <==> before.contains(a) by {
                    if after.contains(a) && !before.contains(a) {
                        assert(0 <= a < n);
                        assert(next@[a] != flags@[a]);
                    }
                }
                assert(after =~= before);
                lemma_fallen_stays(rest, brick as int, round as nat, n as nat);
            }
        }
        flags = next;
        changed = any;
        round += 1;
        proof {
            if !changed {
                lemma_fallen_stays(rest, brick as int, (round - 1) as nat, round as nat);
            }
        }
    }
    flags
}

/// The number of bricks marked in `flags`.
fn count_marked(flags: &Vec<bool>, Ghost(set): Ghost<Set<int>>) -> (n: usize)
    requires
        forall|c: int| 0 <= c < flags@.len() ==> flags@[c] == set.contains(c),
    ensures
        n == count_in(set, flags@.len() as int),
        n <= flags@.len(),
{
    let mut n: usize = 0;
    let mut c: usize = 0;
    while c < flags.len()
        invariant
            c <= flags@.len(),
            n <= c,
            n == count_in(set, c as int),
            forall|a: int| 0 <= a < flags@.len() ==> flags@[a] == set.contains(a),
        decreases flags@.len() - c,
    {
        if flags[c] {
            n += 1;
        }
        c += 1;
    }
    n
}

/// What taking brick `b` away counts for: the number of other bricks that
/// fall where `count_falls` is set, and otherwise 1 where no other brick
/// falls and 0 where one does.
pub open spec fn worth(rest: Seq<Brick>, b: int, count_falls: bool) -> int {
    let n = count_in(falling(rest, b), rest.len() as int);
    if count_falls {
        n - 1
    } else if n == 1 {
        1
    } else {
        0
    }
}

/// The sum of what taking away each of the first `k` bricks counts for.
pub open spec fn tally(rest: Seq<Brick>, k: int, count_falls: bool) -> int
    decreases k,
{
    if k <= 0 {
        0
    } else {
        tally(rest, k - 1, count_falls) + worth(rest, k - 1, count_falls)
    }
}

/// The brick taken away is counted among those that fall.
proof fn lemma_count_in_has(set: Set<int>, n: int, b: int)
    requires
        0 <= b < n,
        set.contains(b),
    ensures
        1 <= count_in(set, n) <= n,
    decreases n,
{
    lemma_count_in_range(set, n - 1);
    if b < n - 1 {
        lemma_count_in_has(set, n - 1, b);
    }
}

proof fn lemma_count_in_range(set: Set<int>, n: int)
    ensures
        0 <= count_in(set, n),
        n >= 0 ==> count_in(set, n) <= n,
    decreases n,
{
    if n > 0 {
        lemma_count_in_range(set, n - 1);
    }
}

/// The brick taken away has fallen from the first round on.
proof fn lemma_fallen_has(rest: Seq<Brick>, b: int, k: nat)
    ensures
        fallen(rest, b, k).contains(b),
    decreases k,
{
    if k > 0 {
        lemma_fallen_has(rest, b, (k - 1) as nat);
    }
}

proof fn lemma_tally_grows(rest: Seq<Brick>, k: int, n: int, count_falls: bool)
    requires
        0 <= k <= n <= rest.len(),
    ensures
        0 <= tally(rest, k, count_falls) <= tally(rest, n, count_falls),
    decreases n - k,
{
    if k < n {
        lemma_tally_grows(rest, k + 1, n, count_falls);
        lemma_fallen_has(rest, k, rest.len());
        lemma_count_in_has(falling(rest, k), rest.len() as int, k);
    }
    lemma_tally_nonnegative(rest, k, count_falls);
}

proof fn lemma_tally_nonnegative(rest: Seq<Brick>, k: int, count_falls: bool)
    requires
        k <= rest.len(),
    ensures
        0 <= tally(rest, k, count_falls),
    decreases k,
{
    if k > 0 {
        lemma_tally_nonnegative(rest, k - 1, count_falls);
        lemma_fallen_has(rest, k - 1, rest.len());
        lemma_count_in_has(falling(rest, k - 1), rest.len() as int, k - 1);
    }
}

/// A brick at rest has its bottom at height 1 or above.
proof fn lemma_settled_bottoms(bricks: Seq<Brick>, k: int, i: int)
    requires
        well_formed(bricks),
        0 <= i < k <= bricks.len(),
    ensures
        settled(bricks, k)[i].2 >= 1,
        settled(bricks, k).len() == k,
    decreases k,
{
    lemma_settled_len(bricks, k);
    lemma_settled_len(bricks, k - 1);
    if i < k - 1 {
        lemma_settled_bottoms(bricks, k - 1, i);
    } else {
        lemma_rest_height_range(settled(bricks, k - 1), k - 1, bricks[k - 1], bricks[k - 1].2 as int);
    }
}

/// The bricks are let fall in order; then each in turn is taken away. The
/// result is the number of bricks whose taking away lets no other brick
/// fall, or where `part2` is set, the sum over all bricks of the numbers of
/// other bricks that fall. `None` where a brick is not well formed or the
/// sum does not fit.
#[verifier::loop_isolation(false)]
pub fn drop_all(bricks: Bricks, part2: bool) -> (r: Option<usize>)
    ensures
        match r {
            Some(ans) => well_formed(bricks@) && ans == tally(
                settled(bricks@, bricks@.len() as int),
                bricks@.len() as int,
                part2,
            ),
            None => !well_formed(bricks@) || tally(
                settled(bricks@, bricks@.len() as int),
                bricks@.len() as int,
                part2,
            ) > usize::MAX,
        },
{
    let rest = match settle(&bricks) {
        Some(r) => r,
        None => {
            return None;
        },
    };
    let ghost at = rest@;
    let n = rest.len();
    proof {
        lemma_settled_len(bricks@, bricks@.len() as int);
    }
    let mut below: Vec<Vec<usize>> = Vec::new();
    let mut i: usize = 0;
    while i < n
        invariant
            i <= n,
            below@.len() == i,
            forall|a: int, j: usize|
                0 <= a < i ==> (#[trigger] below@[a]@.contains(j) <==> holds_up(at, j as int, a)),
        decreases n - i,
    {
        proof {
            lemma_settled_bottoms(bricks@, n as int, i as int);
        }
        let holders = holders_of(&rest, i);
        below.push(holders);
        i += 1;
    }
    let mut ans: usize = 0;
    let mut b: usize = 0;
    while b < n
        invariant
            b <= n,
            lists_holders(at, below@),
            ans == tally(at, b as int, part2),
        decreases n - b,
    {
        let flags = disintegrate(&below, b, Ghost(at));
        let count = count_marked(&flags, Ghost(falling(at, b as int)));
        proof {
            lemma_fallen_has(at, b as int, at.len());
            lemma_count_in_has(falling(at, b as int), n as int, b as int);
        }
        let gain: usize = if part2 {
            count - 1
        } else if count == 1 {
            1
        } else {
            0
        };
        match ans.checked_add(gain) {
            Some(v) => {
                ans = v;
            },
            None => {
                proof {
                    lemma_tally_grows(at, b + 1, n as int, part2);
                }
                return None;
            },
        }
        b += 1;
    }
    Some(ans)
}

/// The number of bricks that can be taken away without another brick falling.
pub fn part1(input: &Bricks) -> (r: Option<usize>)
    ensures
        match r {
            Some(ans) => well_formed(input@) && ans == tally(
                settled(input@, input@.len() as int),
                input@.len() as int,
                false,
            ),
            None => !well_formed(input@) || tally(
                settled(input@, input@.len() as int),
                input@.len() as int,
                false,
            ) > usize::MAX,
        },
{
    drop_all(copy_bricks(input), false)
}

/// The sum, over all bricks, of the numbers of other bricks that fall when
/// the brick is taken away.
pub fn part2(input: &Bricks) -> (r: Option<usize>)
    ensures
        match r {
            Some(ans) => well_formed(input@) && ans == tally(
                settled(input@, input@.len() as int),
                input@.len() as int,
                true,
            ),
            None => !well_formed(input@) || tally(
                settled(input@, input@.len() as int),
                input@.len() as int,
                true,
            ) > usize::MAX,
        },
{
    drop_all(copy_bricks(input), true)
}

fn copy_bricks(v: &Bricks) -> (r: Bricks)
    ensures
        r@ == v@,
{
    let mut r: Bricks = Vec::new();
    let mut i: usize = 0;
    while i < v.len()
        invariant
            i <= v@.len(),
            r@ == v@.take(i as int),
        decreases v@.len() - i,
    {
        r.push(v[i]);
        i += 1;
        assert(r@ =~= v@.take(i as int));
    }
    assert(v@.take(i as int) =~= v@);
    r
}

/// The bricks of `s` whose bottom is at height `z`, in order.
pub open spec fn at_bottom(s: Seq<Brick>, z: usize) -> Seq<Brick>
    decreases s.len(),
{
    if s.len() == 0 {
        s
    } else if s.last().2 == z {
        at_bottom(s.drop_last(), z).push(s.last())
    } else {
        at_bottom(s.drop_last(), z)
    }
}

/// The bottoms never come lower along the sequence.
pub open spec fn sorted_by_bottom(s: Seq<Brick>) -> bool {
    forall|i: int, j: int| 0 <= i <= j < s.len() ==> s[i].2 <= s[j].2
}

/// `sorted` holds the bricks of `bricks` in the order of their bottoms,
/// bricks with the same bottom in the order they had.
pub open spec fn is_stable_sorting(bricks: Seq<Brick>, sorted: Seq<Brick>) -> bool {
    &&& sorted.len() == bricks.len()
    &&& sorted_by_bottom(sorted)
    &&& forall|z: usize| #[trigger] at_bottom(sorted, z) == at_bottom(bricks, z)
}

proof fn lemma_at_bottom_concat(a: Seq<Brick>, b: Seq<Brick>, z: usize)
    ensures
        at_bottom(a + b, z) == at_bottom(a, z) + at_bottom(b, z),
    decreases b.len(),
{
    if b.len() == 0 {
        assert(a + b =~= a);
        assert(at_bottom(a, z) + at_bottom(b, z) =~= at_bottom(a, z));
    } else {
        lemma_at_bottom_concat(a, b.drop_last(), z);
        assert((a + b).drop_last() =~= a + b.drop_last());
        assert((a + b).last() == b.last());
        if b.last().2 == z {
            assert(at_bottom(a, z) + at_bottom(b.drop_last(), z).push(b.last()) =~= (at_bottom(a, z)
                + at_bottom(b.drop_last(), z)).push(b.last()));
        }
    }
}

/// Exchanging two neighbours with different bottoms keeps the bricks of
/// each bottom in their order.
proof fn lemma_exchange_keeps(s: Seq<Brick>, j: int, z: usize)
    requires
        0 < j < s.len(),
        s[j - 1].2 != s[j].2,
    ensures
        at_bottom(s.update(j - 1, s[j]).update(j, s[j - 1]), z) == at_bottom(s, z),
{
    let t = s.update(j - 1, s[j]).update(j, s[j - 1]);
    let pre = s.subrange(0, j - 1);
    let post = s.subrange(j + 1, s.len() as int);
    let ab = seq![s[j - 1], s[j]];
    let ba = seq![s[j], s[j - 1]];
    assert(s =~= pre + ab + post);
    assert(t =~= pre + ba + post);
    lemma_at_bottom_concat(pre + ab, post, z);
    lemma_at_bottom_concat(pre, ab, z);
    lemma_at_bottom_concat(pre + ba, post, z);
    lemma_at_bottom_concat(pre, ba, z);
    assert(at_bottom(ab, z) =~= at_bottom(ba, z)) by {
        assert(ab.drop_last() =~= seq![s[j - 1]]);
        assert(ba.drop_last() =~= seq![s[j]]);
        assert(seq![s[j - 1]].drop_last() =~= Seq::<Brick>::empty());
        assert(seq![s[j]].drop_last() =~= Seq::<Brick>::empty());
        reveal_with_fuel(at_bottom, 3);
    }
}

/// Sorts the bricks by their bottoms; bricks with the same bottom keep their
/// order.
#[verifier::loop_isolation(false)]
pub fn sort_by_bottom(v: &mut Bricks)
    ensures
        is_stable_sorting(old(v)@, final(v)@),
{
    let n = v.len();
    let ghost start = v@;
    let mut i: usize = 1;
    while i < n
        invariant
            n == v@.len(),
            1 <= i || n == 0,
            forall|z: usize| #[trigger] at_bottom(v@, z) == at_bottom(start, z),
            sorted_by_bottom(v@.take(if i <= n { i as int } else { n as int })),
        decreases n - i,
    {
        let mut j: usize = i;
        proof {
            let head = v@.take(i as int);
            assert forall|a: int, b: int| 0 <= a <= b <= i && a != j && b != j implies v@[a].2
                <= v@[b].2 by {
                assert(head[a].2 <= head[b].2);
            }
        }
        while j > 0 && v[j - 1].2 > v[j].2
            invariant
                n == v@.len(),
                j <= i < n,
                forall|z: usize| #[trigger] at_bottom(v@, z) == at_bottom(start, z),
                forall|a: int, b: int| 0 <= a <= b <= i && a != j && b != j ==> v@[a].2 <= v@[b].2,
                forall|b: int| j < b <= i ==> v@[j as int].2 <= v@[b].2,
            decreases j,
        {
            let low = v[j];
            let high = v[j - 1];
            let ghost s0 = v@;
            v.set(j - 1, low);
            v.set(j, high);
            proof {
                assert(v@ =~= s0.update(j - 1, s0[j as int]).update(j as int, s0[j - 1]));
                assert forall|z: usize| #[trigger] at_bottom(v@, z) == at_bottom(start, z) by {
                    lemma_exchange_keeps(s0, j as int, z);
                }
            }
            j -= 1;
        }
        proof {
            let s = v@.take(i + 1);
            assert forall|a: int, b: int| 0 <= a <= b < s.len() implies s[a].2 <= s[b].2 by {
                if a == j && b != j {
                } else if b == j && a != j {
                    if j > 0 {
                        assert(v@[a].2 <= v@[j - 1].2);
                    }
                }
            }
        }
        i += 1;
    }
    proof {
        if n == 0 {
            assert(v@.take(0) =~= v@);
        } else {
            assert(v@.take(n as int) =~= v@);
        }
    }
}

/// The brick that `line` writes: six whole numbers, each two with one
/// character between them that is no digit.
pub open spec fn brick_of(line: Seq<char>) -> Option<Brick> {
    match map_all(split_where(line, no_digit()), unsigned_reader(usize::MAX as int)) {
        Some(numbers) => if numbers.len() == 6 {
            Some(
                (
                    numbers[0] as usize,
                    numbers[1] as usize,
                    numbers[2] as usize,
                    numbers[3] as usize,
                    numbers[4] as usize,
                    numbers[5] as usize,
                ),
            )
        } else {
            None
        },
        None => None,
    }
}

/// Reads a brick.
pub open spec fn brick_reader() -> spec_fn(Seq<char>) -> Option<Brick> {
    |line: Seq<char>| brick_of(line)
}

fn read_brick(line: &Vec<char>) -> (r: Option<Brick>)
    ensures
        r == brick_of(line@),
{
    let pieces = split_at_non_digits(line);
    let numbers = match parse_all_unsigned(&pieces, usize::MAX as u64) {
        Some(v) => v,
        None => {
            return None;
        },
    };
    if numbers.len() != 6 {
        return None;
    }
    proof {
        let f = unsigned_reader(usize::MAX as int);
        lemma_map_all_some(views(pieces@), f);
        assert forall|k: int| 0 <= k < 6 implies #[trigger] numbers@[k] <= usize::MAX by {
            assert(f(views(pieces@)[k]) == Some(as_ints(numbers@)[k]));
        }
        assert(as_ints(numbers@)[0] == numbers@[0]);
        assert(as_ints(numbers@)[1] == numbers@[1]);
        assert(as_ints(numbers@)[2] == numbers@[2]);
        assert(as_ints(numbers@)[3] == numbers@[3]);
        assert(as_ints(numbers@)[4] == numbers@[4]);
        assert(as_ints(numbers@)[5] == numbers@[5]);
    }
    Some(
        (
            numbers[0] as usize,
            numbers[1] as usize,
            numbers[2] as usize,
            numbers[3] as usize,
            numbers[4] as usize,
            numbers[5] as usize,
        ),
    )
}

/// Reads the bricks, one from each line, and sorts them by their bottoms;
/// `None` where a line is not as `brick_of` describes.
#[verifier::loop_isolation(false)]
pub fn parse(input: &str) -> (r: Option<Bricks>)
    ensures
        match r {
            Some(bricks) => map_all(lines_of(input@), brick_reader()) matches Some(read)
                && is_stable_sorting(read, bricks@),
            None => map_all(lines_of(input@), brick_reader()).is_none(),
        },
{
    let chars = chars_of(input);
    let ls = lines(&chars);
    let ghost rows = views(ls@);
    let ghost f = brick_reader();
    let mut bricks: Bricks = Vec::new();
    let mut i: usize = 0;
    assert(rows.take(0) =~= Seq::<Seq<char>>::empty());
    while i < ls.len()
        invariant
            i <= ls@.len(),
            map_all(rows.take(i as int), f) == Some(bricks@),
        decreases ls@.len() - i,
    {
        proof {
            lemma_map_all_step(rows, f, i as int);
        }
        match read_brick(&ls[i]) {
            Some(b) => {
                bricks.push(b);
            },
            None => {
                proof {
                    lemma_map_all_none(rows, f, i + 1);
                }
                return None;
            },
        }
        i += 1;
    }
    assert(rows.take(i as int) =~= rows);
    sort_by_bottom(&mut bricks);
    Some(bricks)
}

} // verus!
