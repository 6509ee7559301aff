//! Best-first search for the cheapest legal route.
use crate::frontier::{Frontier, FrontierEntry};
use crate::grid::{Coordinate, GridModel, GridView, MAX_SIDE};
use crate::route::{
    after, ahead, is_least_cost, is_search_result, lemma_run_cost_bounds, lemma_search_from_goal,
    may_turn, offset_x, offset_y, origin, reachable, reaches, route_cost, route_end, route_legal,
    run_cost, run_in_grid, step_ok, Direction, Move, Node, Rules, SearchState,
};
use crate::sets::lemma_bounded_len;
use std::collections::HashSet;
use vstd::multiset::Multiset;
use vstd::prelude::*;

verus! {

broadcast use vstd::std_specs::hash::group_hash_axioms;

/// No run costs more than this: at most `MAX_SIDE` cells of cost 9.
pub const MAX_RUN_COST: u64 = 589_815;

/// Some legal route from `start` ends in state `n` and costs `c`.
pub open spec fn arrives(g: GridView, rules: Rules, start: Node, n: Node, c: int) -> bool {
    exists|route: Seq<Move>| #[trigger]
        route_legal(g, rules, start, route) && route_end(start, route) == n && route_cost(
            g,
            start,
            route,
        ) == c
}

/// No legal route from `start` that ends in state `n` costs less than `c`.
pub open spec fn cheapest(g: GridView, rules: Rules, start: Node, n: Node, c: int) -> bool {
    forall|route: Seq<Move>| #[trigger]
        route_legal(g, rules, start, route) && route_end(start, route) == n ==> route_cost(
            g,
            start,
            route,
        ) >= c
}

/// The states that a search from `start` can meet: the origin itself, and
/// every cell of the grid entered on one of the four headings.
pub open spec fn valid_node(g: GridView, start: Node, n: Node) -> bool {
    n == start || (g.contains(n.x, n.y) && !(n.dir is Start))
}

/// The frontier holds an entry for state `n` that costs at most `bound`.
pub open spec fn covered(frontier: Multiset<FrontierEntry>, n: Node, bound: int) -> bool {
    exists|e: FrontierEntry| #[trigger] frontier.contains(e) && e.state@ == n && e.cost <= bound
}

/// What holds between the settled states and the frontier throughout a search.
///
/// Each frontier entry and each settled state is backed by a legal route of
/// the cost recorded. A settled state's cost is the least of any route to it,
/// and no settled state lies on the goal. The origin is settled or waits in
/// the frontier at cost 0, and wherever a legal move leads from a settled
/// state, the state it leads to is settled too or waits in the frontier at no
/// more than the cost of going there by that move.
pub open spec fn search_inv(
    g: GridView,
    rules: Rules,
    start: Node,
    goal: Coordinate,
    settled: Map<Node, int>,
    frontier: Multiset<FrontierEntry>,
) -> bool {
    &&& forall|e: FrontierEntry| #[trigger]
        frontier.contains(e) ==> valid_node(g, start, e.state@) && arrives(
            g,
            rules,
            start,
            e.state@,
            e.cost as int,
        )
    &&& forall|n: Node| #[trigger]
        settled.contains_key(n) ==> {
            &&& valid_node(g, start, n)
            &&& arrives(g, rules, start, n, settled[n])
            &&& cheapest(g, rules, start, n, settled[n])
            &&& !(n.x == goal.x && n.y == goal.y)
        }
    &&& settled.contains_key(start) || covered(frontier, start, 0)
    &&& forall|u: Node, m: Move|
        settled.contains_key(u) && #[trigger] step_ok(g, rules, u, m) ==> settled.contains_key(
            after(u, m),
        ) || covered(frontier, after(u, m), settled[u] + run_cost(g, u, m.dir, m.len))
}

/// Under `search_inv`, a legal route ends in a settled state, or else some
/// frontier entry costs no more than the route.
proof fn lemma_route_is_covered(
    g: GridView,
    rules: Rules,
    start: Node,
    goal: Coordinate,
    settled: Map<Node, int>,
    frontier: Multiset<FrontierEntry>,
    route: Seq<Move>,
)
    requires
        g.wf(),
        search_inv(g, rules, start, goal, settled, frontier),
        route_legal(g, rules, start, route),
    ensures
        settled.contains_key(route_end(start, route)) || exists|e: FrontierEntry| #[trigger]
            frontier.contains(e) && e.cost <= route_cost(g, start, route),
    decreases route.len(),
{
    if route.len() == 0 {
        if !settled.contains_key(start) {
            let e = choose|e: FrontierEntry| #[trigger]
                frontier.contains(e) && e.state@ == start && e.cost <= 0;
            assert(frontier.contains(e) && e.cost <= route_cost(g, start, route));
        }
    } else {
        let head = route.drop_last();
        let m = route.last();
        let prev = route_end(start, head);
        lemma_route_is_covered(g, rules, start, goal, settled, frontier, head);
        lemma_run_cost_bounds(g, prev, m.dir, m.len);
        if settled.contains_key(prev) {
            assert(step_ok(g, rules, prev, m));
            assert(route_legal(g, rules, start, head) && route_end(start, head) == prev);
            assert(settled[prev] <= route_cost(g, start, head));
            if !settled.contains_key(after(prev, m)) {
                let bound = settled[prev] + run_cost(g, prev, m.dir, m.len);
                let e = choose|e: FrontierEntry| #[trigger]
                    frontier.contains(e) && e.state@ == after(prev, m) && e.cost <= bound;
                assert(frontier.contains(e) && e.cost <= route_cost(g, start, route));
            }
        } else {
            let e = choose|e: FrontierEntry| #[trigger]
                frontier.contains(e) && e.cost <= route_cost(g, start, head);
            assert(frontier.contains(e) && e.cost <= route_cost(g, start, route));
        }
    }
}

/// A legal route extended by a legal move is a legal route; it ends where the
/// move leads and costs the run more.
proof fn lemma_extend(g: GridView, rules: Rules, start: Node, route: Seq<Move>, m: Move)
    requires
        route_legal(g, rules, start, route),
        step_ok(g, rules, route_end(start, route), m),
    ensures
        route_legal(g, rules, start, route.push(m)),
        route_end(start, route.push(m)) == after(route_end(start, route), m),
        route_cost(g, start, route.push(m)) == route_cost(g, start, route) + run_cost(
            g,
            route_end(start, route),
            m.dir,
            m.len,
        ),
{
    assert(route.push(m).drop_last() =~= route);
    assert(route.push(m).last() == m);
}

/// The entry `x` is what the move `m` makes of the entry `from`: the move is
/// legal from `from`'s state, leads to `x`'s state, and `x` costs the run more.
pub open spec fn is_successor(
    g: GridView,
    rules: Rules,
    from: FrontierEntry,
    m: Move,
    x: FrontierEntry,
) -> bool {
    &&& step_ok(g, rules, from.state@, m)
    &&& x.state@ == after(from.state@, m)
    &&& x.cost == from.cost + run_cost(g, from.state@, m.dir, m.len)
}

/// Some move makes `x` of `from`.
pub open spec fn born(g: GridView, rules: Rules, from: FrontierEntry, x: FrontierEntry) -> bool {
    exists|m: Move| #[trigger] is_successor(g, rules, from, m, x)
}

/// The frontier holds what the move `m` makes of `from`.
pub open spec fn served(
    g: GridView,
    rules: Rules,
    from: FrontierEntry,
    m: Move,
    frontier: Multiset<FrontierEntry>,
) -> bool {
    exists|x: FrontierEntry| #[trigger] frontier.contains(x) && is_successor(g, rules, from, m, x)
}

/// A run that stays in the grid has at most `MAX_SIDE` cells.
proof fn lemma_run_length(g: GridView, from: Node, dir: Direction, len: int)
    requires
        g.wf(),
        !(dir is Start),
        len >= 1,
        run_in_grid(g, from, dir, len),
    ensures
        len <= MAX_SIDE,
        g.contains(ahead(from, dir, len).0, ahead(from, dir, len).1),
{
    let a = ahead(from, dir, 1);
    let b = ahead(from, dir, len);
    assert(g.contains(a.0, a.1));
    assert(g.contains(b.0, b.1));
}

/// What a legal move makes of an entry lies in the grid, on a heading, and
/// costs at most `MAX_RUN_COST` more than the entry.
proof fn lemma_successor_bounds(
    g: GridView,
    rules: Rules,
    from: FrontierEntry,
    m: Move,
    x: FrontierEntry,
)
    requires
        g.wf(),
        rules.wf(),
        is_successor(g, rules, from, m, x),
    ensures
        x.cost <= from.cost + MAX_RUN_COST,
        from.cost <= x.cost,
        g.contains(x.state@.x, x.state@.y),
        !(x.state@.dir is Start),
{
    lemma_run_length(g, from.state@, m.dir, m.len);
    lemma_run_cost_bounds(g, from.state@, m.dir, m.len);
}

/// Taking `e` out of a multiset leaves every other member in it, and adds none.
proof fn lemma_remove_members(m: Multiset<FrontierEntry>, e: FrontierEntry)
    requires
        m.contains(e),
    ensures
        forall|x: FrontierEntry| #[trigger] m.remove(e).contains(x) ==> m.contains(x),
        forall|x: FrontierEntry| x != e && m.contains(x) ==> #[trigger] m.remove(e).contains(x),
        m.remove(e).len() + 1 == m.len(),
{
    broadcast use vstd::multiset::group_multiset_axioms;

    assert forall|x: FrontierEntry| #[trigger] m.remove(e).contains(x) implies m.contains(x) by {
        assert(m.remove(e).count(x) <= m.count(x));
    }
    assert forall|x: FrontierEntry| x != e && m.contains(x) implies #[trigger] m.remove(e).contains(
        x,
    ) by {
        assert(m.remove(e).count(x) == m.count(x));
    }
}

/// Under `search_inv`, with the frontier empty, no legal route reaches the goal.
proof fn lemma_exhausted(
    g: GridView,
    rules: Rules,
    start: Coordinate,
    goal: Coordinate,
    settled: Map<Node, int>,
    frontier: Multiset<FrontierEntry>,
)
    requires
        g.wf(),
        search_inv(g, rules, origin(start), goal, settled, frontier),
        frontier.len() == 0,
    ensures
        !reachable(g, rules, start, goal),
{
    broadcast use vstd::multiset::group_multiset_axioms;

    assert forall|route: Seq<Move>| !reaches(g, rules, start, goal, route) by {
        if reaches(g, rules, start, goal, route) {
            lemma_route_is_covered(g, rules, origin(start), goal, settled, frontier, route);
            let end = route_end(origin(start), route);
            if !settled.contains_key(end) {
                let e = choose|e: FrontierEntry| #[trigger]
                    frontier.contains(e) && e.cost <= route_cost(g, origin(start), route);
                assert(frontier.count(e) > 0);
                assert(frontier.count(e) <= frontier.len());
            }
        }
    }
}

/// Under `search_inv`, a frontier entry on the goal that costs no more than
/// any other entry carries the least cost of a route to the goal.
proof fn lemma_goal_popped(
    g: GridView,
    rules: Rules,
    start: Coordinate,
    goal: Coordinate,
    settled: Map<Node, int>,
    frontier: Multiset<FrontierEntry>,
    e: FrontierEntry,
)
    requires
        g.wf(),
        search_inv(g, rules, origin(start), goal, settled, frontier),
        frontier.contains(e),
        forall|o: FrontierEntry| #[trigger] frontier.contains(o) ==> e.cost <= o.cost,
        e.state.position == goal,
    ensures
        is_least_cost(g, rules, start, goal, e.cost as int),
{
    let s0 = origin(start);
    assert(arrives(g, rules, s0, e.state@, e.cost as int));
    let witness = choose|route: Seq<Move>| #[trigger]
        route_legal(g, rules, s0, route) && route_end(s0, route) == e.state@ && route_cost(
            g,
            s0,
            route,
        ) == e.cost;
    assert(reaches(g, rules, start, goal, witness));
    assert forall|route: Seq<Move>| #[trigger]
        reaches(g, rules, start, goal, route) implies route_cost(g, s0, route) >= e.cost by {
        lemma_route_is_covered(g, rules, s0, goal, settled, frontier, route);
        let end = route_end(s0, route);
        assert(!settled.contains_key(end));
        let o = choose|o: FrontierEntry| #[trigger]
            frontier.contains(o) && o.cost <= route_cost(g, s0, route);
        assert(e.cost <= o.cost);
    }
}

/// `search_inv` survives the removal of a frontier entry whose state is settled.
proof fn lemma_discard(
    g: GridView,
    rules: Rules,
    start: Node,
    goal: Coordinate,
    settled: Map<Node, int>,
    frontier: Multiset<FrontierEntry>,
    e: FrontierEntry,
)
    requires
        search_inv(g, rules, start, goal, settled, frontier),
        frontier.contains(e),
        settled.contains_key(e.state@),
    ensures
        search_inv(g, rules, start, goal, settled, frontier.remove(e)),
{
    let rest = frontier.remove(e);
    lemma_remove_members(frontier, e);
    if !settled.contains_key(start) {
        let x = choose|x: FrontierEntry| #[trigger]
            frontier.contains(x) && x.state@ == start && x.cost <= 0;
        assert(rest.contains(x));
    }
    assert forall|u: Node, m: Move|
        settled.contains_key(u) && #[trigger] step_ok(g, rules, u, m) implies settled.contains_key(
        after(u, m),
    ) || covered(rest, after(u, m), settled[u] + run_cost(g, u, m.dir, m.len)) by {
        if !settled.contains_key(after(u, m)) {
            let bound = settled[u] + run_cost(g, u, m.dir, m.len);
            let x = choose|x: FrontierEntry| #[trigger]
                frontier.contains(x) && x.state@ == after(u, m) && x.cost <= bound;
            assert(rest.contains(x));
        }
    }
}

/// `search_inv` survives settling the state of a cheapest frontier entry
/// that is neither settled nor on the goal, once the entry has been replaced
/// in the frontier by what the legal moves make of it.
proof fn lemma_settle(
    g: GridView,
    rules: Rules,
    start: Node,
    goal: Coordinate,
    settled: Map<Node, int>,
    frontier: Multiset<FrontierEntry>,
    e: FrontierEntry,
    grown: Multiset<FrontierEntry>,
)
    requires
        g.wf(),
        rules.wf(),
        search_inv(g, rules, start, goal, settled, frontier),
        frontier.contains(e),
        forall|o: FrontierEntry| #[trigger] frontier.contains(o) ==> e.cost <= o.cost,
        !settled.contains_key(e.state@),
        e.state.position != goal,
        forall|x: FrontierEntry| #[trigger] frontier.remove(e).contains(x) ==> grown.contains(x),
        forall|x: FrontierEntry| #[trigger]
            grown.contains(x) ==> frontier.remove(e).contains(x) || born(g, rules, e, x),
        forall|m: Move| #[trigger] step_ok(g, rules, e.state@, m) ==> served(g, rules, e, m, grown),
    ensures
        search_inv(g, rules, start, goal, settled.insert(e.state@, e.cost as int), grown),
{
    let n = e.state@;
    let c = e.cost as int;
    let rest = frontier.remove(e);
    let done = settled.insert(n, c);
    lemma_remove_members(frontier, e);
    assert(arrives(g, rules, start, n, c));
    let backing = choose|route: Seq<Move>| #[trigger]
        route_legal(g, rules, start, route) && route_end(start, route) == n && route_cost(
            g,
            start,
            route,
        ) == c;
    assert forall|x: FrontierEntry| #[trigger] grown.contains(x) implies valid_node(
        g,
        start,
        x.state@,
    ) && arrives(g, rules, start, x.state@, x.cost as int) by {
        if !rest.contains(x) {
            let m = choose|m: Move| #[trigger] is_successor(g, rules, e, m, x);
            lemma_successor_bounds(g, rules, e, m, x);
            lemma_extend(g, rules, start, backing, m);
            assert(route_legal(g, rules, start, backing.push(m)));
        }
    }
    assert(cheapest(g, rules, start, n, c)) by {
        assert forall|route: Seq<Move>| #[trigger]
            route_legal(g, rules, start, route) && route_end(start, route) == n implies route_cost(
            g,
            start,
            route,
        ) >= c by {
            lemma_route_is_covered(g, rules, start, goal, settled, frontier, route);
            let o = choose|o: FrontierEntry| #[trigger]
                frontier.contains(o) && o.cost <= route_cost(g, start, route);
            assert(e.cost <= o.cost);
        }
    }
    assert forall|k: Node| #[trigger] done.contains_key(k) implies {
        &&& valid_node(g, start, k)
        &&& arrives(g, rules, start, k, done[k])
        &&& cheapest(g, rules, start, k, done[k])
        &&& !(k.x == goal.x && k.y == goal.y)
    } by {
        if k != n {
            assert(settled.contains_key(k));
        }
    }
    if !done.contains_key(start) {
        let x = choose|x: FrontierEntry| #[trigger]
            frontier.contains(x) && x.state@ == start && x.cost <= 0;
        assert(rest.contains(x));
        assert(grown.contains(x));
    }
    assert forall|u: Node, m: Move|
        done.contains_key(u) && #[trigger] step_ok(g, rules, u, m) implies done.contains_key(
        after(u, m),
    ) || covered(grown, after(u, m), done[u] + run_cost(g, u, m.dir, m.len)) by {
        if u == n {
            assert(served(g, rules, e, m, grown));
            let x = choose|x: FrontierEntry| #[trigger]
                grown.contains(x) && is_successor(g, rules, e, m, x);
            assert(grown.contains(x) && x.state@ == after(u, m));
        } else if !done.contains_key(after(u, m)) {
            let bound = settled[u] + run_cost(g, u, m.dir, m.len);
            let x = choose|x: FrontierEntry| #[trigger]
                frontier.contains(x) && x.state@ == after(u, m) && x.cost <= bound;
            assert(rest.contains(x));
            assert(grown.contains(x));
        }
    }
}

/// The place of a heading among the four; 4 for the origin's heading.
pub open spec fn heading_index(d: Direction) -> int {
    match d {
        Direction::North => 0,
        Direction::South => 1,
        Direction::East => 2,
        Direction::West => 3,
        Direction::Start => 4,
    }
}

/// The number under which a state is remembered as settled, in a grid of
/// `w` columns and `cells` cells: one number for each cell and heading, and
/// one more for the origin.
pub open spec fn code(w: int, cells: int, n: Node) -> int {
    if n.dir is Start {
        4 * cells
    } else {
        (n.y * w + n.x) * 4 + heading_index(n.dir)
    }
}

/// The code of a cell entered on a heading is below that of the origin.
proof fn lemma_code_range(g: GridView, n: Node)
    requires
        g.wf(),
        g.contains(n.x, n.y),
        !(n.dir is Start),
    ensures
        0 <= code(g.width, g.width * g.height, n) < 4 * (g.width * g.height),
        g.width * g.height <= MAX_SIDE * MAX_SIDE,
{
    let w = g.width;
    let h = g.height;
    assert(0 <= n.y * w && n.y * w + w <= h * w && w * h == h * w && w * h <= 65535 * 65535)
        by (nonlinear_arith)
        requires
            0 <= n.y < h,
            0 <= w <= 65535,
            h <= 65535,
    ;
}

/// Two states that a search can meet and that have one code are one state.
proof fn lemma_code_injective(g: GridView, start: Node, a: Node, b: Node)
    requires
        g.wf(),
        start.dir is Start,
        valid_node(g, start, a),
        valid_node(g, start, b),
        code(g.width, g.width * g.height, a) == code(g.width, g.width * g.height, b),
    ensures
        a == b,
{
    let w = g.width;
    if a.dir is Start {
        if !(b.dir is Start) {
            lemma_code_range(g, b);
        }
    } else if b.dir is Start {
        lemma_code_range(g, a);
    } else {
        assert(a.y * w + a.x == b.y * w + b.x);
        assert(a.y == b.y) by (nonlinear_arith)
            requires
                a.y * w + a.x == b.y * w + b.x,
                0 <= a.x < w,
                0 <= b.x < w,
        ;
    }
}

/// Why a search engine cannot be set up.
#[derive(Clone, Copy, Debug, PartialEq, Eq, Structural)]
pub enum ConfigError {
    /// The shortest run allowed is 0 cells.
    ZeroMinRun,
    /// The shortest run allowed is longer than the longest.
    MinRunAboveMax,
}

/// Why a search has no cost to report.
#[derive(Clone, Copy, Debug, PartialEq, Eq, Structural)]
pub enum SearchError {
    /// No legal route leads from the start to the goal.
    NoPath,
}

/// The cost that a search reported, if any.
pub open spec fn found(r: Result<u64, SearchError>) -> Option<int> {
    match r {
        Ok(c) => Some(c as int),
        Err(_) => None,
    }
}

/// A search for the cheapest route under a run-length rule.
#[derive(Clone, Copy, Debug)]
pub struct ConstrainedSearchEngine {
    min_run: u32,
    max_run: u32,
    allow_all_initial_directions: bool,
}

impl View for ConstrainedSearchEngine {
    type V = Rules;

    closed spec fn view(&self) -> Rules {
        Rules {
            min_run: self.min_run as int,
            max_run: self.max_run as int,
            all_initial: self.allow_all_initial_directions,
        }
    }
}

/// The unit step of heading `dir`, as the change of column and of row.
fn delta(dir: Direction) -> (d: (i64, i64))
    ensures
        d.0 == offset_x(dir, 1),
        d.1 == offset_y(dir, 1),
{
    match dir {
        Direction::North => (0, -1),
        Direction::South => (0, 1),
        Direction::East => (1, 0),
        Direction::West => (-1, 0),
        Direction::Start => (0, 0),
    }
}

/// Whether a run on heading `to` may follow arrival on heading `from`.
fn turn_allowed(from: Direction, to: Direction, all_initial: bool) -> (b: bool)
    ensures
        b == may_turn(from, to, all_initial),
{
    match from {
        Direction::North | Direction::South => match to {
            Direction::East | Direction::West => true,
            _ => false,
        },
        Direction::East | Direction::West => match to {
            Direction::North | Direction::South => true,
            _ => false,
        },
        Direction::Start => match to {
            Direction::East | Direction::South => true,
            Direction::North | Direction::West => all_initial,
            Direction::Start => false,
        },
    }
}

/// The heading with index `k`.
fn heading_at(k: u8) -> (d: Direction)
    requires
        k < 4,
    ensures
        heading_index(d) == k,
{
    if k == 0 {
        Direction::North
    } else if k == 1 {
        Direction::South
    } else if k == 2 {
        Direction::East
    } else {
        Direction::West
    }
}

/// The code of `state` in `grid`.
fn state_code(grid: &GridModel, state: SearchState) -> (k: u64)
    requires
        state.direction is Start || grid@.contains(state@.x, state@.y),
    ensures
        k == code(grid@.width, grid@.width * grid@.height, state@),
        k <= 4 * (grid@.width * grid@.height),
        grid@.width * grid@.height <= MAX_SIDE * MAX_SIDE,
{
    let w = grid.width() as u64;
    let h = grid.height() as u64;
    assert(w * h <= 65535 * 65535 && 0 <= w * h) by (nonlinear_arith)
        requires
            0 <= w <= 65535,
            0 <= h <= 65535,
    ;
    match state.direction {
        Direction::Start => 4 * (w * h),
        Direction::North => {
            proof {
                lemma_code_range(grid@, state@);
            }
            (state.position.y as u64 * w + state.position.x as u64) * 4
        },
        Direction::South => {
            proof {
                lemma_code_range(grid@, state@);
            }
            (state.position.y as u64 * w + state.position.x as u64) * 4 + 1
        },
        Direction::East => {
            proof {
                lemma_code_range(grid@, state@);
            }
            (state.position.y as u64 * w + state.position.x as u64) * 4 + 2
        },
        Direction::West => {
            proof {
                lemma_code_range(grid@, state@);
            }
            (state.position.y as u64 * w + state.position.x as u64) * 4 + 3
        },
    }
}

impl ConstrainedSearchEngine {
    #[verifier::type_invariant]
    spec fn inv(self) -> bool {
        1 <= self.min_run <= self.max_run
    }

    /// An engine whose runs have at least `min_run` and at most `max_run`
    /// cells, and whose first run heads east or south.
    pub fn new(min_run: u32, max_run: u32) -> (r: Result<ConstrainedSearchEngine, ConfigError>)
        ensures
            match r {
                Ok(engine) => {
                    &&& 1 <= min_run <= max_run
                    &&& engine@ == (Rules {
                        min_run: min_run as int,
                        max_run: max_run as int,
                        all_initial: false,
                    })
                },
                Err(ConfigError::ZeroMinRun) => min_run == 0,
                Err(ConfigError::MinRunAboveMax) => 0 < min_run && max_run < min_run,
            },
    {
        if min_run == 0 {
            Err(ConfigError::ZeroMinRun)
        } else if min_run > max_run {
            Err(ConfigError::MinRunAboveMax)
        } else {
            Ok(ConstrainedSearchEngine { min_run, max_run, allow_all_initial_directions: false })
        }
    }

    /// The same engine, but with the first run free to head in any of the
    /// four directions where `allow` is set, and east or south only where it
    /// is not.
    pub fn with_all_initial_directions(self, allow: bool) -> (engine: ConstrainedSearchEngine)
        ensures
            engine@ == (Rules { all_initial: allow, ..self@ }),
    {
        proof {
            use_type_invariant(&self);
        }
        ConstrainedSearchEngine {
            min_run: self.min_run,
            max_run: self.max_run,
            allow_all_initial_directions: allow,
        }
    }

    /// The least number of cells in a run.
    pub fn min_run(&self) -> (n: u32)
        ensures
            n == self@.min_run,
            self@.wf(),
    {
        proof {
            use_type_invariant(self);
        }
        self.min_run
    }

    /// The greatest number of cells in a run.
    pub fn max_run(&self) -> (n: u32)
        ensures
            n == self@.max_run,
            self@.wf(),
    {
        proof {
            use_type_invariant(self);
        }
        self.max_run
    }

    /// Whether the first run may head in any of the four directions.
    pub fn allow_all_initial_directions(&self) -> (b: bool)
        ensures
            b == self@.all_initial,
    {
        self.allow_all_initial_directions
    }

    /// Walks from `from` on heading `dir` until the longest run or the edge
    /// of the grid, and adds to the frontier the state at the end of each
    /// run that is long enough.
    fn walk(&self, grid: &GridModel, from: FrontierEntry, dir: Direction, frontier: &mut Frontier)
        requires
            !(dir is Start),
            may_turn(from.state@.dir, dir, self@.all_initial),
            from.cost + MAX_RUN_COST <= u64::MAX,
        ensures
            forall|x: FrontierEntry| #[trigger]
                old(frontier)@.contains(x) ==> final(frontier)@.contains(x),
            forall|x: FrontierEntry| #[trigger]
                final(frontier)@.contains(x) ==> old(frontier)@.contains(x) || born(
                    grid@,
                    self@,
                    from,
                    x,
                ),
            forall|m: Move|
                m.dir == dir && #[trigger] step_ok(grid@, self@, from.state@, m) ==> served(
                    grid@,
                    self@,
                    from,
                    m,
                    final(frontier)@,
                ),
    {
        proof {
            use_type_invariant(self);
        }
        let w = grid.width() as i64;
        let h = grid.height() as i64;
        let (dx, dy) = delta(dir);
        let ghost n = from.state@;
        let ghost g = grid@;
        let ghost rules = self@;
        let mut x: i64 = from.state.position.x as i64;
        let mut y: i64 = from.state.position.y as i64;
        let mut step: u32 = 0;
        let mut acc: u64 = from.cost;
        let mut blocked = false;
        while step < self.max_run && !blocked
            invariant
                g == grid@,
                g.wf(),
                rules == self@,
                rules.wf(),
                n == from.state@,
                w == g.width,
                h == g.height,
                dx == offset_x(dir, 1),
                dy == offset_y(dir, 1),
                !(dir is Start),
                may_turn(n.dir, dir, rules.all_initial),
                from.cost + MAX_RUN_COST <= u64::MAX,
                step <= self.max_run,
                step <= MAX_SIDE,
                x == n.x + offset_x(dir, step as int),
                y == n.y + offset_y(dir, step as int),
                run_in_grid(g, n, dir, step as int),
                acc == from.cost + run_cost(g, n, dir, step as int),
                acc <= from.cost + 9 * step,
                blocked ==> !g.contains(ahead(n, dir, step + 1).0, ahead(n, dir, step + 1).1),
                forall|e: FrontierEntry| #[trigger]
                    old(frontier)@.contains(e) ==> frontier@.contains(e),
                forall|e: FrontierEntry| #[trigger]
                    frontier@.contains(e) ==> old(frontier)@.contains(e) || born(g, rules, from, e),
                forall|m: Move|
                    m.dir == dir && m.len <= step && #[trigger] step_ok(g, rules, n, m) ==> served(
                        g,
                        rules,
                        from,
                        m,
                        frontier@,
                    ),
            decreases self.max_run - step + (if blocked { 0int } else { 1int }),
        {
            let nx = x + dx;
            let ny = y + dy;
            if nx < 0 || nx >= w || ny < 0 || ny >= h {
                blocked = true;
            } else {
                let here = Coordinate { x: nx as i32, y: ny as i32 };
                let cell = grid.cost(here);
                let ghost before = frontier@;
                let ghost len = step + 1;
                proof {
                    assert(ahead(n, dir, len) == (nx as int, ny as int));
                    assert forall|i: int| 1 <= i <= len implies g.contains(
                        (#[trigger] ahead(n, dir, i)).0,
                        ahead(n, dir, i).1,
                    ) by {
                        if i < len {
                            assert(run_in_grid(g, n, dir, step as int));
                        }
                    }
                    lemma_run_length(g, n, dir, len);
                    lemma_run_cost_bounds(g, n, dir, len);
                }
                step = step + 1;
                x = nx;
                y = ny;
                acc = acc + cell.unwrap() as u64;
                if step >= self.min_run {
                    let entry = FrontierEntry {
                        cost: acc,
                        state: SearchState { position: here, direction: dir },
                    };
                    frontier.push(entry);
                    proof {
                        let made = Move { dir: dir, len: len };
                        assert(is_successor(g, rules, from, made, entry));
                        assert(born(g, rules, from, entry));
                        assert(frontier@.contains(entry));
                        assert forall|e: FrontierEntry| #[trigger]
                            frontier@.contains(e) implies old(frontier)@.contains(e) || born(
                            g,
                            rules,
                            from,
                            e,
                        ) by {
                            if e != entry {
                                assert(before.contains(e));
                            }
                        }
                        assert forall|m: Move|
                            m.dir == dir && m.len <= step && #[trigger] step_ok(
                                g,
                                rules,
                                n,
                                m,
                            ) implies served(g, rules, from, m, frontier@) by {
                            if m.len == len {
                                assert(m == made);
                            } else {
                                assert(served(g, rules, from, m, before));
                                let e = choose|e: FrontierEntry| #[trigger]
                                    before.contains(e) && is_successor(g, rules, from, m, e);
                                assert(frontier@.contains(e));
                            }
                        }
                    }
                }
            }
        }
        proof {
            assert forall|m: Move| m.dir == dir && #[trigger] step_ok(g, rules, n, m) implies served(
                g,
                rules,
                from,
                m,
                frontier@,
            ) by {
                if m.len > step {
                    let c = ahead(n, dir, step + 1);
                    assert(g.contains(c.0, c.1));
                }
            }
        }
    }

    /// Adds to the frontier what every legal move makes of `from`.
    fn expand(&self, grid: &GridModel, from: FrontierEntry, frontier: &mut Frontier)
        requires
            from.cost + MAX_RUN_COST <= u64::MAX,
        ensures
            forall|x: FrontierEntry| #[trigger]
                old(frontier)@.contains(x) ==> final(frontier)@.contains(x),
            forall|x: FrontierEntry| #[trigger]
                final(frontier)@.contains(x) ==> old(frontier)@.contains(x) || born(
                    grid@,
                    self@,
                    from,
                    x,
                ),
            forall|m: Move| #[trigger]
                step_ok(grid@, self@, from.state@, m) ==> served(
                    grid@,
                    self@,
                    from,
                    m,
                    final(frontier)@,
                ),
    {
        let ghost g = grid@;
        let ghost rules = self@;
        let mut k: u8 = 0;
        while k < 4
            invariant
                k <= 4,
                g == grid@,
                rules == self@,
                from.cost + MAX_RUN_COST <= u64::MAX,
                forall|x: FrontierEntry| #[trigger]
                    old(frontier)@.contains(x) ==> frontier@.contains(x),
                forall|x: FrontierEntry| #[trigger]
                    frontier@.contains(x) ==> old(frontier)@.contains(x) || born(g, rules, from, x),
                forall|m: Move|
                    heading_index(m.dir) < k && #[trigger] step_ok(g, rules, from.state@, m)
                        ==> served(g, rules, from, m, frontier@),
            decreases 4 - k,
        {
            let dir = heading_at(k);
            let ghost before = frontier@;
            if turn_allowed(from.state.direction, dir, self.allow_all_initial_directions) {
                self.walk(grid, from, dir, frontier);
            }
            proof {
                assert forall|m: Move|
                    heading_index(m.dir) < k + 1 && #[trigger] step_ok(
                        g,
                        rules,
                        from.state@,
                        m,
                    ) implies served(g, rules, from, m, frontier@) by {
                    if heading_index(m.dir) < k {
                        assert(served(g, rules, from, m, before));
                        let x = choose|x: FrontierEntry| #[trigger]
                            before.contains(x) && is_successor(g, rules, from, m, x);
                        assert(frontier@.contains(x));
                    } else {
                        assert(m.dir == dir);
                    }
                }
            }
            k = k + 1;
        }
    }

    /// The search proper.
    fn search(&self, grid: &GridModel, start: Coordinate, goal: Coordinate) -> (r: Result<
        u64,
        SearchError,
    >)
        ensures
            grid@.wf(),
            match r {
                Ok(c) => is_least_cost(grid@, self@, start, goal, c as int),
                Err(_) => !reachable(grid@, self@, start, goal),
            },
    {
        proof {
            use_type_invariant(self);
        }
        let width = grid.width();
        let ghost g = grid@;
        let ghost rules = self@;
        let ghost s0 = origin(start);
        let ghost w = g.width;
        let ghost cells = g.width * g.height;
        let origin_state = SearchState { position: start, direction: Direction::Start };
        let first = FrontierEntry { cost: 0, state: origin_state };
        let mut frontier = Frontier::new();
        frontier.push(first);
        let mut visited: HashSet<u64> = HashSet::new();
        let ghost mut settled: Map<Node, int> = Map::empty();
        proof {
            let none = Seq::<Move>::empty();
            assert(route_legal(g, rules, s0, none) && route_end(s0, none) == s0 && route_cost(
                g,
                s0,
                none,
            ) == 0);
            assert(frontier@.contains(first));
            assert(covered(frontier@, s0, 0));
            assert forall|e: FrontierEntry| #[trigger] frontier@.contains(e) implies e == first by {
                broadcast use vstd::multiset::group_multiset_axioms;

                if e != first {
                    assert(frontier@.count(e) == 0);
                }
            }
            assert(0 <= cells <= MAX_SIDE * MAX_SIDE) by (nonlinear_arith)
                requires
                    cells == g.width * g.height,
                    0 <= g.width <= MAX_SIDE,
                    0 <= g.height <= MAX_SIDE,
            ;
        }
        loop
            invariant
                g == grid@,
                g.wf(),
                rules == self@,
                rules.wf(),
                s0 == origin(start),
                w == g.width,
                cells == g.width * g.height,
                0 <= cells <= MAX_SIDE * MAX_SIDE,
                search_inv(g, rules, s0, goal, settled, frontier@),
                visited@.finite(),
                forall|n: Node| #[trigger]
                    settled.contains_key(n) ==> visited@.contains(code(w, cells, n) as u64),
                forall|n: Node|
                    valid_node(g, s0, n) && visited@.contains(#[trigger] code(w, cells, n) as u64)
                        ==> settled.contains_key(n),
                forall|k: u64| #[trigger] visited@.contains(k) ==> k <= 4 * cells,
                forall|e: FrontierEntry| #[trigger]
                    frontier@.contains(e) ==> e.cost <= visited@.len() * MAX_RUN_COST,
            decreases 4 * cells + 1 - visited@.len(), frontier@.len(),
        {
            let ghost queue = frontier@;
            proof {
                lemma_bounded_len(visited@, 4 * cells + 1);
            }
            let popped = frontier.pop_min();
            match popped {
                None => {
                    proof {
                        lemma_exhausted(g, rules, start, goal, settled, queue);
                    }
                    return Err(SearchError::NoPath);
                },
                Some(entry) => {
                    proof {
                        lemma_remove_members(queue, entry);
                        assert forall|o: FrontierEntry| #[trigger] queue.contains(o) implies entry.cost
                            <= o.cost by {
                            assert(entry.precedes(o));
                        }
                    }
                    if entry.state.position == goal {
                        proof {
                            lemma_goal_popped(g, rules, start, goal, settled, queue, entry);
                        }
                        return Ok(entry.cost);
                    }
                    let ghost n = entry.state@;
                    assert(valid_node(g, s0, n));
                    let key = state_code(grid, entry.state);
                    if visited.contains(&key) {
                        proof {
                            assert(settled.contains_key(n));
                            lemma_discard(g, rules, s0, goal, settled, queue, entry);
                        }
                    } else {
                        let ghost seen = visited@;
                        visited.insert(key);
                        proof {
                            assert(!settled.contains_key(n));
                            assert(visited@.len() == seen.len() + 1);
                            lemma_bounded_len(visited@, 4 * cells + 1);
                        }
                        let ghost rest = frontier@;
                        self.expand(grid, entry, &mut frontier);
                        proof {
                            lemma_settle(g, rules, s0, goal, settled, queue, entry, frontier@);
                            assert forall|x: FrontierEntry| #[trigger]
                                frontier@.contains(x) implies x.cost <= visited@.len()
                                * MAX_RUN_COST by {
                                if !rest.contains(x) {
                                    let m = choose|m: Move| #[trigger]
                                        is_successor(g, rules, entry, m, x);
                                    lemma_successor_bounds(g, rules, entry, m, x);
                                }
                            }
                            assert forall|k: Node|
                                valid_node(g, s0, k) && visited@.contains(
                                    #[trigger] code(w, cells, k) as u64,
                                ) implies settled.insert(n, entry.cost as int).contains_key(k) by {
                                if !seen.contains(code(w, cells, k) as u64) {
                                    if !(k.dir is Start) {
                                        lemma_code_range(g, k);
                                    }
                                    lemma_code_injective(g, s0, k, n);
                                }
                            }
                            settled = settled.insert(n, entry.cost as int);
                        }
                    }
                },
            }
        }
    }

    /// The least cost of a legal route from `start` to `goal`: the sum of
    /// the costs of the cells that the route enters. `NoPath` where no legal
    /// route leads there.
    ///
    /// The mover sets out at `start`, which need not lie in the grid, and
    /// moves in straight runs of at least `min_run` and at most `max_run`
    /// cells, each within the grid and each a quarter turn from the one
    /// before. Where `start` is `goal`, the cost is 0.
    pub fn find_min_cost(&self, grid: &GridModel, start: Coordinate, goal: Coordinate) -> (r:
        Result<u64, SearchError>)
        ensures
            is_search_result(grid@, self@, start, goal, found(r)),
            start == goal ==> r == Ok::<u64, SearchError>(0),
    {
        let r = self.search(grid, start, goal);
        proof {
            if start == goal {
                lemma_search_from_goal(grid@, self@, start, found(r));
            }
        }
        r
    }
}

} // verus!
