//! Routes under a run-length rule: what a legal route is, what it costs, and
//! what follows from those definitions alone.
use crate::grid::{Coordinate, GridView};
use vstd::prelude::*;

verus! {

/// The heading on which a cell was entered. `Start` is the heading of the
/// origin alone, before any move.
#[derive(Clone, Copy, Debug, PartialEq, Eq, Structural, Hash)]
pub enum Direction {
    North,
    South,
    East,
    West,
    Start,
}

/// The unit of visitation: a position together with the heading of arrival.
#[derive(Clone, Copy, Debug, PartialEq, Eq, Structural, Hash)]
pub struct SearchState {
    pub position: Coordinate,
    pub direction: Direction,
}

/// A search state over unbounded integers.
pub struct Node {
    pub x: int,
    pub y: int,
    pub dir: Direction,
}

impl View for SearchState {
    type V = Node;

    open spec fn view(&self) -> Node {
        Node { x: self.position.x as int, y: self.position.y as int, dir: self.direction }
    }
}

/// One straight run: `len` cells on heading `dir`.
pub struct Move {
    pub dir: Direction,
    pub len: int,
}

/// The run-length rule: a run has at least `min_run` and at most `max_run`
/// cells. From the origin the first run heads east or south, or in any of the
/// four directions where `all_initial` is set.
pub struct Rules {
    pub min_run: int,
    pub max_run: int,
    pub all_initial: bool,
}

impl Rules {
    pub open spec fn wf(self) -> bool {
        1 <= self.min_run <= self.max_run
    }
}

/// The change of `x` after `n` cells on heading `dir`.
pub open spec fn offset_x(dir: Direction, n: int) -> int {
    match dir {
        Direction::East => n,
        Direction::West => -n,
        _ => 0,
    }
}

/// The change of `y` after `n` cells on heading `dir`. Rows grow southwards.
pub open spec fn offset_y(dir: Direction, n: int) -> int {
    match dir {
        Direction::South => n,
        Direction::North => -n,
        _ => 0,
    }
}

/// The cell `n` cells away from `from` on heading `dir`.
pub open spec fn ahead(from: Node, dir: Direction, n: int) -> (int, int) {
    (from.x + offset_x(dir, n), from.y + offset_y(dir, n))
}

/// The state reached from `from` by the move `m`.
pub open spec fn after(from: Node, m: Move) -> Node {
    Node { x: ahead(from, m.dir, m.len).0, y: ahead(from, m.dir, m.len).1, dir: m.dir }
}

/// Whether a run on heading `to` may follow arrival on heading `from`: only a
/// quarter turn, never straight on and never back.
pub open spec fn may_turn(from: Direction, to: Direction, all_initial: bool) -> bool {
    match from {
        Direction::North | Direction::South => to is East || to is West,
        Direction::East | Direction::West => to is North || to is South,
        Direction::Start => to is East || to is South || (all_initial && (to is North || to is West)),
    }
}

/// Every one of the first `len` cells from `from` on heading `dir` lies in the grid.
pub open spec fn run_in_grid(g: GridView, from: Node, dir: Direction, len: int) -> bool {
    forall|i: int|
        1 <= i <= len ==> g.contains((#[trigger] ahead(from, dir, i)).0, ahead(from, dir, i).1)
}

/// The summed cost of the first `len` cells from `from` on heading `dir`.
pub open spec fn run_cost(g: GridView, from: Node, dir: Direction, len: int) -> int
    decreases len,
{
    if len <= 0 {
        0
    } else {
        run_cost(g, from, dir, len - 1) + g.cost_at(ahead(from, dir, len).0, ahead(from, dir, len).1)
    }
}

/// Whether `m` is a legal move from `from`.
pub open spec fn step_ok(g: GridView, rules: Rules, from: Node, m: Move) -> bool {
    &&& may_turn(from.dir, m.dir, rules.all_initial)
    &&& rules.min_run <= m.len <= rules.max_run
    &&& run_in_grid(g, from, m.dir, m.len)
}

/// The state from which every route sets out at `start`.
pub open spec fn origin(start: Coordinate) -> Node {
    Node { x: start.x as int, y: start.y as int, dir: Direction::Start }
}

/// The state in which `route` ends, setting out from `start`.
pub open spec fn route_end(start: Node, route: Seq<Move>) -> Node
    decreases route.len(),
{
    if route.len() == 0 {
        start
    } else {
        after(route_end(start, route.drop_last()), route.last())
    }
}

/// Whether each move of `route` is legal where it is made.
pub open spec fn route_legal(g: GridView, rules: Rules, start: Node, route: Seq<Move>) -> bool
    decreases route.len(),
{
    if route.len() == 0 {
        true
    } else {
        &&& route_legal(g, rules, start, route.drop_last())
        &&& step_ok(g, rules, route_end(start, route.drop_last()), route.last())
    }
}

/// The summed cost of the cells that `route` enters. The cell it sets out
/// from is not counted.
pub open spec fn route_cost(g: GridView, start: Node, route: Seq<Move>) -> int
    decreases route.len(),
{
    if route.len() == 0 {
        0
    } else {
        route_cost(g, start, route.drop_last()) + run_cost(
            g,
            route_end(start, route.drop_last()),
            route.last().dir,
            route.last().len,
        )
    }
}

/// `route` is legal and ends on the cell `goal`, on whatever heading.
pub open spec fn reaches(
    g: GridView,
    rules: Rules,
    start: Coordinate,
    goal: Coordinate,
    route: Seq<Move>,
) -> bool {
    &&& route_legal(g, rules, origin(start), route)
    &&& route_end(origin(start), route).x == goal.x
    &&& route_end(origin(start), route).y == goal.y
}

/// Some legal route leads from `start` to `goal`.
pub open spec fn reachable(g: GridView, rules: Rules, start: Coordinate, goal: Coordinate) -> bool {
    exists|route: Seq<Move>| reaches(g, rules, start, goal, route)
}

/// `c` is the cost of a legal route from `start` to `goal`, and no such route
/// costs less.
pub open spec fn is_least_cost(
    g: GridView,
    rules: Rules,
    start: Coordinate,
    goal: Coordinate,
    c: int,
) -> bool {
    &&& exists|route: Seq<Move>| #[trigger]
        reaches(g, rules, start, goal, route) && route_cost(g, origin(start), route) == c
    &&& forall|route: Seq<Move>| #[trigger]
        reaches(g, rules, start, goal, route) ==> route_cost(g, origin(start), route) >= c
}

/// The distance between two cells along the grid's axes.
pub open spec fn manhattan(ax: int, ay: int, bx: int, by: int) -> int {
    (if ax <= bx { bx - ax } else { ax - bx }) + (if ay <= by { by - ay } else { ay - by })
}

/// A run within the grid costs at least 0 and at most 9 a cell.
pub proof fn lemma_run_cost_bounds(g: GridView, from: Node, dir: Direction, len: int)
    requires
        g.wf(),
        run_in_grid(g, from, dir, len),
    ensures
        0 <= run_cost(g, from, dir, len),
        len >= 0 ==> run_cost(g, from, dir, len) <= 9 * len,
    decreases len,
{
    if len > 0 {
        lemma_run_cost_bounds(g, from, dir, len - 1);
        let c = ahead(from, dir, len);
        assert(g.contains(c.0, c.1));
    }
}

/// A legal route costs at least 0.
pub proof fn lemma_route_cost_nonnegative(g: GridView, rules: Rules, start: Node, route: Seq<Move>)
    requires
        g.wf(),
        route_legal(g, rules, start, route),
    ensures
        0 <= route_cost(g, start, route),
    decreases route.len(),
{
    if route.len() > 0 {
        lemma_route_cost_nonnegative(g, rules, start, route.drop_last());
        lemma_run_cost_bounds(
            g,
            route_end(start, route.drop_last()),
            route.last().dir,
            route.last().len,
        );
    }
}

/// A run of `len` cells, none cheaper than `floor`, costs at least `floor * len`.
proof fn lemma_run_cost_floor(g: GridView, from: Node, dir: Direction, len: int, floor: int)
    requires
        len >= 0,
        run_in_grid(g, from, dir, len),
        forall|x: int, y: int| g.contains(x, y) ==> floor <= #[trigger] g.cost_at(x, y),
    ensures
        floor * len <= run_cost(g, from, dir, len),
    decreases len,
{
    if len > 0 {
        lemma_run_cost_floor(g, from, dir, len - 1, floor);
        let c = ahead(from, dir, len);
        assert(g.contains(c.0, c.1));
        assert(floor * (len - 1) + floor == floor * len) by (nonlinear_arith);
    } else {
        assert(floor * 0 == 0);
    }
}

/// A legal route costs at least the distance between its two ends times the
/// cost of the cheapest cell: where no cell of the grid costs less than
/// `floor`, no legal route costs less than `floor` times the Manhattan
/// distance from where it sets out to where it ends.
pub proof fn lemma_cost_at_least_distance(
    g: GridView,
    rules: Rules,
    start: Node,
    route: Seq<Move>,
    floor: int,
)
    requires
        g.wf(),
        rules.wf(),
        route_legal(g, rules, start, route),
        forall|x: int, y: int| g.contains(x, y) ==> floor <= #[trigger] g.cost_at(x, y),
    ensures
        floor * manhattan(
            start.x,
            start.y,
            route_end(start, route).x,
            route_end(start, route).y,
        ) <= route_cost(g, start, route),
    decreases route.len(),
{
    let end = route_end(start, route);
    let d = manhattan(start.x, start.y, end.x, end.y);
    lemma_route_cost_nonnegative(g, rules, start, route);
    if floor <= 0 {
        assert(floor * d <= 0) by (nonlinear_arith)
            requires
                floor <= 0,
                d >= 0,
        ;
    } else if route.len() == 0 {
        assert(floor * 0 == 0);
    } else {
        let head = route.drop_last();
        let m = route.last();
        let prev = route_end(start, head);
        let d0 = manhattan(start.x, start.y, prev.x, prev.y);
        lemma_cost_at_least_distance(g, rules, start, head, floor);
        lemma_run_cost_floor(g, prev, m.dir, m.len, floor);
        assert(d <= d0 + m.len);
        assert(floor * d <= floor * d0 + floor * m.len) by (nonlinear_arith)
            requires
                floor > 0,
                d <= d0 + m.len,
        ;
    }
}

/// Two grids of one size, no cell of the second cheaper than in the first.
pub open spec fn no_cheaper(g1: GridView, g2: GridView) -> bool {
    &&& g1.width == g2.width
    &&& g1.height == g2.height
    &&& forall|x: int, y: int| g1.contains(x, y) ==> g1.cost_at(x, y) <= #[trigger] g2.cost_at(x, y)
}

/// A run costs no less in a grid whose cells cost no less.
proof fn lemma_run_cost_monotone(g1: GridView, g2: GridView, from: Node, dir: Direction, len: int)
    requires
        no_cheaper(g1, g2),
        run_in_grid(g1, from, dir, len),
    ensures
        run_cost(g1, from, dir, len) <= run_cost(g2, from, dir, len),
    decreases len,
{
    if len > 0 {
        lemma_run_cost_monotone(g1, g2, from, dir, len - 1);
        let c = ahead(from, dir, len);
        assert(g1.contains(c.0, c.1));
    }
}

/// Whether a route is legal depends on the grid's size alone, and a legal
/// route costs no less in a grid whose cells cost no less.
pub proof fn lemma_route_monotone(
    g1: GridView,
    g2: GridView,
    rules: Rules,
    start: Node,
    route: Seq<Move>,
)
    requires
        no_cheaper(g1, g2),
    ensures
        route_legal(g1, rules, start, route) == route_legal(g2, rules, start, route),
        route_legal(g1, rules, start, route) ==> route_cost(g1, start, route) <= route_cost(
            g2,
            start,
            route,
        ),
    decreases route.len(),
{
    if route.len() > 0 {
        let head = route.drop_last();
        let m = route.last();
        let prev = route_end(start, head);
        lemma_route_monotone(g1, g2, rules, start, head);
        assert(run_in_grid(g1, prev, m.dir, m.len) == run_in_grid(g2, prev, m.dir, m.len)) by {
            if run_in_grid(g1, prev, m.dir, m.len) {
                assert forall|i: int| 1 <= i <= m.len implies g2.contains(
                    (#[trigger] ahead(prev, m.dir, i)).0,
                    ahead(prev, m.dir, i).1,
                ) by {
                    assert(g1.contains(ahead(prev, m.dir, i).0, ahead(prev, m.dir, i).1));
                }
            }
            if run_in_grid(g2, prev, m.dir, m.len) {
                assert forall|i: int| 1 <= i <= m.len implies g1.contains(
                    (#[trigger] ahead(prev, m.dir, i)).0,
                    ahead(prev, m.dir, i).1,
                ) by {
                    assert(g2.contains(ahead(prev, m.dir, i).0, ahead(prev, m.dir, i).1));
                }
            }
        }
        if route_legal(g1, rules, start, route) {
            lemma_run_cost_monotone(g1, g2, prev, m.dir, m.len);
        }
    }
}

/// What a search from `start` for `goal` has to return: the least cost of a
/// legal route where there is one, and `None` where there is none.
pub open spec fn is_search_result(
    g: GridView,
    rules: Rules,
    start: Coordinate,
    goal: Coordinate,
    found: Option<int>,
) -> bool {
    match found {
        Some(c) => is_least_cost(g, rules, start, goal, c),
        None => !reachable(g, rules, start, goal),
    }
}

/// Determinism: the grid, the rule, the start and the goal fix the result of
/// a search. Two results for the same inputs are equal.
pub proof fn lemma_search_result_unique(
    g: GridView,
    rules: Rules,
    start: Coordinate,
    goal: Coordinate,
    a: Option<int>,
    b: Option<int>,
)
    requires
        is_search_result(g, rules, start, goal, a),
        is_search_result(g, rules, start, goal, b),
    ensures
        a == b,
{
    if a is Some {
        let ra = choose|route: Seq<Move>| #[trigger]
            reaches(g, rules, start, goal, route) && route_cost(g, origin(start), route) == a->0;
        assert(reaches(g, rules, start, goal, ra));
    }
    if b is Some {
        let rb = choose|route: Seq<Move>| #[trigger]
            reaches(g, rules, start, goal, route) && route_cost(g, origin(start), route) == b->0;
        assert(reaches(g, rules, start, goal, rb));
    }
}

/// A search whose start is its goal finds the cost 0, whatever the rule.
pub proof fn lemma_search_from_goal(g: GridView, rules: Rules, start: Coordinate, found: Option<int>)
    requires
        g.wf(),
        is_search_result(g, rules, start, start, found),
    ensures
        found == Some(0int),
{
    let none = Seq::<Move>::empty();
    assert(reaches(g, rules, start, start, none));
    assert(route_cost(g, origin(start), none) == 0);
    if found is Some {
        let r = choose|route: Seq<Move>| #[trigger]
            reaches(g, rules, start, start, route) && route_cost(g, origin(start), route)
                == found->0;
        lemma_route_cost_nonnegative(g, rules, origin(start), r);
    }
}

/// No search result is lower than the Manhattan distance from start to goal
/// times the cost of the cheapest cell: where no cell of the grid costs less
/// than `floor`, a cost found is at least `floor` times that distance.
pub proof fn lemma_result_at_least_distance(
    g: GridView,
    rules: Rules,
    start: Coordinate,
    goal: Coordinate,
    found: Option<int>,
    floor: int,
)
    requires
        g.wf(),
        rules.wf(),
        is_search_result(g, rules, start, goal, found),
        forall|x: int, y: int| g.contains(x, y) ==> floor <= #[trigger] g.cost_at(x, y),
    ensures
        found matches Some(c) ==> c >= floor * manhattan(
            start.x as int,
            start.y as int,
            goal.x as int,
            goal.y as int,
        ),
{
    if found is Some {
        let r = choose|route: Seq<Move>| #[trigger]
            reaches(g, rules, start, goal, route) && route_cost(g, origin(start), route)
                == found->0;
        lemma_cost_at_least_distance(g, rules, origin(start), r, floor);
    }
}

/// Monotonicity: raising the cost of cells never lowers the result. In two
/// grids of one size, the second with no cell cheaper than the first, a goal
/// is reachable in both or in neither, and the least cost in the second is
/// no lower than in the first.
pub proof fn lemma_result_monotone(
    g1: GridView,
    g2: GridView,
    rules: Rules,
    start: Coordinate,
    goal: Coordinate,
    found1: Option<int>,
    found2: Option<int>,
)
    requires
        no_cheaper(g1, g2),
        is_search_result(g1, rules, start, goal, found1),
        is_search_result(g2, rules, start, goal, found2),
    ensures
        found1 is Some <==> found2 is Some,
        found1 is Some ==> found1->0 <= found2->0,
{
    let s0 = origin(start);
    if found1 is Some {
        let r1 = choose|route: Seq<Move>| #[trigger]
            reaches(g1, rules, start, goal, route) && route_cost(g1, s0, route) == found1->0;
        lemma_route_monotone(g1, g2, rules, s0, r1);
        assert(reaches(g2, rules, start, goal, r1));
    }
    if found2 is Some {
        let r2 = choose|route: Seq<Move>| #[trigger]
            reaches(g2, rules, start, goal, route) && route_cost(g2, s0, route) == found2->0;
        lemma_route_monotone(g1, g2, rules, s0, r2);
        assert(reaches(g1, rules, start, goal, r2));
    }
}

} // verus!
