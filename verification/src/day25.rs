//! The wiring of components: ways from one component to another, and the
//! groups that the wiring falls into when wires are cut.
use crate::text::{
    chars_of, copy_range, find_name, first_match, lines, lines_of, number, number_of, place, split,
    split_at_text,
    split_on, split_on_text, views,
};
use crate::flags::{lemma_unset_after, lemma_unset_blank, lemma_unset_nonnegative, unset};
use vstd::prelude::*;

verus! {

/// The wiring: for each component, by number, the components it is wired to.
pub type Graph = Vec<Vec<u16>>;

/// The lists of the wiring.
pub open spec fn wires(graph: Seq<Vec<u16>>) -> Seq<Seq<u16>> {
    Seq::new(graph.len(), |i: int| graph[i]@)
}

/// Every component wired to is a component of the wiring.
pub open spec fn closed(g: Seq<Seq<u16>>) -> bool {
    forall|a: int, k: int| 0 <= a < g.len() && 0 <= k < g[a].len() ==> (#[trigger] g[a][k]) < g.len()
}

/// Whether a wire leads from `a` to `b`.
pub open spec fn wired(g: Seq<Seq<u16>>, a: int, b: int) -> bool {
    0 <= a < g.len() && exists|k: int| 0 <= k < g[a].len() && #[trigger] g[a][k] == b
}

/// `path` leads along wires, and every component of it is one of the wiring.
pub open spec fn is_walk(g: Seq<Seq<u16>>, path: Seq<u16>) -> bool {
    &&& path.len() > 0
    &&& forall|i: int| 0 <= i < path.len() ==> (#[trigger] path[i]) < g.len()
    &&& forall|i: int| 0 <= i < path.len() - 1 ==> wired(g, #[trigger] path[i] as int, path[i + 1] as int)
}

/// Whether wires lead from `a` to `b`.
pub open spec fn connected(g: Seq<Seq<u16>>, a: u16, b: u16) -> bool {
    exists|path: Seq<u16>| #[trigger] is_walk(g, path) && path[0] == a && path.last() == b
}

/// A walk can be followed one wire further.
proof fn lemma_walk_on(g: Seq<Seq<u16>>, a: u16, b: u16, c: u16)
    requires
        connected(g, a, b),
        wired(g, b as int, c as int),
        c < g.len(),
    ensures
        connected(g, a, c),
{
    let path = choose|path: Seq<u16>| #[trigger] is_walk(g, path) && path[0] == a && path.last() == b;
    let longer = path.push(c);
    assert forall|i: int| 0 <= i < longer.len() implies (#[trigger] longer[i]) < g.len() by {
        if i < path.len() {
            assert(longer[i] == path[i]);
        }
    }
    assert forall|i: int| 0 <= i < longer.len() - 1 implies wired(
        g,
        #[trigger] longer[i] as int,
        longer[i + 1] as int,
    ) by {
        assert(longer[i] == path[i]);
        if i < path.len() - 1 {
            assert(longer[i + 1] == path[i + 1]);
        }
    }
    assert(is_walk(g, longer) && longer[0] == a && longer.last() == c);
}

/// A component is connected to itself.
proof fn lemma_walk_start(g: Seq<Seq<u16>>, a: u16)
    requires
        a < g.len(),
    ensures
        connected(g, a, a),
{
    let path = seq![a];
    assert(is_walk(g, path) && path[0] == a && path.last() == a);
}

/// What holds while the wiring is searched from `start`: what has been seen
/// is connected to `start`; what waits is connected to it too; `start` has
/// been seen or waits; and whatever a wire leads to from a component seen
/// and looked at has been seen or waits.
#[verifier::opaque]
spec fn search_inv(
    g: Seq<Seq<u16>>,
    start: u16,
    seen: Seq<bool>,
    looked: Seq<bool>,
    waiting: Seq<u16>,
) -> bool {
    &&& seen.len() == g.len()
    &&& looked.len() == g.len()
    &&& forall|v: int| 0 <= v < g.len() && #[trigger] seen[v] ==> connected(g, start, v as u16)
    &&& forall|v: int| 0 <= v < g.len() && #[trigger] looked[v] ==> seen[v]
    &&& forall|i: int|
        0 <= i < waiting.len() ==> (#[trigger] waiting[i]) < g.len() && connected(g, start, waiting[i])
    &&& seen[start as int] || waiting.contains(start)
    &&& forall|v: int, k: int|
        0 <= v < g.len() && looked[v] && 0 <= k < g[v].len() ==> seen[(#[trigger] g[v][k]) as int]
            || waiting.contains(g[v][k])
}

/// Once nothing waits and all that was seen has been looked at, whatever is
/// connected to `start` has been seen.
proof fn lemma_all_seen(
    g: Seq<Seq<u16>>,
    start: u16,
    seen: Seq<bool>,
    looked: Seq<bool>,
    path: Seq<u16>,
)
    requires
        search_inv(g, start, seen, looked, Seq::empty()),
        forall|v: int| 0 <= v < g.len() && #[trigger] seen[v] ==> looked[v],
        is_walk(g, path),
        path[0] == start,
    ensures
        seen[path.last() as int],
    decreases path.len(),
{
    reveal(search_inv);
    if path.len() > 1 {
        let head = path.drop_last();
        assert(is_walk(g, head)) by {
            assert forall|i: int| 0 <= i < head.len() implies (#[trigger] head[i]) < g.len() by {
                assert(head[i] == path[i]);
            }
            assert forall|i: int| 0 <= i < head.len() - 1 implies wired(
                g,
                #[trigger] head[i] as int,
                head[i + 1] as int,
            ) by {
                assert(head[i] == path[i]);
                assert(head[i + 1] == path[i + 1]);
            }
        }
        lemma_all_seen(g, start, seen, looked, head);
        let n = path.len() - 2;
        let b = head.last();
        assert(b == path[n]);
        assert(wired(g, path[n] as int, path[n + 1] as int));
        let k = choose|k: int| 0 <= k < g[b as int].len() && #[trigger] g[b as int][k] == path[n + 1];
        assert(looked[b as int]);
        assert(seen[g[b as int][k] as int] || Seq::<u16>::empty().contains(g[b as int][k]));
    }
}

/// What a search of the wiring found: for each component whether wires lead
/// to it from the start, and for each such component but the start a
/// component before it on a way from the start.
pub struct Found {
    pub seen: Vec<bool>,
    pub has_parent: Vec<bool>,
    pub parent: Vec<u16>,
    pub order: Ghost<Seq<nat>>,
}

/// The ways recorded lead back to `start` along wires: `start` has no
/// component before it; the component before another has been seen, a wire
/// leads from it to the other, and it was seen earlier; and every component
/// seen but `start` has a component before it.
pub open spec fn tidy(
    g: Seq<Seq<u16>>,
    start: u16,
    seen: Seq<bool>,
    has_parent: Seq<bool>,
    parent: Seq<u16>,
    order: Seq<nat>,
) -> bool {
    &&& seen.len() == g.len()
    &&& has_parent.len() == g.len()
    &&& parent.len() == g.len()
    &&& order.len() == g.len()
    &&& !has_parent[start as int]
    &&& forall|v: int|
        0 <= v < g.len() && #[trigger] has_parent[v] ==> parent[v] < g.len() && seen[parent[v] as int]
            && wired(g, parent[v] as int, v) && (seen[v] ==> order[parent[v] as int] < order[v])
    &&& forall|v: int| 0 <= v < g.len() && #[trigger] seen[v] && v != start ==> has_parent[v]
}

/// The ways that `found` records lead back to `start` along wires.
pub open spec fn records_ways(g: Seq<Seq<u16>>, start: u16, found: Found) -> bool {
    tidy(g, start, found.seen@, found.has_parent@, found.parent@, found.order@)
}

/// `search_inv` survives dropping the first waiting component where it has
/// been seen.
proof fn lemma_skip(
    g: Seq<Seq<u16>>,
    start: u16,
    seen: Seq<bool>,
    looked: Seq<bool>,
    waiting: Seq<u16>,
)
    requires
        waiting.len() > 0,
        search_inv(g, start, seen, looked, waiting),
        seen[waiting[0] as int],
    ensures
        search_inv(g, start, seen, looked, waiting.drop_first()),
{
    reveal(search_inv);
    let rest = waiting.drop_first();
    let node = waiting[0];
    assert forall|q: u16| waiting.contains(q) && q != node implies rest.contains(q) by {
        let a = choose|a: int| 0 <= a < waiting.len() && waiting[a] == q;
        assert(rest[a - 1] == q);
    }
    assert forall|i: int| 0 <= i < rest.len() implies (#[trigger] rest[i]) < g.len() && connected(
        g,
        start,
        rest[i],
    ) by {
        assert(rest[i] == waiting[i + 1]);
    }
    assert forall|a: int, k: int|
        0 <= a < g.len() && looked[a] && 0 <= k < g[a].len() implies seen[(#[trigger] g[a][k]) as int]
        || rest.contains(g[a][k]) by {
        if !seen[g[a][k] as int] {
            assert(waiting.contains(g[a][k]));
        }
    }
}

/// `search_inv` survives seeing and looking at the first waiting component,
/// once every component that one of its wires leads to has been seen or waits.
proof fn lemma_looked(
    g: Seq<Seq<u16>>,
    start: u16,
    seen: Seq<bool>,
    looked: Seq<bool>,
    waiting: Seq<u16>,
    grown: Seq<u16>,
)
    requires
        closed(g),
        waiting.len() > 0,
        search_inv(g, start, seen, looked, waiting),
        !seen[waiting[0] as int],
        forall|q: u16| waiting.contains(q) && q != waiting[0] ==> grown.contains(q),
        forall|i: int|
            0 <= i < grown.len() ==> (#[trigger] grown[i]) < g.len() && connected(g, start, grown[i]),
        forall|k: int|
            0 <= k < g[waiting[0] as int].len() ==> seen.update(waiting[0] as int, true)[(
            #[trigger] g[waiting[0] as int][k]) as int] || grown.contains(g[waiting[0] as int][k]),
    ensures
        search_inv(
            g,
            start,
            seen.update(waiting[0] as int, true),
            looked.update(waiting[0] as int, true),
            grown,
        ),
{
    reveal(search_inv);
    let node = waiting[0];
    let seen2 = seen.update(node as int, true);
    let looked2 = looked.update(node as int, true);
    assert(waiting[0] < g.len() && connected(g, start, waiting[0]));
    assert forall|v: int| 0 <= v < g.len() && #[trigger] seen2[v] implies connected(
        g,
        start,
        v as u16,
    ) by {
        if v != node {
            assert(seen[v]);
        }
    }
    assert forall|v: int| 0 <= v < g.len() && #[trigger] looked2[v] implies seen2[v] by {
        if v != node {
            assert(looked[v]);
        }
    }
    if !seen2[start as int] {
        assert(waiting.contains(start));
    }
    assert forall|v: int, k: int|
        0 <= v < g.len() && looked2[v] && 0 <= k < g[v].len() implies seen2[(#[trigger] g[v][k]) as int]
        || grown.contains(g[v][k]) by {
        let x = g[v][k];
        assert(x < g.len());
        if v != node {
            assert(looked[v]);
            if x == node {
                assert(seen2[x as int]);
            } else if !seen[x as int] {
                assert(waiting.contains(x));
                assert(grown.contains(x));
            } else {
                assert(seen2[x as int]);
            }
        } else {
            assert(g[waiting[0] as int][k] == x);
        }
    }
}

/// What has been seen is connected to `start`.
proof fn lemma_seen_connected(
    g: Seq<Seq<u16>>,
    start: u16,
    seen: Seq<bool>,
    looked: Seq<bool>,
    waiting: Seq<u16>,
)
    requires
        search_inv(g, start, seen, looked, waiting),
    ensures
        seen.len() == g.len(),
        forall|v: int| 0 <= v < g.len() && #[trigger] seen[v] ==> connected(g, start, v as u16),
{
    reveal(search_inv);
}

/// The search begins with the start waiting and nothing seen.
proof fn lemma_search_begins(g: Seq<Seq<u16>>, start: u16, seen: Seq<bool>)
    requires
        start < g.len(),
        seen.len() == g.len(),
        forall|v: int| 0 <= v < g.len() ==> !seen[v],
    ensures
        search_inv(g, start, seen, seen, seq![start]),
{
    reveal(search_inv);
    lemma_walk_start(g, start);
    assert(seq![start][0] == start);
}

/// The ways recorded stay in order when a component is seen that has not
/// been, and that is the start or has a component before it.
proof fn lemma_tidy_seen(
    g: Seq<Seq<u16>>,
    start: u16,
    seen: Seq<bool>,
    has_parent: Seq<bool>,
    parent: Seq<u16>,
    order: Seq<nat>,
    node: int,
    clock: nat,
)
    requires
        tidy(g, start, seen, has_parent, parent, order),
        0 <= node < g.len(),
        !seen[node],
        node == start || has_parent[node],
        forall|a: int| 0 <= a < g.len() && #[trigger] seen[a] ==> 1 <= order[a] < clock,
        1 <= clock,
    ensures
        tidy(g, start, seen.update(node, true), has_parent, parent, order.update(node, clock)),
        forall|a: int|
            0 <= a < g.len() && #[trigger] seen.update(node, true)[a] ==> 1 <= order.update(
                node,
                clock,
            )[a] < clock + 1,
{
    let seen2 = seen.update(node, true);
    let order2 = order.update(node, clock);
    assert forall|v: int| 0 <= v < g.len() && #[trigger] has_parent[v] implies parent[v] < g.len()
        && seen2[parent[v] as int] && wired(g, parent[v] as int, v) && (seen2[v] ==> order2[parent[v] as int]
        < order2[v]) by {
        let p = parent[v] as int;
        assert(seen[p]);
        assert(p != node);
        if v != node {
            if seen2[v] {
                assert(seen[v]);
            }
        }
    }
    assert forall|v: int| 0 <= v < g.len() && #[trigger] seen2[v] && v != start implies has_parent[v] by {
        if v != node {
            assert(seen[v]);
        }
    }
}

/// What waits in a search and what it has recorded of ways.
pub struct Trail {
    pub has_parent: Seq<bool>,
    pub parent: Seq<u16>,
    pub queue: Seq<u16>,
}

/// What a search has found: the components seen, and for each whether a
/// component before it is recorded, and which.
pub struct Ways {
    pub seen: Seq<bool>,
    pub has_parent: Seq<bool>,
    pub parent: Seq<u16>,
}

/// The trail after component `node` has offered its neighbour `next`:
/// unless `next` has been seen, `node` is recorded as the component before
/// it, and it waits behind the others.
pub open spec fn offered(seen: Seq<bool>, t: Trail, node: u16, next: u16) -> Trail {
    if next < seen.len() && !seen[next as int] {
        Trail {
            has_parent: t.has_parent.update(next as int, true),
            parent: t.parent.update(next as int, node),
            queue: t.queue.push(next),
        }
    } else {
        t
    }
}

/// The trail after `node` has offered each of `list`, from the first on.
pub open spec fn expanded(seen: Seq<bool>, t: Trail, node: u16, list: Seq<u16>) -> Trail
    decreases list.len(),
{
    if list.len() == 0 {
        t
    } else {
        offered(seen, expanded(seen, t, node, list.drop_last()), node, list.last())
    }
}

/// What a breadth-first search finds that goes on from the components seen
/// and those that wait: the first that waits is taken; if it has been seen
/// it is dropped, else it is seen and offers its neighbours.
#[verifier::opaque]
pub open spec fn searched(
    g: Seq<Seq<u16>>,
    seen: Seq<bool>,
    has_parent: Seq<bool>,
    parent: Seq<u16>,
    queue: Seq<u16>,
) -> Ways
    decreases unset(seen, seen.len() as int), queue.len(),
{
    if queue.len() == 0 {
        Ways { seen, has_parent, parent }
    } else {
        let node = queue[0];
        if node >= seen.len() || node >= g.len() || seen[node as int] {
            searched(g, seen, has_parent, parent, queue.drop_first())
        } else {
            let marked = seen.update(node as int, true);
            let t = expanded(
                marked,
                (Trail { has_parent, parent, queue: queue.drop_first() }),
                node,
                g[node as int],
            );
            proof {
                lemma_unset_after(seen, node as int, seen.len() as int);
                lemma_unset_nonnegative(marked, marked.len() as int);
            }
            searched(g, marked, t.has_parent, t.parent, t.queue)
        }
    }
}

/// What a breadth-first search from `start` finds.
pub open spec fn search_of(g: Seq<Seq<u16>>, start: u16) -> Ways {
    searched(
        g,
        Seq::new(g.len(), |i: int| false),
        Seq::new(g.len(), |i: int| false),
        Seq::new(g.len(), |i: int| 0u16),
        seq![start],
    )
}

/// The way back from `node` to `start` over the components recorded,
/// written from `start` on; nothing where a component has none before it
/// or the way takes more than `fuel` steps.
#[verifier::opaque]
pub open spec fn traced(w: Ways, start: u16, node: u16, fuel: nat) -> Option<Seq<u16>>
    decreases fuel,
{
    if node == start {
        Some(seq![start])
    } else if fuel == 0 || node >= w.has_parent.len() || !w.has_parent[node as int] {
        None
    } else {
        match traced(w, start, w.parent[node as int], (fuel - 1) as nat) {
            Some(path) => Some(path.push(node)),
            None => None,
        }
    }
}

/// The way from `start` to `end` that a breadth-first search finds,
/// where there is one.
pub open spec fn way(g: Seq<Seq<u16>>, start: u16, end: u16) -> Option<Seq<u16>> {
    if end >= g.len() || !search_of(g, start).seen[end as int] {
        None
    } else {
        traced(search_of(g, start), start, end, g.len())
    }
}

/// A search with nothing waiting has found what it holds.
proof fn lemma_searched_done(g: Seq<Seq<u16>>, seen: Seq<bool>, has_parent: Seq<bool>, parent: Seq<u16>)
    ensures
        searched(g, seen, has_parent, parent, Seq::empty()) == (Ways { seen, has_parent, parent }),
{
    reveal(searched);
}

/// A search drops the first that waits where it has been seen.
proof fn lemma_searched_skip(
    g: Seq<Seq<u16>>,
    seen: Seq<bool>,
    has_parent: Seq<bool>,
    parent: Seq<u16>,
    queue: Seq<u16>,
)
    requires
        queue.len() > 0,
        queue[0] < seen.len(),
        seen[queue[0] as int],
    ensures
        searched(g, seen, has_parent, parent, queue) == searched(
            g,
            seen,
            has_parent,
            parent,
            queue.drop_first(),
        ),
{
    reveal(searched);
}

/// A search sees the first that waits where it has not been seen, and
/// lets it offer its neighbours.
proof fn lemma_searched_look(
    g: Seq<Seq<u16>>,
    seen: Seq<bool>,
    has_parent: Seq<bool>,
    parent: Seq<u16>,
    queue: Seq<u16>,
    t: Trail,
)
    requires
        queue.len() > 0,
        queue[0] < seen.len(),
        queue[0] < g.len(),
        !seen[queue[0] as int],
        t == expanded(
            seen.update(queue[0] as int, true),
            (Trail { has_parent, parent, queue: queue.drop_first() }),
            queue[0],
            g[queue[0] as int],
        ),
    ensures
        searched(g, seen, has_parent, parent, queue) == searched(
            g,
            seen.update(queue[0] as int, true),
            t.has_parent,
            t.parent,
            t.queue,
        ),
{
    reveal(searched);
}

/// The way back from the start is the start alone.
proof fn lemma_traced_start(w: Ways, start: u16, fuel: nat)
    ensures
        traced(w, start, start, fuel) == Some(seq![start]),
{
    reveal(traced);
}

/// The way back from a component goes on from the component before it.
proof fn lemma_traced_step(w: Ways, start: u16, node: u16, fuel: nat)
    requires
        node != start,
        fuel > 0,
        node < w.has_parent.len(),
        w.has_parent[node as int],
    ensures
        traced(w, start, node, fuel) == match traced(w, start, w.parent[node as int], (fuel - 1) as nat) {
            Some(path) => Some(path.push(node)),
            None => None,
        },
{
    reveal(traced);
}

/// What `found` holds, as plain values.
pub open spec fn ways_of(found: Found) -> Ways {
    Ways { seen: found.seen@, has_parent: found.has_parent@, parent: found.parent@ }
}

/// `back` read from its end.
pub open spec fn turned(back: Seq<u16>) -> Seq<u16> {
    Seq::new(back.len(), |i: int| back[back.len() - 1 - i])
}

/// Lets every component wait that a wire leads to from `node` and that has
/// not been seen, and records `node` as the component before it.
fn expand(
    graph: &Graph,
    start: u16,
    node: u16,
    seen: &Vec<bool>,
    has_parent: &mut Vec<bool>,
    parent: &mut Vec<u16>,
    queue: &mut Vec<u16>,
    head: usize,
    Ghost(order): Ghost<Seq<nat>>,
)
    requires
        closed(wires(graph@)),
        node < graph@.len(),
        start < graph@.len(),
        graph@.len() <= 65536,
        seen@.len() == graph@.len(),
        seen@[node as int],
        seen@[start as int],
        connected(wires(graph@), start, node),
        head <= old(queue)@.len(),
        tidy(wires(graph@), start, seen@, old(has_parent)@, old(parent)@, order),
        forall|i: int|
            head <= i < old(queue)@.len() ==> (#[trigger] old(queue)@[i]) < graph@.len() && (old(
                queue,
            )@[i] == start || old(has_parent)@[old(queue)@[i] as int]) && connected(
                wires(graph@),
                start,
                old(queue)@[i],
            ),
    ensures
        tidy(wires(graph@), start, seen@, final(has_parent)@, final(parent)@, order),
        final(queue)@.len() >= old(queue)@.len(),
        forall|i: int| 0 <= i < old(queue)@.len() ==> final(queue)@[i] == old(queue)@[i],
        forall|i: int|
            head <= i < final(queue)@.len() ==> (#[trigger] final(queue)@[i]) < graph@.len() && (
            final(queue)@[i] == start || final(has_parent)@[final(queue)@[i] as int]) && connected(
                wires(graph@),
                start,
                final(queue)@[i],
            ),
        forall|k: int|
            0 <= k < graph@[node as int]@.len() ==> seen@[(#[trigger] graph@[node as int]@[k]) as int]
                || final(queue)@.subrange(head as int, final(queue)@.len() as int).contains(
                graph@[node as int]@[k],
            ),
        (Trail {
            has_parent: final(has_parent)@,
            parent: final(parent)@,
            queue: final(queue)@.subrange(head as int, final(queue)@.len() as int),
        }) == expanded(
            seen@,
            (Trail {
                has_parent: old(has_parent)@,
                parent: old(parent)@,
                queue: old(queue)@.subrange(head as int, old(queue)@.len() as int),
            }),
            node,
            graph@[node as int]@,
        ),
{
    let ghost g = wires(graph@);
    let n = graph.len();
    let list = &graph[node as usize];
    assert(g[node as int] == list@);
    let ghost t0 = Trail {
        has_parent: has_parent@,
        parent: parent@,
        queue: queue@.subrange(head as int, queue@.len() as int),
    };
    assert(list@.take(0) =~= Seq::<u16>::empty());
    let mut k: usize = 0;
    while k < list.len()
        invariant
            k <= list@.len(),
            n == graph@.len(),
            n <= 65536,
            g == wires(graph@),
            closed(g),
            node < n,
            start < n,
            seen@[node as int],
            seen@[start as int],
            connected(g, start, node),
            list@ == g[node as int],
            head <= old(queue)@.len() <= queue@.len(),
            tidy(g, start, seen@, has_parent@, parent@, order),
            forall|i: int| 0 <= i < old(queue)@.len() ==> queue@[i] == old(queue)@[i],
            forall|i: int|
                head <= i < queue@.len() ==> (#[trigger] queue@[i]) < n && (queue@[i] == start
                    || has_parent@[queue@[i] as int]) && connected(g, start, queue@[i]),
            forall|a: int|
                0 <= a < k ==> seen@[(#[trigger] list@[a]) as int] || queue@.subrange(
                    head as int,
                    queue@.len() as int,
                ).contains(list@[a]),
            seen@.len() == n,
            list@ == graph@[node as int]@,
            t0 == (Trail {
                has_parent: old(has_parent)@,
                parent: old(parent)@,
                queue: old(queue)@.subrange(head as int, old(queue)@.len() as int),
            }),
            (Trail {
                has_parent: has_parent@,
                parent: parent@,
                queue: queue@.subrange(head as int, queue@.len() as int),
            }) == expanded(seen@, t0, node, list@.take(k as int)),
        decreases list@.len() - k,
    {
        assert(list@.take(k + 1).drop_last() =~= list@.take(k as int));
        assert(list@.take(k + 1).last() == list@[k as int]);
        let neighbour = list[k];
        assert(g[node as int][k as int] == neighbour);
        assert(neighbour < n);
        let ghost q0 = queue@;
        let ghost old_has = has_parent@;
        let ghost old_parent = parent@;
        if !seen[neighbour as usize] {
            parent[neighbour as usize] = node;
            has_parent[neighbour as usize] = true;
            queue.push(neighbour);
            proof {
                assert(queue@.subrange(head as int, queue@.len() as int) =~= q0.subrange(
                    head as int,
                    q0.len() as int,
                ).push(neighbour));
                assert(wired(g, node as int, neighbour as int));
                lemma_walk_on(g, start, node, neighbour);
                assert forall|a: int| 0 <= a < n && #[trigger] has_parent@[a] implies parent@[a] < n
                    && seen@[parent@[a] as int] && wired(g, parent@[a] as int, a) && (seen@[a]
                    ==> order[parent@[a] as int] < order[a]) by {
                    if a != neighbour {
                        assert(old_has[a]);
                        assert(parent@[a] == old_parent[a]);
                    }
                }
                assert forall|i: int| head <= i < queue@.len() implies (#[trigger] queue@[i]) < n
                    && (queue@[i] == start || has_parent@[queue@[i] as int]) && connected(
                    g,
                    start,
                    queue@[i],
                ) by {
                    if i < q0.len() {
                        assert(queue@[i] == q0[i]);
                        if q0[i] != start {
                            assert(old_has[q0[i] as int]);
                        }
                    }
                }
            }
        }
        proof {
            let now = queue@.subrange(head as int, queue@.len() as int);
            let was = q0.subrange(head as int, q0.len() as int);
            assert forall|a: int| 0 <= a < k + 1 implies seen@[(#[trigger] list@[a]) as int]
                || now.contains(list@[a]) by {
                if a < k {
                    if !seen@[list@[a] as int] {
                        let j = choose|j: int| 0 <= j < was.len() && was[j] == list@[a];
                        assert(now[j] == list@[a]);
                    }
                } else if !seen@[neighbour as int] {
                    assert(now[now.len() - 1] == neighbour);
                }
            }
        }
        k += 1;
    }
    assert(list@.take(k as int) =~= list@);
}

/// Searches the wiring from `start`, breadth first.
pub fn search(graph: &Graph, start: u16) -> (found: Found)
    requires
        closed(wires(graph@)),
        start < graph@.len(),
        graph@.len() <= 65536,
    ensures
        records_ways(wires(graph@), start, found),
        forall|v: int|
            0 <= v < graph@.len() ==> (#[trigger] found.seen@[v] <==> connected(
                wires(graph@),
                start,
                v as u16,
            )),
        ways_of(found) == search_of(wires(graph@), start),
        forall|v: int|
            0 <= v < graph@.len() && #[trigger] found.seen@[v] ==> 1 <= found.order@[v] <= graph@.len(),
{
    let ghost g = wires(graph@);
    let n = graph.len();
    let mut seen: Vec<bool> = Vec::new();
    let mut has_parent: Vec<bool> = Vec::new();
    let mut parent: Vec<u16> = Vec::new();
    let ghost mut order: Seq<nat> = Seq::empty();
    let mut v: usize = 0;
    while v < n
        invariant
            v <= n,
            seen@.len() == v,
            has_parent@.len() == v,
            parent@.len() == v,
            order.len() == v,
            forall|a: int| 0 <= a < v ==> !seen@[a] && !has_parent@[a] && parent@[a] == 0,
        decreases n - v,
    {
        seen.push(false);
        has_parent.push(false);
        parent.push(0);
        proof {
            order = order.push(0);
        }
        v += 1;
    }
    let mut queue: Vec<u16> = Vec::new();
    queue.push(start);
    let mut head: usize = 0;
    let ghost mut looked: Seq<bool> = seen@;
    let ghost mut clock: nat = 1;
    proof {
        lemma_walk_start(g, start);
        assert(queue@.subrange(0, 1) =~= seq![start]);
        lemma_search_begins(g, start, seen@);
        lemma_unset_nonnegative(seen@, n as int);
        lemma_unset_blank(seen@, n as int);
        assert(seen@ =~= Seq::new(g.len(), |i: int| false));
        assert(has_parent@ =~= Seq::new(g.len(), |i: int| false));
        assert(parent@ =~= Seq::new(g.len(), |i: int| 0u16));
    }
    while head < queue.len()
        invariant
            n == graph@.len(),
            n <= 65536,
            g == wires(graph@),
            closed(g),
            start < n,
            head <= queue@.len(),
            looked == seen@,
            search_inv(g, start, seen@, looked, queue@.subrange(head as int, queue@.len() as int)),
            tidy(g, start, seen@, has_parent@, parent@, order),
            forall|a: int| 0 <= a < n && #[trigger] seen@[a] ==> 1 <= order[a] < clock,
            forall|i: int|
                head <= i < queue@.len() ==> (#[trigger] queue@[i]) < n && (queue@[i] == start
                    || has_parent@[queue@[i] as int]) && connected(g, start, queue@[i]),
            0 <= unset(seen@, n as int),
            clock + unset(seen@, n as int) == n + 1,
            1 <= clock,
            seen@.len() == n,
            searched(
                g,
                seen@,
                has_parent@,
                parent@,
                queue@.subrange(head as int, queue@.len() as int),
            ) == search_of(g, start),
            seen@[start as int] || (head < queue@.len() && queue@[head as int] == start),
        decreases unset(seen@, n as int), queue@.len() - head,
    {
        let ghost waiting = queue@.subrange(head as int, queue@.len() as int);
        let ghost hp0 = has_parent@;
        let ghost p0 = parent@;
        let node = queue[head];
        assert(waiting[0] == node);
        head += 1;
        assert(queue@.subrange(head as int, queue@.len() as int) =~= waiting.drop_first());
        if seen[node as usize] {
            proof {
                lemma_skip(g, start, seen@, looked, waiting);
                lemma_searched_skip(g, seen@, has_parent@, parent@, waiting);
            }
        } else {
            let ghost old_seen = seen@;
            let ghost q0 = queue@;
            seen[node as usize] = true;
            proof {
                lemma_unset_after(old_seen, node as int, n as int);
                assert(seen@ =~= old_seen.update(node as int, true));
                lemma_tidy_seen(g, start, old_seen, has_parent@, parent@, order, node as int, clock);
                order = order.update(node as int, clock);
                clock = clock + 1;
            }
            assert(seen@[start as int]);
            expand(graph, start, node, &seen, &mut has_parent, &mut parent, &mut queue, head, Ghost(order));
            proof {
                let grown = queue@.subrange(head as int, queue@.len() as int);
                assert forall|q: u16| waiting.contains(q) && q != waiting[0] implies grown.contains(
                    q,
                ) by {
                    let a = choose|a: int| 0 <= a < waiting.len() && waiting[a] == q;
                    assert(a >= 1);
                    assert(grown[a - 1] == q);
                }
                assert forall|i: int| 0 <= i < grown.len() implies (#[trigger] grown[i]) < g.len()
                    && connected(g, start, grown[i]) by {
                    assert(grown[i] == queue@[head + i]);
                }
                assert(g[node as int] == graph@[node as int]@);
                lemma_looked(g, start, old_seen, old_seen, waiting, grown);
                looked = seen@;
                lemma_unset_nonnegative(seen@, n as int);
                lemma_searched_look(
                    g,
                    old_seen,
                    hp0,
                    p0,
                    waiting,
                    (Trail { has_parent: has_parent@, parent: parent@, queue: grown }),
                );
            }
        }
    }
    proof {
        assert(queue@.subrange(head as int, queue@.len() as int) =~= Seq::<u16>::empty());
        lemma_searched_done(g, seen@, has_parent@, parent@);
        lemma_seen_connected(g, start, seen@, looked, Seq::empty());
        assert forall|a: int| 0 <= a < n implies (#[trigger] seen@[a] <==> connected(
            g,
            start,
            a as u16,
        )) by {
            if connected(g, start, a as u16) {
                let path = choose|path: Seq<u16>| #[trigger]
                    is_walk(g, path) && path[0] == start && path.last() == a as u16;
                lemma_all_seen(g, start, seen@, looked, path);
            }
        }
    }
    Found { seen, has_parent, parent, order: Ghost(order) }
}

/// Finds a way along wires from `start` to `end`, where there is one.
pub fn find_path(graph: &Graph, start: u16, end: u16) -> (r: Option<Vec<u16>>)
    requires
        closed(wires(graph@)),
        start < graph@.len(),
        graph@.len() <= 65536,
    ensures
        r.is_some() <==> connected(wires(graph@), start, end),
        match r {
            Some(path) => is_walk(wires(graph@), path@) && path@[0] == start && path@.last() == end
                && way(wires(graph@), start, end) == Some(path@),
            None => way(wires(graph@), start, end).is_none(),
        },
{
    let ghost g = wires(graph@);
    let n = graph.len();
    if end as usize >= n {
        proof {
            if connected(g, start, end) {
                let path = choose|path: Seq<u16>| #[trigger]
                    is_walk(g, path) && path[0] == start && path.last() == end;
                assert(path[path.len() - 1] < g.len());
            }
        }
        return None;
    }
    let found = search(graph, start);
    if !found.seen[end as usize] {
        return None;
    }
    let mut back: Vec<u16> = Vec::new();
    let mut node = end;
    while node != start
        invariant
            n == graph@.len(),
            g == wires(graph@),
            node < n,
            end < n,
            found.seen@[node as int],
            records_ways(g, start, found),
            forall|i: int| 0 <= i < back@.len() ==> (#[trigger] back@[i]) < n,
            forall|i: int|
                0 <= i < back@.len() - 1 ==> wired(g, back@[i + 1] as int, #[trigger] back@[i] as int),
            back@.len() > 0 ==> back@[0] == end && wired(g, node as int, back@.last() as int),
            back@.len() == 0 ==> node == end,
            back@.len() + found.order@[node as int] <= found.order@[end as int],
            ways_of(found) == search_of(g, start),
            1 <= found.order@[node as int],
            found.order@[end as int] <= n,
            forall|v: int| 0 <= v < n && #[trigger] found.seen@[v] ==> 1 <= found.order@[v] <= n,
            traced(ways_of(found), start, end, n as nat) == match traced(
                ways_of(found),
                start,
                node,
                (n - back@.len()) as nat,
            ) {
                Some(p) => Some(p + turned(back@)),
                None => None,
            },
        decreases found.order@[node as int],
    {
        let ghost before = back@;
        back.push(node);
        assert(found.has_parent@[node as int]);
        let next = found.parent[node as usize];
        proof {
            let w = ways_of(found);
            let f = (n - before.len()) as nat;
            assert(f > 0);
            lemma_traced_step(w, start, node, f);
            if traced(w, start, next, (f - 1) as nat) is Some {
                let p = traced(w, start, next, (f - 1) as nat)->0;
                assert(p.push(node) + turned(before) =~= p + turned(back@));
            }
            assert forall|i: int| 0 <= i < back@.len() - 1 implies wired(
                g,
                back@[i + 1] as int,
                #[trigger] back@[i] as int,
            ) by {
                if i + 1 < before.len() {
                    assert(back@[i] == before[i] && back@[i + 1] == before[i + 1]);
                } else {
                    assert(back@[i] == before.last());
                }
            }
        }
        node = next;
    }
    back.push(start);
    let m = back.len();
    let mut path: Vec<u16> = Vec::new();
    let mut i: usize = 0;
    while i < m
        invariant
            m == back@.len(),
            i <= m,
            path@.len() == i,
            forall|k: int| 0 <= k < i ==> path@[k] == back@[m - 1 - k],
        decreases m - i,
    {
        path.push(back[m - 1 - i]);
        i += 1;
    }
    proof {
        assert forall|k: int| 0 <= k < path@.len() implies (#[trigger] path@[k]) < g.len() by {
            assert(path@[k] == back@[m - 1 - k]);
        }
        assert forall|k: int| 0 <= k < path@.len() - 1 implies wired(
            g,
            #[trigger] path@[k] as int,
            path@[k + 1] as int,
        ) by {
            assert(path@[k] == back@[m - 1 - k]);
            assert(path@[k + 1] == back@[m - 2 - k]);
        }
        assert(is_walk(g, path@) && path@[0] == start && path@.last() == end);
        lemma_traced_start(ways_of(found), start, (n - (m - 1)) as nat);
        assert(path@ =~= seq![start] + turned(back@.drop_last()));
    }
    Some(path)
}

/// The components that wires lead to from `start`, among the first `k`.
pub open spec fn group(g: Seq<Seq<u16>>, start: u16, k: int) -> Set<int> {
    Set::new(|v: int| 0 <= v < k && v < g.len() && connected(g, start, v as u16))
}

/// The number of components that wires lead to from `start`.
pub open spec fn reached(g: Seq<Seq<u16>>, start: u16) -> nat {
    group(g, start, g.len() as int).len()
}

/// The number of components that wires lead to from the first.
pub fn connected_count(graph: &Graph) -> (r: usize)
    requires
        closed(wires(graph@)),
        0 < graph@.len() <= 65536,
    ensures
        r == reached(wires(graph@), 0),
        1 <= r <= graph@.len(),
{
    let ghost g = wires(graph@);
    let n = graph.len();
    let found = search(graph, 0);
    let mut count: usize = 0;
    let mut v: usize = 0;
    assert(group(g, 0, 0) =~= Set::<int>::empty());
    while v < n
        invariant
            n == graph@.len(),
            g == wires(graph@),
            v <= n,
            count <= v,
            found.seen@.len() == n,
            forall|a: int| 0 <= a < n ==> (#[trigger] found.seen@[a] <==> connected(g, 0, a as u16)),
            group(g, 0, v as int).finite(),
            count == group(g, 0, v as int).len(),
            v > 0 ==> count >= 1,
        decreases n - v,
    {
        if found.seen[v] {
            assert(group(g, 0, v + 1) =~= group(g, 0, v as int).insert(v as int));
            count += 1;
        } else {
            assert(group(g, 0, v + 1) =~= group(g, 0, v as int));
        }
        proof {
            if v == 0 {
                lemma_walk_start(g, 0);
            }
        }
        v += 1;
    }
    count
}

/// Whether a wire leads from `a` to `b` or from `b` to `a`.
pub open spec fn either(g: Seq<Seq<u16>>, a: int, b: int) -> bool {
    wired(g, a, b) || wired(g, b, a)
}

/// `c` has the components of `g`, and a wire only where `g` has one, in
/// one direction or the other.
pub open spec fn within(c: Seq<Seq<u16>>, g: Seq<Seq<u16>>) -> bool {
    &&& c.len() == g.len()
    &&& forall|a: int, k: int|
        0 <= a < c.len() && 0 <= k < c[a].len() ==> (#[trigger] c[a][k]) < g.len() && either(
            g,
            a,
            c[a][k] as int,
        )
}

/// Every component of `path` is one of `g`, and each step of it follows a
/// wire of `g`, in one direction or the other.
pub open spec fn along(g: Seq<Seq<u16>>, path: Seq<u16>) -> bool {
    &&& forall|i: int| 0 <= i < path.len() ==> (#[trigger] path[i]) < g.len()
    &&& forall|i: int| 0 <= i < path.len() - 1 ==> either(g, #[trigger] path[i] as int, path[i + 1] as int)
}

/// A walk in a wiring within `g` goes along wires of `g`.
proof fn lemma_walk_within(c: Seq<Seq<u16>>, g: Seq<Seq<u16>>, path: Seq<u16>)
    requires
        within(c, g),
        is_walk(c, path),
    ensures
        along(g, path),
{
    assert forall|i: int| 0 <= i < path.len() - 1 implies either(
        g,
        #[trigger] path[i] as int,
        path[i + 1] as int,
    ) by {
        let a = path[i] as int;
        assert(wired(c, a, path[i + 1] as int));
        let k = choose|k: int| 0 <= k < c[a].len() && #[trigger] c[a][k] == path[i + 1];
        assert(either(g, a, c[a][k] as int));
    }
}

/// A wiring within a closed one is closed.
proof fn lemma_within_closed(c: Seq<Seq<u16>>, g: Seq<Seq<u16>>)
    requires
        within(c, g),
    ensures
        closed(c),
{
}

/// A wiring is within itself where it is closed.
proof fn lemma_within_itself(g: Seq<Seq<u16>>)
    requires
        closed(g),
    ensures
        within(g, g),
{
    assert forall|a: int, k: int| 0 <= a < g.len() && 0 <= k < g[a].len() implies (#[trigger] g[a][k])
        < g.len() && either(g, a, g[a][k] as int) by {
        assert(wired(g, a, g[a][k] as int));
    }
}

/// Replacing the list of component `a` by one that holds only what `g`
/// allows keeps the wiring within `g`.
proof fn lemma_within_update(graph: Seq<Vec<u16>>, a: int, list: Vec<u16>, g: Seq<Seq<u16>>)
    requires
        0 <= a < graph.len(),
        within(wires(graph), g),
        forall|k: int| 0 <= k < list@.len() ==> (#[trigger] list@[k]) < g.len() && either(g, a, list@[k] as int),
    ensures
        within(wires(graph.update(a, list)), g),
{
    let c = wires(graph);
    let d = wires(graph.update(a, list));
    assert forall|x: int, k: int| 0 <= x < d.len() && 0 <= k < d[x].len() implies (#[trigger] d[x][k])
        < g.len() && either(g, x, d[x][k] as int) by {
        if x == a {
            assert(d[x][k] == list@[k]);
        } else {
            assert(d[x][k] == c[x][k]);
        }
    }
}

/// `list` without `b`.
pub open spec fn without(list: Seq<u16>, b: u16) -> Seq<u16>
    decreases list.len(),
{
    if list.len() == 0 {
        list
    } else if list.last() == b {
        without(list.drop_last(), b)
    } else {
        without(list.drop_last(), b).push(list.last())
    }
}

/// The wiring without the wire from `a` to `b`.
pub open spec fn unwired(c: Seq<Seq<u16>>, a: u16, b: u16) -> Seq<Seq<u16>> {
    if a < c.len() {
        c.update(a as int, without(c[a as int], b))
    } else {
        c
    }
}

/// The wiring with a wire from `a` to `b`, which is added unless it is there.
pub open spec fn rewired(c: Seq<Seq<u16>>, a: u16, b: u16) -> Seq<Seq<u16>> {
    if a < c.len() && !c[a as int].contains(b) {
        c.update(a as int, c[a as int].push(b))
    } else {
        c
    }
}

/// The wiring without the wires that `path` follows, in both directions.
pub open spec fn cut(c: Seq<Seq<u16>>, path: Seq<u16>) -> Seq<Seq<u16>>
    decreases path.len(),
{
    if path.len() < 2 {
        c
    } else {
        unwired(
            unwired(cut(c, path.drop_last()), path[path.len() - 2], path[path.len() - 1]),
            path[path.len() - 1],
            path[path.len() - 2],
        )
    }
}

/// The wiring with the wires that `path` follows, in both directions.
pub open spec fn mended(c: Seq<Seq<u16>>, path: Seq<u16>) -> Seq<Seq<u16>>
    decreases path.len(),
{
    if path.len() < 2 {
        c
    } else {
        rewired(
            rewired(mended(c, path.drop_last()), path[path.len() - 2], path[path.len() - 1]),
            path[path.len() - 1],
            path[path.len() - 2],
        )
    }
}

/// Every component of `without(list, b)` is one of `list`.
proof fn lemma_without(list: Seq<u16>, b: u16)
    ensures
        forall|j: int| 0 <= j < without(list, b).len() ==> list.contains(#[trigger] without(list, b)[j]),
    decreases list.len(),
{
    if list.len() > 0 {
        let head = list.drop_last();
        lemma_without(head, b);
        assert forall|j: int| 0 <= j < without(list, b).len() implies list.contains(
            #[trigger] without(list, b)[j],
        ) by {
            let x = without(list, b)[j];
            if j < without(head, b).len() {
                assert(x == without(head, b)[j]);
                let i = choose|i: int| 0 <= i < head.len() && head[i] == x;
                assert(list[i] == x);
            } else {
                assert(list[list.len() - 1] == x);
            }
        }
    }
}

/// Takes the wire from `a` to `b` away.
fn drop_wire(graph: &mut Graph, a: u16, b: u16, Ghost(g): Ghost<Seq<Seq<u16>>>)
    requires
        a < old(graph)@.len(),
        within(wires(old(graph)@), g),
    ensures
        within(wires(final(graph)@), g),
        wires(final(graph)@) == unwired(wires(old(graph)@), a, b),
{
    let mut list: Vec<u16> = Vec::new();
    let mut k: usize = 0;
    let ghost c = wires(graph@);
    assert(c[a as int].take(0) =~= Seq::<u16>::empty());
    while k < graph[a as usize].len()
        invariant
            a < graph@.len(),
            c == wires(graph@),
            graph@ == old(graph)@,
            k <= graph@[a as int]@.len(),
            list@ == without(c[a as int].take(k as int), b),
        decreases graph@[a as int]@.len() - k,
    {
        assert(c[a as int].take(k + 1).drop_last() =~= c[a as int].take(k as int));
        assert(c[a as int].take(k + 1).last() == c[a as int][k as int]);
        let x = graph[a as usize][k];
        if x != b {
            list.push(x);
        }
        k += 1;
    }
    proof {
        assert(c[a as int].take(k as int) =~= c[a as int]);
        lemma_without(c[a as int], b);
        assert forall|j: int| 0 <= j < list@.len() implies (#[trigger] list@[j]) < g.len() && either(
            g,
            a as int,
            list@[j] as int,
        ) by {
            let i = choose|i: int| 0 <= i < c[a as int].len() && c[a as int][i] == list@[j];
            assert(c[a as int][i] < g.len() && either(g, a as int, c[a as int][i] as int));
        }
        lemma_within_update(graph@, a as int, list, g);
        assert(wires(graph@.update(a as int, list)) =~= c.update(a as int, list@));
    }
    graph.set(a as usize, list);
}

/// Puts a wire from `a` to `b`, unless there is one.
fn add_wire(graph: &mut Graph, a: u16, b: u16, Ghost(g): Ghost<Seq<Seq<u16>>>)
    requires
        a < old(graph)@.len(),
        b < g.len(),
        either(g, a as int, b as int),
        within(wires(old(graph)@), g),
    ensures
        within(wires(final(graph)@), g),
        wires(final(graph)@) == rewired(wires(old(graph)@), a, b),
{
    let mut list: Vec<u16> = Vec::new();
    let mut k: usize = 0;
    let mut there = false;
    let ghost c = wires(graph@);
    while k < graph[a as usize].len()
        invariant
            a < graph@.len(),
            b < g.len(),
            either(g, a as int, b as int),
            c == wires(graph@),
            graph@ == old(graph)@,
            within(c, g),
            k <= graph@[a as int]@.len(),
            list@ == c[a as int].take(k as int),
            there <==> c[a as int].take(k as int).contains(b),
        decreases graph@[a as int]@.len() - k,
    {
        let x = graph[a as usize][k];
        let ghost head = c[a as int].take(k as int);
        let ghost longer = c[a as int].take(k + 1);
        assert(longer =~= head.push(x));
        proof {
            if head.contains(b) {
                let j = choose|j: int| 0 <= j < head.len() && head[j] == b;
                assert(longer[j] == b);
            }
            if x == b {
                assert(longer[k as int] == b);
            }
            if longer.contains(b) && x != b {
                let j = choose|j: int| 0 <= j < longer.len() && longer[j] == b;
                assert(head[j] == b);
            }
        }
        if x == b {
            there = true;
        }
        list.push(x);
        k += 1;
    }
    assert(c[a as int].take(k as int) =~= c[a as int]);
    if !there {
        list.push(b);
        proof {
            assert forall|j: int| 0 <= j < list@.len() implies (#[trigger] list@[j]) < g.len() && either(
                g,
                a as int,
                list@[j] as int,
            ) by {
                if j < c[a as int].len() {
                    assert(list@[j] == c[a as int][j]);
                }
            }
            lemma_within_update(graph@, a as int, list, g);
            assert(wires(graph@.update(a as int, list)) =~= c.update(a as int, list@));
        }
        graph.set(a as usize, list);
    }
}

/// Takes away the wires that `path` follows, in both directions.
fn cut_along(graph: &mut Graph, path: &Vec<u16>, Ghost(g): Ghost<Seq<Seq<u16>>>)
    requires
        within(wires(old(graph)@), g),
        forall|i: int| 0 <= i < path@.len() ==> (#[trigger] path@[i]) < g.len(),
    ensures
        within(wires(final(graph)@), g),
        wires(final(graph)@) == cut(wires(old(graph)@), path@),
{
    if path.len() < 2 {
        return ;
    }
    let mut i: usize = 1;
    assert(path@.take(1).len() == 1);
    while i < path.len()
        invariant
            1 <= i <= path@.len(),
            within(wires(graph@), g),
            forall|i: int| 0 <= i < path@.len() ==> (#[trigger] path@[i]) < g.len(),
            wires(graph@) == cut(wires(old(graph)@), path@.take(i as int)),
        decreases path@.len() - i,
    {
        let a = path[i - 1];
        let b = path[i];
        let ghost longer = path@.take(i + 1);
        assert(longer.drop_last() =~= path@.take(i as int));
        assert(longer[longer.len() - 2] == a && longer[longer.len() - 1] == b);
        drop_wire(graph, a, b, Ghost(g));
        drop_wire(graph, b, a, Ghost(g));
        i += 1;
    }
    assert(path@.take(i as int) =~= path@);
}

/// Puts back the wires that `path` follows, in both directions.
fn mend_along(graph: &mut Graph, path: &Vec<u16>, Ghost(g): Ghost<Seq<Seq<u16>>>)
    requires
        within(wires(old(graph)@), g),
        along(g, path@),
    ensures
        within(wires(final(graph)@), g),
        wires(final(graph)@) == mended(wires(old(graph)@), path@),
{
    if path.len() < 2 {
        return ;
    }
    let mut i: usize = 1;
    assert(path@.take(1).len() == 1);
    while i < path.len()
        invariant
            1 <= i <= path@.len(),
            within(wires(graph@), g),
            along(g, path@),
            wires(graph@) == mended(wires(old(graph)@), path@.take(i as int)),
        decreases path@.len() - i,
    {
        let a = path[i - 1];
        let b = path[i];
        let ghost longer = path@.take(i + 1);
        assert(longer.drop_last() =~= path@.take(i as int));
        assert(longer[longer.len() - 2] == a && longer[longer.len() - 1] == b);
        assert(either(g, path@[i - 1] as int, path@[i - 1 + 1] as int));
        add_wire(graph, a, b, Ghost(g));
        add_wire(graph, b, a, Ghost(g));
        i += 1;
    }
    assert(path@.take(i as int) =~= path@);
}

/// The wiring after some rounds, and the ways that were cut in them.
pub struct Cuts {
    pub wiring: Seq<Seq<u16>>,
    pub paths: Seq<Seq<u16>>,
}

/// The wiring after `k` rounds, in each of which the way found from the
/// first component to `target` is cut; nothing where there is no way.
pub open spec fn rounds(c: Seq<Seq<u16>>, target: u16, k: nat) -> Option<Cuts>
    decreases k,
{
    if k == 0 {
        Some(Cuts { wiring: c, paths: Seq::empty() })
    } else {
        match rounds(c, target, (k - 1) as nat) {
            None => None,
            Some(before) => match way(before.wiring, 0, target) {
                None => None,
                Some(path) => Some(
                    Cuts { wiring: cut(before.wiring, path), paths: before.paths.push(path) },
                ),
            },
        }
    }
}

/// The wiring with the wires of each of `paths` put back, from the first on.
pub open spec fn mended_all(c: Seq<Seq<u16>>, paths: Seq<Seq<u16>>) -> Seq<Seq<u16>>
    decreases paths.len(),
{
    if paths.len() == 0 {
        c
    } else {
        mended(mended_all(c, paths.drop_last()), paths.last())
    }
}

/// What the trials come to from component `i` on, in the wiring `c` of
/// `n` components: for each component in turn three ways to it are cut;
/// where no fourth is left, the sizes of the two groups are multiplied;
/// else the wires are put back. 0 where no component is parted so;
/// nothing where fewer than three ways lead to a component.
pub open spec fn tried(c: Seq<Seq<u16>>, i: nat) -> Option<usize>
    decreases c.len() - i,
{
    if i >= c.len() {
        Some(0)
    } else {
        match rounds(c, i as u16, 3) {
            None => None,
            Some(cuts) => if cuts.wiring.len() != c.len() {
                None
            } else if way(cuts.wiring, 0, i as u16).is_none() {
                Some((reached(cuts.wiring, 0) * (c.len() - reached(cuts.wiring, 0))) as usize)
            } else if mended_all(cuts.wiring, cuts.paths).len() != c.len() {
                None
            } else {
                tried(mended_all(cuts.wiring, cuts.paths), i + 1)
            },
        }
    }
}

/// A copy of the wiring.
fn copy_wiring(graph: &Graph) -> (r: Graph)
    ensures
        wires(r@) == wires(graph@),
{
    let mut r: Graph = Vec::new();
    let mut a: usize = 0;
    while a < graph.len()
        invariant
            a <= graph@.len(),
            r@.len() == a,
            forall|x: int| 0 <= x < a ==> r@[x]@ == graph@[x]@,
        decreases graph@.len() - a,
    {
        let mut list: Vec<u16> = Vec::new();
        let mut k: usize = 0;
        while k < graph[a].len()
            invariant
                a < graph@.len(),
                k <= graph@[a as int]@.len(),
                list@ == graph@[a as int]@.take(k as int),
            decreases graph@[a as int]@.len() - k,
        {
            list.push(graph[a][k]);
            assert(graph@[a as int]@.take(k + 1) =~= graph@[a as int]@.take(k as int).push(
                graph@[a as int]@[k as int],
            ));
            k += 1;
        }
        assert(graph@[a as int]@.take(k as int) =~= graph@[a as int]@);
        r.push(list);
        a += 1;
    }
    assert(wires(r@) =~= wires(graph@));
    r
}

/// Whether cutting wires of `g` can part component `i` from the first so
/// that the two groups have `product` as the product of their sizes.
pub open spec fn parts(g: Seq<Seq<u16>>, i: u16, product: int) -> bool {
    exists|c: Seq<Seq<u16>>| #[trigger]
        within(c, g) && 0 < i < g.len() && !connected(c, 0, i) && product == reached(c, 0) * (g.len()
            - reached(c, 0))
}

/// Whether cutting wires of `g` can part component `i` from the first.
pub open spec fn falls_apart(g: Seq<Seq<u16>>, i: u16) -> bool {
    exists|c: Seq<Seq<u16>>| #[trigger] within(c, g) && 0 < i < g.len() && !connected(c, 0, i)
}

/// Looks for three ways to a component that share no wire and whose
/// cutting parts that component from the first, and multiplies the sizes of
/// the two groups that the wiring then falls into; 0 where no component is
/// parted so. `None` where a component is parted from the first before
/// three ways to it were cut.
pub fn part1(input: &Graph) -> (r: Option<usize>)
    requires
        closed(wires(input@)),
        input@.len() <= 65536,
    ensures
        r == tried(wires(input@), 1),
        match r {
            Some(product) => product == 0 || exists|i: u16| parts(wires(input@), i, product as int),
            None => exists|i: u16| falls_apart(wires(input@), i),
        },
{
    let ghost g = wires(input@);
    let n = input.len();
    let mut components = copy_wiring(input);
    proof {
        lemma_within_itself(g);
    }
    let mut i: usize = 1;
    while i < n
        invariant
            1 <= i,
            n == input@.len(),
            n <= 65536,
            g == wires(input@),
            within(wires(components@), g),
            tried(wires(components@), i as nat) == tried(g, 1),
        decreases n - i,
    {
        let target = i as u16;
        let mut paths: Vec<Vec<u16>> = Vec::new();
        let mut round: usize = 0;
        let ghost c0 = wires(components@);
        proof {
            reveal_with_fuel(rounds, 4);
            assert(views(paths@) =~= Seq::<Seq<u16>>::empty());
        }
        while round < 3
            invariant
                round <= 3,
                0 < i < n,
                target == i,
                n == input@.len(),
                n <= 65536,
                g == wires(input@),
                within(wires(components@), g),
                within(c0, g),
                paths@.len() == round,
                forall|j: int| 0 <= j < paths@.len() ==> along(g, (#[trigger] paths@[j])@),
                rounds(c0, target, round as nat) == Some(
                    Cuts { wiring: wires(components@), paths: views(paths@) },
                ),
                tried(c0, i as nat) == tried(g, 1),
            decreases 3 - round,
        {
            proof {
                lemma_within_closed(wires(components@), g);
                reveal_with_fuel(rounds, 4);
            }
            let ghost c = wires(components@);
            let ghost before = views(paths@);
            match find_path(&components, 0, target) {
                Some(path) => {
                    proof {
                        lemma_walk_within(c, g, path@);
                    }
                    cut_along(&mut components, &path, Ghost(g));
                    paths.push(path);
                    assert(views(paths@) =~= before.push(path@));
                },
                None => {
                    assert(falls_apart(g, target)) by {
                        assert(within(c, g) && 0 < target < g.len() && !connected(c, 0, target));
                    }
                    assert(rounds(c0, target, 3).is_none());
                    return None;
                },
            }
            round += 1;
        }
        let ghost cut_wiring = wires(components@);
        let ghost all_paths = views(paths@);
        proof {
            lemma_within_closed(wires(components@), g);
        }
        match find_path(&components, 0, target) {
            Some(_) => {},
            None => {
                let size1 = connected_count(&components);
                let size2 = n - size1;
                assert(size1 * size2 <= 65536 * 65536) by (nonlinear_arith)
                    requires
                        0 <= size1 <= 65536,
                        0 <= size2 <= 65536,
                ;
                assert(4 * (size1 * size2) <= (size1 + size2) * (size1 + size2)) by (nonlinear_arith);
                assert((size1 + size2) * (size1 + size2) <= 65536 * 65536) by (nonlinear_arith)
                    requires
                        0 <= size1 + size2 <= 65536,
                ;
                assert(parts(g, target, size1 * size2)) by {
                    let c = wires(components@);
                    assert(within(c, g) && 0 < target < g.len() && !connected(c, 0, target) && size1
                        * size2 == reached(c, 0) * (g.len() - reached(c, 0)));
                }
                return Some(size1 * size2);
            },
        }
        let mut j: usize = 0;
        assert(all_paths.take(0) =~= Seq::<Seq<u16>>::empty());
        while j < paths.len()
            invariant
                j <= paths@.len(),
                within(wires(components@), g),
                all_paths == views(paths@),
                forall|j: int| 0 <= j < paths@.len() ==> along(g, (#[trigger] paths@[j])@),
                wires(components@) == mended_all(cut_wiring, all_paths.take(j as int)),
            decreases paths@.len() - j,
        {
            assert(all_paths.take(j + 1).drop_last() =~= all_paths.take(j as int));
            assert(all_paths.take(j + 1).last() == paths@[j as int]@);
            mend_along(&mut components, &paths[j], Ghost(g));
            j += 1;
        }
        assert(all_paths.take(j as int) =~= all_paths);
        i += 1;
    }
    Some(0)
}

/// There is no second question on the wiring.
pub fn part2(input: &Graph) -> (r: usize)
    ensures
        r == 0,
{
    0
}

/// The names met so far, each with the number of its component, and the
/// wires found between the components.
pub struct Wiring {
    pub names: Seq<Seq<char>>,
    pub lists: Seq<Seq<u16>>,
}

/// Notes `name`, unless it has been noted: a new name gets the next number
/// and a component without wires.
pub open spec fn note(w: Wiring, name: Seq<char>) -> Wiring {
    if place(w.names, name).is_some() {
        w
    } else {
        Wiring { names: w.names.push(name), lists: w.lists.push(Seq::empty()) }
    }
}

/// Notes each of `ends`, from the first on.
pub open spec fn note_all(w: Wiring, ends: Seq<Seq<char>>) -> Wiring
    decreases ends.len(),
{
    if ends.len() == 0 {
        w
    } else {
        note(note_all(w, ends.drop_last()), ends.last())
    }
}

/// The wiring with a wire from `a` to `b`, which is added unless it is there.
pub open spec fn joined(lists: Seq<Seq<u16>>, a: int, b: u16) -> Seq<Seq<u16>> {
    if 0 <= a < lists.len() && !lists[a].contains(b) {
        lists.update(a, lists[a].push(b))
    } else {
        lists
    }
}

/// The wiring with wires both ways between component `start` and each of
/// the components called as `ends` say.
pub open spec fn link_all(
    names: Seq<Seq<char>>,
    lists: Seq<Seq<u16>>,
    start: int,
    ends: Seq<Seq<char>>,
) -> Seq<Seq<u16>>
    decreases ends.len(),
{
    if ends.len() == 0 {
        lists
    } else {
        let end = number(names, ends.last());
        joined(
            joined(link_all(names, lists, start, ends.drop_last()), end, start as u16),
            start,
            end as u16,
        )
    }
}

/// What `w` becomes with a line that names a component, then a colon and a
/// space, then the components it is wired to with single spaces between
/// them. No more than 65536 components can be numbered.
pub open spec fn with_line(w: Wiring, line: Seq<char>) -> Option<Wiring> {
    let pieces = split_on_text(line, ": "@);
    if pieces.len() < 2 {
        None
    } else {
        let ends = split_on(line.subrange((pieces[0].len() + 2) as int, line.len() as int), ' ');
        let named = note(note_all(w, ends), pieces[0]);
        if named.names.len() > 65536 {
            None
        } else {
            Some(
                Wiring {
                    names: named.names,
                    lists: link_all(named.names, named.lists, number(named.names, pieces[0]), ends),
                },
            )
        }
    }
}

/// What the lines make of a wiring without components.
pub open spec fn wiring_from(lines: Seq<Seq<char>>) -> Option<Wiring>
    decreases lines.len(),
{
    if lines.len() == 0 {
        Some(Wiring { names: Seq::empty(), lists: Seq::empty() })
    } else {
        match wiring_from(lines.drop_last()) {
            Some(w) => with_line(w, lines.last()),
            None => None,
        }
    }
}

/// The wiring that `text` describes, where every line of it has the form.
pub open spec fn wiring_of(text: Seq<char>) -> Option<Seq<Seq<u16>>> {
    match wiring_from(lines_of(text)) {
        Some(w) => Some(w.lists),
        None => None,
    }
}

/// The names and wires held so far.
pub open spec fn wiring(names: Seq<Vec<char>>, graph: Seq<Vec<u16>>) -> Wiring {
    Wiring { names: views(names), lists: wires(graph) }
}

/// Once a line fails, the text describes no wiring.
proof fn lemma_wiring_none(lines: Seq<Seq<char>>, k: int)
    requires
        0 <= k <= lines.len(),
        wiring_from(lines.take(k)).is_none(),
    ensures
        wiring_from(lines).is_none(),
    decreases lines.len(),
{
    if k == lines.len() {
        assert(lines.take(k) =~= lines);
    } else {
        assert(lines.drop_last().take(k) =~= lines.take(k));
        lemma_wiring_none(lines.drop_last(), k);
    }
}

/// Notes `name`, unless it has been noted.
fn note_name(names: &mut Vec<Vec<char>>, graph: &mut Graph, name: &Vec<char>)
    requires
        old(names)@.len() == old(graph)@.len(),
    ensures
        wiring(final(names)@, final(graph)@) == note(wiring(old(names)@, old(graph)@), name@),
        final(names)@.len() == final(graph)@.len(),
        final(names)@.len() > 0,
        closed(wires(old(graph)@)) ==> closed(wires(final(graph)@)),
{
    let ghost w = wiring(names@, graph@);
    match find_name(names, name) {
        Some(_) => {},
        None => {
            names.push(copy_range(name, 0, name.len()));
            graph.push(Vec::new());
            proof {
                assert(name@.subrange(0, name@.len() as int) =~= name@);
                assert(views(names@) =~= w.names.push(name@));
                assert(wires(graph@) =~= w.lists.push(Seq::empty()));
                if closed(w.lists) {
                    let c = wires(graph@);
                    assert forall|a: int, k: int| 0 <= a < c.len() && 0 <= k < c[a].len() implies (
                    #[trigger] c[a][k]) < c.len() by {
                        assert(c[a][k] == w.lists[a][k]);
                    }
                }
            }
        },
    }
}

/// Puts a wire from `a` to `b`, unless there is one.
fn join(graph: &mut Graph, a: usize, b: u16)
    requires
        a < old(graph)@.len(),
    ensures
        wires(final(graph)@) == joined(wires(old(graph)@), a as int, b),
        final(graph)@.len() == old(graph)@.len(),
        closed(wires(old(graph)@)) && b < old(graph)@.len() ==> closed(wires(final(graph)@)),
{
    let ghost c = wires(graph@);
    let mut list: Vec<u16> = Vec::new();
    let mut k: usize = 0;
    let mut there = false;
    while k < graph[a].len()
        invariant
            a < graph@.len(),
            c == wires(graph@),
            k <= graph@[a as int]@.len(),
            list@ == c[a as int].take(k as int),
            there <==> c[a as int].take(k as int).contains(b),
        decreases graph@[a as int]@.len() - k,
    {
        let x = graph[a][k];
        let ghost head = c[a as int].take(k as int);
        let ghost longer = c[a as int].take(k + 1);
        assert(longer =~= head.push(x));
        proof {
            if head.contains(b) {
                let j = choose|j: int| 0 <= j < head.len() && head[j] == b;
                assert(longer[j] == b);
            }
            if x == b {
                assert(longer[k as int] == b);
            }
            if longer.contains(b) && x != b {
                let j = choose|j: int| 0 <= j < longer.len() && longer[j] == b;
                assert(head[j] == b);
            }
        }
        if x == b {
            there = true;
        }
        list.push(x);
        k += 1;
    }
    assert(c[a as int].take(k as int) =~= c[a as int]);
    if !there {
        list.push(b);
        graph.set(a, list);
        proof {
            let d = wires(graph@);
            assert(d =~= c.update(a as int, c[a as int].push(b)));
            if closed(c) && b < c.len() {
                assert forall|x: int, j: int| 0 <= x < d.len() && 0 <= j < d[x].len() implies (
                #[trigger] d[x][j]) < d.len() by {
                    if x == a && j == c[a as int].len() {
                    } else {
                        assert(d[x][j] == c[x][j]);
                    }
                }
            }
        }
    }
}

/// Takes one line into the names and wires; says whether it has the form.
fn add_line(names: &mut Vec<Vec<char>>, graph: &mut Graph, line: &Vec<char>) -> (ok: bool)
    requires
        old(names)@.len() == old(graph)@.len(),
        closed(wires(old(graph)@)),
    ensures
        match with_line(wiring(old(names)@, old(graph)@), line@) {
            Some(w) => ok && wiring(final(names)@, final(graph)@) == w,
            None => !ok,
        },
        ok ==> final(names)@.len() == final(graph)@.len() && closed(wires(final(graph)@))
            && final(graph)@.len() <= 65536,
{
    let ghost w0 = wiring(names@, graph@);
    proof {
        reveal_strlit(": ");
        reveal_with_fuel(split_on_text, 2);
    }
    let parts = split_at_text(line, ": ");
    if parts.len() < 2 {
        return false;
    }
    assert(views(parts@)[0] == parts@[0]@);
    let start = &parts[0];
    assert(start@.len() + 2 <= line@.len()) by {
        assert(start@ == parts@[0]@);
        assert(first_match(line@, ": "@) <= line@.len());
        assert(line@.subrange(0, first_match(line@, ": "@) as int).len() == first_match(line@, ": "@));
    }
    let total = line.len();
    let rest = copy_range(line, start.len() + 2, total);
    let ends = split(&rest, ' ');
    let ghost all = views(ends@);
    let mut i: usize = 0;
    while i < ends.len()
        invariant
            i <= ends@.len(),
            all == views(ends@),
            names@.len() == graph@.len(),
            closed(wires(graph@)),
            wiring(names@, graph@) == note_all(w0, all.take(i as int)),
        decreases ends@.len() - i,
    {
        assert(all.take(i + 1).drop_last() =~= all.take(i as int));
        assert(all.take(i + 1).last() == ends@[i as int]@);
        note_name(names, graph, &ends[i]);
        i += 1;
    }
    assert(all.take(i as int) =~= all);
    note_name(names, graph, start);
    if names.len() > 65536 {
        return false;
    }
    let ghost named = wiring(names@, graph@);
    let s = number_of(names, start);
    let mut i: usize = 0;
    while i < ends.len()
        invariant
            i <= ends@.len(),
            all == views(ends@),
            0 < names@.len() <= 65536,
            names@.len() == graph@.len(),
            closed(wires(graph@)),
            s == number(named.names, start@),
            s < names@.len(),
            views(names@) == named.names,
            wires(graph@) == link_all(named.names, named.lists, s as int, all.take(i as int)),
        decreases ends@.len() - i,
    {
        assert(all.take(i + 1).drop_last() =~= all.take(i as int));
        assert(all.take(i + 1).last() == ends@[i as int]@);
        let e = number_of(names, &ends[i]);
        join(graph, e, s as u16);
        join(graph, s, e as u16);
        i += 1;
    }
    assert(all.take(i as int) =~= all);
    true
}

/// Reads the wiring: on each line a component's name, a colon and a space,
/// and the names of the components it is wired to with single spaces
/// between them. The components are numbered as their names are met, on
/// each line those wired to before the one that the line is about. `None`
/// where a line has no colon followed by a space, or where more than 65536
/// names are met.
pub fn parse(input: &str) -> (r: Option<Graph>)
    ensures
        match r {
            Some(graph) => wiring_of(input@) == Some(wires(graph@)) && closed(wires(graph@))
                && graph@.len() <= 65536,
            None => wiring_of(input@).is_none(),
        },
{
    let chars = chars_of(input);
    let rows = lines(&chars);
    let ghost ls = views(rows@);
    let mut names: Vec<Vec<char>> = Vec::new();
    let mut graph: Graph = Vec::new();
    let mut i: usize = 0;
    assert(ls.take(0) =~= Seq::<Seq<char>>::empty());
    assert(views(names@) =~= Seq::<Seq<char>>::empty());
    assert(wires(graph@) =~= Seq::<Seq<u16>>::empty());
    while i < rows.len()
        invariant
            i <= rows@.len(),
            ls == views(rows@),
            ls == lines_of(input@),
            names@.len() == graph@.len(),
            closed(wires(graph@)),
            graph@.len() <= 65536,
            wiring_from(ls.take(i as int)) == Some(wiring(names@, graph@)),
        decreases rows@.len() - i,
    {
        assert(ls.take(i + 1).drop_last() =~= ls.take(i as int));
        assert(ls.take(i + 1).last() == rows@[i as int]@);
        if !add_line(&mut names, &mut graph, &rows[i]) {
            proof {
                lemma_wiring_none(ls, i + 1);
            }
            return None;
        }
        i += 1;
    }
    assert(ls.take(i as int) =~= ls);
    Some(graph)
}

} // verus!
