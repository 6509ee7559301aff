//! The search frontier: a min-priority queue of candidate states.
use crate::route::{Direction, SearchState};
use vstd::multiset::Multiset;
use vstd::prelude::*;

verus! {

broadcast use vstd::seq_lib::group_to_multiset_ensures;

/// A candidate: a state and the cost of one route that leads to it.
#[derive(Clone, Copy, Debug, PartialEq, Eq, Structural)]
pub struct FrontierEntry {
    pub cost: u64,
    pub state: SearchState,
}

/// The place of a heading among the five, used to break ties: west, north,
/// the origin's heading, south, east.
pub open spec fn rank(d: Direction) -> int {
    match d {
        Direction::West => 0,
        Direction::North => 1,
        Direction::Start => 2,
        Direction::South => 3,
        Direction::East => 4,
    }
}

fn rank_of(d: Direction) -> (r: u8)
    ensures
        r == rank(d),
{
    match d {
        Direction::West => 0,
        Direction::North => 1,
        Direction::Start => 2,
        Direction::South => 3,
        Direction::East => 4,
    }
}

impl FrontierEntry {
    /// The order in which entries leave the frontier: by cost; among equal
    /// costs by column, then by row, then by the rank of the heading. Two
    /// entries each of which precedes the other are the same entry.
    pub open spec fn precedes(self, other: FrontierEntry) -> bool {
        let a = self.state.position;
        let b = other.state.position;
        ||| self.cost < other.cost
        ||| self.cost == other.cost && a.x < b.x
        ||| self.cost == other.cost && a.x == b.x && a.y < b.y
        ||| self.cost == other.cost && a.x == b.x && a.y == b.y && rank(self.state.direction)
            <= rank(other.state.direction)
    }

    /// Whether `self` leaves the frontier no later than `other`.
    pub fn comes_before(&self, other: &FrontierEntry) -> (r: bool)
        ensures
            r == self.precedes(*other),
    {
        if self.cost != other.cost {
            self.cost < other.cost
        } else if self.state.position.x != other.state.position.x {
            self.state.position.x < other.state.position.x
        } else if self.state.position.y != other.state.position.y {
            self.state.position.y < other.state.position.y
        } else {
            rank_of(self.state.direction) <= rank_of(other.state.direction)
        }
    }
}

/// The index of the parent of heap slot `i`.
spec fn parent(i: int) -> int {
    (i - 1) / 2
}

/// Every slot but the root holds an entry that its parent's entry precedes.
spec fn ordered(s: Seq<FrontierEntry>) -> bool {
    forall|i: int| 1 <= i < s.len() ==> s[parent(i)].precedes(#[trigger] s[i])
}

/// `ordered`, but for the slot `hole`, whose entry may be out of place with
/// respect to its parent; its children are in order with that parent.
spec fn ordered_above(s: Seq<FrontierEntry>, hole: int) -> bool {
    &&& forall|i: int| 1 <= i < s.len() && i != hole ==> s[parent(i)].precedes(#[trigger] s[i])
    &&& forall|i: int|
        1 <= i < s.len() && parent(i) == hole && hole > 0 ==> s[parent(hole)].precedes(
            #[trigger] s[i],
        )
}

/// `ordered`, but for the slot `hole`, whose entry may be out of place with
/// respect to its children; they are in order with its parent.
spec fn ordered_below(s: Seq<FrontierEntry>, hole: int) -> bool {
    &&& forall|i: int|
        1 <= i < s.len() && parent(i) != hole ==> s[parent(i)].precedes(#[trigger] s[i])
    &&& forall|i: int|
        1 <= i < s.len() && parent(i) == hole && hole > 0 ==> s[parent(hole)].precedes(
            #[trigger] s[i],
        )
}

/// In an ordered heap the root's entry precedes every entry.
proof fn lemma_root_first(s: Seq<FrontierEntry>, i: int)
    requires
        ordered(s),
        0 <= i < s.len(),
    ensures
        s[0].precedes(s[i]),
    decreases i,
{
    if i > 0 {
        lemma_root_first(s, parent(i));
        assert(s[parent(i)].precedes(s[i]));
    }
}

/// Exchanges the entries of slots `i` and `j`.
fn exchange(v: &mut Vec<FrontierEntry>, i: usize, j: usize)
    requires
        i < old(v)@.len(),
        j < old(v)@.len(),
    ensures
        final(v)@ == old(v)@.update(i as int, old(v)@[j as int]).update(j as int, old(v)@[i as int]),
        final(v)@.to_multiset() == old(v)@.to_multiset(),
        final(v)@.len() == old(v)@.len(),
{
    let a = v[i];
    let b = v[j];
    let ghost s0 = v@;
    v.set(i, b);
    let ghost s1 = v@;
    v.set(j, a);
    proof {
        assert(s1.to_multiset() == s0.to_multiset().insert(b).remove(a));
        assert(v@.to_multiset() == s1.to_multiset().insert(a).remove(s1[j as int]));
        assert(s1[j as int] == b);
        assert(s0.to_multiset().count(a) > 0) by {
            assert(s0.contains(a));
        }
        assert(v@.to_multiset() =~= s0.to_multiset());
    }
}

/// Adds `e` at the end and moves it up to its place.
fn heap_insert(v: &mut Vec<FrontierEntry>, e: FrontierEntry)
    requires
        ordered(old(v)@),
    ensures
        ordered(final(v)@),
        final(v)@.to_multiset() == old(v)@.to_multiset().insert(e),
{
    v.push(e);
    let mut i: usize = v.len() - 1;
    while i > 0 && !v[(i - 1) / 2].comes_before(&v[i])
        invariant
            i < v@.len(),
            v@.to_multiset() == old(v)@.to_multiset().insert(e),
            ordered_above(v@, i as int),
        decreases i,
    {
        let p = (i - 1) / 2;
        let ghost before = v@;
        exchange(v, i, p);
        proof {
            let s = v@;
            assert(before[i as int].precedes(before[p as int]));
            assert forall|j: int| 1 <= j < s.len() && j != p implies s[parent(j)].precedes(
                #[trigger] s[j],
            ) by {
                if j == i {
                } else if parent(j) == i {
                    assert(before[parent(i as int)].precedes(before[j]));
                } else if parent(j) == p {
                    assert(before[p as int].precedes(before[j]));
                } else {
                    assert(before[parent(j)].precedes(before[j]));
                }
            }
            assert forall|j: int| 1 <= j < s.len() && parent(j) == p && p > 0 implies s[parent(
                p as int,
            )].precedes(#[trigger] s[j]) by {
                assert(before[parent(p as int)].precedes(before[p as int]));
                if j != i {
                    assert(before[p as int].precedes(before[j]));
                }
            }
        }
        i = p;
    }
    proof {
        let s = v@;
        assert forall|j: int| 1 <= j < s.len() implies s[parent(j)].precedes(#[trigger] s[j]) by {
            if j == i {
                assert(s[parent(i as int)].precedes(s[i as int]));
            }
        }
    }
}

/// Takes the root's entry out, puts the last entry in its slot and moves it
/// down to its place.
fn heap_take_first(v: &mut Vec<FrontierEntry>) -> (r: Option<FrontierEntry>)
    requires
        ordered(old(v)@),
    ensures
        ordered(final(v)@),
        match r {
            None => old(v)@.len() == 0 && final(v)@ == old(v)@,
            Some(e) => {
                &&& old(v)@.to_multiset().contains(e)
                &&& final(v)@.to_multiset() == old(v)@.to_multiset().remove(e)
                &&& forall|o: FrontierEntry| #[trigger]
                    old(v)@.to_multiset().contains(o) ==> e.precedes(o)
            },
        },
{
    let n = v.len();
    if n == 0 {
        return None;
    }
    let ghost s0 = v@;
    let first = v[0];
    let last = v[n - 1];
    proof {
        assert(s0.contains(first));
        assert(s0.contains(last));
        assert forall|o: FrontierEntry| #[trigger] s0.to_multiset().contains(o) implies first.precedes(
            o,
        ) by {
            assert(s0.contains(o));
            let k = choose|k: int| 0 <= k < s0.len() && s0[k] == o;
            lemma_root_first(s0, k);
        }
    }
    v.pop();
    proof {
        assert(v@ =~= s0.remove(n - 1));
        assert(v@.to_multiset() == s0.to_multiset().remove(last));
    }
    if n == 1 {
        return Some(first);
    }
    let ghost s1 = v@;
    v.set(0, last);
    proof {
        assert(v@.to_multiset() == s1.to_multiset().insert(last).remove(first));
        assert(v@.to_multiset() =~= s0.to_multiset().remove(first));
        assert forall|j: int| 1 <= j < v@.len() && parent(j) != 0 implies v@[parent(j)].precedes(
            #[trigger] v@[j],
        ) by {
            assert(s0[parent(j)].precedes(s0[j]));
        }
    }
    let len = n - 1;
    let mut i: usize = 0;
    while i < len - 1 - i
        invariant
            len == v@.len(),
            len >= 1,
            i < len,
            s0 == old(v)@,
            s0.to_multiset().contains(first),
            forall|o: FrontierEntry| #[trigger] s0.to_multiset().contains(o) ==> first.precedes(o),
            v@.to_multiset() == s0.to_multiset().remove(first),
            ordered_below(v@, i as int),
        decreases len - i,
    {
        let left = 2 * i + 1;
        let right = left + 1;
        let child = if right < len && !v[left].comes_before(&v[right]) {
            right
        } else {
            left
        };
        if v[i].comes_before(&v[child]) {
            proof {
                let s = v@;
                assert forall|j: int| 1 <= j < s.len() implies s[parent(j)].precedes(
                    #[trigger] s[j],
                ) by {
                    if parent(j) == i {
                        assert(j == left || j == right);
                    }
                }
            }
            return Some(first);
        }
        let ghost before = v@;
        exchange(v, i, child);
        proof {
            let s = v@;
            assert(before[child as int].precedes(before[i as int]));
            assert forall|j: int| 1 <= j < s.len() && parent(j) != child implies s[parent(
                j,
            )].precedes(#[trigger] s[j]) by {
                if j == child {
                } else if parent(j) == i {
                    assert(j == left || j == right);
                } else if j == i {
                    assert(before[parent(i as int)].precedes(before[child as int]));
                } else {
                    assert(before[parent(j)].precedes(before[j]));
                }
            }
            assert forall|j: int|
                1 <= j < s.len() && parent(j) == child && child > 0 implies s[parent(
                child as int,
            )].precedes(#[trigger] s[j]) by {
                assert(before[child as int].precedes(before[j]));
            }
        }
        i = child;
    }
    proof {
        let s = v@;
        assert forall|j: int| 1 <= j < s.len() implies s[parent(j)].precedes(#[trigger] s[j]) by {
            if parent(j) == i {
                assert(j >= 2 * i + 1);
            }
        }
    }
    Some(first)
}

/// A min-priority queue of frontier entries. Equal entries may be held more
/// than once.
pub struct Frontier {
    heap: Vec<FrontierEntry>,
}

impl View for Frontier {
    type V = Multiset<FrontierEntry>;

    closed spec fn view(&self) -> Multiset<FrontierEntry> {
        self.heap@.to_multiset()
    }
}

impl Frontier {
    #[verifier::type_invariant]
    spec fn inv(self) -> bool {
        ordered(self.heap@)
    }

    /// An empty frontier.
    pub fn new() -> (f: Frontier)
        ensures
            f@ == Multiset::<FrontierEntry>::empty(),
    {
        let f = Frontier { heap: Vec::new() };
        assert(f.heap@.to_multiset() =~= Multiset::<FrontierEntry>::empty());
        f
    }

    /// The number of entries held.
    pub fn len(&self) -> (n: usize)
        ensures
            n == self@.len(),
    {
        self.heap.len()
    }

    /// Whether no entry is held.
    pub fn is_empty(&self) -> (b: bool)
        ensures
            b == (self@.len() == 0),
    {
        self.heap.len() == 0
    }

    /// Adds `entry`.
    pub fn push(&mut self, entry: FrontierEntry)
        ensures
            final(self)@ == old(self)@.insert(entry),
    {
        proof {
            use_type_invariant(&*self);
        }
        let mut heap: Vec<FrontierEntry> = Vec::new();
        std::mem::swap(&mut self.heap, &mut heap);
        heap_insert(&mut heap, entry);
        std::mem::swap(&mut self.heap, &mut heap);
    }

    /// Takes out the entry that precedes all others; `None` where the
    /// frontier is empty.
    pub fn pop_min(&mut self) -> (r: Option<FrontierEntry>)
        ensures
            match r {
                None => old(self)@.len() == 0 && final(self)@ == old(self)@,
                Some(e) => {
                    &&& old(self)@.contains(e)
                    &&& final(self)@ == old(self)@.remove(e)
                    &&& forall|o: FrontierEntry| #[trigger] old(self)@.contains(o) ==> e.precedes(o)
                },
            },
    {
        proof {
            use_type_invariant(&*self);
        }
        let mut heap: Vec<FrontierEntry> = Vec::new();
        std::mem::swap(&mut self.heap, &mut heap);
        let first = heap_take_first(&mut heap);
        std::mem::swap(&mut self.heap, &mut heap);
        first
    }
}

} // verus!
