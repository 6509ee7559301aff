//! The desert network: steps from node to node until an end node is reached.
use crate::text::{
    chars_of, copy_range, lemma_map_all_none, lemma_map_all_step, lines, lines_of, map_all,
    split_at_text, split_on_text, views,
};
use vstd::prelude::*;

verus! {

/// A node of the network: its name and the names of the nodes to its left
/// and right.
#[derive(Debug)]
pub struct Node {
    pub name: Vec<char>,
    pub left: Vec<char>,
    pub right: Vec<char>,
}

/// The nodes by name. Where a name occurs twice the later entry counts.
pub type Network = Vec<Node>;

/// A test of a node's name.
#[derive(Debug)]
pub enum NodeTest {
    /// The name is the one given.
    Named(Vec<char>),
    /// The name ends with the character given.
    EndsWith(char),
}

/// A node as its name and the names to its left and right.
pub type NodeView = (Seq<char>, Seq<char>, Seq<char>);

/// The nodes as names.
pub open spec fn network_view(network: Seq<Node>) -> Seq<NodeView> {
    Seq::new(network.len(), |i: int| (network[i].name@, network[i].left@, network[i].right@))
}

/// A test of a node's name, the name wanted as a sequence of characters.
pub enum Test {
    Named(Seq<char>),
    EndsWith(char),
}

impl View for NodeTest {
    type V = Test;

    open spec fn view(&self) -> Test {
        match self {
            NodeTest::Named(wanted) => Test::Named(wanted@),
            NodeTest::EndsWith(c) => Test::EndsWith(*c),
        }
    }
}

/// Whether the test holds of the name.
pub open spec fn holds_of(test: Test, name: Seq<char>) -> bool {
    match test {
        Test::Named(wanted) => name == wanted,
        Test::EndsWith(c) => name.len() > 0 && name.last() == c,
    }
}

/// The place of the last of the first `k` nodes that is named `name`.
pub open spec fn place_of(network: Seq<NodeView>, name: Seq<char>, k: int) -> Option<int>
    decreases k,
{
    if k <= 0 {
        None
    } else if network[k - 1].0 == name {
        Some(k - 1)
    } else {
        place_of(network, name, k - 1)
    }
}

/// The number of steps from the node `name` to the first node that `end`
/// holds of, having taken `steps` steps already, the next instruction being
/// the one at place `at`, and with at most `fuel` more steps to take.
/// An instruction `L` leads left, `R` leads right, and any other nowhere.
/// `None` where there are no instructions, a node is not in the network, or
/// the steps allowed do not reach an end.
pub open spec fn steps_from(
    network: Seq<NodeView>,
    instructions: Seq<char>,
    end: Test,
    name: Seq<char>,
    at: int,
    steps: int,
    fuel: nat,
) -> Option<int>
    decreases fuel,
{
    if instructions.len() == 0 {
        None
    } else if holds_of(end, name) {
        Some(steps)
    } else if fuel == 0 {
        None
    } else {
        match place_of(network, name, network.len() as int) {
            Some(i) => {
                let step = instructions[at];
                let next = if step == 'L' {
                    network[i].1
                } else if step == 'R' {
                    network[i].2
                } else {
                    name
                };
                steps_from(
                    network,
                    instructions,
                    end,
                    next,
                    if at + 1 == instructions.len() {
                        0
                    } else {
                        at + 1
                    },
                    steps + 1,
                    (fuel - 1) as nat,
                )
            },
            None => None,
        }
    }
}

/// The steps allowed: one for each pair of a node and an instruction, after
/// which a walk can only go round in a circle.
pub open spec fn allowance(nodes: int, instructions: int) -> nat {
    if nodes * instructions > usize::MAX {
        usize::MAX as nat
    } else {
        (nodes * instructions) as nat
    }
}

fn same_name(a: &Vec<char>, b: &Vec<char>) -> (r: bool)
    ensures
        r == (a@ == b@),
{
    if a.len() != b.len() {
        return false;
    }
    let mut i: usize = 0;
    while i < a.len()
        invariant
            i <= a@.len(),
            a@.len() == b@.len(),
            forall|k: int| 0 <= k < i ==> a@[k] == b@[k],
        decreases a@.len() - i,
    {
        if a[i] != b[i] {
            return false;
        }
        i += 1;
    }
    assert(a@ =~= b@);
    true
}

fn test_name(test: &NodeTest, name: &Vec<char>) -> (r: bool)
    ensures
        r == holds_of(test@, name@),
{
    match test {
        NodeTest::Named(wanted) => same_name(name, wanted),
        NodeTest::EndsWith(c) => name.len() > 0 && name[name.len() - 1] == *c,
    }
}

/// The place of the node named `name`.
#[verifier::loop_isolation(false)]
pub fn find_node(network: &Network, name: &Vec<char>) -> (r: Option<usize>)
    ensures
        match r {
            Some(at) => place_of(network_view(network@), name@, network@.len() as int) == Some(
                at as int,
            ) && at < network@.len(),
            None => place_of(network_view(network@), name@, network@.len() as int).is_none(),
        },
{
    let ghost all = network_view(network@);
    let mut k: usize = network.len();
    while k > 0
        invariant
            k <= network@.len(),
            place_of(all, name@, network@.len() as int) == place_of(all, name@, k as int),
        decreases k,
    {
        assert(all[k - 1].0 == network@[k - 1].name@);
        if same_name(&network[k - 1].name, name) {
            return Some(k - 1);
        }
        k -= 1;
    }
    None
}

/// The number of steps from `current_node` to the first node that
/// `is_end_node` holds of, following `instructions` over and over. `None`
/// where there are no instructions, a node met is not in the network, or
/// the walk would never end.
#[verifier::loop_isolation(false)]
pub fn calculate_steps(
    instructions: &Vec<char>,
    network: &Network,
    is_end_node: &NodeTest,
    current_node: &Vec<char>,
) -> (r: Option<usize>)
    ensures
        match r {
            Some(steps) => steps_from(
                network_view(network@),
                instructions@,
                is_end_node@,
                current_node@,
                0,
                0,
                allowance(network@.len() as int, instructions@.len() as int),
            ) == Some(steps as int),
            None => steps_from(
                network_view(network@),
                instructions@,
                is_end_node@,
                current_node@,
                0,
                0,
                allowance(network@.len() as int, instructions@.len() as int),
            ).is_none(),
        },
{
    let ghost all = network_view(network@);
    if instructions.len() == 0 {
        return None;
    }
    let limit: usize = match network.len().checked_mul(instructions.len()) {
        Some(v) => v,
        None => usize::MAX,
    };
    let mut fuel = limit;
    let mut steps: usize = 0;
    let mut at: usize = 0;
    let mut current: usize = 0;
    let mut name = copy_range(current_node, 0, current_node.len());
    assert(name@ =~= current_node@);
    loop
        invariant
            at < instructions@.len(),
            steps + fuel == limit,
            steps_from(all, instructions@, is_end_node@, current_node@, 0, 0, limit as nat)
                == steps_from(
                all,
                instructions@,
                is_end_node@,
                name@,
                at as int,
                steps as int,
                fuel as nat,
            ),
        decreases fuel,
    {
        if test_name(is_end_node, &name) {
            return Some(steps);
        }
        if fuel == 0 {
            return None;
        }
        let i = match find_node(network, &name) {
            Some(i) => i,
            None => {
                return None;
            },
        };
        assert(all[i as int] == (network@[i as int].name@, network@[i as int].left@, network@[i as int].right@));
        let step = instructions[at];
        if step == 'L' {
            name = copy_range(&network[i].left, 0, network[i].left.len());
            assert(name@ =~= network@[i as int].left@);
        } else if step == 'R' {
            name = copy_range(&network[i].right, 0, network[i].right.len());
            assert(name@ =~= network@[i as int].right@);
        }
        at = if at + 1 == instructions.len() {
            0
        } else {
            at + 1
        };
        steps += 1;
        fuel -= 1;
    }
}

/// What `num::integer::gcd` gives for two numbers of the machine's word size.
pub uninterp spec fn gcd_of(a: int, b: int) -> int;

/// Calls `num::integer::gcd`. Its result is named, and is said to be at
/// least 1 unless both numbers are 0: the function gives the number that is
/// not 0 where one is 0, and otherwise a common divisor of two numbers that
/// are at least 1.
#[verifier::external_body]
fn gcd(a: usize, b: usize) -> (g: usize)
    ensures
        g == gcd_of(a as int, b as int),
        (a != 0 || b != 0) ==> g >= 1,
{
    num::integer::gcd(a, b)
}

/// The least common multiple as `num::integer::lcm` computes it: 0 for two
/// zeros, and otherwise the first number times the quotient of the second
/// by the greatest common divisor.
pub open spec fn lcm_of(a: int, b: int) -> int {
    if a == 0 && b == 0 {
        0
    } else {
        a * (b / gcd_of(a, b))
    }
}

/// Calls `num::integer::lcm`, which multiplies the first number by the
/// quotient of the second by their greatest common divisor, and gives 0 for
/// two zeros. The product must fit: the function does not check it.
#[verifier::external_body]
fn lcm(a: usize, b: usize) -> (l: usize)
    requires
        lcm_of(a as int, b as int) <= usize::MAX,
    ensures
        l == lcm_of(a as int, b as int),
{
    num::integer::lcm(a, b)
}

/// The least common multiple of `a` and `b`; `None` where it does not fit.
pub fn checked_lcm(a: usize, b: usize) -> (r: Option<usize>)
    ensures
        match r {
            Some(l) => l == lcm_of(a as int, b as int),
            None => lcm_of(a as int, b as int) > usize::MAX,
        },
{
    if a == 0 && b == 0 {
        return Some(lcm(a, b));
    }
    let g = gcd(a, b);
    let q = b / g;
    match a.checked_mul(q) {
        Some(_) => Some(lcm(a, b)),
        None => None,
    }
}

/// The least common multiple of all of `steps`, taken two at a time from
/// the first on. `None` where there is no number or a multiple does not fit.
pub open spec fn common_multiple(steps: Seq<int>) -> Option<int>
    decreases steps.len(),
{
    if steps.len() == 0 {
        None
    } else if steps.len() == 1 {
        Some(steps[0])
    } else {
        match common_multiple(steps.drop_last()) {
            Some(m) => if lcm_of(m, steps.last()) <= usize::MAX {
                Some(lcm_of(m, steps.last()))
            } else {
                None
            },
            None => None,
        }
    }
}

/// The numbers of steps from each node, in the order of the network, that
/// `start` holds of. `None` where a walk does not end.
pub open spec fn walks(
    network: Seq<NodeView>,
    instructions: Seq<char>,
    start: Test,
    end: Test,
    upto: int,
) -> Option<Seq<int>>
    decreases upto,
{
    if upto <= 0 {
        Some(Seq::empty())
    } else {
        match walks(network, instructions, start, end, upto - 1) {
            Some(found) => if holds_of(start, network[upto - 1].0) {
                match steps_from(
                    network,
                    instructions,
                    end,
                    network[upto - 1].0,
                    0,
                    0,
                    allowance(network.len() as int, instructions.len() as int),
                ) {
                    Some(n) => Some(found.push(n)),
                    None => None,
                }
            } else {
                Some(found)
            },
            None => None,
        }
    }
}

/// The least common multiple of the numbers of steps from each start node.
pub open spec fn network_steps(
    network: Seq<NodeView>,
    instructions: Seq<char>,
    start: Test,
    end: Test,
) -> Option<int> {
    match walks(network, instructions, start, end, network.len() as int) {
        Some(found) => common_multiple(found),
        None => None,
    }
}

proof fn lemma_walks_stay_none(
    network: Seq<NodeView>,
    instructions: Seq<char>,
    start: Test,
    end: Test,
    k: int,
    n: int,
)
    requires
        0 <= k <= n,
        walks(network, instructions, start, end, k).is_none(),
    ensures
        walks(network, instructions, start, end, n).is_none(),
    decreases n - k,
{
    if k < n {
        lemma_walks_stay_none(network, instructions, start, end, k, n - 1);
    }
}

proof fn lemma_common_multiple_stays_none(steps: Seq<int>, k: int)
    requires
        1 <= k <= steps.len(),
        common_multiple(steps.take(k)).is_none(),
    ensures
        common_multiple(steps).is_none(),
    decreases steps.len() - k,
{
    if k < steps.len() {
        assert(steps.take(k + 1).drop_last() =~= steps.take(k));
        lemma_common_multiple_stays_none(steps, k + 1);
    } else {
        assert(steps.take(k) =~= steps);
    }
}

/// The least common multiple of the numbers of steps that lead from each
/// node that `select_start_nodes` holds of to a node that `is_end_node`
/// holds of. `None` where there is no such start, a walk does not end, or a
/// multiple does not fit.
#[verifier::loop_isolation(false)]
pub fn walk_network(
    instructions: &Vec<char>,
    network: &Network,
    select_start_nodes: &NodeTest,
    is_end_node: &NodeTest,
) -> (r: Option<usize>)
    ensures
        match r {
            Some(v) => network_steps(
                network_view(network@),
                instructions@,
                select_start_nodes@,
                is_end_node@,
            ) == Some(v as int),
            None => network_steps(
                network_view(network@),
                instructions@,
                select_start_nodes@,
                is_end_node@,
            ).is_none(),
        },
{
    let ghost all = network_view(network@);
    let ghost mut found: Seq<int> = Seq::empty();
    let mut acc: Option<usize> = None;
    let mut failed = false;
    let mut i: usize = 0;
    while i < network.len()
        invariant
            i <= network@.len(),
            walks(all, instructions@, select_start_nodes@, is_end_node@, i as int) == Some(found),
            !failed ==> match acc {
                Some(m) => common_multiple(found) == Some(m as int),
                None => found.len() == 0,
            },
            failed ==> found.len() >= 1 && common_multiple(found).is_none(),
        decreases network@.len() - i,
    {
        assert(all[i as int].0 == network@[i as int].name@);
        if test_name(select_start_nodes, &network[i].name) {
            let steps = match calculate_steps(instructions, network, is_end_node, &network[i].name) {
                Some(v) => v,
                None => {
                    proof {
                        lemma_walks_stay_none(
                            all,
                            instructions@,
                            select_start_nodes@,
                            is_end_node@,
                            i + 1,
                            network@.len() as int,
                        );
                    }
                    return None;
                },
            };
            let ghost before = found;
            proof {
                found = before.push(steps as int);
                assert(found.drop_last() =~= before);
            }
            if !failed {
                match acc {
                    Some(m) => match checked_lcm(m, steps) {
                        Some(l) => {
                            acc = Some(l);
                        },
                        None => {
                            failed = true;
                        },
                    },
                    None => {
                        acc = Some(steps);
                    },
                }
            } else {
                proof {
                    assert(found.take(before.len() as int) =~= before);
                    lemma_common_multiple_stays_none(found, before.len() as int);
                }
            }
        }
        i += 1;
    }
    if failed {
        None
    } else {
        acc
    }
}

/// The node that `line` writes: a name, ` = (`, the name to the left, a
/// comma and a space, the name to the right, and `)`. No name is empty.
pub open spec fn node_of(line: Seq<char>) -> Option<NodeView> {
    let parts = split_on_text(line, " = ("@);
    if parts.len() != 2 {
        None
    } else {
        let sides = split_on_text(parts[1], ", "@);
        if sides.len() != 2 || sides[1].len() < 2 || sides[1].last() != ')' || parts[0].len() == 0
            || sides[0].len() == 0 {
            None
        } else {
            Some((parts[0], sides[0], sides[1].drop_last()))
        }
    }
}

/// Reads a node.
pub open spec fn node_reader() -> spec_fn(Seq<char>) -> Option<NodeView> {
    |line: Seq<char>| node_of(line)
}

/// The lines from the third on.
pub open spec fn after_two(lines: Seq<Seq<char>>) -> Seq<Seq<char>> {
    if lines.len() < 2 {
        Seq::empty()
    } else {
        lines.skip(2)
    }
}

/// The map that `text` writes: the instructions on its first line, and from
/// the third line on one node on each line.
pub open spec fn map_of(text: Seq<char>) -> Option<(Seq<char>, Seq<NodeView>)> {
    let ls = lines_of(text);
    if ls.len() == 0 {
        None
    } else {
        match map_all(after_two(ls), node_reader()) {
            Some(nodes) => Some((ls[0], nodes)),
            None => None,
        }
    }
}

fn read_node(line: &Vec<char>) -> (r: Option<Node>)
    ensures
        match r {
            Some(node) => node_of(line@) == Some((node.name@, node.left@, node.right@)),
            None => node_of(line@).is_none(),
        },
{
    proof {
        reveal_strlit(" = (");
        reveal_strlit(", ");
    }
    let parts = split_at_text(line, " = (");
    if parts.len() != 2 {
        return None;
    }
    assert(views(parts@)[0] == parts@[0]@);
    assert(views(parts@)[1] == parts@[1]@);
    let sides = split_at_text(&parts[1], ", ");
    if sides.len() != 2 {
        return None;
    }
    assert(views(sides@)[0] == sides@[0]@);
    assert(views(sides@)[1] == sides@[1]@);
    let last = &sides[1];
    if last.len() < 2 || last[last.len() - 1] != ')' || parts[0].len() == 0 || sides[0].len() == 0 {
        return None;
    }
    let name = copy_range(&parts[0], 0, parts[0].len());
    let left = copy_range(&sides[0], 0, sides[0].len());
    let right = copy_range(last, 0, last.len() - 1);
    assert(name@ =~= parts@[0]@);
    assert(left@ =~= sides@[0]@);
    assert(right@ =~= sides@[1]@.drop_last());
    Some(Node { name, left, right })
}

/// Reads the map; `None` where the text is not as `map_of` describes.
#[verifier::loop_isolation(false)]
pub fn parse(input: &str) -> (r: Option<(Vec<char>, Network)>)
    ensures
        match r {
            Some(map) => map_of(input@) == Some((map.0@, network_view(map.1@))),
            None => map_of(input@).is_none(),
        },
{
    let chars = chars_of(input);
    let ls = lines(&chars);
    let ghost rows = views(ls@);
    if ls.len() == 0 {
        return None;
    }
    assert(rows[0] == ls@[0]@);
    let instructions = copy_range(&ls[0], 0, ls[0].len());
    assert(instructions@ =~= ls@[0]@);
    let ghost rest = after_two(rows);
    let ghost f = node_reader();
    let mut network: Network = Vec::new();
    let mut i: usize = 2;
    assert(rest.take(0) =~= Seq::<Seq<char>>::empty());
    assert(network_view(network@) =~= Seq::<NodeView>::empty());
    while i < ls.len()
        invariant
            2 <= i,
            i <= ls@.len() || (ls@.len() < 2 && i == 2),
            map_all(rest.take(i - 2), f) == Some(network_view(network@)),
        decreases ls@.len() - i,
    {
        proof {
            lemma_map_all_step(rest, f, i - 2);
            assert(rest[i - 2] == ls@[i as int]@);
        }
        let ghost before = network_view(network@);
        match read_node(&ls[i]) {
            Some(node) => {
                let ghost entry = (node.name@, node.left@, node.right@);
                network.push(node);
                assert(network_view(network@) =~= before.push(entry));
            },
            None => {
                proof {
                    lemma_map_all_none(rest, f, i - 1);
                }
                return None;
            },
        }
        i += 1;
    }
    proof {
        if ls@.len() >= 2 {
            assert(rest.take(i - 2) =~= rest);
        } else {
            assert(rest.take(0) =~= rest);
        }
    }
    Some((instructions, network))
}

/// The number of steps from `AAA` to `ZZZ`.
pub fn part1(input: &(Vec<char>, Network)) -> (r: Option<usize>)
    ensures
        match r {
            Some(v) => network_steps(
                network_view(input.1@),
                input.0@,
                Test::Named("AAA"@),
                Test::Named("ZZZ"@),
            ) == Some(v as int),
            None => network_steps(
                network_view(input.1@),
                input.0@,
                Test::Named("AAA"@),
                Test::Named("ZZZ"@),
            ).is_none(),
        },
{
    let start = NodeTest::Named(name_aaa());
    let end = NodeTest::Named(name_zzz());
    walk_network(&input.0, &input.1, &start, &end)
}

fn name_aaa() -> (v: Vec<char>)
    ensures
        v@ == "AAA"@,
{
    chars_of("AAA")
}

fn name_zzz() -> (v: Vec<char>)
    ensures
        v@ == "ZZZ"@,
{
    chars_of("ZZZ")
}

/// The least number of steps after which walks from all nodes whose names
/// end in `A` stand on nodes whose names end in `Z`, where each walk comes
/// back to its end after as many steps as it first took to reach it.
pub fn part2(input: &(Vec<char>, Network)) -> (r: Option<usize>)
    ensures
        match r {
            Some(v) => network_steps(
                network_view(input.1@),
                input.0@,
                Test::EndsWith('A'),
                Test::EndsWith('Z'),
            ) == Some(v as int),
            None => network_steps(
                network_view(input.1@),
                input.0@,
                Test::EndsWith('A'),
                Test::EndsWith('Z'),
            ).is_none(),
        },
{
    let start = NodeTest::EndsWith('A');
    let end = NodeTest::EndsWith('Z');
    walk_network(&input.0, &input.1, &start, &end)
}

} // verus!
