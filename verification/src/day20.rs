//! Modules that pass pulses on: a broadcaster, flip-flops and conjunctions.
use crate::day8::{checked_lcm, lcm_of};
use crate::text::{
    chars_of, code_of, copy_range, equals_str, find_name, first_match, lines, lines_of, number,
    number_of, place, split_at_text, split_on_text, views,
};
use vstd::prelude::*;

verus! {

/// What a module does with a pulse.
#[derive(Clone, Copy, Debug, PartialEq, Eq)]
pub enum Kind {
    /// Sends a low pulse on to every module it names.
    Broadcaster,
    /// Ignores high pulses; a low pulse switches it, and it sends high
    /// where it is then on, low where it is then off.
    FlipFlop,
    /// Remembers the last pulse from each module that names it, and sends
    /// low where all of them are high, else high.
    Conjunction,
    /// A module with a sign that is none of these.
    Other,
    /// A name that no line describes.
    Absent,
}

/// The modules, by number: their names, what they do, and the numbers of
/// the modules that each names.
pub struct Network {
    pub names: Vec<Vec<char>>,
    pub kinds: Vec<Kind>,
    pub targets: Vec<Vec<usize>>,
}

/// The modules as plain values.
pub struct Net {
    pub names: Seq<Seq<char>>,
    pub kinds: Seq<Kind>,
    pub targets: Seq<Seq<usize>>,
}

/// A pulse: the number of the module it goes to, the number of the module
/// it comes from, and whether it is high. The button has the number that
/// follows those of the modules.
pub type Pulse = (usize, usize, bool);

/// What the modules remember: which flip-flops are on, and for each module
/// the last pulse from each other, and from which a pulse is remembered.
pub struct State {
    pub flips: Vec<bool>,
    pub mem: Vec<Vec<bool>>,
    pub known: Vec<Vec<bool>>,
}

/// What the modules remember, as plain values.
pub struct Memory {
    pub flips: Seq<bool>,
    pub mem: Seq<Seq<bool>>,
    pub known: Seq<Seq<bool>>,
}

/// What came of pressing the button: what the modules remember, the low
/// and the high pulses counted, and the modules from which a high pulse
/// went to the module watched.
pub struct Outcome {
    pub memory: Memory,
    pub lows: nat,
    pub highs: nat,
    pub seen: Seq<usize>,
}

impl Network {
    /// The modules as plain values.
    pub open spec fn view(&self) -> Net {
        Net { names: views(self.names@), kinds: self.kinds@, targets: views(self.targets@) }
    }
}

impl State {
    /// What the modules remember, as plain values.
    pub open spec fn view(&self) -> Memory {
        Memory { flips: self.flips@, mem: views(self.mem@), known: views(self.known@) }
    }
}

/// Every module has a name, a kind and a list, every number named is a
/// module's, and a number is left for the button.
pub open spec fn sound(net: Net) -> bool {
    &&& net.kinds.len() == net.names.len()
    &&& net.targets.len() == net.names.len()
    &&& net.names.len() < usize::MAX
    &&& forall|a: int, j: int|
        0 <= a < net.targets.len() && 0 <= j < net.targets[a].len() ==> (#[trigger] net.targets[a][j])
            < net.names.len()
}

/// The memory has a place for every module, and for every pair of a
/// module and a sender, the button among the senders.
pub open spec fn fits(net: Net, m: Memory) -> bool {
    &&& m.flips.len() == net.names.len()
    &&& m.mem.len() == net.names.len()
    &&& m.known.len() == net.names.len()
    &&& forall|a: int| 0 <= a < m.mem.len() ==> (#[trigger] m.mem[a]).len() == net.names.len() + 1
    &&& forall|a: int| 0 <= a < m.known.len() ==> (#[trigger] m.known[a]).len() == net.names.len() + 1
}

/// What the modules remember before the first pulse: every flip-flop is
/// off, and each module remembers a low pulse from each module that names
/// it.
pub open spec fn initial(net: Net) -> Memory {
    Memory {
        flips: Seq::new(net.names.len(), |a: int| false),
        mem: Seq::new(net.names.len(), |a: int| Seq::new(net.names.len() + 1, |b: int| false)),
        known: Seq::new(
            net.names.len(),
            |a: int|
                Seq::new(
                    net.names.len() + 1,
                    |b: int| 0 <= b < net.targets.len() && net.targets[b].contains(a as usize),
                ),
        ),
    }
}

/// Every pulse remembered is high.
pub open spec fn all_high(known: Seq<bool>, mem: Seq<bool>) -> bool {
    forall|a: int| 0 <= a < known.len() && #[trigger] known[a] ==> mem[a]
}

/// A pulse is remembered.
pub open spec fn any_known(known: Seq<bool>) -> bool {
    exists|a: int| 0 <= a < known.len() && #[trigger] known[a]
}

/// The pulses that module `from` sends to the modules it names.
pub open spec fn sent(targets: Seq<usize>, from: usize, high: bool) -> Seq<Pulse> {
    Seq::new(targets.len(), |i: int| (targets[i], from, high))
}

/// What a pulse does where it arrives: what the modules remember then,
/// and the pulses sent on. Nothing where it arrives at a module with an
/// unknown sign, or at a conjunction that no module names.
pub open spec fn deliver(net: Net, m: Memory, p: Pulse) -> Option<(Memory, Seq<Pulse>)> {
    let to = p.0 as int;
    match net.kinds[to] {
        Kind::Absent => Some((m, Seq::empty())),
        Kind::Broadcaster => Some((m, sent(net.targets[to], p.0, false))),
        Kind::FlipFlop => if p.2 {
            Some((m, Seq::empty()))
        } else {
            Some(
                (
                    Memory { flips: m.flips.update(to, !m.flips[to]), mem: m.mem, known: m.known },
                    sent(net.targets[to], p.0, !m.flips[to]),
                ),
            )
        },
        Kind::Conjunction => if !any_known(m.known[to]) {
            None
        } else {
            let known = m.known[to].update(p.1 as int, true);
            let mem = m.mem[to].update(p.1 as int, p.2);
            Some(
                (
                    Memory { flips: m.flips, mem: m.mem.update(to, mem), known: m.known.update(to, known) },
                    sent(net.targets[to], p.0, !all_high(known, mem)),
                ),
            )
        },
        Kind::Other => None,
    }
}

/// What comes of the pulses that wait, delivered one after the other,
/// those that a pulse sends waiting behind the others. Nothing where a
/// pulse cannot be delivered, or where more low or more high pulses would
/// be counted than a number can hold.
pub open spec fn run(
    net: Net,
    m: Memory,
    queue: Seq<Pulse>,
    lows: nat,
    highs: nat,
    watch: usize,
    seen: Seq<usize>,
) -> Option<Outcome>
    decreases 2 * usize::MAX - lows - highs,
{
    if queue.len() == 0 {
        Some(Outcome { memory: m, lows, highs, seen })
    } else if lows > usize::MAX || highs > usize::MAX {
        None
    } else {
        let p = queue[0];
        if (p.2 && highs == usize::MAX) || (!p.2 && lows == usize::MAX) {
            None
        } else {
            match deliver(net, m, p) {
                None => None,
                Some(next) => run(
                    net,
                    next.0,
                    queue.drop_first() + next.1,
                    if p.2 {
                        lows
                    } else {
                        lows + 1
                    },
                    if p.2 {
                        highs + 1
                    } else {
                        highs
                    },
                    watch,
                    if p.2 && p.0 == watch {
                        seen.push(p.1)
                    } else {
                        seen
                    },
                ),
            }
        }
    }
}

/// The pulse that the button sends to the module `start`.
pub open spec fn button(net: Net, start: usize) -> Seq<Pulse> {
    seq![(start, net.names.len() as usize, false)]
}

/// Sends a pulse from `from` to each of `targets`.
fn send(queue: &mut Vec<Pulse>, targets: &Vec<usize>, from: usize, high: bool)
    ensures
        final(queue)@ == old(queue)@ + sent(targets@, from, high),
{
    let mut i: usize = 0;
    while i < targets.len()
        invariant
            i <= targets@.len(),
            queue@ == old(queue)@ + sent(targets@, from, high).take(i as int),
        decreases targets@.len() - i,
    {
        queue.push((targets[i], from, high));
        assert(queue@ =~= old(queue)@ + sent(targets@, from, high).take(i + 1));
        i += 1;
    }
    assert(sent(targets@, from, high).take(i as int) =~= sent(targets@, from, high));
}

fn copy_flags(row: &Vec<bool>) -> (r: Vec<bool>)
    ensures
        r@ == row@,
{
    let mut r: Vec<bool> = Vec::new();
    let mut i: usize = 0;
    while i < row.len()
        invariant
            i <= row@.len(),
            r@ == row@.take(i as int),
        decreases row@.len() - i,
    {
        r.push(row[i]);
        assert(row@.take(i + 1) =~= row@.take(i as int).push(row@[i as int]));
        i += 1;
    }
    assert(row@.take(i as int) =~= row@);
    r
}

fn some_known(known: &Vec<bool>) -> (r: bool)
    ensures
        r == any_known(known@),
{
    let mut i: usize = 0;
    while i < known.len()
        invariant
            i <= known@.len(),
            forall|a: int| 0 <= a < i ==> !known@[a],
        decreases known@.len() - i,
    {
        if known[i] {
            return true;
        }
        i += 1;
    }
    false
}

fn every_high(known: &Vec<bool>, mem: &Vec<bool>) -> (r: bool)
    requires
        known@.len() == mem@.len(),
    ensures
        r == all_high(known@, mem@),
{
    let mut i: usize = 0;
    while i < known.len()
        invariant
            i <= known@.len(),
            known@.len() == mem@.len(),
            forall|a: int| 0 <= a < i && #[trigger] known@[a] ==> mem@[a],
        decreases known@.len() - i,
    {
        if known[i] && !mem[i] {
            return false;
        }
        i += 1;
    }
    true
}

/// Delivers one pulse, and lets the pulses that it sends wait. `false`
/// where it cannot be delivered.
fn deliver_pulse(net: &Network, state: &mut State, p: Pulse, queue: &mut Vec<Pulse>) -> (ok: bool)
    requires
        sound(net@),
        fits(net@, old(state)@),
        p.0 < net.names@.len(),
        p.1 <= net.names@.len(),
    ensures
        match deliver(net@, old(state)@, p) {
            Some(next) => ok && final(state)@ == next.0 && final(queue)@ == old(queue)@ + next.1,
            None => !ok,
        },
        ok ==> fits(net@, final(state)@),
{
    let to = p.0;
    let ghost m = state@;
    assert(net@.targets[to as int] == net.targets@[to as int]@);
    assert(m.known[to as int] == state.known@[to as int]@);
    assert(m.mem[to as int] == state.mem@[to as int]@);
    match net.kinds[to] {
        Kind::Absent => {
            assert(queue@ =~= old(queue)@ + Seq::<Pulse>::empty());
            true
        },
        Kind::Broadcaster => {
            send(queue, &net.targets[to], to, false);
            true
        },
        Kind::FlipFlop => {
            if p.2 {
                assert(queue@ =~= old(queue)@ + Seq::<Pulse>::empty());
                true
            } else {
                let on = state.flips[to];
                state.flips.set(to, !on);
                send(queue, &net.targets[to], to, !on);
                true
            }
        },
        Kind::Conjunction => {
            if !some_known(&state.known[to]) {
                return false;
            }
            let mut known = copy_flags(&state.known[to]);
            let mut mem = copy_flags(&state.mem[to]);
            known.set(p.1, true);
            mem.set(p.1, p.2);
            let high = !every_high(&known, &mem);
            proof {
                assert(views(state.mem@.update(to as int, mem)) =~= m.mem.update(to as int, mem@));
                assert(views(state.known@.update(to as int, known)) =~= m.known.update(to as int, known@));
            }
            state.known.set(to, known);
            state.mem.set(to, mem);
            send(queue, &net.targets[to], to, high);
            proof {
                let after = state@;
                assert forall|a: int| 0 <= a < after.mem.len() implies (#[trigger] after.mem[a]).len()
                    == net@.names.len() + 1 by {
                    if a != to {
                        assert(after.mem[a] == m.mem[a]);
                    }
                }
                assert forall|a: int| 0 <= a < after.known.len() implies (#[trigger] after.known[a]).len()
                    == net@.names.len() + 1 by {
                    if a != to {
                        assert(after.known[a] == m.known[a]);
                    }
                }
            }
            true
        },
        Kind::Other => false,
    }
}

/// The pulses that wait go to modules, and come from modules or the button.
pub open spec fn addressed(net: Net, queue: Seq<Pulse>) -> bool {
    forall|i: int|
        0 <= i < queue.len() ==> (#[trigger] queue[i]).0 < net.names.len() && queue[i].1
            <= net.names.len()
}

/// Presses the button once: delivers its pulse to module `start` and every
/// pulse that follows from it; counts the pulses, and notes the modules
/// from which a high pulse goes to module `watch`. `false` where a pulse
/// cannot be delivered or cannot be counted.
pub fn press(
    net: &Network,
    state: &mut State,
    start: usize,
    watch: usize,
    lows: &mut usize,
    highs: &mut usize,
    seen: &mut Vec<usize>,
) -> (ok: bool)
    requires
        sound(net@),
        fits(net@, old(state)@),
        start < net.names@.len(),
    ensures
        match run(
            net@,
            old(state)@,
            button(net@, start),
            *old(lows) as nat,
            *old(highs) as nat,
            watch,
            old(seen)@,
        ) {
            Some(outcome) => ok && final(state)@ == outcome.memory && *final(lows) == outcome.lows
                && *final(highs) == outcome.highs && final(seen)@ == outcome.seen,
            None => !ok,
        },
        ok ==> fits(net@, final(state)@),
{
    let ghost goal = run(
        net@,
        state@,
        button(net@, start),
        *lows as nat,
        *highs as nat,
        watch,
        seen@,
    );
    let n = net.names.len();
    let mut queue: Vec<Pulse> = Vec::new();
    queue.push((start, n, false));
    let mut head: usize = 0;
    assert(queue@.subrange(0, 1) =~= button(net@, start));
    while head < queue.len()
        invariant
            head <= queue@.len(),
            n == net.names@.len(),
            sound(net@),
            fits(net@, state@),
            addressed(net@, queue@),
            run(
                net@,
                state@,
                queue@.subrange(head as int, queue@.len() as int),
                *lows as nat,
                *highs as nat,
                watch,
                seen@,
            ) == goal,
            goal == run(
                net@,
                old(state)@,
                button(net@, start),
                *old(lows) as nat,
                *old(highs) as nat,
                watch,
                old(seen)@,
            ),
        decreases 2 * usize::MAX - *lows - *highs,
    {
        let ghost waiting = queue@.subrange(head as int, queue@.len() as int);
        let ghost before = queue@;
        let ghost m0 = state@;
        let ghost l0 = *lows as nat;
        let ghost h0 = *highs as nat;
        let ghost s0 = seen@;
        let p = queue[head];
        assert(waiting[0] == p);
        head += 1;
        if p.2 {
            if *highs == usize::MAX {
                return false;
            }
            *highs = *highs + 1;
            if p.0 == watch {
                seen.push(p.1);
            }
        } else {
            if *lows == usize::MAX {
                return false;
            }
            *lows = *lows + 1;
        }
        if !deliver_pulse(net, state, p, &mut queue) {
            return false;
        }
        proof {
            let next = deliver(net@, m0, p)->0;
            let out = queue@.subrange(before.len() as int, queue@.len() as int);
            assert(out =~= next.1);
            assert(run(net@, m0, waiting, l0, h0, watch, s0) == run(
                net@,
                state@,
                waiting.drop_first() + next.1,
                *lows as nat,
                *highs as nat,
                watch,
                seen@,
            ));
            assert(queue@.subrange(head as int, queue@.len() as int) =~= waiting.drop_first() + out);
            assert(queue@ =~= before + out);
            assert forall|i: int| 0 <= i < queue@.len() implies (#[trigger] queue@[i]).0 < net@.names.len()
                && queue@[i].1 <= net@.names.len() by {
                if i < before.len() {
                    assert(queue@[i] == before[i]);
                } else {
                    assert(net@.targets[p.0 as int] == net.targets@[p.0 as int]@);
                }
            }
        }
    }
    assert(queue@.subrange(head as int, queue@.len() as int) =~= Seq::<Pulse>::empty());
    true
}

/// The names, kinds and lists held so far.
pub open spec fn net_of(names: Seq<Vec<char>>, kinds: Seq<Kind>, targets: Seq<Vec<usize>>) -> Net {
    Net { names: views(names), kinds, targets: views(targets) }
}

/// Every module has a name, a kind and a list, and every number named is
/// a module's.
pub open spec fn tidy(net: Net) -> bool {
    &&& net.kinds.len() == net.names.len()
    &&& net.targets.len() == net.names.len()
    &&& forall|a: int, j: int|
        0 <= a < net.targets.len() && 0 <= j < net.targets[a].len() ==> (#[trigger] net.targets[a][j])
            < net.names.len()
}

/// The kind that a module's sign stands for.
pub open spec fn sign_kind(c: char) -> Kind {
    if c == 'b' {
        Kind::Broadcaster
    } else if c == '%' {
        Kind::FlipFlop
    } else if c == '&' {
        Kind::Conjunction
    } else {
        Kind::Other
    }
}

/// The name and the kind that the left side of a line gives: the
/// broadcaster by its name, any other module by a sign before its name.
/// Nothing where the side is empty or begins with a character that takes
/// more than one byte.
pub open spec fn head_of(src: Seq<char>) -> Option<(Seq<char>, Kind)> {
    if src == "broadcaster"@ {
        Some((src, Kind::Broadcaster))
    } else if src.len() == 0 || src[0] as int >= 128 {
        None
    } else {
        Some((src.subrange(1, src.len() as int), sign_kind(src[0])))
    }
}

/// Notes `name`, unless it has been noted: a new name gets the next
/// number, and is the name of no module yet.
pub open spec fn noted(net: Net, name: Seq<char>) -> Net {
    if place(net.names, name).is_some() {
        net
    } else {
        Net {
            names: net.names.push(name),
            kinds: net.kinds.push(Kind::Absent),
            targets: net.targets.push(Seq::empty()),
        }
    }
}

/// Notes each of `names`, from the first on.
pub open spec fn noted_all(net: Net, names: Seq<Seq<char>>) -> Net
    decreases names.len(),
{
    if names.len() == 0 {
        net
    } else {
        noted(noted_all(net, names.drop_last()), names.last())
    }
}

/// The numbers under which `of` were noted.
pub open spec fn numbers(names: Seq<Seq<char>>, of: Seq<Seq<char>>) -> Seq<usize> {
    Seq::new(of.len(), |i: int| number(names, of[i]) as usize)
}

/// What the modules become with a line: a module, an arrow, and the names
/// of the modules it sends to, with a comma and a space between them. A
/// module described twice is as the later line says.
pub open spec fn with_line(net: Net, line: Seq<char>) -> Option<Net> {
    let pieces = split_on_text(line, " -> "@);
    if pieces.len() < 2 {
        None
    } else {
        match head_of(pieces[0]) {
            None => None,
            Some(head) => {
                let dests = split_on_text(line.subrange((pieces[0].len() + 4) as int, line.len() as int), ", "@);
                let named = noted_all(noted(net, head.0), dests);
                let id = number(named.names, head.0);
                Some(
                    Net {
                        names: named.names,
                        kinds: named.kinds.update(id, head.1),
                        targets: named.targets.update(id, numbers(named.names, dests)),
                    },
                )
            },
        }
    }
}

/// What the lines make of no modules.
pub open spec fn network_from(lines: Seq<Seq<char>>) -> Option<Net>
    decreases lines.len(),
{
    if lines.len() == 0 {
        Some(Net { names: Seq::empty(), kinds: Seq::empty(), targets: Seq::empty() })
    } else {
        match network_from(lines.drop_last()) {
            Some(net) => with_line(net, lines.last()),
            None => None,
        }
    }
}

/// The modules that `text` describes, the broadcaster's name among them
/// whether or not a line describes it. Nothing where a line has not the
/// form, or where no number is left for the button.
pub open spec fn network_of(text: Seq<char>) -> Option<Net> {
    match network_from(lines_of(text)) {
        Some(net) => {
            let full = noted(net, "broadcaster"@);
            if full.names.len() >= usize::MAX {
                None
            } else {
                Some(full)
            }
        },
        None => None,
    }
}

proof fn lemma_network_none(lines: Seq<Seq<char>>, k: int)
    requires
        0 <= k <= lines.len(),
        network_from(lines.take(k)).is_none(),
    ensures
        network_from(lines).is_none(),
    decreases lines.len(),
{
    if k == lines.len() {
        assert(lines.take(k) =~= lines);
    } else {
        assert(lines.drop_last().take(k) =~= lines.take(k));
        lemma_network_none(lines.drop_last(), k);
    }
}

/// Notes `name`, unless it has been noted.
fn note_name(names: &mut Vec<Vec<char>>, kinds: &mut Vec<Kind>, targets: &mut Vec<Vec<usize>>, name: &Vec<char>)
    requires
        tidy(net_of(old(names)@, old(kinds)@, old(targets)@)),
    ensures
        net_of(final(names)@, final(kinds)@, final(targets)@) == noted(
            net_of(old(names)@, old(kinds)@, old(targets)@),
            name@,
        ),
        tidy(net_of(final(names)@, final(kinds)@, final(targets)@)),
        final(names)@.len() > 0,
{
    let ghost before = net_of(names@, kinds@, targets@);
    match find_name(names, name) {
        Some(_) => {},
        None => {
            names.push(copy_range(name, 0, name.len()));
            kinds.push(Kind::Absent);
            targets.push(Vec::new());
            proof {
                assert(name@.subrange(0, name@.len() as int) =~= name@);
                assert(views(names@) =~= before.names.push(name@));
                assert(views(targets@) =~= before.targets.push(Seq::empty()));
                let after = net_of(names@, kinds@, targets@);
                assert forall|a: int, j: int|
                    0 <= a < after.targets.len() && 0 <= j < after.targets[a].len() implies (
                #[trigger] after.targets[a][j]) < after.names.len() by {
                    assert(after.targets[a][j] == before.targets[a][j]);
                }
            }
        },
    }
}

/// Reads the left side of a line.
fn read_head(src: &Vec<char>) -> (r: Option<(Vec<char>, Kind)>)
    ensures
        match r {
            Some(head) => head_of(src@) == Some((head.0@, head.1)),
            None => head_of(src@).is_none(),
        },
{
    if equals_str(src, "broadcaster") {
        let name = copy_range(src, 0, src.len());
        assert(src@.subrange(0, src@.len() as int) =~= src@);
        return Some((name, Kind::Broadcaster));
    }
    if src.len() == 0 {
        return None;
    }
    let c = src[0];
    if code_of(c) >= 128 {
        return None;
    }
    let kind = if c == 'b' {
        Kind::Broadcaster
    } else if c == '%' {
        Kind::FlipFlop
    } else if c == '&' {
        Kind::Conjunction
    } else {
        Kind::Other
    };
    Some((copy_range(src, 1, src.len()), kind))
}

/// Takes one line into the modules; says whether it has the form.
fn add_line(names: &mut Vec<Vec<char>>, kinds: &mut Vec<Kind>, targets: &mut Vec<Vec<usize>>, line: &Vec<char>) -> (ok: bool)
    requires
        tidy(net_of(old(names)@, old(kinds)@, old(targets)@)),
    ensures
        match with_line(net_of(old(names)@, old(kinds)@, old(targets)@), line@) {
            Some(net) => ok && net_of(final(names)@, final(kinds)@, final(targets)@) == net,
            None => !ok,
        },
        ok ==> tidy(net_of(final(names)@, final(kinds)@, final(targets)@)),
{
    let ghost net0 = net_of(names@, kinds@, targets@);
    proof {
        reveal_strlit(" -> ");
        reveal_strlit(", ");
        reveal_with_fuel(split_on_text, 2);
    }
    let parts = split_at_text(line, " -> ");
    if parts.len() < 2 {
        return false;
    }
    assert(views(parts@)[0] == parts@[0]@);
    let src = &parts[0];
    assert(src@.len() + 4 <= line@.len()) by {
        assert(src@ == parts@[0]@);
        assert(first_match(line@, " -> "@) <= line@.len());
        assert(line@.subrange(0, first_match(line@, " -> "@) as int).len() == first_match(line@, " -> "@));
    }
    let head = match read_head(src) {
        Some(head) => head,
        None => {
            return false;
        },
    };
    let total = line.len();
    let rest = copy_range(line, src.len() + 4, total);
    let dests = split_at_text(&rest, ", ");
    let ghost all = views(dests@);
    note_name(names, kinds, targets, &head.0);
    let ghost net1 = net_of(names@, kinds@, targets@);
    let mut i: usize = 0;
    while i < dests.len()
        invariant
            i <= dests@.len(),
            all == views(dests@),
            names@.len() > 0,
            tidy(net_of(names@, kinds@, targets@)),
            net_of(names@, kinds@, targets@) == noted_all(net1, all.take(i as int)),
        decreases dests@.len() - i,
    {
        assert(all.take(i + 1).drop_last() =~= all.take(i as int));
        assert(all.take(i + 1).last() == dests@[i as int]@);
        note_name(names, kinds, targets, &dests[i]);
        i += 1;
    }
    assert(all.take(i as int) =~= all);
    let ghost named = net_of(names@, kinds@, targets@);
    let id = number_of(names, &head.0);
    let mut list: Vec<usize> = Vec::new();
    let mut i: usize = 0;
    while i < dests.len()
        invariant
            i <= dests@.len(),
            all == views(dests@),
            names@.len() > 0,
            list@.len() == i,
            forall|k: int|
                0 <= k < i ==> list@[k] == number(views(names@), all[k]) as usize && list@[k] < names@.len(),
        decreases dests@.len() - i,
    {
        let d = number_of(names, &dests[i]);
        assert(all[i as int] == dests@[i as int]@);
        list.push(d);
        i += 1;
    }
    proof {
        assert(list@ =~= numbers(named.names, all));
        assert(views(targets@.update(id as int, list)) =~= named.targets.update(id as int, list@));
        let after = net_of(names@, kinds@.update(id as int, head.1), targets@.update(id as int, list));
        assert forall|a: int, j: int|
            0 <= a < after.targets.len() && 0 <= j < after.targets[a].len() implies (
        #[trigger] after.targets[a][j]) < after.names.len() by {
            if a != id {
                assert(after.targets[a][j] == named.targets[a][j]);
            }
        }
    }
    kinds.set(id, head.1);
    targets.set(id, list);
    true
}

/// Reads the modules, one from each line: a module, an arrow, and the
/// names of the modules it sends to. `None` where a line has not the form.
pub fn parse(input: &str) -> (r: Option<Network>)
    ensures
        match r {
            Some(net) => network_of(input@) == Some(net@) && sound(net@) && net@.names.len() > 0,
            None => network_of(input@).is_none(),
        },
{
    let chars = chars_of(input);
    let rows = lines(&chars);
    let ghost ls = views(rows@);
    let mut names: Vec<Vec<char>> = Vec::new();
    let mut kinds: Vec<Kind> = Vec::new();
    let mut targets: Vec<Vec<usize>> = Vec::new();
    let mut i: usize = 0;
    assert(ls.take(0) =~= Seq::<Seq<char>>::empty());
    assert(views(names@) =~= Seq::<Seq<char>>::empty());
    assert(views(targets@) =~= Seq::<Seq<usize>>::empty());
    while i < rows.len()
        invariant
            i <= rows@.len(),
            ls == views(rows@),
            ls == lines_of(input@),
            tidy(net_of(names@, kinds@, targets@)),
            network_from(ls.take(i as int)) == Some(net_of(names@, kinds@, targets@)),
        decreases rows@.len() - i,
    {
        assert(ls.take(i + 1).drop_last() =~= ls.take(i as int));
        assert(ls.take(i + 1).last() == rows@[i as int]@);
        if !add_line(&mut names, &mut kinds, &mut targets, &rows[i]) {
            proof {
                lemma_network_none(ls, i + 1);
            }
            return None;
        }
        i += 1;
    }
    assert(ls.take(i as int) =~= ls);
    let broadcaster = chars_of("broadcaster");
    note_name(&mut names, &mut kinds, &mut targets, &broadcaster);
    if names.len() == usize::MAX {
        return None;
    }
    Some(Network { names, kinds, targets })
}

fn names_it(list: &Vec<usize>, a: usize) -> (r: bool)
    ensures
        r == list@.contains(a),
{
    let mut i: usize = 0;
    while i < list.len()
        invariant
            i <= list@.len(),
            forall|k: int| 0 <= k < i ==> list@[k] != a,
        decreases list@.len() - i,
    {
        if list[i] == a {
            return true;
        }
        i += 1;
    }
    false
}

/// What the modules remember before the first pulse.
pub fn fresh(net: &Network) -> (state: State)
    requires
        sound(net@),
    ensures
        state@ == initial(net@),
        fits(net@, state@),
{
    let n = net.names.len();
    let mut flips: Vec<bool> = Vec::new();
    let mut mem: Vec<Vec<bool>> = Vec::new();
    let mut known: Vec<Vec<bool>> = Vec::new();
    let ghost want = initial(net@);
    let mut a: usize = 0;
    while a < n
        invariant
            a <= n,
            n == net.names@.len(),
            sound(net@),
            want == initial(net@),
            flips@.len() == a,
            mem@.len() == a,
            known@.len() == a,
            forall|x: int| 0 <= x < a ==> !flips@[x],
            forall|x: int| 0 <= x < a ==> (#[trigger] mem@[x])@ == want.mem[x],
            forall|x: int| 0 <= x < a ==> (#[trigger] known@[x])@ == want.known[x],
        decreases n - a,
    {
        let mut mem_row: Vec<bool> = Vec::new();
        let mut known_row: Vec<bool> = Vec::new();
        let mut b: usize = 0;
        while b < n
            invariant
                b <= n,
                a < n,
                n == net.names@.len(),
                sound(net@),
                want == initial(net@),
                mem_row@.len() == b,
                known_row@.len() == b,
                forall|y: int| 0 <= y < b ==> !mem_row@[y],
                forall|y: int| 0 <= y < b ==> known_row@[y] == want.known[a as int][y],
            decreases n - b,
        {
            assert(net@.targets[b as int] == net.targets@[b as int]@);
            mem_row.push(false);
            known_row.push(names_it(&net.targets[b], a));
            b += 1;
        }
        mem_row.push(false);
        known_row.push(false);
        assert(mem_row@ =~= want.mem[a as int]);
        assert(known_row@ =~= want.known[a as int]);
        flips.push(false);
        mem.push(mem_row);
        known.push(known_row);
        a += 1;
    }
    let state = State { flips, mem, known };
    proof {
        assert(state@.flips =~= want.flips);
        assert(state@.mem =~= want.mem);
        assert(state@.known =~= want.known);
    }
    state
}

/// The low and the high pulses counted after `times` more presses of the
/// button.
pub open spec fn pressed(net: Net, m: Memory, start: usize, times: nat, lows: nat, highs: nat) -> Option<
    (nat, nat),
>
    decreases times,
{
    if times == 0 {
        Some((lows, highs))
    } else {
        match run(net, m, button(net, start), lows, highs, net.names.len() as usize, Seq::empty()) {
            None => None,
            Some(outcome) => pressed(
                net,
                outcome.memory,
                start,
                (times - 1) as nat,
                outcome.lows,
                outcome.highs,
            ),
        }
    }
}

/// The number of the broadcaster.
pub open spec fn start_of(net: Net) -> usize {
    number(net.names, "broadcaster"@) as usize
}

/// The low pulses times the high pulses of a thousand presses of the
/// button.
pub open spec fn pulse_product(text: Seq<char>) -> Option<usize> {
    match network_of(text) {
        None => None,
        Some(net) => match pressed(net, initial(net), start_of(net), 1000, 0, 0) {
            None => None,
            Some(counts) => if counts.0 * counts.1 <= usize::MAX {
                Some((counts.0 * counts.1) as usize)
            } else {
                None
            },
        },
    }
}

/// Presses the button a thousand times and multiplies the low pulses
/// counted by the high ones. `None` where the text describes no modules, a
/// pulse cannot be delivered, or a number does not fit.
pub fn part1(input: &str) -> (r: Option<usize>)
    ensures
        r == pulse_product(input@),
{
    let net = match parse(input) {
        Some(net) => net,
        None => {
            return None;
        },
    };
    let broadcaster = chars_of("broadcaster");
    let start = number_of(&net.names, &broadcaster);
    let mut state = fresh(&net);
    let mut lows: usize = 0;
    let mut highs: usize = 0;
    let mut t: usize = 0;
    let ghost goal = pressed(net@, initial(net@), start, 1000, 0, 0);
    while t < 1000
        invariant
            t <= 1000,
            sound(net@),
            fits(net@, state@),
            start < net.names@.len(),
            start == start_of(net@),
            network_of(input@) == Some(net@),
            goal == pressed(net@, initial(net@), start, 1000, 0, 0),
            pressed(net@, state@, start, (1000 - t) as nat, lows as nat, highs as nat) == goal,
        decreases 1000 - t,
    {
        let mut seen: Vec<usize> = Vec::new();
        assert(seen@ =~= Seq::<usize>::empty());
        if !press(&net, &mut state, start, net.names.len(), &mut lows, &mut highs, &mut seen) {
            return None;
        }
        t += 1;
    }
    assert(highs * lows == lows * highs) by (nonlinear_arith);
    highs.checked_mul(lows)
}

/// The place of `x` among `feeders`.
pub open spec fn which(feeders: Seq<usize>, x: usize) -> Option<int>
    decreases feeders.len(),
{
    if feeders.len() == 0 {
        None
    } else {
        match which(feeders.drop_last(), x) {
            Some(i) => Some(i),
            None => if feeders.last() == x {
                Some(feeders.len() - 1)
            } else {
                None
            },
        }
    }
}

/// `cycles` after press `t`, in which high pulses went to the module
/// watched from the modules `seen`: each of `feeders` has the first press
/// in which one went from it. Nothing where one went from another module.
pub open spec fn noted_cycles(
    cycles: Seq<Option<usize>>,
    feeders: Seq<usize>,
    seen: Seq<usize>,
    t: usize,
) -> Option<Seq<Option<usize>>>
    decreases seen.len(),
{
    if seen.len() == 0 {
        Some(cycles)
    } else {
        match noted_cycles(cycles, feeders, seen.drop_last(), t) {
            None => None,
            Some(c) => match which(feeders, seen.last()) {
                None => None,
                Some(i) => if c[i].is_some() {
                    Some(c)
                } else {
                    Some(c.update(i, Some(t)))
                },
            },
        }
    }
}

/// Every feeder has its press.
pub open spec fn all_found(cycles: Seq<Option<usize>>) -> bool {
    forall|i: int| 0 <= i < cycles.len() ==> (#[trigger] cycles[i]).is_some()
}

/// The least common multiple of the presses, taken one after the other
/// from 1 on; nothing where one does not fit.
pub open spec fn common(cycles: Seq<Option<usize>>) -> Option<usize>
    decreases cycles.len(),
{
    if cycles.len() == 0 {
        Some(1)
    } else {
        match common(cycles.drop_last()) {
            None => None,
            Some(a) => if lcm_of(a as int, cycles.last()->0 as int) > usize::MAX {
                None
            } else {
                Some(lcm_of(a as int, cycles.last()->0 as int) as usize)
            },
        }
    }
}

/// Presses the button, after `t` presses, until a high pulse has gone to
/// the module `watch` from each of `feeders`, and gives the least common
/// multiple of the presses in which they first did. Nothing where a press
/// fails, where a high pulse goes there from another module, or where the
/// presses can be counted no further.
pub open spec fn hunt(
    net: Net,
    m: Memory,
    start: usize,
    watch: usize,
    feeders: Seq<usize>,
    cycles: Seq<Option<usize>>,
    t: nat,
) -> Option<usize>
    decreases usize::MAX - t,
{
    if t >= usize::MAX {
        None
    } else {
        match run(net, m, button(net, start), 0, 0, watch, Seq::empty()) {
            None => None,
            Some(outcome) => match noted_cycles(cycles, feeders, outcome.seen, (t + 1) as usize) {
                None => None,
                Some(c) => if all_found(c) {
                    common(c)
                } else {
                    hunt(net, outcome.memory, start, watch, feeders, c, t + 1)
                },
            },
        }
    }
}

/// The presses after which the modules `mk`, `fp`, `xt` and `zc` all send
/// a high pulse to the module `kl` together: the least common multiple of
/// the presses in which each first does. Nothing where the text describes
/// no modules or one of these names is missing.
pub open spec fn presses_needed(text: Seq<char>) -> Option<usize> {
    match network_of(text) {
        None => None,
        Some(net) => if place(net.names, "kl"@).is_some() && place(net.names, "mk"@).is_some() && place(
            net.names,
            "fp"@,
        ).is_some() && place(net.names, "xt"@).is_some() && place(net.names, "zc"@).is_some() {
            hunt(
                net,
                initial(net),
                start_of(net),
                number(net.names, "kl"@) as usize,
                seq![
                    number(net.names, "mk"@) as usize,
                    number(net.names, "fp"@) as usize,
                    number(net.names, "xt"@) as usize,
                    number(net.names, "zc"@) as usize,
                ],
                seq![None, None, None, None],
                0,
            )
        } else {
            None
        },
    }
}

proof fn lemma_which_stays(feeders: Seq<usize>, x: usize, k: int)
    requires
        0 <= k <= feeders.len(),
        which(feeders.take(k), x).is_some(),
    ensures
        which(feeders, x) == which(feeders.take(k), x),
    decreases feeders.len(),
{
    if k == feeders.len() {
        assert(feeders.take(k) =~= feeders);
    } else {
        assert(feeders.drop_last().take(k) =~= feeders.take(k));
        lemma_which_stays(feeders.drop_last(), x, k);
    }
}

fn find_feeder(feeders: &Vec<usize>, x: usize) -> (r: Option<usize>)
    ensures
        match r {
            Some(i) => which(feeders@, x) == Some(i as int) && i < feeders@.len(),
            None => which(feeders@, x).is_none(),
        },
{
    let mut i: usize = 0;
    assert(feeders@.take(0) =~= Seq::<usize>::empty());
    while i < feeders.len()
        invariant
            i <= feeders@.len(),
            which(feeders@.take(i as int), x).is_none(),
        decreases feeders@.len() - i,
    {
        assert(feeders@.take(i + 1).drop_last() =~= feeders@.take(i as int));
        assert(feeders@.take(i + 1).last() == feeders@[i as int]);
        if feeders[i] == x {
            proof {
                lemma_which_stays(feeders@, x, i + 1);
            }
            return Some(i);
        }
        i += 1;
    }
    assert(feeders@.take(i as int) =~= feeders@);
    None
}

/// Notes the press `t` for the feeders among `seen` that have none.
fn note_cycles(cycles: &mut Vec<Option<usize>>, feeders: &Vec<usize>, seen: &Vec<usize>, t: usize) -> (ok: bool)
    requires
        old(cycles)@.len() == feeders@.len(),
    ensures
        match noted_cycles(old(cycles)@, feeders@, seen@, t) {
            Some(c) => ok && final(cycles)@ == c,
            None => !ok,
        },
        final(cycles)@.len() == feeders@.len(),
{
    let mut i: usize = 0;
    assert(seen@.take(0) =~= Seq::<usize>::empty());
    while i < seen.len()
        invariant
            i <= seen@.len(),
            cycles@.len() == feeders@.len(),
            noted_cycles(old(cycles)@, feeders@, seen@.take(i as int), t) == Some(cycles@),
        decreases seen@.len() - i,
    {
        assert(seen@.take(i + 1).drop_last() =~= seen@.take(i as int));
        assert(seen@.take(i + 1).last() == seen@[i as int]);
        match find_feeder(feeders, seen[i]) {
            None => {
                proof {
                    lemma_cycles_none(old(cycles)@, feeders@, seen@, t, i + 1);
                }
                return false;
            },
            Some(at) => {
                if cycles[at].is_none() {
                    cycles.set(at, Some(t));
                }
            },
        }
        i += 1;
    }
    assert(seen@.take(i as int) =~= seen@);
    true
}

proof fn lemma_cycles_none(
    cycles: Seq<Option<usize>>,
    feeders: Seq<usize>,
    seen: Seq<usize>,
    t: usize,
    k: int,
)
    requires
        0 <= k <= seen.len(),
        noted_cycles(cycles, feeders, seen.take(k), t).is_none(),
    ensures
        noted_cycles(cycles, feeders, seen, t).is_none(),
    decreases seen.len(),
{
    if k == seen.len() {
        assert(seen.take(k) =~= seen);
    } else {
        assert(seen.drop_last().take(k) =~= seen.take(k));
        lemma_cycles_none(cycles, feeders, seen.drop_last(), t, k);
    }
}

fn found_all(cycles: &Vec<Option<usize>>) -> (r: bool)
    ensures
        r == all_found(cycles@),
{
    let mut i: usize = 0;
    while i < cycles.len()
        invariant
            i <= cycles@.len(),
            forall|k: int| 0 <= k < i ==> (#[trigger] cycles@[k]).is_some(),
        decreases cycles@.len() - i,
    {
        if cycles[i].is_none() {
            return false;
        }
        i += 1;
    }
    true
}

proof fn lemma_common_none(cycles: Seq<Option<usize>>, k: int)
    requires
        0 <= k <= cycles.len(),
        common(cycles.take(k)).is_none(),
    ensures
        common(cycles).is_none(),
    decreases cycles.len(),
{
    if k == cycles.len() {
        assert(cycles.take(k) =~= cycles);
    } else {
        assert(cycles.drop_last().take(k) =~= cycles.take(k));
        lemma_common_none(cycles.drop_last(), k);
    }
}

/// The least common multiple of the presses.
fn common_of(cycles: &Vec<Option<usize>>) -> (r: Option<usize>)
    requires
        all_found(cycles@),
    ensures
        r == common(cycles@),
{
    let mut acc: usize = 1;
    let mut i: usize = 0;
    assert(cycles@.take(0) =~= Seq::<Option<usize>>::empty());
    while i < cycles.len()
        invariant
            i <= cycles@.len(),
            all_found(cycles@),
            common(cycles@.take(i as int)) == Some(acc),
        decreases cycles@.len() - i,
    {
        assert(cycles@.take(i + 1).drop_last() =~= cycles@.take(i as int));
        assert(cycles@.take(i + 1).last() == cycles@[i as int]);
        let c = match cycles[i] {
            Some(c) => c,
            None => 0,
        };
        match checked_lcm(acc, c) {
            Some(l) => {
                acc = l;
            },
            None => {
                proof {
                    lemma_common_none(cycles@, i + 1);
                }
                return None;
            },
        }
        i += 1;
    }
    assert(cycles@.take(i as int) =~= cycles@);
    Some(acc)
}

/// Presses the button until the modules `mk`, `fp`, `xt` and `zc` have
/// each sent a high pulse to the module `kl`, and gives the least common
/// multiple of the presses in which each first did.
pub fn part2(input: &str) -> (r: Option<usize>)
    ensures
        r == presses_needed(input@),
{
    let net = match parse(input) {
        Some(net) => net,
        None => {
            return None;
        },
    };
    let broadcaster = chars_of("broadcaster");
    let start = number_of(&net.names, &broadcaster);
    let kl = find_name(&net.names, &chars_of("kl"));
    let mk = find_name(&net.names, &chars_of("mk"));
    let fp = find_name(&net.names, &chars_of("fp"));
    let xt = find_name(&net.names, &chars_of("xt"));
    let zc = find_name(&net.names, &chars_of("zc"));
    let (watch, feeders) = match (kl, mk, fp, xt, zc) {
        (Some(kl), Some(mk), Some(fp), Some(xt), Some(zc)) => {
            let mut feeders: Vec<usize> = Vec::new();
            feeders.push(mk);
            feeders.push(fp);
            feeders.push(xt);
            feeders.push(zc);
            (kl, feeders)
        },
        _ => {
            return None;
        },
    };
    let mut cycles: Vec<Option<usize>> = Vec::new();
    cycles.push(None);
    cycles.push(None);
    cycles.push(None);
    cycles.push(None);
    let mut state = fresh(&net);
    let ghost goal = hunt(net@, initial(net@), start, watch, feeders@, cycles@, 0);
    proof {
        assert(feeders@ =~= seq![
            number(net@.names, "mk"@) as usize,
            number(net@.names, "fp"@) as usize,
            number(net@.names, "xt"@) as usize,
            number(net@.names, "zc"@) as usize,
        ]);
        assert(cycles@ =~= seq![None, None, None, None]);
        assert(presses_needed(input@) == goal);
    }
    let mut t: usize = 0;
    loop
        invariant
            sound(net@),
            fits(net@, state@),
            start < net.names@.len(),
            cycles@.len() == feeders@.len(),
            presses_needed(input@) == goal,
            hunt(net@, state@, start, watch, feeders@, cycles@, t as nat) == goal,
        decreases usize::MAX - t,
    {
        if t == usize::MAX {
            return None;
        }
        let mut lows: usize = 0;
        let mut highs: usize = 0;
        let mut seen: Vec<usize> = Vec::new();
        assert(seen@ =~= Seq::<usize>::empty());
        if !press(&net, &mut state, start, watch, &mut lows, &mut highs, &mut seen) {
            return None;
        }
        if !note_cycles(&mut cycles, &feeders, &seen, t + 1) {
            return None;
        }
        if found_all(&cycles) {
            return common_of(&cycles);
        }
        t += 1;
    }
}

} // verus!
