//! Scratchcards: how many of a card's numbers are winning numbers.
use crate::text::{
    as_ints, chars_of, lemma_map_all_none, lemma_map_all_some, lemma_map_all_step, lines, lines_of,
    map_all, parse_all_unsigned, split, split_on, unsigned_reader, views, words, words_of,
};
use std::collections::HashMap;
use std::collections::HashSet;
use vstd::prelude::*;
use vstd::std_specs::iter::IteratorSpec;

verus! {

broadcast use vstd::std_specs::hash::group_hash_axioms;

/// A card: its number, the winning numbers, and the numbers one has.
#[derive(Debug)]
pub struct Card {
    pub id: usize,
    pub winning: HashSet<u32>,
    pub own: HashSet<u32>,
}

/// The number of the card's own numbers that are winning numbers.
pub open spec fn matches_of(card: Card) -> nat {
    card.own@.intersect(card.winning@).len()
}

/// The members of `set`, each once, in the order in which the set hands
/// them out.
pub fn members(set: &HashSet<u32>) -> (v: Vec<u32>)
    ensures
        v@.no_duplicates(),
        v@.to_set() == set@,
        v@.len() == set@.len(),
{
    let mut v: Vec<u32> = Vec::new();
    for x in it: set.iter()
        invariant
            it.seq().no_duplicates(),
            it.seq().unref().to_set() == set@,
            it.seq().len() == set@.len(),
            v@ == it.seq().unref().take(it.index()),
            it.seq().unref().take(it.seq().len() as int) == it.seq().unref(),
    {
        v.push(*x);
        assert(v@ =~= it.seq().unref().take(it.index() + 1));
    }
    v
}

/// The number of the card's own numbers that are winning numbers.
#[verifier::loop_isolation(false)]
pub fn matches(card: &Card) -> (n: usize)
    ensures
        n == matches_of(*card),
{
    let own = members(&card.own);
    let ghost both = card.own@.intersect(card.winning@);
    let ghost mut seen: Set<u32> = Set::empty();
    let mut n: usize = 0;
    let mut i: usize = 0;
    while i < own.len()
        invariant
            i <= own@.len(),
            n <= i,
            seen.finite(),
            n == seen.len(),
            forall|v: u32|
                seen.contains(v) <==> card.winning@.contains(v) && exists|j: int|
                    0 <= j < i && #[trigger] own@[j] == v,
        decreases own@.len() - i,
    {
        let x = own[i];
        if card.winning.contains(&x) {
            proof {
                assert(!seen.contains(x)) by {
                    if seen.contains(x) {
                        let j = choose|j: int| 0 <= j < i && #[trigger] own@[j] == x;
                        assert(own@[j] == own@[i as int]);
                    }
                }
                let before = seen;
                seen = before.insert(x);
                assert forall|v: u32|
                    seen.contains(v) <==> card.winning@.contains(v) && exists|j: int|
                        0 <= j < i + 1 && #[trigger] own@[j] == v by {
                    if before.contains(v) {
                        let j = choose|j: int| 0 <= j < i && #[trigger] own@[j] == v;
                        assert(own@[j] == v);
                    }
                    if v == x {
                        assert(own@[i as int] == v);
                    }
                }
            }
            n += 1;
        }
        i += 1;
    }
    proof {
        assert(seen =~= both) by {
            assert forall|v: u32| seen.contains(v) <==> both.contains(v) by {
                if both.contains(v) {
                    assert(own@.to_set().contains(v));
                    assert(own@.contains(v));
                    let j = choose|j: int| 0 <= j < own@.len() && own@[j] == v;
                    assert(own@[j] == v);
                }
                if seen.contains(v) {
                    let j = choose|j: int| 0 <= j < i && #[trigger] own@[j] == v;
                    assert(own@.contains(own@[j]));
                    assert(own@.to_set().contains(v));
                }
            }
        }
    }
    n
}

/// `2` to the power `k`.
pub open spec fn doubled(k: nat) -> nat
    decreases k,
{
    if k == 0 {
        1
    } else {
        2 * doubled((k - 1) as nat)
    }
}

/// The points of a card with `m` matches: none without a match, one for the
/// first match, and twice as many for each further match.
pub open spec fn points(m: nat) -> nat {
    if m == 0 {
        0
    } else {
        doubled((m - 1) as nat)
    }
}

/// The sum of the points of the first cards, as far as each card's points
/// and each sum fit in 32 bits: `None` from the first that does not.
pub open spec fn point_sum(cards: Seq<Card>) -> Option<int>
    decreases cards.len(),
{
    if cards.len() == 0 {
        Some(0int)
    } else {
        match point_sum(cards.drop_last()) {
            Some(s) => if matches_of(cards.last()) <= 32 && s + points(matches_of(cards.last()))
                <= u32::MAX {
                Some(s + points(matches_of(cards.last())))
            } else {
                None
            },
            None => None,
        }
    }
}

proof fn lemma_point_sum_stays_none(cards: Seq<Card>, k: int)
    requires
        0 <= k <= cards.len(),
        point_sum(cards.take(k)).is_none(),
    ensures
        point_sum(cards).is_none(),
    decreases cards.len() - k,
{
    if k < cards.len() {
        assert(cards.take(k + 1).drop_last() =~= cards.take(k));
        lemma_point_sum_stays_none(cards, k + 1);
    } else {
        assert(cards.take(k) =~= cards);
    }
}

/// A greater power of 2 is a greater number.
proof fn lemma_doubled_grows(a: nat, b: nat)
    requires
        a <= b,
    ensures
        1 <= doubled(a) <= doubled(b),
    decreases b,
{
    if a < b {
        lemma_doubled_grows(a, (b - 1) as nat);
    } else if a > 0 {
        lemma_doubled_grows((a - 1) as nat, (a - 1) as nat);
    }
}

/// `2` to the power 31.
proof fn lemma_doubled_31()
    ensures
        doubled(31) == 0x8000_0000,
{
    reveal_with_fuel(doubled, 33);
}

/// The points of a card with `m` matches, where it has at most 32.
fn points_for(m: usize) -> (p: u32)
    requires
        m <= 32,
    ensures
        p == points(m as nat),
{
    if m == 0 {
        return 0;
    }
    let mut p: u32 = 1;
    let mut k: usize = 0;
    while k < m - 1
        invariant
            k <= m - 1,
            m <= 32,
            p == doubled(k as nat),
        decreases m - 1 - k,
    {
        proof {
            lemma_doubled_grows((k + 1) as nat, 31);
            lemma_doubled_31();
        }
        p = p * 2;
        k += 1;
    }
    p
}

/// The sum of the points of the cards; `None` where a card has more than
/// 32 matches or the sum does not fit in 32 bits.
#[verifier::loop_isolation(false)]
pub fn solve_part1(input: &[Card]) -> (r: Option<u32>)
    ensures
        match r {
            Some(total) => point_sum(input@) == Some(total as int),
            None => point_sum(input@).is_none(),
        },
{
    let mut total: u32 = 0;
    let mut i: usize = 0;
    assert(input@.take(0) =~= Seq::<Card>::empty());
    while i < input.len()
        invariant
            i <= input@.len(),
            point_sum(input@.take(i as int)) == Some(total as int),
        decreases input@.len() - i,
    {
        proof {
            assert(input@.take(i + 1).drop_last() =~= input@.take(i as int));
            assert(input@.take(i + 1).last() == input@[i as int]);
        }
        let m = matches(&input[i]);
        let next = if m <= 32 {
            total.checked_add(points_for(m))
        } else {
            None
        };
        match next {
            Some(t) => {
                total = t;
            },
            None => {
                proof {
                    lemma_point_sum_stays_none(input@, i + 1);
                }
                return None;
            },
        }
        i += 1;
    }
    assert(input@.take(i as int) =~= input@);
    Some(total)
}

/// The key under which the copies of card `id` are counted: the lowest 32
/// bits of its number.
pub open spec fn key_of(id: int) -> u32 {
    (id % 0x1_0000_0000) as u32
}

/// The copies held of each card, by key, and the number of all copies.
pub struct Pile {
    pub copies: Map<u32, int>,
    pub total: int,
}

/// The pile after `amount` more copies of the card under `key`.
pub open spec fn gained(pile: Pile, key: u32, amount: int) -> Pile {
    Pile {
        copies: pile.copies.insert(
            key,
            if pile.copies.contains_key(key) {
                pile.copies[key] + amount
            } else {
                amount
            },
        ),
        total: pile.total + amount,
    }
}

/// The pile after `amount` more copies of each card from number `from` up
/// to, not including, number `to`.
pub open spec fn handed_out(pile: Pile, from: int, to: int, amount: int) -> Pile
    decreases to - from,
{
    if to <= from {
        pile
    } else {
        gained(handed_out(pile, from, to - 1, amount), key_of(to - 1), amount)
    }
}

/// The pile after the card has been scratched: one more copy of the card
/// itself; and, where it has matches, for each copy of it now held one more
/// copy of each of the cards that follow it, as many as it has matches but
/// none beyond the number `max_id`. `None` where a card number on the way
/// does not fit.
pub open spec fn scratched(pile: Pile, id: int, m: int, max_id: int) -> Option<Pile> {
    let with_me = gained(pile, key_of(id), 1);
    let mine = with_me.copies[key_of(id)];
    if m == 0 {
        Some(with_me)
    } else if id + 1 > usize::MAX || id + m > usize::MAX {
        None
    } else {
        let end = if id + m <= max_id {
            id + m
        } else {
            max_id
        };
        Some(handed_out(with_me, id + 1, end + 1, mine))
    }
}

/// The pile after all of `cards` have been scratched in order, as far as
/// the number of all copies fits in 32 bits.
pub open spec fn piled(cards: Seq<Card>, max_id: int) -> Option<Pile>
    decreases cards.len(),
{
    if cards.len() == 0 {
        Some(Pile { copies: Map::empty(), total: 0 })
    } else {
        match piled(cards.drop_last(), max_id) {
            Some(pile) => match scratched(
                pile,
                cards.last().id as int,
                matches_of(cards.last()) as int,
                max_id,
            ) {
                Some(next) => if next.total <= u32::MAX {
                    Some(next)
                } else {
                    None
                },
                None => None,
            },
            None => None,
        }
    }
}

/// The greatest number of the first `k` cards; 0 where there is none.
pub open spec fn greatest_id(cards: Seq<Card>, k: int) -> int
    decreases k,
{
    if k <= 0 {
        0
    } else if cards[k - 1].id > greatest_id(cards, k - 1) {
        cards[k - 1].id as int
    } else {
        greatest_id(cards, k - 1)
    }
}

/// The number of copies held in the end. `None` where there is no card, a
/// card number does not fit, or the number of copies does not fit in 32 bits.
pub open spec fn copies_in_all(cards: Seq<Card>) -> Option<int> {
    if cards.len() == 0 {
        None
    } else {
        match piled(cards, greatest_id(cards, cards.len() as int)) {
            Some(pile) => Some(pile.total),
            None => None,
        }
    }
}

proof fn lemma_piled_stays_none(cards: Seq<Card>, max_id: int, k: int)
    requires
        0 <= k <= cards.len(),
        piled(cards.take(k), max_id).is_none(),
    ensures
        piled(cards, max_id).is_none(),
    decreases cards.len() - k,
{
    if k < cards.len() {
        assert(cards.take(k + 1).drop_last() =~= cards.take(k));
        lemma_piled_stays_none(cards, max_id, k + 1);
    } else {
        assert(cards.take(k) =~= cards);
    }
}

/// Handing out copies never lowers the number of all copies.
proof fn lemma_handed_out_grows(pile: Pile, from: int, to: int, upto: int, amount: int)
    requires
        from <= to <= upto,
        0 <= amount,
    ensures
        handed_out(pile, from, to, amount).total <= handed_out(pile, from, upto, amount).total,
    decreases upto - to,
{
    if to < upto {
        lemma_handed_out_grows(pile, from, to, upto - 1, amount);
    }
}

/// The pile held in `map`, `total` copies in all.
spec fn pile_of(map: Map<u32, u32>, total: int) -> Pile {
    Pile { copies: Map::new(|k: u32| map.contains_key(k), |k: u32| map[k] as int), total }
}

/// Adds `amount` copies of the card under `key`.
fn gain(copies: &mut HashMap<u32, u32>, total: u32, key: u32, amount: u32) -> (r: Option<u32>)
    requires
        forall|k: u32| old(copies)@.contains_key(k) ==> old(copies)@[k] <= total,
    ensures
        match r {
            Some(t) => {
                &&& pile_of(final(copies)@, t as int) == gained(
                    pile_of(old(copies)@, total as int),
                    key,
                    amount as int,
                )
                &&& t == total + amount
                &&& forall|k: u32| final(copies)@.contains_key(k) ==> final(copies)@[k] <= t
            },
            None => total + amount > u32::MAX && final(copies)@ == old(copies)@,
        },
{
    let t = match total.checked_add(amount) {
        Some(t) => t,
        None => {
            return None;
        },
    };
    let held: u32 = match copies.get(&key) {
        Some(c) => *c,
        None => 0,
    };
    let ghost before = copies@;
    copies.insert(key, held + amount);
    proof {
        assert(pile_of(copies@, t as int).copies =~= gained(
            pile_of(before, total as int),
            key,
            amount as int,
        ).copies);
    }
    Some(t)
}

/// The number of copies held in the end.
#[verifier::loop_isolation(false)]
pub fn solve_part2(input: &[Card]) -> (r: Option<u32>)
    ensures
        match r {
            Some(total) => copies_in_all(input@) == Some(total as int),
            None => copies_in_all(input@).is_none(),
        },
{
    if input.len() == 0 {
        return None;
    }
    let mut max_id: usize = 0;
    let mut k: usize = 0;
    while k < input.len()
        invariant
            k <= input@.len(),
            max_id == greatest_id(input@, k as int),
        decreases input@.len() - k,
    {
        if input[k].id > max_id {
            max_id = input[k].id;
        }
        k += 1;
    }
    let mut copies: HashMap<u32, u32> = HashMap::new();
    let mut total: u32 = 0;
    let mut i: usize = 0;
    assert(input@.take(0) =~= Seq::<Card>::empty());
    assert(pile_of(copies@, 0).copies =~= Map::<u32, int>::empty());
    while i < input.len()
        invariant
            i <= input@.len(),
            piled(input@.take(i as int), max_id as int) == Some(pile_of(copies@, total as int)),
            forall|k: u32| copies@.contains_key(k) ==> copies@[k] <= total,
        decreases input@.len() - i,
    {
        proof {
            assert(input@.take(i + 1).drop_last() =~= input@.take(i as int));
            assert(input@.take(i + 1).last() == input@[i as int]);
        }
        let card = &input[i];
        let winning = matches(card);
        let ghost pile0 = pile_of(copies@, total as int);
        let key = (card.id as u64 % 0x1_0000_0000) as u32;
        let t1 = match gain(&mut copies, total, key, 1) {
            Some(t) => t,
            None => {
                proof {
                    let with_me = gained(pile0, key, 1);
                    if winning > 0 && card.id + 1 <= usize::MAX && card.id + winning
                        <= usize::MAX {
                        let end = if card.id + winning <= max_id {
                            card.id + winning
                        } else {
                            max_id as int
                        };
                        let mine = with_me.copies[key];
                        assert(0 <= mine) by {
                            if pile0.copies.contains_key(key) {
                                assert(copies@[key] >= 0);
                            }
                        }
                        if end + 1 >= card.id + 1 {
                            lemma_handed_out_grows(with_me, card.id + 1, card.id + 1, end + 1, mine);
                        }
                    }
                    lemma_piled_stays_none(input@, max_id as int, i + 1);
                }
                return None;
            },
        };
        total = t1;
        let ghost with_me = pile_of(copies@, total as int);
        let copies_of_me: u32 = match copies.get(&key) {
            Some(c) => *c,
            None => 0,
        };
        assert(with_me.copies.contains_key(key));
        assert(copies@.contains_key(key));
        assert(copies_of_me == with_me.copies[key]);
        if winning > 0 {
            let start = match card.id.checked_add(1) {
                Some(v) => v,
                None => {
                    proof {
                        lemma_piled_stays_none(input@, max_id as int, i + 1);
                    }
                    return None;
                },
            };
            let reach = match card.id.checked_add(winning) {
                Some(v) => v,
                None => {
                    proof {
                        lemma_piled_stays_none(input@, max_id as int, i + 1);
                    }
                    return None;
                },
            };
            let end = if reach <= max_id {
                reach
            } else {
                max_id
            };
            if start <= end {
                let mut j: usize = start;
                let mut done = false;
                while !done
                    invariant
                        start <= j <= end,
                        pile_of(copies@, total as int) == handed_out(
                            with_me,
                            start as int,
                            if done {
                                end + 1
                            } else {
                                j as int
                            },
                            copies_of_me as int,
                        ),
                        forall|k: u32| copies@.contains_key(k) ==> copies@[k] <= total,
                    decreases end - j, (if done { 0int } else { 1int }),
                {
                    let to = (j as u64 % 0x1_0000_0000) as u32;
                    match gain(&mut copies, total, to, copies_of_me) {
                        Some(t) => {
                            total = t;
                        },
                        None => {
                            proof {
                                lemma_handed_out_grows(
                                    with_me,
                                    start as int,
                                    j + 1,
                                    end + 1,
                                    copies_of_me as int,
                                );
                                lemma_piled_stays_none(input@, max_id as int, i + 1);
                            }
                            return None;
                        },
                    }
                    if j == end {
                        done = true;
                    } else {
                        j += 1;
                    }
                }
            }
        }
        i += 1;
    }
    assert(input@.take(i as int) =~= input@);
    Some(total)
}

/// The set of the numbers of 32 bits that the words of `text` write; `None`
/// where a word writes none.
pub open spec fn number_set(text: Seq<char>) -> Option<Set<u32>> {
    match map_all(words_of(text), unsigned_reader(u32::MAX as int)) {
        Some(numbers) => Some(Set::new(|v: u32| numbers.contains(v as int))),
        None => None,
    }
}

/// The numbers that `line` lists: after the first colon, the winning
/// numbers, a bar, and the numbers one has.
pub open spec fn listed(line: Seq<char>) -> Option<(Set<u32>, Set<u32>)> {
    let parts = split_on(line, ':');
    if parts.len() < 2 {
        None
    } else {
        let sides = split_on(parts[1], '|');
        if sides.len() < 2 {
            None
        } else {
            match (number_set(sides[0]), number_set(sides[1])) {
                (Some(winning), Some(own)) => Some((winning, own)),
                _ => None,
            }
        }
    }
}

/// Reads the numbers of a card.
pub open spec fn card_reader() -> spec_fn(Seq<char>) -> Option<(Set<u32>, Set<u32>)> {
    |line: Seq<char>| listed(line)
}

/// The winning numbers and own numbers of `cards`.
pub open spec fn cards_view(cards: Seq<Card>) -> Seq<(Set<u32>, Set<u32>)> {
    Seq::new(cards.len(), |i: int| (cards[i].winning@, cards[i].own@))
}

#[verifier::loop_isolation(false)]
fn read_set(text: &Vec<char>) -> (r: Option<HashSet<u32>>)
    ensures
        match r {
            Some(set) => number_set(text@) == Some(set@),
            None => number_set(text@).is_none(),
        },
{
    let found = words(text);
    let numbers = match parse_all_unsigned(&found, u32::MAX as u64) {
        Some(v) => v,
        None => {
            return None;
        },
    };
    let ghost ints = as_ints(numbers@);
    proof {
        let f = unsigned_reader(u32::MAX as int);
        lemma_map_all_some(views(found@), f);
        assert forall|k: int| 0 <= k < numbers@.len() implies #[trigger] numbers@[k] <= u32::MAX by {
            assert(f(views(found@)[k]) == Some(ints[k]));
        }
    }
    let mut set: HashSet<u32> = HashSet::new();
    let mut i: usize = 0;
    while i < numbers.len()
        invariant
            i <= numbers@.len(),
            forall|v: u32|
                set@.contains(v) <==> exists|k: int| 0 <= k < i && #[trigger] ints[k] == v as int,
        decreases numbers@.len() - i,
    {
        let ghost before = set@;
        let value = numbers[i] as u32;
        set.insert(value);
        proof {
            assert forall|v: u32|
                set@.contains(v) <==> exists|k: int| 0 <= k < i + 1 && #[trigger] ints[k] == v as int by {
                if before.contains(v) {
                    let k = choose|k: int| 0 <= k < i && #[trigger] ints[k] == v as int;
                    assert(ints[k] == v as int);
                }
                if v == value {
                    assert(ints[i as int] == v as int);
                }
            }
        }
        i += 1;
    }
    proof {
        assert(set@ =~= Set::new(|v: u32| ints.contains(v as int))) by {
            assert forall|v: u32| set@.contains(v) <==> ints.contains(v as int) by {
                if set@.contains(v) {
                    let k = choose|k: int| 0 <= k < i && #[trigger] ints[k] == v as int;
                    assert(ints[k] == v as int);
                }
                if ints.contains(v as int) {
                    let k = choose|k: int| 0 <= k < ints.len() && ints[k] == v as int;
                    assert(ints[k] == v as int);
                }
            }
        }
    }
    Some(set)
}

fn read_card(line: &Vec<char>, id: usize) -> (r: Option<Card>)
    ensures
        match r {
            Some(card) => listed(line@) == Some((card.winning@, card.own@)) && card.id == id,
            None => listed(line@).is_none(),
        },
{
    let parts = split(line, ':');
    if parts.len() < 2 {
        return None;
    }
    assert(views(parts@)[1] == parts@[1]@);
    let sides = split(&parts[1], '|');
    if sides.len() < 2 {
        return None;
    }
    assert(views(sides@)[0] == sides@[0]@);
    assert(views(sides@)[1] == sides@[1]@);
    match (read_set(&sides[0]), read_set(&sides[1])) {
        (Some(winning), Some(own)) => Some(Card { id, winning, own }),
        _ => None,
    }
}

/// Reads the cards, one from each line, numbered from 1; `None` where a
/// line is not as `listed` describes.
#[verifier::loop_isolation(false)]
pub fn generator(input: &str) -> (r: Option<Vec<Card>>)
    ensures
        match r {
            Some(cards) => {
                &&& map_all(lines_of(input@), card_reader()) == Some(cards_view(cards@))
                &&& forall|i: int| 0 <= i < cards@.len() ==> (#[trigger] cards@[i]).id == i + 1
            },
            None => map_all(lines_of(input@), card_reader()).is_none(),
        },
{
    let chars = chars_of(input);
    let ls = lines(&chars);
    let ghost rows = views(ls@);
    let ghost f = card_reader();
    let mut cards: Vec<Card> = Vec::new();
    let mut i: usize = 0;
    assert(rows.take(0) =~= Seq::<Seq<char>>::empty());
    assert(cards_view(cards@) =~= Seq::<(Set<u32>, Set<u32>)>::empty());
    while i < ls.len()
        invariant
            i <= ls@.len(),
            cards@.len() == i,
            map_all(rows.take(i as int), f) == Some(cards_view(cards@)),
            forall|k: int| 0 <= k < cards@.len() ==> (#[trigger] cards@[k]).id == k + 1,
        decreases ls@.len() - i,
    {
        proof {
            lemma_map_all_step(rows, f, i as int);
        }
        let ghost before = cards_view(cards@);
        match read_card(&ls[i], i + 1) {
            Some(card) => {
                let ghost entry = (card.winning@, card.own@);
                cards.push(card);
                assert(cards_view(cards@) =~= before.push(entry));
            },
            None => {
                proof {
                    lemma_map_all_none(rows, f, i + 1);
                }
                return None;
            },
        }
        i += 1;
    }
    assert(rows.take(i as int) =~= rows);
    Some(cards)
}

} // verus!
