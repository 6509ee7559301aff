//! Camel cards: hands of five cards, ranked by type and then card by card.
use crate::sorting::{sort_by_key, sorted_by_key};
use crate::text::{
    chars_of, lemma_map_all_none, lemma_map_all_step, lines, lines_of, map_all,
    parse_unsigned_wide, split, split_on, unsigned_of, views,
};
use vstd::prelude::*;

verus! {

/// A card, from the weakest label to the strongest.
#[derive(Clone, Copy, Debug, PartialEq, Eq, Structural, Hash)]
pub enum CamelCard {
    Two,
    Three,
    Four,
    Five,
    Six,
    Seven,
    Eight,
    Nine,
    Ten,
    Jack,
    Queen,
    King,
    Ace,
}

/// The type of a hand, from the weakest to the strongest.
#[derive(Clone, Copy, Debug, PartialEq, Eq, Structural, Hash)]
pub enum CamelHandType {
    HighCard,
    OnePair,
    TwoPair,
    ThreeOfAKind,
    FullHouse,
    FourOfAKind,
    FiveOfAKind,
}

/// Five cards.
#[derive(Clone, Copy, Debug)]
pub struct Hand {
    pub cards: [CamelCard; 5],
}

/// A hand and what was bid on it.
#[derive(Clone, Copy, Debug)]
pub struct Play {
    pub hand: Hand,
    pub bid: u128,
}

/// The card that `c` labels, if any.
pub open spec fn card_of(c: char) -> Option<CamelCard> {
    if c == '2' {
        Some(CamelCard::Two)
    } else if c == '3' {
        Some(CamelCard::Three)
    } else if c == '4' {
        Some(CamelCard::Four)
    } else if c == '5' {
        Some(CamelCard::Five)
    } else if c == '6' {
        Some(CamelCard::Six)
    } else if c == '7' {
        Some(CamelCard::Seven)
    } else if c == '8' {
        Some(CamelCard::Eight)
    } else if c == '9' {
        Some(CamelCard::Nine)
    } else if c == 'T' {
        Some(CamelCard::Ten)
    } else if c == 'J' {
        Some(CamelCard::Jack)
    } else if c == 'Q' {
        Some(CamelCard::Queen)
    } else if c == 'K' {
        Some(CamelCard::King)
    } else if c == 'A' {
        Some(CamelCard::Ace)
    } else {
        None
    }
}

/// The strength of a card: 0 for the weakest. Where `jokers` is set the jack
/// is a joker and the weakest card.
pub open spec fn card_strength(card: CamelCard, jokers: bool) -> int {
    match card {
        CamelCard::Two => 1,
        CamelCard::Three => 2,
        CamelCard::Four => 3,
        CamelCard::Five => 4,
        CamelCard::Six => 5,
        CamelCard::Seven => 6,
        CamelCard::Eight => 7,
        CamelCard::Nine => 8,
        CamelCard::Ten => 9,
        CamelCard::Jack => if jokers {
            0
        } else {
            10
        },
        CamelCard::Queen => 11,
        CamelCard::King => 12,
        CamelCard::Ace => 13,
    }
}

/// The strength of a hand type: 0 for the weakest.
pub open spec fn type_strength(t: CamelHandType) -> int {
    match t {
        CamelHandType::HighCard => 0,
        CamelHandType::OnePair => 1,
        CamelHandType::TwoPair => 2,
        CamelHandType::ThreeOfAKind => 3,
        CamelHandType::FullHouse => 4,
        CamelHandType::FourOfAKind => 5,
        CamelHandType::FiveOfAKind => 6,
    }
}

/// How often `card` occurs among `cards`.
pub open spec fn occurrences(cards: Seq<CamelCard>, card: CamelCard) -> int
    decreases cards.len(),
{
    if cards.len() == 0 {
        0
    } else {
        occurrences(cards.drop_last(), card) + if cards.last() == card {
            1int
        } else {
            0int
        }
    }
}

/// Whether `card` counts as a card of its own label: every card does, but
/// for the jack where `jokers` is set.
pub open spec fn counts(card: CamelCard, jokers: bool) -> bool {
    !(jokers && card is Jack)
}

/// The number of different labels among the first `k` of `cards`, jokers
/// left out.
pub open spec fn labels(cards: Seq<CamelCard>, k: int, jokers: bool) -> int
    decreases k,
{
    if k <= 0 {
        0
    } else {
        labels(cards, k - 1, jokers) + if counts(cards[k - 1], jokers) && occurrences(
            cards.take(k - 1),
            cards[k - 1],
        ) == 0 {
            1int
        } else {
            0int
        }
    }
}

/// The greatest number of times that one label occurs in `cards`, looking
/// at the labels of the first `k` cards and leaving jokers out.
pub open spec fn most(cards: Seq<CamelCard>, k: int, jokers: bool) -> int
    decreases k,
{
    if k <= 0 {
        0
    } else {
        let rest = most(cards, k - 1, jokers);
        let here = if counts(cards[k - 1], jokers) {
            occurrences(cards, cards[k - 1])
        } else {
            0
        };
        if here > rest {
            here
        } else {
            rest
        }
    }
}

/// The type of a hand with `kinds` different labels, the most frequent of
/// which occurs `highest` times. Pairs of numbers that no hand of five cards
/// gives stand for a high card.
pub open spec fn classify(kinds: int, highest: int) -> CamelHandType {
    if kinds == 4 && highest == 2 {
        CamelHandType::OnePair
    } else if kinds == 3 && highest == 2 {
        CamelHandType::TwoPair
    } else if kinds == 3 && highest == 3 {
        CamelHandType::ThreeOfAKind
    } else if kinds == 2 && highest == 3 {
        CamelHandType::FullHouse
    } else if kinds == 2 && highest == 4 {
        CamelHandType::FourOfAKind
    } else if kinds == 1 && highest == 5 {
        CamelHandType::FiveOfAKind
    } else {
        CamelHandType::HighCard
    }
}

/// The type of the hand `cards`. Where `jokers` is set each jack is a joker
/// and counts as one more of the most frequent other label; a hand of
/// jokers alone is five of a kind.
pub open spec fn hand_type_of(cards: Seq<CamelCard>, jokers: bool) -> CamelHandType {
    let wild = if jokers {
        occurrences(cards, CamelCard::Jack)
    } else {
        0
    };
    let highest = most(cards, cards.len() as int, jokers) + wild;
    let kinds = labels(cards, cards.len() as int, jokers) + if wild > 0 && most(
        cards,
        cards.len() as int,
        jokers,
    ) == 0 {
        1int
    } else {
        0int
    };
    classify(kinds, highest)
}

/// The number by which hands are ordered: its digits in base 14 are the
/// strength of the hand's type and then the strengths of its five cards, so
/// that a stronger type comes later and, within a type, the first card that
/// differs decides.
pub open spec fn hand_key(cards: Seq<CamelCard>, jokers: bool) -> int {
    ((((type_strength(hand_type_of(cards, jokers)) * 14 + card_strength(cards[0], jokers)) * 14
        + card_strength(cards[1], jokers)) * 14 + card_strength(cards[2], jokers)) * 14
        + card_strength(cards[3], jokers)) * 14 + card_strength(cards[4], jokers)
}

impl CamelCard {
    /// The card that `c` labels; `None` for any other character.
    pub fn from_char(c: char) -> (r: Option<CamelCard>)
        ensures
            r == card_of(c),
    {
        if c == '2' {
            Some(CamelCard::Two)
        } else if c == '3' {
            Some(CamelCard::Three)
        } else if c == '4' {
            Some(CamelCard::Four)
        } else if c == '5' {
            Some(CamelCard::Five)
        } else if c == '6' {
            Some(CamelCard::Six)
        } else if c == '7' {
            Some(CamelCard::Seven)
        } else if c == '8' {
            Some(CamelCard::Eight)
        } else if c == '9' {
            Some(CamelCard::Nine)
        } else if c == 'T' {
            Some(CamelCard::Ten)
        } else if c == 'J' {
            Some(CamelCard::Jack)
        } else if c == 'Q' {
            Some(CamelCard::Queen)
        } else if c == 'K' {
            Some(CamelCard::King)
        } else if c == 'A' {
            Some(CamelCard::Ace)
        } else {
            None
        }
    }

    /// The strength of the card.
    pub fn strength(self, jokers: bool) -> (s: u64)
        ensures
            s == card_strength(self, jokers),
    {
        match self {
            CamelCard::Two => 1,
            CamelCard::Three => 2,
            CamelCard::Four => 3,
            CamelCard::Five => 4,
            CamelCard::Six => 5,
            CamelCard::Seven => 6,
            CamelCard::Eight => 7,
            CamelCard::Nine => 8,
            CamelCard::Ten => 9,
            CamelCard::Jack => if jokers {
                0
            } else {
                10
            },
            CamelCard::Queen => 11,
            CamelCard::King => 12,
            CamelCard::Ace => 13,
        }
    }
}

impl CamelHandType {
    /// The strength of the type.
    pub fn strength(self) -> (s: u64)
        ensures
            s == type_strength(self),
    {
        match self {
            CamelHandType::HighCard => 0,
            CamelHandType::OnePair => 1,
            CamelHandType::TwoPair => 2,
            CamelHandType::ThreeOfAKind => 3,
            CamelHandType::FullHouse => 4,
            CamelHandType::FourOfAKind => 5,
            CamelHandType::FiveOfAKind => 6,
        }
    }

    /// The type with `kinds` different labels, the most frequent `highest` times.
    fn from_counts(kinds: usize, highest: usize) -> (t: CamelHandType)
        ensures
            t == classify(kinds as int, highest as int),
    {
        if kinds == 4 && highest == 2 {
            CamelHandType::OnePair
        } else if kinds == 3 && highest == 2 {
            CamelHandType::TwoPair
        } else if kinds == 3 && highest == 3 {
            CamelHandType::ThreeOfAKind
        } else if kinds == 2 && highest == 3 {
            CamelHandType::FullHouse
        } else if kinds == 2 && highest == 4 {
            CamelHandType::FourOfAKind
        } else if kinds == 1 && highest == 5 {
            CamelHandType::FiveOfAKind
        } else {
            CamelHandType::HighCard
        }
    }
}

/// A card occurs at most as often as there are cards.
proof fn lemma_occurrences_bound(cards: Seq<CamelCard>, card: CamelCard)
    ensures
        0 <= occurrences(cards, card) <= cards.len(),
    decreases cards.len(),
{
    if cards.len() > 0 {
        lemma_occurrences_bound(cards.drop_last(), card);
    }
}

impl Hand {
    /// How often `card` occurs among the first `upto` cards of the hand.
    fn count(&self, card: CamelCard, upto: usize) -> (n: usize)
        requires
            upto <= 5,
        ensures
            n == occurrences(self.cards@.take(upto as int), card),
            n <= upto,
    {
        let mut n: usize = 0;
        let mut i: usize = 0;
        while i < upto
            invariant
                i <= upto <= 5,
                n <= i,
                n == occurrences(self.cards@.take(i as int), card),
            decreases upto - i,
        {
            proof {
                assert(self.cards@.take(i + 1).drop_last() =~= self.cards@.take(i as int));
                assert(self.cards@.take(i + 1).last() == self.cards@[i as int]);
            }
            if self.cards[i] == card {
                n += 1;
            }
            i += 1;
        }
        n
    }

    /// The type of the hand, with jacks as jokers where `jokers` is set.
    pub fn hand_type(&self, jokers: bool) -> (t: CamelHandType)
        ensures
            t == hand_type_of(self.cards@, jokers),
    {
        let ghost cards = self.cards@;
        assert(cards.take(5) =~= cards);
        let mut kinds: usize = 0;
        let mut highest: usize = 0;
        let mut k: usize = 0;
        while k < 5
            invariant
                k <= 5,
                cards == self.cards@,
                cards.len() == 5,
                cards.take(5) == cards,
                kinds == labels(cards, k as int, jokers),
                highest == most(cards, k as int, jokers),
                kinds <= k,
                highest <= 5,
            decreases 5 - k,
        {
            let card = self.cards[k];
            let own = !(jokers && card == CamelCard::Jack);
            let earlier = self.count(card, k);
            let all = self.count(card, 5);
            if own && earlier == 0 {
                kinds += 1;
            }
            if own && all > highest {
                highest = all;
            }
            k += 1;
        }
        let wild = if jokers {
            self.count(CamelCard::Jack, 5)
        } else {
            0
        };
        let extra: usize = if wild > 0 && highest == 0 {
            1
        } else {
            0
        };
        CamelHandType::from_counts(kinds + extra, highest + wild)
    }

    /// The number by which the hand is ordered.
    pub fn key(&self, jokers: bool) -> (key: u64)
        ensures
            key == hand_key(self.cards@, jokers),
    {
        let t = self.hand_type(jokers).strength();
        let c0 = self.cards[0].strength(jokers);
        let c1 = self.cards[1].strength(jokers);
        let c2 = self.cards[2].strength(jokers);
        let c3 = self.cards[3].strength(jokers);
        let c4 = self.cards[4].strength(jokers);
        ((((t * 14 + c0) * 14 + c1) * 14 + c2) * 14 + c3) * 14 + c4
    }
}

/// The plays by what decides their rank: each play's key and its bid.
pub open spec fn keyed(plays: Seq<Play>, jokers: bool) -> Seq<(u64, u128)> {
    Seq::new(plays.len(), |i: int| (hand_key(plays[i].hand.cards@, jokers) as u64, plays[i].bid))
}

/// The total winnings of plays in the order `ranked`: each bid times its
/// rank, the first rank being 1.
pub open spec fn winnings(ranked: Seq<(u64, u128)>) -> int
    decreases ranked.len(),
{
    if ranked.len() == 0 {
        0
    } else {
        winnings(ranked.drop_last()) + ranked.len() * ranked.last().1
    }
}

/// The winnings of the first `k` plays never exceed those of all.
proof fn lemma_winnings_grow(ranked: Seq<(u64, u128)>, k: int)
    requires
        0 <= k <= ranked.len(),
    ensures
        0 <= winnings(ranked.take(k)) <= winnings(ranked),
    decreases ranked.len() - k,
{
    if k == ranked.len() {
        assert(ranked.take(k) =~= ranked);
        lemma_winnings_nonnegative(ranked);
    } else {
        lemma_winnings_grow(ranked, k + 1);
        assert(ranked.take(k + 1).drop_last() =~= ranked.take(k));
        lemma_winnings_nonnegative(ranked.take(k));
        assert(0 <= (k + 1) * ranked[k].1) by (nonlinear_arith)
            requires
                0 <= k,
                0 <= ranked[k].1,
        ;
    }
}

proof fn lemma_winnings_nonnegative(ranked: Seq<(u64, u128)>)
    ensures
        0 <= winnings(ranked),
    decreases ranked.len(),
{
    if ranked.len() > 0 {
        lemma_winnings_nonnegative(ranked.drop_last());
        assert(0 <= ranked.len() * ranked.last().1) by (nonlinear_arith)
            requires
                0 <= ranked.len(),
                0 <= ranked.last().1,
        ;
    }
}

/// `ranked` holds the plays of `plays`, each as its key and bid, from the
/// weakest hand to the strongest.
pub open spec fn is_ranking(ranked: Seq<(u64, u128)>, plays: Seq<Play>, jokers: bool) -> bool {
    sorted_by_key(ranked) && ranked.to_multiset() == keyed(plays, jokers).to_multiset()
}

/// The total winnings of `plays`, ranked from the weakest hand to the
/// strongest: for some such ranking, `Some` of its winnings, or `None` where
/// they do not fit in 128 bits. Hands that are equal card for card may rank
/// either way round.
pub fn total_winnings(plays: &[Play], jokers: bool) -> (r: Option<u128>)
    ensures
        exists|ranked: Seq<(u64, u128)>| #[trigger]
            is_ranking(ranked, plays@, jokers) && match r {
                Some(total) => total == winnings(ranked),
                None => winnings(ranked) > u128::MAX,
            },
{
    let mut pairs: Vec<(u64, u128)> = Vec::new();
    let mut i: usize = 0;
    while i < plays.len()
        invariant
            i <= plays@.len(),
            pairs@ == keyed(plays@, jokers).take(i as int),
        decreases plays@.len() - i,
    {
        let key = plays[i].hand.key(jokers);
        pairs.push((key, plays[i].bid));
        i += 1;
        assert(pairs@ =~= keyed(plays@, jokers).take(i as int));
    }
    assert(keyed(plays@, jokers).take(i as int) =~= keyed(plays@, jokers));
    sort_by_key(&mut pairs);
    let ghost ranked = pairs@;
    assert(is_ranking(ranked, plays@, jokers));
    let mut total: u128 = 0;
    let mut k: usize = 0;
    while k < pairs.len()
        invariant
            k <= pairs@.len(),
            ranked == pairs@,
            is_ranking(ranked, plays@, jokers),
            total == winnings(ranked.take(k as int)),
        decreases pairs@.len() - k,
    {
        proof {
            assert(ranked.take(k + 1).drop_last() =~= ranked.take(k as int));
            assert(ranked.take(k + 1).last() == ranked[k as int]);
        }
        let gain = (k as u128 + 1).checked_mul(pairs[k].1);
        let next = match gain {
            Some(g) => total.checked_add(g),
            None => None,
        };
        match next {
            Some(t) => {
                total = t;
            },
            None => {
                proof {
                    lemma_winnings_grow(ranked, k + 1);
                    lemma_winnings_nonnegative(ranked.take(k as int));
                }
                return None;
            },
        }
        k += 1;
    }
    assert(ranked.take(k as int) =~= ranked);
    Some(total)
}

/// The total winnings without jokers.
pub fn part1(input: &[Play]) -> (r: Option<u128>)
    ensures
        exists|ranked: Seq<(u64, u128)>| #[trigger]
            is_ranking(ranked, input@, false) && match r {
                Some(total) => total == winnings(ranked),
                None => winnings(ranked) > u128::MAX,
            },
{
    total_winnings(input, false)
}

/// The total winnings with jacks as jokers.
pub fn part2(input: &[Play]) -> (r: Option<u128>)
    ensures
        exists|ranked: Seq<(u64, u128)>| #[trigger]
            is_ranking(ranked, input@, true) && match r {
                Some(total) => total == winnings(ranked),
                None => winnings(ranked) > u128::MAX,
            },
{
    total_winnings(input, true)
}

/// Reads a card from its label.
pub open spec fn card_reader() -> spec_fn(char) -> Option<CamelCard> {
    |c: char| card_of(c)
}

/// The play that `line` writes: the labels of the cards, a space, and the
/// bid. The first piece must hold labels only, at least five of them, of
/// which the first five make the hand; the second piece is the bid, a whole
/// number of 128 bits.
pub open spec fn play_of(line: Seq<char>) -> Option<(Seq<CamelCard>, int)> {
    let pieces = split_on(line, ' ');
    if pieces.len() < 2 {
        None
    } else {
        match (map_all(pieces[0], card_reader()), unsigned_of(pieces[1], u128::MAX as int)) {
            (Some(cards), Some(bid)) => if cards.len() >= 5 {
                Some((cards.take(5), bid))
            } else {
                None
            },
            _ => None,
        }
    }
}

/// Reads a play from a line.
pub open spec fn play_reader() -> spec_fn(Seq<char>) -> Option<(Seq<CamelCard>, int)> {
    |line: Seq<char>| play_of(line)
}

/// The cards and bids of `plays`.
pub open spec fn plays_view(plays: Seq<Play>) -> Seq<(Seq<CamelCard>, int)> {
    Seq::new(plays.len(), |i: int| (plays[i].hand.cards@, plays[i].bid as int))
}

fn read_cards(labels: &Vec<char>) -> (r: Option<Vec<CamelCard>>)
    ensures
        match r {
            Some(cards) => map_all(labels@, card_reader()) == Some(cards@),
            None => map_all(labels@, card_reader()).is_none(),
        },
{
    let ghost f = card_reader();
    let mut cards: Vec<CamelCard> = Vec::new();
    let mut i: usize = 0;
    assert(labels@.take(0) =~= Seq::<char>::empty());
    while i < labels.len()
        invariant
            i <= labels@.len(),
            f == card_reader(),
            map_all(labels@.take(i as int), f) == Some(cards@),
        decreases labels@.len() - i,
    {
        proof {
            lemma_map_all_step(labels@, f, i as int);
        }
        match CamelCard::from_char(labels[i]) {
            Some(card) => {
                cards.push(card);
            },
            None => {
                proof {
                    lemma_map_all_none(labels@, f, i + 1);
                }
                return None;
            },
        }
        i += 1;
    }
    assert(labels@.take(i as int) =~= labels@);
    Some(cards)
}

fn read_play(line: &Vec<char>) -> (r: Option<Play>)
    ensures
        match r {
            Some(play) => play_of(line@) == Some((play.hand.cards@, play.bid as int)),
            None => play_of(line@).is_none(),
        },
{
    let pieces = split(line, ' ');
    if pieces.len() < 2 {
        return None;
    }
    assert(views(pieces@)[0] == pieces@[0]@);
    assert(views(pieces@)[1] == pieces@[1]@);
    let cards = match read_cards(&pieces[0]) {
        Some(c) => c,
        None => {
            return None;
        },
    };
    let bid = match parse_unsigned_wide(&pieces[1], u128::MAX) {
        Some(b) => b,
        None => {
            return None;
        },
    };
    if cards.len() < 5 {
        return None;
    }
    let hand = Hand { cards: [cards[0], cards[1], cards[2], cards[3], cards[4]] };
    assert(hand.cards@ =~= cards@.take(5));
    Some(Play { hand, bid })
}

/// Reads the plays, one from each line; `None` where a line is not as
/// `play_of` describes.
pub fn parse(input: &str) -> (r: Option<Vec<Play>>)
    ensures
        match r {
            Some(plays) => map_all(lines_of(input@), play_reader()) == Some(plays_view(plays@)),
            None => map_all(lines_of(input@), play_reader()).is_none(),
        },
{
    let chars = chars_of(input);
    let ls = lines(&chars);
    let ghost rows = views(ls@);
    let ghost f = play_reader();
    let mut plays: Vec<Play> = Vec::new();
    let mut i: usize = 0;
    assert(rows.take(0) =~= Seq::<Seq<char>>::empty());
    assert(plays_view(plays@) =~= Seq::<(Seq<CamelCard>, int)>::empty());
    while i < ls.len()
        invariant
            i <= ls@.len(),
            rows == views(ls@),
            rows == lines_of(input@),
            f == play_reader(),
            map_all(rows.take(i as int), f) == Some(plays_view(plays@)),
        decreases ls@.len() - i,
    {
        proof {
            lemma_map_all_step(rows, f, i as int);
        }
        let ghost before = plays_view(plays@);
        match read_play(&ls[i]) {
            Some(play) => {
                plays.push(play);
                assert(plays_view(plays@) =~= before.push((play.hand.cards@, play.bid as int)));
            },
            None => {
                proof {
                    lemma_map_all_none(rows, f, i + 1);
                }
                return None;
            },
        }
        i += 1;
    }
    assert(rows.take(i as int) =~= rows);
    Some(plays)
}

/// Reads the plays for the game with jokers. The text is read as `parse`
/// reads it: that a jack is a joker shows only when hands are ranked.
pub fn parse_with_jokers(input: &str) -> (r: Option<Vec<Play>>)
    ensures
        match r {
            Some(plays) => map_all(lines_of(input@), play_reader()) == Some(plays_view(plays@)),
            None => map_all(lines_of(input@), play_reader()).is_none(),
        },
{
    parse(input)
}

} // verus!
