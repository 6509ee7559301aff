//! Cube games: which games a bag allows, and the smallest bag for each game.
use crate::text::{
    chars_of, equals_str, lemma_map_all_none, lemma_map_all_step, lines, lines_of, map_all,
    parse_unsigned, split, split_on, trim, trimmed, unsigned_of, views,
};
use vstd::prelude::*;

verus! {

/// One handful of cubes: how many of each colour were shown, if any.
#[derive(Clone, Copy, Debug)]
pub struct GameRound {
    pub red: Option<u32>,
    pub blue: Option<u32>,
    pub green: Option<u32>,
}

/// A game: its number and its handfuls.
#[derive(Debug)]
pub struct Game {
    pub rounds: Vec<GameRound>,
    pub id: usize,
}

/// The number of cubes shown: 0 where none of the colour were.
pub open spec fn shown(count: Option<u32>) -> int {
    match count {
        Some(n) => n as int,
        None => 0,
    }
}

/// The handful shows no more of any colour than the bag holds.
pub open spec fn round_fits(round: GameRound, max_red: int, max_green: int, max_blue: int) -> bool {
    shown(round.red) <= max_red && shown(round.green) <= max_green && shown(round.blue) <= max_blue
}

/// Every handful fits the bag.
pub open spec fn game_fits(rounds: Seq<GameRound>, max_red: int, max_green: int, max_blue: int) -> bool {
    forall|i: int| 0 <= i < rounds.len() ==> round_fits(#[trigger] rounds[i], max_red, max_green, max_blue)
}

fn amount(count: Option<u32>) -> (n: u32)
    ensures
        n == shown(count),
{
    match count {
        Some(n) => n,
        None => 0,
    }
}

/// Whether a bag of `max_red`, `max_green` and `max_blue` cubes allows the game.
pub fn keep_game(game: &Game, max_red: u32, max_green: u32, max_blue: u32) -> (keep: bool)
    ensures
        keep == game_fits(game.rounds@, max_red as int, max_green as int, max_blue as int),
{
    let mut i: usize = 0;
    while i < game.rounds.len()
        invariant
            i <= game.rounds@.len(),
            game_fits(game.rounds@.take(i as int), max_red as int, max_green as int, max_blue as int),
        decreases game.rounds@.len() - i,
    {
        let round = &game.rounds[i];
        if amount(round.red) > max_red || amount(round.green) > max_green || amount(round.blue)
            > max_blue {
            assert(!round_fits(game.rounds@[i as int], max_red as int, max_green as int, max_blue as int));
            return false;
        }
        i += 1;
        assert forall|k: int| 0 <= k < i implies round_fits(
            #[trigger] game.rounds@.take(i as int)[k],
            max_red as int,
            max_green as int,
            max_blue as int,
        ) by {
            if k < i - 1 {
                assert(game.rounds@.take(i - 1)[k] == game.rounds@[k]);
            }
        }
    }
    assert(game.rounds@.take(i as int) =~= game.rounds@);
    true
}

/// The sum of the numbers of the games that a bag of 12 red, 13 green and
/// 14 blue cubes allows.
pub open spec fn allowed_id_sum(games: Seq<Game>) -> int
    decreases games.len(),
{
    if games.len() == 0 {
        0
    } else {
        allowed_id_sum(games.drop_last()) + if game_fits(games.last().rounds@, 12, 13, 14) {
            games.last().id as int
        } else {
            0
        }
    }
}

proof fn lemma_id_sum_grows(games: Seq<Game>, k: int)
    requires
        0 <= k <= games.len(),
    ensures
        0 <= allowed_id_sum(games.take(k)) <= allowed_id_sum(games),
    decreases games.len() - k,
{
    if k == games.len() {
        assert(games.take(k) =~= games);
        lemma_id_sum_nonnegative(games);
    } else {
        lemma_id_sum_grows(games, k + 1);
        assert(games.take(k + 1).drop_last() =~= games.take(k));
        lemma_id_sum_nonnegative(games.take(k));
    }
}

proof fn lemma_id_sum_nonnegative(games: Seq<Game>)
    ensures
        0 <= allowed_id_sum(games),
    decreases games.len(),
{
    if games.len() > 0 {
        lemma_id_sum_nonnegative(games.drop_last());
    }
}

/// The sum of the numbers of the games that a bag of 12 red, 13 green and
/// 14 blue cubes allows; `None` where it does not fit.
pub fn solve_part1(input: &[Game]) -> (r: Option<usize>)
    ensures
        match r {
            Some(total) => total == allowed_id_sum(input@),
            None => allowed_id_sum(input@) > usize::MAX,
        },
{
    let mut total: usize = 0;
    let mut i: usize = 0;
    while i < input.len()
        invariant
            i <= input@.len(),
            total == allowed_id_sum(input@.take(i as int)),
        decreases input@.len() - i,
    {
        proof {
            assert(input@.take(i + 1).drop_last() =~= input@.take(i as int));
            assert(input@.take(i + 1).last() == input@[i as int]);
        }
        if keep_game(&input[i], 12, 13, 14) {
            match total.checked_add(input[i].id) {
                Some(next) => {
                    total = next;
                },
                None => {
                    proof {
                        lemma_id_sum_grows(input@, i + 1);
                    }
                    return None;
                },
            }
        }
        i += 1;
    }
    assert(input@.take(i as int) =~= input@);
    Some(total)
}

/// The most cubes of one colour shown in any of `rounds`, the colour picked
/// by `colour`: 0 for red, 1 for green, and blue otherwise.
pub open spec fn most_shown(rounds: Seq<GameRound>, colour: int) -> int
    decreases rounds.len(),
{
    if rounds.len() == 0 {
        0
    } else {
        let rest = most_shown(rounds.drop_last(), colour);
        let here = shown(
            if colour == 0 {
                rounds.last().red
            } else if colour == 1 {
                rounds.last().green
            } else {
                rounds.last().blue
            },
        );
        if here > rest {
            here
        } else {
            rest
        }
    }
}

/// The power of a game: the product of the fewest red, green and blue cubes
/// that its handfuls allow.
pub open spec fn power(rounds: Seq<GameRound>) -> int {
    most_shown(rounds, 0) * most_shown(rounds, 1) * most_shown(rounds, 2)
}

/// The sum of the powers of the first games, as far as each power and the
/// sum fit in 32 bits: `None` from the first that does not.
pub open spec fn power_sum(games: Seq<Game>) -> Option<int>
    decreases games.len(),
{
    if games.len() == 0 {
        Some(0int)
    } else {
        match power_sum(games.drop_last()) {
            Some(s) => if most_shown(games.last().rounds@, 0) * most_shown(games.last().rounds@, 1)
                <= u32::MAX && power(games.last().rounds@) <= u32::MAX && s + power(
                games.last().rounds@,
            ) <= u32::MAX {
                Some(s + power(games.last().rounds@))
            } else {
                None
            },
            None => None,
        }
    }
}

/// The fewest cubes of each colour that the handfuls allow: red, green, blue.
pub fn fewest_cubes(game: &Game) -> (m: (u32, u32, u32))
    ensures
        m.0 == most_shown(game.rounds@, 0),
        m.1 == most_shown(game.rounds@, 1),
        m.2 == most_shown(game.rounds@, 2),
{
    let mut red: u32 = 0;
    let mut green: u32 = 0;
    let mut blue: u32 = 0;
    let mut i: usize = 0;
    while i < game.rounds.len()
        invariant
            i <= game.rounds@.len(),
            red == most_shown(game.rounds@.take(i as int), 0),
            green == most_shown(game.rounds@.take(i as int), 1),
            blue == most_shown(game.rounds@.take(i as int), 2),
        decreases game.rounds@.len() - i,
    {
        proof {
            assert(game.rounds@.take(i + 1).drop_last() =~= game.rounds@.take(i as int));
            assert(game.rounds@.take(i + 1).last() == game.rounds@[i as int]);
        }
        let round = &game.rounds[i];
        if amount(round.red) > red {
            red = amount(round.red);
        }
        if amount(round.green) > green {
            green = amount(round.green);
        }
        if amount(round.blue) > blue {
            blue = amount(round.blue);
        }
        i += 1;
    }
    assert(game.rounds@.take(i as int) =~= game.rounds@);
    (red, green, blue)
}

proof fn lemma_power_sum_stays_none(games: Seq<Game>, k: int)
    requires
        0 <= k <= games.len(),
        power_sum(games.take(k)).is_none(),
    ensures
        power_sum(games).is_none(),
    decreases games.len() - k,
{
    if k < games.len() {
        assert(games.take(k + 1).drop_last() =~= games.take(k));
        lemma_power_sum_stays_none(games, k + 1);
    } else {
        assert(games.take(k) =~= games);
    }
}

/// The sum of the powers of all games; `None` where a power or the sum does
/// not fit in 32 bits.
pub fn solve_part2(input: &[Game]) -> (r: Option<u32>)
    ensures
        match r {
            Some(total) => power_sum(input@) == Some(total as int),
            None => power_sum(input@).is_none(),
        },
{
    let mut total: u32 = 0;
    let mut i: usize = 0;
    while i < input.len()
        invariant
            i <= input@.len(),
            power_sum(input@.take(i as int)) == Some(total as int),
        decreases input@.len() - i,
    {
        proof {
            assert(input@.take(i + 1).drop_last() =~= input@.take(i as int));
            assert(input@.take(i + 1).last() == input@[i as int]);
        }
        let (red, green, blue) = fewest_cubes(&input[i]);
        let next = match red.checked_mul(green) {
            Some(rg) => match rg.checked_mul(blue) {
                Some(p) => total.checked_add(p),
                None => None,
            },
            None => None,
        };
        match next {
            Some(t) => {
                total = t;
            },
            None => {
                proof {
                    lemma_power_sum_stays_none(input@, i + 1);
                }
                return None;
            },
        }
        i += 1;
    }
    assert(input@.take(i as int) =~= input@);
    Some(total)
}

/// The handful `round` after the note `bag` has been read: a number, a
/// space, and a colour. The note sets the count of its colour, to nothing
/// where the number is no whole number of 32 bits; a colour other than red,
/// green or blue changes nothing. `None` where the note has no space.
pub open spec fn noted(round: GameRound, bag: Seq<char>) -> Option<GameRound> {
    let pieces = split_on(trimmed(bag), ' ');
    if pieces.len() < 2 {
        None
    } else {
        let count = match unsigned_of(pieces[0], u32::MAX as int) {
            Some(n) => Some(n as u32),
            None => None,
        };
        if pieces[1] == "red"@ {
            Some(GameRound { red: count, ..round })
        } else if pieces[1] == "green"@ {
            Some(GameRound { green: count, ..round })
        } else if pieces[1] == "blue"@ {
            Some(GameRound { blue: count, ..round })
        } else {
            Some(round)
        }
    }
}

/// The handful that the notes `bags` describe, read in order.
pub open spec fn round_of(bags: Seq<Seq<char>>) -> Option<GameRound>
    decreases bags.len(),
{
    if bags.len() == 0 {
        Some(GameRound { red: None, blue: None, green: None })
    } else {
        match round_of(bags.drop_last()) {
            Some(round) => noted(round, bags.last()),
            None => None,
        }
    }
}

/// Reads a handful: notes with commas between them, white space around the
/// whole ignored.
pub open spec fn round_reader() -> spec_fn(Seq<char>) -> Option<GameRound> {
    |set: Seq<char>| round_of(split_on(trimmed(set), ','))
}

/// The game that `line` describes: its handfuls and its number. The line,
/// white space at its ends ignored, holds the word for a game, a space, the
/// number, a colon, and the handfuls with semicolons between them.
pub open spec fn game_of(line: Seq<char>) -> Option<(Seq<GameRound>, int)> {
    let parts = split_on(trimmed(line), ':');
    if parts.len() < 2 {
        None
    } else {
        let head = split_on(parts[0], ' ');
        if head.len() < 2 {
            None
        } else {
            match (
                unsigned_of(head[1], usize::MAX as int),
                map_all(split_on(parts[1], ';'), round_reader()),
            ) {
                (Some(id), Some(rounds)) => Some((rounds, id)),
                _ => None,
            }
        }
    }
}

/// Reads a game.
pub open spec fn game_reader() -> spec_fn(Seq<char>) -> Option<(Seq<GameRound>, int)> {
    |line: Seq<char>| game_of(line)
}

/// The handfuls and numbers of `games`.
pub open spec fn games_view(games: Seq<Game>) -> Seq<(Seq<GameRound>, int)> {
    Seq::new(games.len(), |i: int| (games[i].rounds@, games[i].id as int))
}

proof fn lemma_round_stays_none(bags: Seq<Seq<char>>, k: int)
    requires
        0 <= k <= bags.len(),
        round_of(bags.take(k)).is_none(),
    ensures
        round_of(bags).is_none(),
    decreases bags.len() - k,
{
    if k < bags.len() {
        assert(bags.take(k + 1).drop_last() =~= bags.take(k));
        lemma_round_stays_none(bags, k + 1);
    } else {
        assert(bags.take(k) =~= bags);
    }
}

#[verifier::loop_isolation(false)]
fn read_round(set: &Vec<char>) -> (r: Option<GameRound>)
    ensures
        r == round_reader()(set@),
{
    let bare = trim(set);
    let bags = split(&bare, ',');
    let ghost notes = views(bags@);
    let mut round = GameRound { red: None, blue: None, green: None };
    let mut i: usize = 0;
    assert(notes.take(0) =~= Seq::<Seq<char>>::empty());
    while i < bags.len()
        invariant
            i <= bags@.len(),
            notes == views(bags@),
            round_of(notes.take(i as int)) == Some(round),
        decreases bags@.len() - i,
    {
        proof {
            assert(notes.take(i + 1).drop_last() =~= notes.take(i as int));
            assert(notes.take(i + 1).last() == bags@[i as int]@);
        }
        let note = trim(&bags[i]);
        let pieces = split(&note, ' ');
        if pieces.len() < 2 {
            proof {
                lemma_round_stays_none(notes, i + 1);
            }
            return None;
        }
        assert(views(pieces@)[0] == pieces@[0]@);
        assert(views(pieces@)[1] == pieces@[1]@);
        let count: Option<u32> = match parse_unsigned(&pieces[0], u32::MAX as u64) {
            Some(n) => Some(n as u32),
            None => None,
        };
        if equals_str(&pieces[1], "red") {
            round.red = count;
        } else if equals_str(&pieces[1], "green") {
            round.green = count;
        } else if equals_str(&pieces[1], "blue") {
            round.blue = count;
        }
        i += 1;
    }
    assert(notes.take(i as int) =~= notes);
    Some(round)
}

#[verifier::loop_isolation(false)]
fn read_game(line: &Vec<char>) -> (r: Option<Game>)
    ensures
        match r {
            Some(game) => game_of(line@) == Some((game.rounds@, game.id as int)),
            None => game_of(line@).is_none(),
        },
{
    let bare = trim(line);
    let parts = split(&bare, ':');
    if parts.len() < 2 {
        return None;
    }
    assert(views(parts@)[0] == parts@[0]@);
    assert(views(parts@)[1] == parts@[1]@);
    let head = split(&parts[0], ' ');
    if head.len() < 2 {
        return None;
    }
    assert(views(head@)[1] == head@[1]@);
    let id = parse_unsigned(&head[1], usize::MAX as u64);
    let sets = split(&parts[1], ';');
    let ghost texts = views(sets@);
    let ghost f = round_reader();
    let mut rounds: Vec<GameRound> = Vec::new();
    let mut i: usize = 0;
    assert(texts.take(0) =~= Seq::<Seq<char>>::empty());
    while i < sets.len()
        invariant
            i <= sets@.len(),
            texts == views(sets@),
            f == round_reader(),
            map_all(texts.take(i as int), f) == Some(rounds@),
        decreases sets@.len() - i,
    {
        proof {
            lemma_map_all_step(texts, f, i as int);
        }
        match read_round(&sets[i]) {
            Some(round) => {
                rounds.push(round);
            },
            None => {
                proof {
                    lemma_map_all_none(texts, f, i + 1);
                }
                return None;
            },
        }
        i += 1;
    }
    assert(texts.take(i as int) =~= texts);
    match id {
        Some(n) => Some(Game { rounds, id: n as usize }),
        None => None,
    }
}

/// Reads the games, one from each line; `None` where a line is not as
/// `game_of` describes.
pub fn generator(input: &str) -> (r: Option<Vec<Game>>)
    ensures
        match r {
            Some(games) => map_all(lines_of(input@), game_reader()) == Some(games_view(games@)),
            None => map_all(lines_of(input@), game_reader()).is_none(),
        },
{
    let chars = chars_of(input);
    let ls = lines(&chars);
    let ghost rows = views(ls@);
    let ghost f = game_reader();
    let mut games: Vec<Game> = Vec::new();
    let mut i: usize = 0;
    assert(rows.take(0) =~= Seq::<Seq<char>>::empty());
    assert(games_view(games@) =~= Seq::<(Seq<GameRound>, int)>::empty());
    while i < ls.len()
        invariant
            i <= ls@.len(),
            rows == views(ls@),
            rows == lines_of(input@),
            f == game_reader(),
            map_all(rows.take(i as int), f) == Some(games_view(games@)),
        decreases ls@.len() - i,
    {
        proof {
            lemma_map_all_step(rows, f, i as int);
        }
        let ghost before = games_view(games@);
        match read_game(&ls[i]) {
            Some(game) => {
                let ghost entry = (game.rounds@, game.id as int);
                games.push(game);
                assert(games_view(games@) =~= before.push(entry));
            },
            None => {
                proof {
                    lemma_map_all_none(rows, f, i + 1);
                }
                return None;
            },
        }
        i += 1;
    }
    assert(rows.take(i as int) =~= rows);
    Some(games)
}

} // verus!
