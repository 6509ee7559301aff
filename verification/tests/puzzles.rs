use aoc2023::day15;
use aoc2023::day16;
use aoc2023::day6;
use aoc2023::day7;

const MIRRORS: &str = r#".|...\....
|.-.\.....
.....|-...
........|.
..........
.........\
..../.\\..
.-.-/..|..
.|....-|.\
..//.|...."#;

const CAMEL: &str = r#"32T3K 765
T55J5 684
KK677 28
KTJJT 220
QQQJA 483"#;

const RACES: &str = "Time:      7  15   30\nDistance:  9  40  200";

const STEPS: &str = "rn=1,cm-,qp=3,cm=2,qp-,pc=4,ot=9,ab=5,pc-,pc=6,ot=7";

#[test]
fn hasher_works_as_described() {
    assert_eq!(day15::hash("HASH"), 52);
}

#[test]
fn day15_part1_example() {
    assert_eq!(day15::part1(&day15::parse(STEPS)), Some(1320));
}

#[test]
fn hash_of_edge_inputs() {
    assert_eq!(day15::hash(""), 0);
    assert_eq!(day15::hash("rn=1"), 30);
    assert_eq!(day15::hash("rn"), 0);
    assert_eq!(day15::hash("qp"), 1);
    // a character beyond ASCII counts with its code point
    assert_eq!(day15::hash("\u{100}"), (0x100 * 17) % 256);
    assert_eq!(day15::part1(&day15::parse("")), Some(0));
}

#[test]
fn day16_part1_example() {
    assert_eq!(day16::part1(&day16::parse(MIRRORS).unwrap()), 46);
}

#[test]
fn day16_part2_example() {
    assert_eq!(day16::part2(&day16::parse(MIRRORS).unwrap()), 51);
}

#[test]
fn beams_on_small_fields() {
    let row = day16::parse("...").unwrap();
    assert_eq!(day16::part1(&row), 3);
    assert_eq!(row.width(), 3);
    assert_eq!(row.height(), 1);
    assert_eq!(row.tile(1, 0), Some('.'));
    assert_eq!(row.tile(3, 0), None);
    assert_eq!(row.tile(0, 1), None);
    assert_eq!(row.tile(-1, 0), None);
    let split = day16::parse(".|.\n...\n...").unwrap();
    // east to the splitter, then down its column
    assert_eq!(day16::part1(&split), 4);
    let mirror = day16::parse("\\..\n...\n...").unwrap();
    assert_eq!(day16::part1(&mirror), 3);
    let wall = day16::parse("#..").unwrap();
    assert_eq!(day16::part1(&wall), 1);
    assert!(day16::parse("").is_none());
    let start = day16::Beam { x: 5, y: 5, heading: day16::Heading::East };
    assert_eq!(day16::energize(&row, start), 0);
    assert_eq!(day16::max_energized(&split), 4);
}

#[test]
fn propagate_lists_the_beams_that_leave() {
    let grid = day16::parse(".|.\n/-\\").unwrap();
    let mut out = Vec::new();
    let east = day16::Heading::East;
    let north = day16::Heading::North;
    let south = day16::Heading::South;
    let west = day16::Heading::West;
    day16::propagate(&day16::Beam { x: 1, y: 0, heading: east }, &grid, &mut out);
    assert_eq!(
        out,
        vec![
            day16::Beam { x: 1, y: -1, heading: north },
            day16::Beam { x: 1, y: 1, heading: south },
        ]
    );
    out.clear();
    day16::propagate(&day16::Beam { x: 0, y: 1, heading: south }, &grid, &mut out);
    assert_eq!(out, vec![day16::Beam { x: -1, y: 1, heading: west }]);
    out.clear();
    day16::propagate(&day16::Beam { x: 2, y: 1, heading: east }, &grid, &mut out);
    assert_eq!(out, vec![day16::Beam { x: 2, y: 2, heading: south }]);
    out.clear();
    day16::propagate(&day16::Beam { x: 1, y: 1, heading: east }, &grid, &mut out);
    assert_eq!(out, vec![day16::Beam { x: 2, y: 1, heading: east }]);
    out.clear();
    day16::propagate(&day16::Beam { x: 9, y: 9, heading: east }, &grid, &mut out);
    assert!(out.is_empty());
}

#[test]
fn can_read_test_input() {
    let races = day6::parse_input(RACES).unwrap();
    assert_eq!(races.len(), 3);
}

#[test]
fn can_solve_part2_for_testinput() {
    let race = day6::parse_input_part2(RACES).unwrap();
    assert_eq!(race.constant_time_wins(), 71503);
    assert_eq!(day6::part2(&race), 71503);
}

#[test]
fn race_counts() {
    assert_eq!(day6::Race::new(7, 9).constant_time_wins(), 4);
    assert_eq!(day6::Race::new(15, 40).constant_time_wins(), 8);
    // both roots are whole numbers: 10 is left out and 20 is counted
    assert_eq!(day6::Race::new(30, 200).constant_time_wins(), 10);
    // the record cannot be reached
    assert_eq!(day6::Race::new(2, 2).constant_time_wins(), 0);
    assert_eq!(day6::Race::new(0, 0).constant_time_wins(), 0);
    assert_eq!(day6::Race::new(10, 0).constant_time_wins(), 10);
    assert_eq!(day6::Race::new(u64::MAX, 0).constant_time_wins(), u64::MAX);
    let races = day6::parse_input(RACES).unwrap();
    assert_eq!(day6::part1(&races), Some(4 * 8 * 10));
    let huge = vec![day6::Race::new(u64::MAX, 0), day6::Race::new(u64::MAX, 0)];
    assert_eq!(day6::part1(&huge), None);
    assert_eq!(day6::part1(&[]), Some(1));
}

#[test]
fn integer_square_roots() {
    assert_eq!(day6::integer_sqrt(0), 0);
    assert_eq!(day6::integer_sqrt(1), 1);
    assert_eq!(day6::integer_sqrt(3), 1);
    assert_eq!(day6::integer_sqrt(4), 2);
    assert_eq!(day6::integer_sqrt(24), 4);
    assert_eq!(day6::integer_sqrt(25), 5);
    assert_eq!(day6::integer_sqrt(u128::MAX), u64::MAX);
}

#[test]
fn race_sheets_that_cannot_be_read() {
    assert!(day6::parse_input("Time: 1 2").is_none());
    assert!(day6::parse_input("Time 1 2\nDistance: 3 4").is_none());
    assert!(day6::parse_input("Time: 1 x\nDistance: 3 4").is_none());
    assert!(day6::parse_input_part2("Time: 1 2\nDistance: ").is_none());
    let uneven = day6::parse_input("Time: 1 2 3\nDistance: 3 4").unwrap();
    assert_eq!(uneven.len(), 2);
}

#[test]
fn day7_part1_example() {
    assert_eq!(day7::part1(&day7::parse(CAMEL).unwrap()), Some(6440));
}

#[test]
fn day7_part2_example() {
    assert_eq!(day7::part2(&day7::parse_with_jokers(CAMEL).unwrap()), Some(5905));
}

fn hand(labels: &str) -> day7::Hand {
    let cards: Vec<day7::CamelCard> =
        labels.chars().map(|c| day7::CamelCard::from_char(c).unwrap()).collect();
    day7::Hand { cards: [cards[0], cards[1], cards[2], cards[3], cards[4]] }
}

#[test]
fn hand_types() {
    assert_eq!(hand("23456").hand_type(false), day7::CamelHandType::HighCard);
    assert_eq!(hand("A23A4").hand_type(false), day7::CamelHandType::OnePair);
    assert_eq!(hand("23432").hand_type(false), day7::CamelHandType::TwoPair);
    assert_eq!(hand("TTT98").hand_type(false), day7::CamelHandType::ThreeOfAKind);
    assert_eq!(hand("23332").hand_type(false), day7::CamelHandType::FullHouse);
    assert_eq!(hand("AA8AA").hand_type(false), day7::CamelHandType::FourOfAKind);
    assert_eq!(hand("AAAAA").hand_type(false), day7::CamelHandType::FiveOfAKind);
    assert_eq!(hand("T55J5").hand_type(false), day7::CamelHandType::ThreeOfAKind);
    assert_eq!(hand("T55J5").hand_type(true), day7::CamelHandType::FourOfAKind);
    assert_eq!(hand("KTJJT").hand_type(false), day7::CamelHandType::TwoPair);
    assert_eq!(hand("KTJJT").hand_type(true), day7::CamelHandType::FourOfAKind);
    assert_eq!(hand("JJJJJ").hand_type(true), day7::CamelHandType::FiveOfAKind);
    assert_eq!(hand("JJJJJ").hand_type(false), day7::CamelHandType::FiveOfAKind);
    assert_eq!(hand("2345J").hand_type(true), day7::CamelHandType::OnePair);
    assert_eq!(hand("2245J").hand_type(true), day7::CamelHandType::ThreeOfAKind);
    assert_eq!(hand("2244J").hand_type(true), day7::CamelHandType::FullHouse);
}

#[test]
fn hand_order() {
    // a stronger type wins whatever the cards
    assert!(hand("22223").key(false) > hand("AAAKK").key(false));
    // within a type the first card that differs decides
    assert!(hand("33332").key(false) > hand("2AAAA").key(false));
    assert!(hand("77888").key(false) > hand("77788").key(false));
    // a joker is the weakest card
    assert!(hand("JKKK2").key(true) < hand("QQQQ2").key(true));
    assert!(hand("JKKK2").key(false) < hand("QQQQ2").key(false));
    assert!(hand("J2345").key(false) > hand("T2345").key(false));
    assert_eq!(day7::CamelCard::from_char('1'), None);
    assert_eq!(day7::CamelCard::from_char('t'), None);
}

#[test]
fn plays_that_cannot_be_read() {
    assert!(day7::parse("32T3K").is_none());
    assert!(day7::parse("32T3 5").is_none());
    assert!(day7::parse("32T3X 5").is_none());
    assert!(day7::parse("32T3K five").is_none());
    assert_eq!(day7::parse("").unwrap().len(), 0);
    assert_eq!(day7::part1(&[]), Some(0));
    let big = day7::parse("22222 340282366920938463463374607431768211455\n33333 1").unwrap();
    assert_eq!(day7::part1(&big), None);
}
