use aoc2023::day12;
use aoc2023::day3;
use aoc2023::day4;
use aoc2023::day8;

const SCHEMATIC: &str = r#"467..114..
...*......
..35..633.
......#...
617*......
.....+.58.
..592.....
......755.
...$.*....
.664.598.."#;

const CARDS: &str = r#"Card 1: 41 48 83 86 17 | 83 86  6 31 17  9 48 53
Card 2: 13 32 20 16 61 | 61 30 68 82 17 32 24 19
Card 3:  1 21 53 59 44 | 69 82 63 72 16 21 14  1
Card 4: 41 92 73 84 69 | 59 84 76 51 58  5 54 83
Card 5: 87 83 26 28 32 | 88 30 70 12 93 22 82 36
Card 6: 31 18 13 56 72 | 74 77 10 23 35 67 36 11"#;

const EASY_EXAMPLE: &str = r#"RL

AAA = (BBB, CCC)
BBB = (DDD, EEE)
CCC = (ZZZ, GGG)
DDD = (DDD, DDD)
EEE = (EEE, EEE)
GGG = (GGG, GGG)
ZZZ = (ZZZ, ZZZ)"#;

const LOOPING_EXAMPLE: &str = r#"LLR
    
AAA = (BBB, BBB)
BBB = (AAA, ZZZ)
ZZZ = (ZZZ, ZZZ)"#;

const GHOSTING_EXAMPLE: &str = r#"LR

11A = (11B, XXX)
11B = (XXX, 11Z)
11Z = (11B, XXX)
22A = (22B, XXX)
22B = (22C, 22C)
22C = (22Z, 22Z)
22Z = (22B, 22B)
XXX = (XXX, XXX)"#;

const SPRINGS: &str = r#"???.### 1,1,3
.??..??...?##. 1,1,3
?#?#?#?#?#?#?#? 1,3,1,6
????.#...#... 4,1,1
????.######..#####. 1,6,5
?###???????? 3,2,1"#;

#[test]
fn day3_can_handle_test_input_part1() {
    let input = day3::input_generator(SCHEMATIC).unwrap();
    assert_eq!(day3::solve_part1(&input), Some(4361));
}

#[test]
fn day3_can_handle_test_input_part2() {
    let input = day3::input_generator(SCHEMATIC).unwrap();
    assert_eq!(day3::solve_part2(&input), Some(467835));
}

#[test]
fn schematic_details() {
    let gears = day3::input_generator(SCHEMATIC).unwrap();
    assert_eq!(gears.len(), 6);
    assert_eq!(gears[0].0, (3, 1));
    assert_eq!(gears[0].1.symbol, '*');
    assert_eq!(gears[0].1.part_numbers, vec![467, 35]);
    assert_eq!(gears[1].0, (6, 3));
    assert_eq!(gears[1].1.part_numbers, vec![633]);
    // a symbol in the first row has a number of that row noted twice
    let top = day3::input_generator("12*3").unwrap();
    assert_eq!(top[0].1.part_numbers, vec![12, 12, 3, 3]);
    assert_eq!(day3::solve_part1(&top), Some(30));
    assert_eq!(day3::solve_part2(&top), Some(0));
    let below = day3::input_generator("....\n12*3").unwrap();
    assert_eq!(below[0].1.part_numbers, vec![12, 3]);
    assert_eq!(day3::solve_part2(&below), Some(36));
    assert!(day3::input_generator("99999999999").is_none());
    assert_eq!(day3::input_generator("").unwrap().len(), 0);
    assert_eq!(day3::solve_part1(&vec![]), Some(0));
    let heavy = vec![(
        (0, 0),
        day3::Gear { symbol: '#', part_numbers: vec![u32::MAX, 1] },
    )];
    assert_eq!(day3::solve_part1(&heavy), None);
    let wide = vec![(
        (0, 0),
        day3::Gear { symbol: '*', part_numbers: vec![u32::MAX, u32::MAX] },
    )];
    assert_eq!(day3::solve_part2(&wide), Some(u32::MAX as u64 * u32::MAX as u64));
}

#[test]
fn day4_can_handle_test_input_part1() {
    let input = day4::generator(CARDS).unwrap();
    assert_eq!(day4::solve_part1(&input), Some(13))
}

#[test]
fn day4_can_handle_test_input_part2() {
    let input = day4::generator(CARDS).unwrap();
    assert_eq!(day4::solve_part2(&input), Some(30));
}

#[test]
fn card_details() {
    let cards = day4::generator(CARDS).unwrap();
    assert_eq!(cards.len(), 6);
    assert_eq!(cards[0].id, 1);
    assert_eq!(cards[5].id, 6);
    assert_eq!(day4::matches(&cards[0]), 4);
    assert_eq!(day4::matches(&cards[1]), 2);
    assert_eq!(day4::matches(&cards[4]), 0);
    assert!(cards[2].winning.contains(&1));
    assert!(cards[2].own.contains(&1));
    let mut listed = day4::members(&cards[0].winning);
    listed.sort();
    assert_eq!(listed, vec![17, 41, 48, 83, 86]);
    assert!(day4::generator("Card 1 2 3 | 4").is_none());
    assert!(day4::generator("Card 1: 2 3").is_none());
    assert!(day4::generator("Card 1: 2 x | 4").is_none());
    assert_eq!(day4::solve_part1(&[]), Some(0));
    assert_eq!(day4::solve_part2(&[]), None);
    // a number listed twice counts once
    let twice = day4::generator("Card 1: 5 5 | 5 5 5").unwrap();
    assert_eq!(day4::matches(&twice[0]), 1);
    assert_eq!(day4::solve_part1(&twice), Some(1));
    // cards are not won beyond the last
    let last = day4::generator("Card 1: 5 6 | 5 6\nCard 2: 1 | 1").unwrap();
    assert_eq!(day4::solve_part2(&last), Some(3));
    let many: String = (1..=34).map(|n| n.to_string()).collect::<Vec<_>>().join(" ");
    let rich = day4::generator(&format!("Card 1: {} | {}", many, many)).unwrap();
    assert_eq!(day4::matches(&rich[0]), 34);
    assert_eq!(day4::solve_part1(&rich), None);
}

#[test]
fn day8_part1_example() {
    assert_eq!(day8::part1(&day8::parse(EASY_EXAMPLE).unwrap()), Some(2));
}

#[test]
fn part1_longer_example() {
    assert_eq!(day8::part1(&day8::parse(LOOPING_EXAMPLE).unwrap()), Some(6));
}

#[test]
fn day8_part2_example() {
    assert_eq!(day8::part2(&day8::parse(GHOSTING_EXAMPLE).unwrap()), Some(6));
}

fn name(s: &str) -> Vec<char> {
    s.chars().collect()
}

#[test]
fn network_details() {
    let (instructions, network) = day8::parse(EASY_EXAMPLE).unwrap();
    assert_eq!(instructions, name("RL"));
    assert_eq!(network.len(), 7);
    assert_eq!(network[1].name, name("BBB"));
    assert_eq!(network[1].left, name("DDD"));
    assert_eq!(network[1].right, name("EEE"));
    assert_eq!(day8::find_node(&network, &name("ZZZ")), Some(6));
    assert_eq!(day8::find_node(&network, &name("QQQ")), None);
    // the second line is passed over, whatever it holds
    assert_eq!(day8::parse("RL\nAAA = (BBB, CCC)\nBBB = (AAA, AAA)").unwrap().1.len(), 1);
    let end = day8::NodeTest::Named(name("ZZZ"));
    assert_eq!(day8::calculate_steps(&name("L"), &network, &end, &name("CCC")), Some(1));
    // an instruction that is neither left nor right leads nowhere
    assert_eq!(day8::calculate_steps(&name("xL"), &network, &end, &name("CCC")), Some(2));
    assert_eq!(day8::calculate_steps(&instructions, &network, &end, &name("ZZZ")), Some(0));
    // a walk that goes round in a circle
    assert_eq!(day8::calculate_steps(&instructions, &network, &end, &name("DDD")), None);
    // a node that is not in the network
    assert_eq!(day8::calculate_steps(&instructions, &network, &end, &name("QQQ")), None);
    assert_eq!(day8::calculate_steps(&instructions, &network, &end, &name("AAA")), Some(2));
    assert_eq!(day8::calculate_steps(&vec![], &network, &end, &name("CCC")), None);
    let start = day8::NodeTest::EndsWith('Q');
    assert_eq!(day8::walk_network(&instructions, &network, &start, &end), None);
    assert!(day8::parse("").is_none());
    assert!(day8::parse("LR\n\nAAA = BBB").is_none());
    assert!(day8::parse("LR\n\nAAA = (BBB. CCC)").is_none());
    assert!(day8::parse("LR\n\n = (BBB, CCC)").is_none());
    assert_eq!(day8::parse("LR").unwrap().1.len(), 0);
}

#[test]
fn least_common_multiples() {
    assert_eq!(day8::checked_lcm(4, 6), Some(12));
    assert_eq!(day8::checked_lcm(7, 3), Some(21));
    assert_eq!(day8::checked_lcm(2, 4), Some(4));
    assert_eq!(day8::checked_lcm(0, 0), Some(0));
    assert_eq!(day8::checked_lcm(0, 5), Some(0));
    assert_eq!(day8::checked_lcm(5, 0), Some(0));
    assert_eq!(day8::checked_lcm(1, usize::MAX), Some(usize::MAX));
    assert_eq!(day8::checked_lcm(usize::MAX, usize::MAX), Some(usize::MAX));
    assert_eq!(day8::checked_lcm(usize::MAX, usize::MAX - 1), None);
    assert_eq!(day8::checked_lcm(usize::MAX, 2), None);
}

#[test]
fn day12_part1_example() {
    assert_eq!(day12::part1(&day12::parse(SPRINGS).unwrap()), Some(21));
}

#[test]
fn day12_part2_example() {
    assert_eq!(day12::part2(&day12::parse(SPRINGS).unwrap()), Some(525152));
}

#[test]
fn arrangement_details() {
    let count = |line: &str, counts: &[usize]| day12::count_arrangements(&name(line), counts);
    assert_eq!(count("???.###", &[1, 1, 3]), Some(1));
    assert_eq!(count(".??..??...?##.", &[1, 1, 3]), Some(4));
    assert_eq!(count("?###????????", &[3, 2, 1]), Some(10));
    assert_eq!(count("", &[1]), Some(0));
    assert_eq!(count("#", &[1]), Some(1));
    assert_eq!(count("?", &[1]), Some(1));
    assert_eq!(count(".", &[1]), Some(0));
    assert_eq!(count("??", &[1]), Some(2));
    assert_eq!(count("??", &[2]), Some(1));
    assert_eq!(count("??", &[3]), Some(0));
    assert_eq!(count("?x?", &[1]), Some(0));
    assert_eq!(count("???", &[]), None);
    assert!(day12::parse("??? 1,x").is_none());
    assert!(day12::parse("???").is_none());
    assert_eq!(day12::parse("??? 1,2").unwrap(), vec![(name("???"), vec![1, 2])]);
    assert_eq!(day12::part1(&[]), Some(0));
    let long = "?".repeat(80);
    assert_eq!(day12::part2(&[(name(&long), vec![1, 1, 1, 1, 1, 1, 1, 1, 1, 1])]), None);
}
