use aoc2023::day1;
use aoc2023::day11;
use aoc2023::day13;
use aoc2023::day15;
use aoc2023::day18;
use aoc2023::day2;
use aoc2023::day9;

const CUBES: &str = r#"Game 1: 3 blue, 4 red; 1 red, 2 green, 6 blue; 2 green
        Game 2: 1 blue, 2 green; 3 green, 4 blue, 1 red; 1 green, 1 blue
        Game 3: 8 green, 6 blue, 20 red; 5 blue, 4 red, 13 green; 5 green, 1 red
        Game 4: 1 green, 3 red, 6 blue; 3 green, 6 red; 3 green, 15 blue, 14 red
        Game 5: 6 red, 1 blue, 3 green; 2 blue, 1 red, 2 green"#;

const HISTORIES: &str = r#"0 3 6 9 12 15
1 3 6 10 15 21
10 13 16 21 30 45"#;

const TRENCH: &str = r#"R 6 (#70c710)
D 5 (#0dc571)
L 2 (#5713f0)
D 2 (#d2c081)
R 2 (#59c680)
D 2 (#411b91)
L 5 (#8ceee2)
U 2 (#caa173)
L 1 (#1b58a2)
U 2 (#caa171)
R 2 (#7807d2)
U 3 (#a77fa3)
L 2 (#015232)
U 2 (#7a21e3)"#;

const STEPS: &str = "rn=1,cm-,qp=3,cm=2,qp-,pc=4,ot=9,ab=5,pc-,pc=6,ot=7";

#[test]
fn day1_part_1_test_example() {
    let input = r#"1abc2
pqr3stu8vwx
a1b2c3d4e5f
treb7uchet"#;
    let input = day1::input_generator_part_1(input).unwrap();
    assert_eq!(day1::solve_part1(&input), Some(142));
}

#[test]
fn day1_part_2_test_example() {
    let input = r#"two1nine
        eightwothree
        abcone2threexyz
        xtwone3four
        4nineeightseven2
        zoneight234
        7pqrstsixteen"#;
    let input = day1::input_generator_part_2(input).unwrap();
    assert_eq!(day1::solve_part2(&input), Some(281));
}

#[test]
fn calibration_details() {
    assert_eq!(day1::input_generator_part_1("a7b"), Some(vec![77]));
    assert_eq!(day1::input_generator_part_1("no digit"), None);
    assert_eq!(day1::input_generator_part_1(""), Some(vec![]));
    assert_eq!(day1::input_generator_part_2("oneight"), Some(vec![18]));
    assert_eq!(day1::input_generator_part_2("twone"), Some(vec![21]));
    assert_eq!(day1::input_generator_part_2("nine"), Some(vec![99]));
    assert_eq!(day1::input_generator_part_2("zero"), None);
    assert_eq!(day1::solve_part1(&[u32::MAX, 1]), None);
    assert_eq!(day1::solve_part1(&[]), Some(0));
}

#[test]
fn day2_part_1_test_example() {
    let games = day2::generator(CUBES).unwrap();
    assert_eq!(games.len(), 5);
    assert_eq!(games.iter().filter(|g| day2::keep_game(g, 12, 13, 14)).count(), 3);
}

#[test]
fn day2_part_2_test_example() {
    let games = day2::generator(CUBES).unwrap();
    assert_eq!(day2::solve_part2(&games), Some(2286))
}

#[test]
fn cube_game_details() {
    let games = day2::generator(CUBES).unwrap();
    assert_eq!(day2::solve_part1(&games), Some(8));
    assert_eq!(games[2].id, 3);
    assert_eq!(games[2].rounds.len(), 3);
    assert_eq!(games[2].rounds[0].red, Some(20));
    assert_eq!(games[2].rounds[0].green, Some(8));
    assert_eq!(games[2].rounds[0].blue, Some(6));
    assert_eq!(games[0].rounds[2].red, None);
    assert_eq!(day2::fewest_cubes(&games[0]), (4, 2, 6));
    assert!(day2::generator("Game 1 3 blue").is_none());
    assert!(day2::generator("Game: 3 blue").is_none());
    assert!(day2::generator("Game x: 3 blue").is_none());
    assert!(day2::generator("Game 1: 3blue").is_none());
    // a count that is no number leaves the colour without a count
    let odd = day2::generator("Game 7: x red, 2 pink").unwrap();
    assert_eq!(odd[0].rounds[0].red, None);
    assert_eq!(odd[0].rounds[0].green, None);
    let big = day2::generator("Game 1: 4000000000 red, 2 green, 1 blue").unwrap();
    assert_eq!(day2::solve_part2(&big), None);
}

#[test]
fn day9_part1_example() {
    assert_eq!(day9::part1(&day9::parse(HISTORIES).unwrap()), Some(114));
}

#[test]
fn day9_part2_example() {
    assert_eq!(day9::part2(&day9::parse(HISTORIES).unwrap()), Some(2));
}

#[test]
fn history_details() {
    assert_eq!(day9::find_next_values(vec![0, 3, 6, 9, 12, 15]), Some(18));
    assert_eq!(day9::find_next_values(vec![10, 13, 16, 21, 30, 45]), Some(68));
    assert_eq!(day9::find_previous_values(vec![10, 13, 16, 21, 30, 45]), Some(5));
    assert_eq!(day9::find_next_values(vec![7]), Some(7));
    assert_eq!(day9::find_next_values(vec![]), None);
    assert_eq!(day9::find_previous_values(vec![]), None);
    assert_eq!(day9::find_next_values(vec![i64::MIN, i64::MAX]), None);
    assert_eq!(day9::find_next_values(vec![-3, -5, -7]), Some(-9));
    assert!(day9::parse("1 2 x").is_none());
    assert_eq!(day9::parse("1 -2 +3").unwrap(), vec![vec![1, -2, 3]]);
    assert_eq!(day9::part1(&[]), Some(0));
}

fn sky() -> (Vec<day11::Point>, Vec<usize>) {
    // the galaxies of the example, rows already doubled where empty
    (
        vec![(0, 3), (1, 7), (2, 0), (5, 6), (6, 1), (7, 9), (10, 7), (11, 0), (11, 4)],
        vec![2, 5, 8],
    )
}

#[test]
fn galaxies_one_wider() {
    assert_eq!(day11::part1(&sky()), Some(374));
}

#[test]
fn galaxy_details() {
    let (coords, cols) = sky();
    let wide = day11::expand(coords.clone(), cols.clone(), 1).unwrap();
    assert_eq!(wide[0], (0, 4));
    assert_eq!(wide[1], (1, 9));
    assert_eq!(wide[2], (2, 0));
    assert_eq!(wide[5], (7, 12));
    assert_eq!(day11::shortest_distance_sum(vec![(0, 0), (3, 4)]), Some(7));
    assert_eq!(day11::shortest_distance_sum(vec![(3, 4), (0, 0), (1, 1)]), Some(7 + 5 + 2));
    assert_eq!(day11::shortest_distance_sum(vec![]), Some(0));
    assert_eq!(day11::shortest_distance_sum(vec![(0, 0), (usize::MAX, usize::MAX)]), None);
    assert_eq!(day11::expand(vec![(0, usize::MAX)], vec![0], 1), None);
}

fn bits(rows: &[&str]) -> Vec<u64> {
    rows.iter().map(|r| r.chars().fold(0u64, |acc, c| acc * 2 + (c == '#') as u64)).collect()
}

fn transposed(rows: &[&str]) -> Vec<u64> {
    let width = rows[0].len();
    (0..width)
        .map(|j| rows.iter().fold(0u64, |acc, r| acc * 2 + (r.as_bytes()[j] == b'#') as u64))
        .collect()
}

const FIRST: [&str; 7] = [
    "#.##..##.", "..#.##.#.", "##......#", "##......#", "..#.##.#.", "..##..##.", "#.#.##.#.",
];

const SECOND: [&str; 7] = [
    "#...##..#", "#....#..#", "..##..###", "#####.##.", "#####.##.", "..##..###", "#....#..#",
];

#[test]
fn reflections() {
    let first = (bits(&FIRST), transposed(&FIRST));
    let second = (bits(&SECOND), transposed(&SECOND));
    assert_eq!(day13::find_reflection(&first.0), None);
    assert_eq!(day13::find_reflection(&first.1), Some(4));
    assert_eq!(day13::find_reflection(&second.0), Some(3));
    assert_eq!(day13::smudged_reflection(&first.0), Some(2));
    assert_eq!(day13::smudged_reflection(&second.0), Some(0));
    assert_eq!(day13::part1(&[first.clone()]), Some(5));
    assert_eq!(day13::part1(&[second.clone()]), Some(400));
    assert_eq!(day13::part2(&[first.clone()]), Some(300));
    assert_eq!(day13::part2(&[second.clone()]), Some(100));
    assert_eq!(day13::part1(&[first, second]), Some(405));
    assert_eq!(day13::find_reflection(&[]), None);
    assert_eq!(day13::find_reflection(&[5]), None);
    assert_eq!(day13::find_reflection(&[5, 5]), Some(0));
    assert_eq!(day13::smudged_reflection(&[5, 5]), None);
    assert_eq!(day13::smudged_reflection(&[5, 4]), Some(0));
    assert_eq!(day13::smudged_reflection(&[5, 6]), None);
    assert_eq!(day13::part1(&[(vec![1, 2], vec![3, 4])]), None);
}

#[test]
fn day15_part2_example() {
    assert_eq!(day15::part2(&day15::parse(STEPS)), Some(145));
}

#[test]
fn lens_box_details() {
    let boxes = day15::arrange(&day15::parse(STEPS)).unwrap();
    assert_eq!(boxes.len(), 256);
    assert_eq!(boxes[0].len(), 2);
    assert_eq!(boxes[0][0].label, vec!['r', 'n']);
    assert_eq!(boxes[0][0].focal, 1);
    assert_eq!(boxes[0][1].label, vec!['c', 'm']);
    assert_eq!(boxes[3].len(), 3);
    assert_eq!(boxes[3][2].label, vec!['p', 'c']);
    assert_eq!(boxes[3][2].focal, 6);
    assert_eq!(day15::part2(&day15::parse("rn")), None);
    assert_eq!(day15::part2(&day15::parse("rn=x")), None);
    assert_eq!(day15::part2(&day15::parse("rn=2,rn=5")), Some(5));
    assert_eq!(day15::part2(&day15::parse("rn=2,rn-,cm=3")), Some(3));
}

#[test]
fn day18_part1_example() {
    assert_eq!(day18::part1(&day18::parse_part1(TRENCH).unwrap()), Some(62));
}

#[test]
fn day18_part2_example() {
    assert_eq!(day18::part2(&day18::parse_part2(TRENCH).unwrap()), Some(952408144115));
}

#[test]
fn lagoon_details() {
    assert_eq!(day18::lava(&[]), Some(1));
    assert_eq!(day18::lava(&[(b'R', 2), (b'D', 2), (b'L', 2), (b'U', 2)]), Some(9));
    assert_eq!(day18::lava(&[(b'X', 2)]), None);
    assert_eq!(day18::lava(&[(b'R', i32::MAX), (b'R', 1)]), None);
    assert_eq!(day18::lava(&[(b'L', i32::MIN)]), None);
    assert_eq!(day18::from_direction(b'U'), Some((0, 1)));
    assert_eq!(day18::from_direction(b'D'), Some((0, -1)));
    assert_eq!(day18::from_direction(b'L'), Some((-1, 0)));
    assert_eq!(day18::from_direction(b'R'), Some((1, 0)));
    assert_eq!(day18::from_direction(b'u'), None);
    assert_eq!(day18::determinant((2, 3), (5, 7)), 2 * 7 - 3 * 5);
    assert_eq!(
        day18::determinant((i32::MIN, i32::MIN), (i32::MAX, i32::MIN)),
        (i32::MIN as i64) * (i32::MIN as i64) - (i32::MIN as i64) * (i32::MAX as i64)
    );
    assert_eq!(day18::parse_part1("R 6 (#70c710)"), Some(vec![(b'R', 6)]));
    assert_eq!(day18::parse_part2("R 6 (#70c710)"), Some(vec![(b'R', 461937)]));
    assert_eq!(day18::parse_part2("R 6 (#70c714)"), None);
    assert_eq!(day18::parse_part2("R 6 (#70g710)"), None);
    assert_eq!(day18::parse_part1("R x"), None);
    assert_eq!(day18::parse_part1("R"), None);
}
