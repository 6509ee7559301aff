use aoc2023::day13;
use aoc2023::day14;
use aoc2023::day5;

const ALMANAC: &str = "seeds: 79 14 55 13

seed-to-soil map:
50 98 2
52 50 48

soil-to-fertilizer map:
0 15 37
37 52 2
39 0 15

fertilizer-to-water map:
49 53 8
0 11 42
42 0 7
57 7 4

water-to-light map:
88 18 7
18 25 70

light-to-temperature map:
45 77 23
81 45 19
68 64 13

temperature-to-humidity map:
0 69 1
1 0 69

humidity-to-location map:
60 56 37
56 93 4";

const ROCKS: &str = r#"O....#....
O.OO#....#
.....##...
OO.#O....O
.O.....O#.
O.#..O.#.#
..O..#O..O
.......O..
#....###..
#OO..#...."#;

const FIRST: &str = r#"#.##..##.
..#.##.#.
##......#
##......#
..#.##.#.
..##..##.
#.#.##.#."#;

const SECOND: &str = r#"#...##..#
#....#..#
..##..###
#####.##.
#####.##.
..##..###
#....#..#"#;

#[test]
fn finds_closest_location_for_test_input() {
    let maps = day5::read_input(ALMANAC).unwrap();
    assert_eq!(day5::solve_part1(&maps), Some(35));
}

#[test]
fn part_2_works_for_test_input() {
    assert_eq!(day5::solve_part2(&day5::read_input(ALMANAC).unwrap()), Some(46));
}

#[test]
fn almanac_details() {
    let almanac = day5::read_input(ALMANAC).unwrap();
    assert_eq!(almanac.0, vec![79, 14, 55, 13]);
    assert_eq!(almanac.1.len(), 7);
    assert_eq!(almanac.1[0], vec![vec![50, 98, 2], vec![52, 50, 48]]);
    let section = vec![vec![52, 50, 48], vec![50, 98, 2]];
    // the start lies before the source range, which holds the rest
    assert_eq!(day5::apply_section((40, 20), &section), Some(vec![(40, 10), (52, 10)]));
    // within one range
    assert_eq!(day5::apply_section((60, 5), &section), Some(vec![(62, 5)]));
    // across both ranges and beyond
    assert_eq!(
        day5::apply_section((96, 10), &section),
        Some(vec![(98, 2), (50, 2), (100, 6)])
    );
    // untouched
    assert_eq!(day5::apply_section((0, 10), &section), Some(vec![(0, 10)]));
    assert_eq!(day5::apply_section((0, 0), &section), Some(vec![]));
    assert_eq!(day5::apply_section((0, 10), &[vec![1, 2]]), None);
    assert_eq!(day5::apply_section((u64::MAX, 5), &[vec![0, u64::MAX, 1]]), None);
    assert_eq!(
        day5::apply_sections((79, 3), &almanac.1[..2]),
        Some(vec![(81, 3)])
    );
    assert_eq!(day5::apply_sections((5, 3), &[]), Some(vec![(5, 3)]));
    assert_eq!(day5::solve_part1(&(vec![], vec![])), None);
    assert_eq!(day5::solve_part2(&(vec![7], vec![])), None);
    assert_eq!(day5::solve_part2(&(vec![7, 2, 9], vec![])), Some(7));
    assert_eq!(day5::solve_part1(&(vec![7, 2, 9], vec![])), Some(2));
    assert!(day5::read_input("seed: 1 2").is_none());
    assert!(day5::read_input("seeds: 1 x").is_none());
    assert!(day5::read_input("seeds: 1 2\n\nmap:\n1 2 y").is_none());
}

#[test]
fn day13_part1_example() {
    assert_eq!(day13::part1(&day13::parse(FIRST).unwrap()), Some(5));
    assert_eq!(day13::part1(&day13::parse(SECOND).unwrap()), Some(400));
}

#[test]
fn day13_part2_example() {
    assert_eq!(day13::part2(&day13::parse(FIRST).unwrap()), Some(300));
    assert_eq!(day13::part2(&day13::parse(SECOND).unwrap()), Some(100));
}

#[test]
fn pattern_details() {
    let both = format!("{}\n\n{}", FIRST, SECOND);
    let grids = day13::parse(&both).unwrap();
    assert_eq!(grids.len(), 2);
    assert_eq!(day13::part1(&grids), Some(405));
    assert_eq!(day13::part2(&grids), Some(400));
    assert_eq!(grids[0].0[0], 0b101100110);
    assert_eq!(grids[0].1[0], 0b1011001);
    assert_eq!(grids[0].1.len(), 9);
    assert!(day13::parse("").is_none());
    let wide = "#".repeat(65);
    assert!(day13::parse(&wide).is_none());
    let full = "#".repeat(64);
    assert_eq!(day13::parse(&full).unwrap()[0].0, vec![u64::MAX]);
}

#[test]
fn day14_part1_example() {
    assert_eq!(day14::part1(&day14::parse(ROCKS)), Some(136));
}

#[test]
fn day14_part2_example() {
    assert_eq!(day14::part2(&day14::parse(ROCKS)), Some(64));
}

fn board(rows: &[&str]) -> day14::Board {
    rows.iter().map(|r| r.as_bytes().to_vec()).collect()
}

#[test]
fn platform_details() {
    let mut b = board(&["..#", "O.O", ".#.", "OOO"]);
    day14::tilt_north(&mut b);
    assert_eq!(b, board(&["O.#", "O.O", ".#O", ".O."]));
    let before = b.clone();
    day14::tilt_north(&mut b);
    assert_eq!(b, before);
    assert_eq!(day14::rotate(&board(&["ab", "cd", "ef"])), board(&["eca", "fdb"]));
    assert_eq!(day14::load(&board(&["O.#", "O.O", ".#O", ".O."])), Some(4 + 3 + 3 + 2 + 1));
    assert_eq!(day14::load(&board(&[])), Some(0));
    // tilting changes nothing
    assert_eq!(day14::part1(&board(&["O", "."])), None);
    assert_eq!(day14::part1(&board(&[".", "O"])), Some(2));
    // rows longer than the first keep what lies beyond its width
    let mut ragged = board(&[".", "OO"]);
    day14::tilt_north(&mut ragged);
    assert_eq!(ragged, board(&["O", ".O"]));
    assert_eq!(day14::part2(&board(&["O"])), Some(1));
}
