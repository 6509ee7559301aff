use aoc2023::day10;
use aoc2023::day21;

const SMALL_TEST: &str = r#"7-F7-
.FJ|7
SJLL7
|F--J
LJ.LJ"#;

const PART2_EXAMPLE: &str = r#"FF7FSF7F7F7F7F7F---7
L|LJ||||||||||||F--J
FL-7LJLJ||||||LJL-77
F--JF--7||LJLJ7F7FJ-
L---JF-JLJ.||-FJLJJ7
|F|F-JF---7F7-L7L|7|
|FFJF7L7F-JF7|JL---7
7-L-JL7||F7|L7F-7F7|
L.L7LFJ|||||FJL7||LJ
L7JLJL-JLJLJL--JLJ.L"#;

const GARDEN: &str = r#"...........
.....###.#.
.###.##..#.
..#.#...#..
....#.#....
.##..S####.
.##..#...#.
.......##..
.##.#.####.
.##..##.##.
..........."#;

fn rows(lines: &[&str]) -> Vec<Vec<char>> {
    lines.iter().map(|l| l.chars().collect()).collect()
}

#[test]
fn day10_part1_example() {
    assert_eq!(day10::part1(&day10::parse(SMALL_TEST).unwrap()), Some(8));
}

#[test]
fn day10_part2_example() {
    assert_eq!(day10::part2(&day10::parse(PART2_EXAMPLE).unwrap()), Some(10));
}

#[test]
fn maze_details() {
    let grid = day10::parse("F7\nSJ").unwrap();
    assert_eq!(grid, rows(&["....", ".F7.", ".SJ.", "...."]));
    assert_eq!(day10::find_starting_pos(&grid), Some((1, 2)));
    assert_eq!(day10::find_starting_pos(&rows(&["..", ".."])), None);
    assert_eq!(day10::connections(&grid, (1, 1)), Some(((1, 2), (2, 1))));
    assert_eq!(day10::connections(&grid, (2, 1)), Some(((1, 1), (2, 2))));
    assert_eq!(day10::connections(&grid, (2, 2)), Some(((1, 2), (2, 1))));
    assert_eq!(day10::connections(&grid, (0, 0)), None);
    assert_eq!(day10::connections(&grid, (9, 0)), None);
    assert_eq!(day10::connections(&grid, (0, 9)), None);
    let bars = rows(&["|-L"]);
    assert_eq!(day10::connections(&bars, (0, 0)), Some(((0, usize::MAX), (0, 1))));
    assert_eq!(day10::connections(&bars, (1, 0)), Some(((0, 0), (2, 0))));
    assert_eq!(day10::connections(&bars, (2, 0)), Some(((2, usize::MAX), (3, 0))));
    assert_eq!(day10::cardinal_neighbours((3, 4)), vec![(2, 4), (4, 4), (3, 3), (3, 5)]);
    assert_eq!(
        day10::cardinal_neighbours((0, 0)),
        vec![(usize::MAX, 0), (1, 0), (0, usize::MAX), (0, 1)]
    );
    assert_eq!(day10::find_pipes(&grid), Some(vec![(1, 2), (2, 2), (2, 1), (1, 1)]));
    assert_eq!(day10::part1(&grid), Some(2));
    assert_eq!(day10::part2(&grid), Some(0));
    assert_eq!(day10::count_symbol_occurrence(&grid, '.'), Some(12));
    assert_eq!(day10::count_symbol_occurrence(&grid, 'S'), Some(1));
    assert_eq!(day10::count_symbol_occurrence(&grid, 'q'), Some(0));
    // a start without pipes next to it is a loop of its own
    assert_eq!(day10::find_pipes(&rows(&["S"])), Some(vec![(0, 0)]));
    // pipes that lead out of the maze
    assert_eq!(day10::find_pipes(&rows(&["S-"])), None);
    assert_eq!(day10::find_pipes(&rows(&[".."])), None);
    assert!(day10::parse("").is_none());
    assert!(day10::parse("  \n").is_none());
}

#[test]
fn flood_details() {
    let grid = rows(&[".....", ".###.", ".#.#.", ".###.", "....."]);
    let wall: Vec<(usize, usize)> =
        vec![(1, 1), (2, 1), (3, 1), (1, 2), (3, 2), (1, 3), (2, 3), (3, 3)];
    let pipes = day10::PipeSet::new(&grid, &wall);
    assert_eq!(pipes.len(), 8);
    assert!(pipes.contains((2, 1)));
    assert!(!pipes.contains((2, 2)));
    assert!(!pipes.contains((9, 9)));
    let inside = day10::search_and_mark(grid.clone(), (2, 2), &pipes);
    assert_eq!(inside, rows(&[".....", ".###.", ".#X#.", ".###.", "....."]));
    let outside = day10::search_and_mark(grid.clone(), (0, 0), &pipes);
    assert_eq!(outside, rows(&["XXXXX", "X###X", "X#.#X", "X###X", "XXXXX"]));
    // a flood that starts on a pipe or outside the maze marks nothing
    assert_eq!(day10::search_and_mark(grid.clone(), (1, 1), &pipes), grid);
    assert_eq!(day10::search_and_mark(grid.clone(), (7, 0), &pipes), grid);
    let twice = day10::PipeSet::new(&grid, &vec![(1, 1), (1, 1), (40, 40)]);
    assert_eq!(twice.len(), 1);
}

#[test]
fn part1_small_example() {
    let (grid, start) = day21::parse(GARDEN).unwrap();
    assert_eq!(day21::visit(&grid, start, 6), 16)
}

#[test]
fn garden_details() {
    let (grid, start) = day21::parse(GARDEN).unwrap();
    assert_eq!(start, day21::Point { x: 5, y: 5 });
    assert_eq!(day21::visit(&grid, start, 0), 1);
    assert_eq!(day21::visit(&grid, start, 1), 2);
    assert_eq!(day21::visit(&grid, start, 2), 4);
    assert_eq!(day21::visit(&grid, start, 3), 6);
    assert!(day21::grid_contains(&grid, start));
    assert!(!day21::grid_contains(&grid, day21::Point { x: -1, y: 0 }));
    assert!(!day21::grid_contains(&grid, day21::Point { x: 0, y: 11 }));
    assert!(!day21::grid_contains(&grid, day21::Point { x: 11, y: 0 }));
    assert!(day21::passable(&grid, start));
    assert!(!day21::passable(&grid, day21::Point { x: 5, y: 1 }));
    assert_eq!(start.neighbour(day21::Direction::North), day21::Point { x: 5, y: 4 });
    assert_eq!(start.neighbour(day21::Direction::South), day21::Point { x: 5, y: 6 });
    assert_eq!(start.neighbour(day21::Direction::East), day21::Point { x: 6, y: 5 });
    assert_eq!(start.neighbour(day21::Direction::West), day21::Point { x: 4, y: 5 });
    assert!(day21::parse("...\n.#.").is_none());
    // a walled-in start
    let (closed, at) = day21::parse("###\n#S#\n###").unwrap();
    assert_eq!(day21::visit(&closed, at, 1), 0);
    assert_eq!(day21::visit(&closed, at, 0), 1);
    let perims: Vec<usize> = (0..262).collect();
    let offsets: Vec<usize> = (0..131).map(|i| i * 2).collect();
    // step 400 = 3 * 131 + 7: (3 - 1) * (131 + 14) + 138
    assert_eq!(day21::predict_perimeter(400, &perims, &offsets), Some(2 * (131 + 14) + 138));
    assert_eq!(day21::predict_perimeter(131, &perims, &offsets), Some(131));
    let huge = vec![usize::MAX; 262];
    assert_eq!(day21::predict_perimeter(400, &huge, &offsets), None);
    assert_eq!(day21::predict_perimeter(131, &huge, &offsets), Some(usize::MAX));
}

#[test]
fn remainders_are_never_negative() {
    assert_eq!(day21::pos_mod(7, 3), 1);
    assert_eq!(day21::pos_mod(-7, 3), 2);
    assert_eq!(day21::pos_mod(-3, 3), 0);
    assert_eq!(day21::pos_mod(-1, 131), 130);
    assert_eq!(day21::pos_mod(0, 5), 0);
    assert_eq!(day21::pos_mod(isize::MIN, 2), 0);
    assert_eq!(day21::pos_mod(isize::MIN + 1, 2), 1);
}

#[test]
fn an_open_garden_without_end_fills_squares() {
    // without rocks, k steps lead to 4k new plots, and the plots that a
    // walk of n steps can end on number (n + 1) * (n + 1)
    let (grid, start) = day21::parse("S").unwrap();
    // the count is foretold two steps at a time from step 393 on, one
    // round at least
    assert_eq!(day21::visit_infinite(&grid, start, 393), Some(396 * 396));
    assert_eq!(day21::visit_infinite(&grid, start, 394), Some(396 * 396));
    assert_eq!(day21::visit_infinite(&grid, start, 1000), Some(1002 * 1002));
    assert_eq!(day21::visit_infinite(&grid, start, 1001), Some(1002 * 1002));
    assert_eq!(day21::part2(&(grid.clone(), start)), Some(702322399865956));
    // fewer than 393 steps are not enough to foretell from
    assert_eq!(day21::visit_infinite(&grid, start, 392), None);
    assert_eq!(day21::visit_infinite(&grid, start, 0), None);
    let (wide, from) = day21::parse("...\n.S.\n...").unwrap();
    assert_eq!(day21::visit_infinite(&wide, from, 500), Some(502 * 502));
}

#[test]
fn a_garden_without_end_may_have_rocks() {
    // a walled-in start: no step leads anywhere
    let (closed, at) = day21::parse("###\n#S#\n###").unwrap();
    assert_eq!(day21::visit_infinite(&closed, at, 1000), None);
    // columns of rock: the walk goes up and down only, two new plots a
    // step, fewer than the perimeters before it foretell
    let (lanes, from) = day21::parse("#S#").unwrap();
    assert_eq!(day21::visit_infinite(&lanes, from, 393), None);
    assert_eq!(day21::visit_infinite(&lanes, from, 1000), None);
}
