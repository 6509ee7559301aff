use aoc2023::day17::{find_path, parse, part1, part2};
use aoc2023::frontier::{Frontier, FrontierEntry};
use aoc2023::grid::{Coordinate, GridModel, ParseError, MAX_SIDE};
use aoc2023::route::{Direction, SearchState};
use aoc2023::search::{ConfigError, ConstrainedSearchEngine, SearchError};

const EXAMPLE: &str = r#"2413432311323
3215453535623
3255245654254
3446585845452
4546657867536
1438598798454
4457876987766
3637877979653
4654967986887
4564679986453
1224686865563
2546548887735
4322674655533"#;

const TRENCH: &str = "111111111111\n999999999991\n999999999991\n999999999991\n999999999991";

fn at(x: i32, y: i32) -> Coordinate {
    Coordinate { x, y }
}

fn entry(cost: u64, x: i32, y: i32, direction: Direction) -> FrontierEntry {
    FrontierEntry { cost, state: SearchState { position: at(x, y), direction } }
}

#[test]
fn day17_part1_example() {
    assert_eq!(part1(&parse(EXAMPLE).unwrap()), Ok(102));
}

#[test]
fn day17_part2_example() {
    assert_eq!(part2(&parse(EXAMPLE).unwrap()), Ok(94));
}

#[test]
fn find_path_selects_the_rule() {
    let grid = parse(EXAMPLE).unwrap();
    assert_eq!(find_path(&grid, false), Ok(102));
    assert_eq!(find_path(&grid, true), Ok(94));
}

#[test]
fn long_runs_through_a_trench() {
    assert_eq!(part2(&parse(TRENCH).unwrap()), Ok(71));
}

#[test]
fn engine_matches_the_worked_example() {
    let grid = GridModel::parse(EXAMPLE).unwrap();
    let goal = grid.bottom_right();
    assert_eq!(goal, at(12, 12));
    let plain = ConstrainedSearchEngine::new(1, 3).unwrap();
    let ultra = ConstrainedSearchEngine::new(4, 10).unwrap();
    assert_eq!(plain.find_min_cost(&grid, at(0, 0), goal), Ok(102));
    assert_eq!(ultra.find_min_cost(&grid, at(0, 0), goal), Ok(94));
}

#[test]
fn start_equal_to_goal_costs_nothing() {
    let grid = GridModel::parse(EXAMPLE).unwrap();
    for (min_run, max_run) in [(1, 3), (4, 10), (7, 7), (1, 1)] {
        let engine = ConstrainedSearchEngine::new(min_run, max_run).unwrap();
        assert_eq!(engine.find_min_cost(&grid, at(0, 0), at(0, 0)), Ok(0));
        assert_eq!(engine.find_min_cost(&grid, at(5, 7), at(5, 7)), Ok(0));
        assert_eq!(engine.find_min_cost(&grid, at(-3, 40), at(-3, 40)), Ok(0));
    }
}

#[test]
fn no_path_when_runs_cannot_land_on_the_goal() {
    let grid = GridModel::parse("111111\n111111\n111111\n111111\n111111\n111111").unwrap();
    let engine = ConstrainedSearchEngine::new(4, 4).unwrap();
    assert_eq!(engine.find_min_cost(&grid, at(0, 0), at(5, 5)), Err(SearchError::NoPath));
    assert_eq!(engine.find_min_cost(&grid, at(0, 0), at(4, 4)), Ok(8));
}

#[test]
fn no_path_in_a_grid_smaller_than_the_shortest_run() {
    let grid = GridModel::parse("123\n456\n789").unwrap();
    let engine = ConstrainedSearchEngine::new(4, 10).unwrap();
    assert_eq!(engine.find_min_cost(&grid, at(0, 0), at(2, 2)), Err(SearchError::NoPath));
}

#[test]
fn no_path_to_a_goal_outside_the_grid() {
    let grid = GridModel::parse("123\n456\n789").unwrap();
    let engine = ConstrainedSearchEngine::new(1, 3).unwrap();
    assert_eq!(engine.find_min_cost(&grid, at(0, 0), at(3, 0)), Err(SearchError::NoPath));
    assert_eq!(engine.find_min_cost(&grid, at(0, 0), at(0, -1)), Err(SearchError::NoPath));
}

#[test]
fn exact_costs_on_a_small_grid() {
    let grid = GridModel::parse("123\n456\n789").unwrap();
    let engine = ConstrainedSearchEngine::new(1, 3).unwrap();
    // east 2 (2 + 3), south 2 (6 + 9)
    assert_eq!(engine.find_min_cost(&grid, at(0, 0), at(2, 2)), Ok(20));
    // east 1 (2)
    assert_eq!(engine.find_min_cost(&grid, at(0, 0), at(1, 0)), Ok(2));
    // the start cell's own cost is never counted
    assert_eq!(engine.find_min_cost(&grid, at(1, 1), at(2, 1)), Ok(6));
}

#[test]
fn a_run_may_not_go_straight_on_or_back() {
    let grid = GridModel::parse("11111").unwrap();
    let engine = ConstrainedSearchEngine::new(1, 3).unwrap();
    assert_eq!(engine.find_min_cost(&grid, at(0, 0), at(3, 0)), Ok(3));
    // four cells east would need a second run on the same heading
    assert_eq!(engine.find_min_cost(&grid, at(0, 0), at(4, 0)), Err(SearchError::NoPath));
}

#[test]
fn first_run_heads_east_or_south_unless_freed() {
    let grid = GridModel::parse("123\n456\n789").unwrap();
    let engine = ConstrainedSearchEngine::new(1, 3).unwrap();
    assert!(!engine.allow_all_initial_directions());
    assert_eq!(engine.find_min_cost(&grid, at(2, 2), at(0, 0)), Err(SearchError::NoPath));
    let freed = engine.with_all_initial_directions(true);
    assert!(freed.allow_all_initial_directions());
    assert_eq!(freed.min_run(), 1);
    assert_eq!(freed.max_run(), 3);
    // north 2 (6 + 3), west 2 (2 + 1)
    assert_eq!(freed.find_min_cost(&grid, at(2, 2), at(0, 0)), Ok(12));
}

#[test]
fn a_start_outside_the_grid_may_walk_in() {
    let grid = GridModel::parse("123\n456\n789").unwrap();
    let engine = ConstrainedSearchEngine::new(1, 3).unwrap();
    assert_eq!(engine.find_min_cost(&grid, at(-1, 0), at(1, 0)), Ok(3));
    assert_eq!(engine.find_min_cost(&grid, at(-2, 0), at(1, 0)), Err(SearchError::NoPath));
    assert_eq!(engine.find_min_cost(&grid, at(i32::MAX, 0), at(1, 0)), Err(SearchError::NoPath));
}

#[test]
fn cost_is_at_least_distance_times_cheapest_cell() {
    let grid = GridModel::parse(EXAMPLE).unwrap();
    let cheapest = 1;
    for (min_run, max_run) in [(1, 3), (4, 10), (2, 5)] {
        let engine = ConstrainedSearchEngine::new(min_run, max_run).unwrap();
        for goal in [at(12, 12), at(4, 9), at(0, 7), at(11, 0)] {
            if let Ok(cost) = engine.find_min_cost(&grid, at(0, 0), goal) {
                assert!(cost >= cheapest * (goal.x as u64 + goal.y as u64));
            }
        }
    }
    let flat = GridModel::parse("3333\n3333\n3333").unwrap();
    let engine = ConstrainedSearchEngine::new(1, 3).unwrap();
    assert_eq!(engine.find_min_cost(&flat, at(0, 0), at(3, 2)), Ok(15));
}

#[test]
fn repeated_searches_agree() {
    let grid = GridModel::parse(EXAMPLE).unwrap();
    let engine = ConstrainedSearchEngine::new(4, 10).unwrap();
    let first = engine.find_min_cost(&grid, at(0, 0), at(12, 12));
    for _ in 0..5 {
        assert_eq!(engine.find_min_cost(&grid, at(0, 0), at(12, 12)), first);
    }
}

#[test]
fn dearer_cells_never_lower_the_cost() {
    let engine = ConstrainedSearchEngine::new(1, 3).unwrap();
    let before = GridModel::parse("123\n456\n789").unwrap();
    let after = GridModel::parse("123\n459\n789").unwrap();
    let low = engine.find_min_cost(&before, at(0, 0), at(2, 2)).unwrap();
    let high = engine.find_min_cost(&after, at(0, 0), at(2, 2)).unwrap();
    assert_eq!(low, 20);
    assert_eq!(high, 23);
    assert!(low <= high);
    let dearer = EXAMPLE.replacen("2413", "2913", 1);
    let raised = GridModel::parse(&dearer).unwrap();
    let base = GridModel::parse(EXAMPLE).unwrap();
    assert!(
        engine.find_min_cost(&base, at(0, 0), at(12, 12)).unwrap()
            <= engine.find_min_cost(&raised, at(0, 0), at(12, 12)).unwrap()
    );
}

#[test]
fn reading_twice_gives_the_same_grid() {
    let a = GridModel::parse(EXAMPLE).unwrap();
    let b = GridModel::parse(EXAMPLE).unwrap();
    assert_eq!(a.width(), b.width());
    assert_eq!(a.height(), b.height());
    assert_eq!(a.bottom_right(), b.bottom_right());
    for y in -1..14 {
        for x in -1..14 {
            assert_eq!(a.cost(at(x, y)), b.cost(at(x, y)));
            assert_eq!(a.contains(at(x, y)), b.contains(at(x, y)));
        }
    }
}

#[test]
fn grid_queries() {
    let grid = GridModel::parse("123\n456").unwrap();
    assert_eq!(grid.width(), 3);
    assert_eq!(grid.height(), 2);
    assert_eq!(grid.bottom_right(), at(2, 1));
    assert_eq!(grid.cost(at(0, 0)), Some(1));
    assert_eq!(grid.cost(at(2, 0)), Some(3));
    assert_eq!(grid.cost(at(0, 1)), Some(4));
    assert_eq!(grid.cost(at(2, 1)), Some(6));
    assert_eq!(grid.cost(at(3, 0)), None);
    assert_eq!(grid.cost(at(0, 2)), None);
    assert_eq!(grid.cost(at(-1, 0)), None);
    assert_eq!(grid.cost(at(0, -1)), None);
    assert!(grid.contains(at(2, 1)));
    assert!(!grid.contains(at(3, 1)));
    assert!(!grid.contains(at(2, 2)));
    assert!(!grid.contains(at(-1, 0)));
}

#[test]
fn line_endings() {
    let plain = GridModel::parse("12\n34").unwrap();
    for text in ["12\n34\n", "12\r\n34\r\n", "12\r\n34"] {
        let grid = GridModel::parse(text).unwrap();
        assert_eq!(grid.width(), 2);
        assert_eq!(grid.height(), 2);
        for y in 0..2 {
            for x in 0..2 {
                assert_eq!(grid.cost(at(x, y)), plain.cost(at(x, y)));
            }
        }
    }
    // a carriage return that no line feed follows is part of the line
    assert_eq!(GridModel::parse("12\n34\r").err(), Some(ParseError::InvalidDigit));
}

#[test]
fn grids_without_cells() {
    let empty = GridModel::parse("").unwrap();
    assert_eq!(empty.width(), 0);
    assert_eq!(empty.height(), 0);
    assert_eq!(empty.bottom_right(), at(-1, -1));
    assert_eq!(empty.cost(at(0, 0)), None);
    let blank = GridModel::parse("\n\n").unwrap();
    assert_eq!(blank.width(), 0);
    assert_eq!(blank.height(), 2);
    let engine = ConstrainedSearchEngine::new(1, 3).unwrap();
    assert_eq!(engine.find_min_cost(&empty, at(0, 0), at(1, 0)), Err(SearchError::NoPath));
}

#[test]
fn parse_errors() {
    assert_eq!(GridModel::parse("12a\n345").err(), Some(ParseError::InvalidDigit));
    assert_eq!(GridModel::parse("12 \n345").err(), Some(ParseError::InvalidDigit));
    assert_eq!(GridModel::parse("12\n3\u{e9}").err(), Some(ParseError::InvalidDigit));
    assert_eq!(GridModel::parse("12\n345").err(), Some(ParseError::RaggedRows));
    assert_eq!(GridModel::parse("12\n\n34").err(), Some(ParseError::RaggedRows));
    // a byte that is no digit is reported before rows of unequal length
    assert_eq!(GridModel::parse("12\n3x5").err(), Some(ParseError::InvalidDigit));
    assert_eq!(parse("1-1").err(), Some(ParseError::InvalidDigit));
}

#[test]
fn grids_beyond_the_size_limit() {
    let widest = "7".repeat(MAX_SIDE);
    assert_eq!(GridModel::parse(&widest).unwrap().width(), MAX_SIDE);
    let too_wide = "7".repeat(MAX_SIDE + 1);
    assert_eq!(GridModel::parse(&too_wide).err(), Some(ParseError::TooLarge));
    let too_tall = "7\n".repeat(MAX_SIDE + 1);
    assert_eq!(GridModel::parse(&too_tall).err(), Some(ParseError::TooLarge));
}

#[test]
fn engine_configuration() {
    assert_eq!(ConstrainedSearchEngine::new(0, 3).err(), Some(ConfigError::ZeroMinRun));
    assert_eq!(ConstrainedSearchEngine::new(0, 0).err(), Some(ConfigError::ZeroMinRun));
    assert_eq!(ConstrainedSearchEngine::new(4, 3).err(), Some(ConfigError::MinRunAboveMax));
    assert_eq!(ConstrainedSearchEngine::new(1, 0).err(), Some(ConfigError::MinRunAboveMax));
    let engine = ConstrainedSearchEngine::new(4, 10).unwrap();
    assert_eq!(engine.min_run(), 4);
    assert_eq!(engine.max_run(), 10);
    let widest = ConstrainedSearchEngine::new(u32::MAX, u32::MAX).unwrap();
    let grid = GridModel::parse("123\n456").unwrap();
    assert_eq!(widest.find_min_cost(&grid, at(0, 0), at(2, 1)), Err(SearchError::NoPath));
    let any = ConstrainedSearchEngine::new(1, u32::MAX).unwrap();
    assert_eq!(any.find_min_cost(&grid, at(0, 0), at(2, 1)), Ok(11));
}

#[test]
fn frontier_pops_by_cost() {
    let mut frontier = Frontier::new();
    assert!(frontier.is_empty());
    assert_eq!(frontier.pop_min(), None);
    for cost in [5u64, 3, 9, 1, 7, 3, 8, 2, 6, 4, 0] {
        frontier.push(entry(cost, 0, 0, Direction::East));
    }
    assert_eq!(frontier.len(), 11);
    let mut out = Vec::new();
    while let Some(e) = frontier.pop_min() {
        out.push(e.cost);
    }
    assert_eq!(out, vec![0, 1, 2, 3, 3, 4, 5, 6, 7, 8, 9]);
    assert!(frontier.is_empty());
}

#[test]
fn frontier_breaks_ties_by_position_then_heading() {
    let mut frontier = Frontier::new();
    let entries = [
        entry(4, 2, 0, Direction::West),
        entry(4, 1, 5, Direction::East),
        entry(4, 1, 5, Direction::South),
        entry(4, 1, 5, Direction::Start),
        entry(4, 1, 5, Direction::North),
        entry(4, 1, 5, Direction::West),
        entry(4, 1, 2, Direction::East),
        entry(3, 9, 9, Direction::East),
        entry(4, -1, 7, Direction::East),
    ];
    for e in entries {
        frontier.push(e);
    }
    let expected = [
        entry(3, 9, 9, Direction::East),
        entry(4, -1, 7, Direction::East),
        entry(4, 1, 2, Direction::East),
        entry(4, 1, 5, Direction::West),
        entry(4, 1, 5, Direction::North),
        entry(4, 1, 5, Direction::Start),
        entry(4, 1, 5, Direction::South),
        entry(4, 1, 5, Direction::East),
        entry(4, 2, 0, Direction::West),
    ];
    for e in expected {
        assert_eq!(frontier.pop_min(), Some(e));
    }
    assert_eq!(frontier.pop_min(), None);
}

#[test]
fn frontier_entry_order() {
    let a = entry(1, 5, 5, Direction::East);
    let b = entry(2, 0, 0, Direction::West);
    assert!(a.comes_before(&b));
    assert!(!b.comes_before(&a));
    assert!(a.comes_before(&a));
}
