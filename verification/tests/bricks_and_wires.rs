use aoc2023::day20;
use aoc2023::day21::{Direction, Point};
use aoc2023::day22;
use aoc2023::day23;
use aoc2023::day25;

const BRICKS: &str = "1,0,1~1,2,1
0,0,2~2,0,2
0,2,3~2,2,3
0,0,4~0,2,4
2,0,5~2,2,5
0,1,6~2,1,6
1,1,8~1,1,9";

const TRAILS: &str = "#.#####################
#.......#########...###
#######.#########.#.###
###.....#.>.>.###.#.###
###v#####.#v#.###.#.###
###.>...#.#.#.....#...#
###v###.#.#.#########.#
###...#.#.#.......#...#
#####.#.#.#######.#.###
#.....#.#.#.......#...#
#.#####.#.#.#########v#
#.#...#...#...###...>.#
#.#.#v#######v###.###v#
#...#.>.#...>.>.#.###.#
#####v#.#.###v#.#.###.#
#.....#...#...#.#.#...#
#.#########.###.#.#.###
#...###...#...#...#.###
###.###.#.###v#####v###
#...#...#.#.>.>.#.>.###
#.###.###.#.###.#.#v###
#.....###...###...#...#
#####################.#";

const WIRES: &str = "jqt: rhn xhk nvd
rsh: frs pzl lsr
xhk: hfx
cmg: qnr nvd lhk bvb
rhn: xhk bvb hfx
bvb: xhk hfx
pzl: lsr hfx nvd
qnr: nvd
ntq: jqt hfx bvb xhk
nvd: lhk
lsr: lhk
rzs: qnr cmg lsr rsh
frs: qnr lhk lsr";

#[test]
fn day22_part1_example() {
    assert_eq!(day22::part1(&day22::parse(BRICKS).unwrap()), Some(5));
}

#[test]
fn day22_part2_example() {
    assert_eq!(day22::part2(&day22::parse(BRICKS).unwrap()), Some(7));
}

#[test]
fn bricks_are_read_and_sorted_by_their_bottom() {
    let bricks = day22::parse("0,0,4~0,2,4\n1,0,1~1,2,1\n2,3,4~2,3,5").unwrap();
    assert_eq!(bricks.len(), 3);
    let mut sorted = bricks.clone();
    day22::sort_by_bottom(&mut sorted);
    let mut by_std = bricks.clone();
    by_std.sort_by_key(|b| b.2);
    assert_eq!(sorted, by_std);
    assert_eq!(day22::parse("1,0,1-1,2,1"), Some(vec![(1, 0, 1, 1, 2, 1)]));
    assert!(day22::parse("1,0,1~~1,2,1").is_none());
    assert!(day22::parse("1,0,1~1,2").is_none());
    assert!(day22::parse("1,0,x~1,2,1").is_none());
}

#[test]
fn bricks_come_to_rest_on_the_ground_or_on_each_other() {
    let bricks = day22::parse(BRICKS).unwrap();
    let rest = day22::settle(&bricks).unwrap();
    assert_eq!(rest.len(), bricks.len());
    let bottoms: Vec<usize> = rest.iter().map(|b| b.2).collect();
    assert_eq!(bottoms, vec![1, 2, 2, 3, 3, 4, 5]);
    let tops: Vec<usize> = rest.iter().map(|b| b.5).collect();
    assert_eq!(tops, vec![1, 2, 2, 3, 3, 4, 6]);
}

#[test]
fn a_single_brick_can_go_and_nothing_falls() {
    let bricks = day22::parse("0,0,5~0,0,7").unwrap();
    assert_eq!(day22::part1(&bricks), Some(1));
    assert_eq!(day22::part2(&bricks), Some(0));
    assert_eq!(day22::drop_all(bricks.clone(), false), Some(1));
    let tower = day22::parse("0,0,1~0,0,2\n0,0,5~0,0,5\n0,0,9~0,0,9").unwrap();
    assert_eq!(day22::part1(&tower), Some(1));
    assert_eq!(day22::part2(&tower), Some(3));
}

#[test]
fn trails_are_read() {
    let map = day23::parse(TRAILS).unwrap();
    assert_eq!(map.len(), 23);
    assert_eq!(map[0].len(), 23);
    assert!(matches!(map[0][0], day23::Tile::Forest));
    assert!(matches!(map[0][1], day23::Tile::Path));
    assert!(matches!(map[3][10], day23::Tile::Slope(Direction::East)));
    assert!(matches!(map[4][3], day23::Tile::Slope(Direction::South)));
    assert!(day23::parse("#.#\n#x#").is_none());
    let odd = day23::parse(".^<").unwrap();
    assert!(matches!(odd[0][1], day23::Tile::Slope(Direction::North)));
    assert!(matches!(odd[0][2], day23::Tile::Slope(Direction::West)));
}

#[test]
fn trails_start_and_finish_on_the_first_path_of_a_row() {
    let map = day23::parse(TRAILS).unwrap();
    assert_eq!(day23::starting_point(&map), Some(Point { x: 1, y: 0 }));
    assert_eq!(day23::finishing_point(&map), Some(Point { x: 21, y: 22 }));
    assert_eq!(day23::bottom_right(&map), Point { x: 22, y: 22 });
    let closed = day23::parse("###\n#.#").unwrap();
    assert_eq!(day23::starting_point(&closed), None);
    assert_eq!(day23::finishing_point(&closed), Some(Point { x: 1, y: 1 }));
}

#[test]
fn steps_follow_paths_and_slopes() {
    let map = day23::parse(TRAILS).unwrap();
    assert_eq!(
        day23::adjacent(Point { x: 1, y: 0 }, &map, false),
        vec![Point { x: 1, y: 1 }]
    );
    assert_eq!(
        day23::adjacent(Point { x: 1, y: 1 }, &map, false),
        vec![Point { x: 1, y: 0 }, Point { x: 2, y: 1 }]
    );
    // from (3, 5) the slope to the east may be entered going east, the one
    // to the south going south, and the one to the north of it not at all
    assert_eq!(
        day23::adjacent(Point { x: 3, y: 5 }, &map, false),
        vec![Point { x: 3, y: 6 }, Point { x: 4, y: 5 }]
    );
    assert_eq!(
        day23::adjacent(Point { x: 3, y: 5 }, &map, true),
        vec![Point { x: 3, y: 4 }, Point { x: 3, y: 6 }, Point { x: 4, y: 5 }]
    );
    assert_eq!(day23::adjacent(Point { x: 0, y: 0 }, &map, true), vec![Point { x: 1, y: 0 }]);
    assert_eq!(day23::adjacent(Point { x: 22, y: 22 }, &map, true), vec![Point { x: 21, y: 22 }]);
}

#[test]
fn day25_part1_example() {
    assert_eq!(day25::part1(&day25::parse(WIRES).unwrap()), Some(54));
}

#[test]
fn wiring_is_numbered_as_names_are_met() {
    let graph = day25::parse("a: b c\nc: a d").unwrap();
    // b is 0, c is 1, a is 2, d is 3
    assert_eq!(graph.len(), 4);
    assert_eq!(graph[0], vec![2]);
    assert_eq!(graph[1], vec![2, 3]);
    assert_eq!(graph[2], vec![0, 1]);
    assert_eq!(graph[3], vec![1]);
    assert!(day25::parse("a b c").is_none());
    assert!(day25::parse("a:b").is_none());
    assert_eq!(day25::parse("").unwrap().len(), 0);
    assert_eq!(day25::part2(&graph), 0);
}

#[test]
fn ways_are_found_along_wires() {
    let graph = day25::parse("a: b\nc: b\nd: e").unwrap();
    // b is 0, a is 1, c is 2, e is 3, d is 4
    assert_eq!(day25::find_path(&graph, 1, 2), Some(vec![1, 0, 2]));
    assert_eq!(day25::find_path(&graph, 1, 1), Some(vec![1]));
    assert_eq!(day25::find_path(&graph, 1, 4), None);
    assert_eq!(day25::find_path(&graph, 3, 4), Some(vec![3, 4]));
    assert_eq!(day25::find_path(&graph, 0, 9), None);
    assert_eq!(day25::connected_count(&graph), 3);
    let found = day25::search(&graph, 4);
    assert_eq!(found.seen, vec![false, false, false, true, true]);
}

#[test]
fn wiring_that_three_cuts_cannot_part_gives_nothing() {
    // a ring of three components: two ways lead round, then the third
    // search finds the ring parted
    let ring = day25::parse("a: b\nb: c\nc: a").unwrap();
    assert_eq!(day25::part1(&ring), None);
    let single = day25::parse("a: a").unwrap();
    assert_eq!(single.len(), 1);
    assert_eq!(day25::part1(&single), Some(0));
    assert_eq!(day25::part1(&Vec::new()), Some(0));
}

#[test]
fn day23_part1_example() {
    assert_eq!(day23::part1(&day23::parse(TRAILS).unwrap()), Ok(94));
}

#[test]
fn day23_part2_example() {
    assert_eq!(day23::part2(&day23::parse(TRAILS).unwrap()), Some(154));
}

#[test]
fn walks_end_where_ways_part() {
    let map = day23::parse(TRAILS).unwrap();
    // from the start one walk leads down to the first fork
    assert_eq!(
        day23::get_connected_points(Point { x: 1, y: 0 }, &map, false),
        vec![(Point { x: 3, y: 5 }, 15)]
    );
    // at the fork the slopes let the hiker on to the east and to the south
    assert_eq!(
        day23::get_connected_points(Point { x: 3, y: 5 }, &map, false),
        vec![(Point { x: 5, y: 13 }, 22), (Point { x: 11, y: 3 }, 22)]
    );
    // where slopes are ignored the walk back up is found too
    assert_eq!(
        day23::get_connected_points(Point { x: 3, y: 5 }, &map, true),
        vec![(Point { x: 1, y: 0 }, 15), (Point { x: 5, y: 13 }, 22), (Point { x: 11, y: 3 }, 22)]
    );
    // nothing leads on from the end
    assert_eq!(day23::get_connected_points(Point { x: 21, y: 22 }, &map, true), vec![]);
}

#[test]
fn trails_are_charted_from_the_start() {
    let map = day23::parse(TRAILS).unwrap();
    let chart = day23::calculate_edges(&map, false);
    assert_eq!(chart.places[0], Point { x: 1, y: 0 });
    assert_eq!(chart.ways.len(), chart.places.len());
    assert_eq!(chart.ways[0].len(), 1);
    assert_eq!(chart.ways[0][0].1, 15);
    assert_eq!(chart.places[chart.ways[0][0].0], Point { x: 3, y: 5 });
    let end = chart.places.iter().position(|p| *p == Point { x: 21, y: 22 }).unwrap();
    assert!(chart.ways[end].is_empty());
    let both = day23::calculate_edges(&map, true);
    assert_eq!(both.places.len(), 9);
    let end = both.places.iter().position(|p| *p == Point { x: 21, y: 22 }).unwrap();
    assert_eq!(day23::longest_hike(&both.ways, 0, end), Some(154));
}

#[test]
fn every_hike_is_tried() {
    // 0 -> 1 (2), 0 -> 2 (1), 1 -> 2 (5), 2 -> 1 (1), 1 -> 3 (1), 2 -> 3 (3)
    let edges = vec![
        vec![(1, 2), (2, 1)],
        vec![(2, 5), (3, 1)],
        vec![(1, 1), (3, 3)],
        vec![],
    ];
    assert_eq!(day23::longest_hike(&edges, 0, 3), Some(10));
    assert_eq!(day23::longest_hike(&edges, 0, 0), Some(0));
    assert_eq!(day23::longest_hike(&edges, 3, 0), Some(0));
    assert_eq!(day23::longest_hike(&edges, 1, 2), Some(5));
    let mut path = vec![false, false, true, false];
    let mut best = 4;
    day23::check_all_paths(0, 3, &mut path, 1, &edges, &mut best);
    assert_eq!(best, 4);
    assert_eq!(path, vec![false, false, true, false]);
    let mut path = vec![false, true, false, false];
    day23::check_all_paths(0, 3, &mut path, 1, &edges, &mut best);
    assert_eq!(best, 5);
    let huge = vec![vec![(1, usize::MAX)], vec![]];
    assert_eq!(day23::longest_hike(&huge, 0, 1), None);
}

#[test]
fn junctions_are_sorted_behind_the_ends_of_their_walks() {
    let edges = vec![vec![(1, 2), (2, 1)], vec![(3, 1)], vec![(1, 1), (3, 3)], vec![]];
    let mut sorted = Vec::new();
    let mut visited = vec![false; 4];
    let mut entered = vec![false; 4];
    assert!(day23::topological_sort(&edges, 0, &mut sorted, &mut visited, &mut entered));
    assert_eq!(sorted, vec![3, 1, 2, 0]);
    assert_eq!(visited, vec![true; 4]);
    let round = vec![vec![(1, 1)], vec![(2, 1)], vec![(1, 1)]];
    let mut sorted = Vec::new();
    let mut visited = vec![false; 3];
    let mut entered = vec![false; 3];
    assert!(!day23::topological_sort(&round, 0, &mut sorted, &mut visited, &mut entered));
}

#[test]
fn hikes_that_cannot_be_measured_are_told_apart() {
    // a ring of paths below the start: walks lead round in a circle
    let ring = day23::parse("#.#####\n#.....#\n#.###.#\n#.....#\n###.###\n#.....#\n#.###.#\n#.....#\n#####.#").unwrap();
    assert_eq!(day23::part1(&ring), Err(day23::HikeError::Circle));
    assert_eq!(day23::part2(&ring), Some(20));
    // a slope against the hiker: no way down
    let shut = day23::parse("#.#\n#^#\n#.#").unwrap();
    assert_eq!(day23::part1(&shut), Err(day23::HikeError::NoWay));
    assert_eq!(day23::part2(&shut), Some(2));
    let straight = day23::parse("#.#\n#v#\n#.#").unwrap();
    assert_eq!(day23::part1(&straight), Ok(2));
    let single = day23::parse("#.#").unwrap();
    assert_eq!(day23::part1(&single), Ok(0));
    assert_eq!(day23::part2(&single), Some(0));
}

#[test]
fn day20_part1_example() {
    let example = "broadcaster -> a\n%a -> inv, con\n&inv -> b\n%b -> con\n&con -> output";
    assert_eq!(day20::part1(example), Some(11687500));
}

#[test]
fn pulses_of_a_thousand_presses_are_counted() {
    let example = "broadcaster -> a, b, c\n%a -> b\n%b -> c\n%c -> inv\n&inv -> a";
    assert_eq!(day20::part1(example), Some(32000000));
    // the button's pulse alone: a thousand low pulses and no high one
    assert_eq!(day20::part1(""), Some(0));
    assert_eq!(day20::part1("broadcaster -> a"), Some(0));
    assert_eq!(day20::part1("broadcaster a"), None);
    // a module with an unknown sign cannot take a pulse
    assert_eq!(day20::part1("broadcaster -> a\n?a -> b"), None);
    // nor one whose line begins with the arrow
    assert_eq!(day20::part1(" -> a"), None);
}

#[test]
fn one_press_sends_the_pulses_in_their_order() {
    let net = day20::parse("broadcaster -> a\n%a -> inv, con\n&inv -> b\n%b -> con\n&con -> output").unwrap();
    let names: Vec<String> = net.names.iter().map(|n| n.iter().collect()).collect();
    assert_eq!(names, vec!["broadcaster", "a", "inv", "con", "b", "output"]);
    assert_eq!(net.targets, vec![vec![1], vec![2, 3], vec![4], vec![5], vec![3], vec![]]);
    assert_eq!(net.kinds[0], day20::Kind::Broadcaster);
    assert_eq!(net.kinds[1], day20::Kind::FlipFlop);
    assert_eq!(net.kinds[2], day20::Kind::Conjunction);
    assert_eq!(net.kinds[5], day20::Kind::Absent);
    let mut state = day20::fresh(&net);
    assert_eq!(state.known[3], vec![false, true, false, false, true, false, false]);
    let (mut lows, mut highs) = (0, 0);
    let mut seen = Vec::new();
    // watch the module `output`, number 5
    assert!(day20::press(&net, &mut state, 0, 5, &mut lows, &mut highs, &mut seen));
    assert_eq!((lows, highs), (4, 4));
    assert_eq!(seen, vec![3]);
    assert_eq!(state.flips, vec![false, true, false, false, true, false]);
    assert!(day20::press(&net, &mut state, 0, 5, &mut lows, &mut highs, &mut seen));
    assert_eq!((lows, highs), (8, 6));
    assert_eq!(seen, vec![3, 3]);
}

#[test]
fn presses_are_counted_until_every_feeder_has_sent_high() {
    let counters = "broadcaster -> a\n%a -> mk, b\n&mk -> kl\n%b -> fp, c\n&fp -> kl\n%c -> xt, d\n&xt -> kl\n%d -> zc\n&zc -> kl\n&kl -> rx";
    assert_eq!(day20::part2(counters), Some(16));
    // a high pulse from a module that is none of the four
    let other = "broadcaster -> a\n%a -> kl\n&mk -> kl\n&fp -> kl\n&xt -> kl\n&zc -> kl";
    assert_eq!(day20::part2(other), None);
    assert_eq!(day20::part2("broadcaster -> a"), None);
}

#[test]
fn hailstones_are_read() {
    let stones = aoc2023::day24::parse("19, 13, 30 @ -2,  1, -2\n18, 19, 22 @ -1, -1, -2").unwrap();
    assert_eq!(stones, vec![(19, 13, 30, -2, 1, -2), (18, 19, 22, -1, -1, -2)]);
    assert_eq!(aoc2023::day24::parse("1,2,3@+4,5,6,7@8"), Some(vec![(1, 2, 3, 4, 5, 6)]));
    assert_eq!(aoc2023::day24::parse("1, 2, 3"), None);
    assert_eq!(aoc2023::day24::parse("1, 2 @ 3, 4, 5"), None);
    assert_eq!(aoc2023::day24::parse("1, 2, x @ 3, 4, 5"), None);
    assert_eq!(aoc2023::day24::parse("1, 2, 9223372036854775808 @ 3, 4, 5"), None);
    assert_eq!(
        aoc2023::day24::parse("1, 2, -9223372036854775808 @ 3, 4, 5"),
        Some(vec![(1, 2, i64::MIN, 3, 4, 5)])
    );
}
