use aoc2023::day11;
use aoc2023::day19::{
    count_accepted, parse, part1, part2, FinalOutcome, IntermediateOutcome, Matcher, Part,
    PartRange, PropertyName, Rule, Span, Workflow, WorkflowCollection,
};

const EXAMPLE: &str = r#"px{a<2006:qkq,m>2090:A,rfg}
pv{a>1716:R,A}
lnx{m>1548:A,A}
rfg{s<537:gd,x>2440:R,A}
qs{s>3448:A,lnx}
qkq{x<1416:A,crn}
crn{x>2662:A,R}
in{s<1351:px,qqz}
qqz{s>2770:qs,m<1801:hdj,R}
gd{a>3333:R,R}
hdj{m>838:A,pv}
 
{x=787,m=2655,a=1222,s=2876}
{x=1679,m=44,a=2067,s=496}
{x=2036,m=264,a=79,s=2244}
{x=2461,m=1339,a=466,s=291}
{x=2127,m=1623,a=2188,s=1013}"#;

const SKY: &str = r#"...#......
.......#..
#.........
..........
......#...
.#........
.........#
..........
.......#..
#...#....."#;

#[test]
fn day19_part1_example() {
    assert_eq!(part1(EXAMPLE), Some(19114));
}

#[test]
fn day19_part2_example() {
    assert_eq!(part2(EXAMPLE), Some(167409079868000));
}

#[test]
fn day11_part1_example() {
    assert_eq!(day11::part1(&day11::parse(SKY).unwrap()), Some(374));
}

#[test]
fn day11_part2_example() {
    assert_eq!(
        day11::part2(&day11::parse_with_ancient_expansion(SKY).unwrap()),
        Some(82000210)
    );
}

#[test]
fn sky_chart_details() {
    let (coords, cols) = day11::parse(SKY).unwrap();
    assert_eq!(cols, vec![2, 5, 8]);
    assert_eq!(coords.len(), 9);
    assert_eq!(coords[0], (0, 3));
    assert_eq!(coords[3], (5, 6));
    assert_eq!(coords[8], (11, 4));
    let (far, _) = day11::parse_with_ancient_expansion(SKY).unwrap();
    assert_eq!(far[3], (4 + 999_999, 6));
    assert_eq!(day11::parse(""), None);
    assert_eq!(day11::parse("..\n#.#"), Some((vec![(2, 0), (2, 2)], vec![1])));
}

fn name(s: &str) -> Vec<char> {
    s.chars().collect()
}

fn all() -> Span {
    Span { start: 1, end: 4001 }
}

#[test]
fn parts_and_ranges() {
    let part = Part { x: 787, m: 2655, a: 1222, s: 2876 };
    assert_eq!(part.score(FinalOutcome::Accept), Some(7540));
    assert_eq!(part.score(FinalOutcome::Reject), Some(0));
    assert_eq!(Part { x: usize::MAX, m: 1, a: 0, s: 0 }.score(FinalOutcome::Accept), None);
    assert_eq!(part.get(PropertyName::M), 2655);
    let range = PartRange::default();
    assert_eq!(range.count_num_combos(), Some(4000usize.pow(4)));
    let narrow = range.set(PropertyName::A, Span { start: 10, end: 12 });
    assert_eq!(narrow.get(PropertyName::A), Span { start: 10, end: 12 });
    assert_eq!(narrow.count_num_combos(), Some(4000usize.pow(3) * 2));
    let upside = range.set(PropertyName::S, Span { start: 5, end: 4 });
    assert_eq!(upside.count_num_combos(), None);
    let huge = Span { start: 0, end: usize::MAX };
    assert_eq!(PartRange { x: huge, m: huge, a: all(), s: all() }.count_num_combos(), None);
}

#[test]
fn matchers_and_rules() {
    let part = Part { x: 5, m: 6, a: 7, s: 8 };
    let less = Matcher::PropLessThan(PropertyName::A, 7);
    let more = Matcher::PropGreaterThan(PropertyName::S, 7);
    assert!(!less.matches(&part));
    assert!(more.matches(&part));
    assert_eq!(less.prop_name(), PropertyName::A);
    assert_eq!(more.prop_name(), PropertyName::S);
    let rule = Rule { matcher: Some(more), outcome: IntermediateOutcome::Redirect(name("px")) };
    assert_eq!(rule.try_apply(&part), Some(IntermediateOutcome::Redirect(name("px"))));
    let other = Rule { matcher: Some(less), outcome: IntermediateOutcome::Accept };
    assert_eq!(other.try_apply(&part), None);
    let last = Rule { matcher: None, outcome: IntermediateOutcome::Reject };
    assert_eq!(last.try_apply(&part), Some(IntermediateOutcome::Reject));
}

#[test]
fn rules_split_ranges() {
    let range = PartRange::default();
    let less = Rule {
        matcher: Some(Matcher::PropLessThan(PropertyName::X, 100)),
        outcome: IntermediateOutcome::Accept,
    };
    let split = less.apply_ranges(&[range]).unwrap();
    assert_eq!(split.len(), 2);
    assert_eq!(split[0].0.x, Span { start: 1, end: 100 });
    assert_eq!(split[0].1, Some(IntermediateOutcome::Accept));
    assert_eq!(split[1].0.x, Span { start: 100, end: 4001 });
    assert_eq!(split[1].1, None);
    let more = Rule {
        matcher: Some(Matcher::PropGreaterThan(PropertyName::M, 100)),
        outcome: IntermediateOutcome::Reject,
    };
    let split = more.apply_ranges(&[range]).unwrap();
    assert_eq!(split[0].0.m, Span { start: 1, end: 101 });
    assert_eq!(split[0].1, None);
    assert_eq!(split[1].0.m, Span { start: 101, end: 4001 });
    assert_eq!(split[1].1, Some(IntermediateOutcome::Reject));
    let below = Rule {
        matcher: Some(Matcher::PropLessThan(PropertyName::X, 5000)),
        outcome: IntermediateOutcome::Accept,
    };
    assert_eq!(below.apply_ranges(&[range]).unwrap().len(), 1);
    let none = Rule {
        matcher: Some(Matcher::PropLessThan(PropertyName::X, 1)),
        outcome: IntermediateOutcome::Accept,
    };
    assert_eq!(none.apply_ranges(&[range]).unwrap()[0].1, None);
    // a span that ends before it starts cannot be split
    let upside = range.set(PropertyName::X, Span { start: 200, end: 50 });
    assert!(less.apply_ranges(&[upside]).is_none());
    let edge = Rule {
        matcher: Some(Matcher::PropGreaterThan(PropertyName::X, usize::MAX)),
        outcome: IntermediateOutcome::Accept,
    };
    assert_eq!(edge.apply_ranges(&[range]).unwrap()[0].1, None);
    assert_eq!(less.apply_ranges(&[]).unwrap().len(), 0);
}

#[test]
fn workflows_decide() {
    let (workflows, parts) = parse(EXAMPLE).unwrap();
    assert_eq!(workflows.workflows.len(), 11);
    assert_eq!(parts.len(), 5);
    assert_eq!(workflows.apply(&parts[0]), Some(FinalOutcome::Accept));
    assert_eq!(workflows.apply(&parts[1]), Some(FinalOutcome::Reject));
    assert_eq!(workflows.apply(&parts[2]), Some(FinalOutcome::Accept));
    assert_eq!(workflows.apply(&parts[3]), Some(FinalOutcome::Reject));
    assert_eq!(workflows.apply(&parts[4]), Some(FinalOutcome::Accept));
    assert_eq!(count_accepted(&workflows), Some(167409079868000));
    let pieces = workflows.apply_ranges(PartRange::default()).unwrap();
    let parts_in_all: usize = pieces.iter().map(|p| p.0.count_num_combos().unwrap()).sum();
    assert_eq!(parts_in_all, 4000usize.pow(4));
    assert_eq!(workflows.find(&name("in")), Some(7));
    assert_eq!(workflows.find(&name("nowhere")), None);
}

#[test]
fn workflows_that_lead_nowhere() {
    let part = Part { x: 1, m: 1, a: 1, s: 1 };
    let circle = parse("in{a<5:b,A}\nb{in}").unwrap().0;
    assert_eq!(circle.apply(&part), None);
    assert_eq!(circle.apply(&Part { x: 1, m: 1, a: 9, s: 1 }), Some(FinalOutcome::Accept));
    assert_eq!(circle.apply_ranges(PartRange::default()), None);
    let unknown = parse("in{b}").unwrap().0;
    assert_eq!(unknown.apply(&part), None);
    let open = WorkflowCollection {
        workflows: vec![(
            name("in"),
            Workflow {
                rules: vec![Rule {
                    matcher: Some(Matcher::PropLessThan(PropertyName::X, 0)),
                    outcome: IntermediateOutcome::Accept,
                }],
            },
        )],
    };
    assert_eq!(open.apply(&part), None);
    assert_eq!(open.workflows[0].1.apply(&part), None);
    assert!(open.workflows[0].1.apply_ranges(&[PartRange::default()]).is_none());
    // the later of two workflows of one name counts
    let twice = parse("in{R}\nin{A}").unwrap().0;
    assert_eq!(twice.apply(&part), Some(FinalOutcome::Accept));
}

#[test]
fn sheets_that_cannot_be_read() {
    assert!(parse("in{A}\n{x=1,m=2,a=3,s=4}").is_some());
    assert!(parse("in{A}\n{x=1,m=2,a=3,s=}").is_none());
    assert!(parse("in{A}\n{x=1;m=2}").is_none());
    assert!(parse("in{A}\n{q=1}").is_none());
    assert!(parse("in{A}\nx=1").is_none());
    // a line that writes no workflow ends the workflows
    assert!(parse("in{a<5}\n").is_none());
    assert!(parse("in{Ab}").is_none());
    assert!(parse("in{a<x:A}").is_none());
    assert!(parse("in{a=5:A}").is_none());
    let sheet = parse("in{a<5:A,R}\n\n{a=7}").unwrap();
    assert_eq!(sheet.1, vec![Part { x: 0, m: 0, a: 7, s: 0 }]);
    assert_eq!(part1(""), Some(0));
    assert_eq!(part2(""), None);
}
