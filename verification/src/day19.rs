//! Workflows that sort machine parts, and ranges of parts, into accepted and
//! rejected.
use crate::numbers::total;
use crate::text::{
    all_digits, chars_of, copy_range, lemma_map_all_none, lemma_map_all_step, lines, lines_of,
    map_all, parse_unsigned, split, split_on, trim, trimmed, unsigned_of, views,
};
use vstd::prelude::*;

verus! {

/// One of the four ratings of a part.
#[derive(Clone, Copy, Debug, PartialEq, Eq, Structural)]
pub enum PropertyName {
    X,
    M,
    A,
    S,
}

/// The ratings from `start` up to, not including, `end`.
#[derive(Clone, Copy, Debug, PartialEq, Eq, Structural)]
pub struct Span {
    pub start: usize,
    pub end: usize,
}

/// A part: its four ratings.
#[derive(Clone, Copy, Debug, PartialEq, Eq, Structural)]
pub struct Part {
    pub x: usize,
    pub m: usize,
    pub a: usize,
    pub s: usize,
}

/// The parts whose ratings lie in the four spans.
#[derive(Clone, Copy, Debug, PartialEq, Eq, Structural)]
pub struct PartRange {
    pub x: Span,
    pub m: Span,
    pub a: Span,
    pub s: Span,
}

/// A test of one rating against a threshold.
#[derive(Clone, Copy, Debug, PartialEq, Eq, Structural)]
pub enum Matcher {
    PropLessThan(PropertyName, usize),
    PropGreaterThan(PropertyName, usize),
}

/// What a rule decides: to accept, to reject, or to go on with the workflow
/// of the name given.
#[derive(Debug, PartialEq, Eq)]
pub enum IntermediateOutcome {
    Accept,
    Reject,
    Redirect(Vec<char>),
}

/// What becomes of a part in the end.
#[derive(Clone, Copy, Debug, PartialEq, Eq, Structural)]
pub enum FinalOutcome {
    Accept,
    Reject,
}

/// A rule: a test, if any, and what it decides for the parts that pass.
#[derive(Debug)]
pub struct Rule {
    pub matcher: Option<Matcher>,
    pub outcome: IntermediateOutcome,
}

/// A workflow: rules tried in order.
#[derive(Debug)]
pub struct Workflow {
    pub rules: Vec<Rule>,
}

/// The workflows by name. Where a name occurs twice the later entry counts.
#[derive(Debug)]
pub struct WorkflowCollection {
    pub workflows: Vec<(Vec<char>, Workflow)>,
}

/// What a rule decides, the name of a workflow as a sequence of characters.
pub enum Decision {
    Accept,
    Reject,
    Redirect(Seq<char>),
}

impl View for IntermediateOutcome {
    type V = Decision;

    open spec fn view(&self) -> Decision {
        match self {
            IntermediateOutcome::Accept => Decision::Accept,
            IntermediateOutcome::Reject => Decision::Reject,
            IntermediateOutcome::Redirect(name) => Decision::Redirect(name@),
        }
    }
}

impl IntermediateOutcome {
    /// A copy of the outcome.
    pub fn copy(&self) -> (r: IntermediateOutcome)
        ensures
            r@ == self@,
    {
        match self {
            IntermediateOutcome::Accept => IntermediateOutcome::Accept,
            IntermediateOutcome::Reject => IntermediateOutcome::Reject,
            IntermediateOutcome::Redirect(name) => {
                let same = copy_range(name, 0, name.len());
                assert(same@ =~= name@);
                IntermediateOutcome::Redirect(same)
            },
        }
    }
}

impl Part {
    /// The rating named.
    pub open spec fn rating(self, name: PropertyName) -> usize {
        match name {
            PropertyName::X => self.x,
            PropertyName::M => self.m,
            PropertyName::A => self.a,
            PropertyName::S => self.s,
        }
    }

    /// The rating named.
    pub fn get(&self, name: PropertyName) -> (r: usize)
        ensures
            r == self.rating(name),
    {
        match name {
            PropertyName::X => self.x,
            PropertyName::M => self.m,
            PropertyName::A => self.a,
            PropertyName::S => self.s,
        }
    }

    /// The score of the part: the sum of its ratings where it is accepted,
    /// and 0 where it is rejected.
    pub open spec fn score_of(self, outcome: FinalOutcome) -> int {
        match outcome {
            FinalOutcome::Accept => self.x + self.m + self.a + self.s,
            FinalOutcome::Reject => 0,
        }
    }

    /// The score of the part; `None` where it does not fit.
    pub fn score(&self, outcome: FinalOutcome) -> (r: Option<usize>)
        ensures
            match r {
                Some(v) => v == self.score_of(outcome),
                None => self.score_of(outcome) > usize::MAX,
            },
    {
        match outcome {
            FinalOutcome::Accept => {
                match self.x.checked_add(self.m) {
                    Some(xm) => match xm.checked_add(self.a) {
                        Some(xma) => xma.checked_add(self.s),
                        None => None,
                    },
                    None => None,
                }
            },
            FinalOutcome::Reject => Some(0),
        }
    }
}

impl PartRange {
    /// The span of the rating named.
    pub open spec fn span(self, name: PropertyName) -> Span {
        match name {
            PropertyName::X => self.x,
            PropertyName::M => self.m,
            PropertyName::A => self.a,
            PropertyName::S => self.s,
        }
    }

    /// The range with the span of the rating named replaced.
    pub open spec fn with(self, name: PropertyName, span: Span) -> PartRange {
        match name {
            PropertyName::X => PartRange { x: span, ..self },
            PropertyName::M => PartRange { m: span, ..self },
            PropertyName::A => PartRange { a: span, ..self },
            PropertyName::S => PartRange { s: span, ..self },
        }
    }

    /// The span of the rating named.
    pub fn get(&self, name: PropertyName) -> (r: Span)
        ensures
            r == self.span(name),
    {
        match name {
            PropertyName::X => self.x,
            PropertyName::M => self.m,
            PropertyName::A => self.a,
            PropertyName::S => self.s,
        }
    }

    /// The range with the span of the rating named replaced.
    pub fn set(&self, name: PropertyName, span: Span) -> (r: PartRange)
        ensures
            r == self.with(name, span),
    {
        match name {
            PropertyName::X => PartRange { x: span, m: self.m, a: self.a, s: self.s },
            PropertyName::M => PartRange { x: self.x, m: span, a: self.a, s: self.s },
            PropertyName::A => PartRange { x: self.x, m: self.m, a: span, s: self.s },
            PropertyName::S => PartRange { x: self.x, m: self.m, a: self.a, s: span },
        }
    }

    /// The range of all parts with ratings from 1 to 4000.
    pub fn default() -> (r: PartRange)
        ensures
            r == (PartRange {
                x: Span { start: 1, end: 4001 },
                m: Span { start: 1, end: 4001 },
                a: Span { start: 1, end: 4001 },
                s: Span { start: 1, end: 4001 },
            }),
    {
        let all = Span { start: 1, end: 4001 };
        PartRange { x: all, m: all, a: all, s: all }
    }

    /// The number of parts in the range: the product of the lengths of its
    /// spans. `None` where a span ends before it starts, or once the product
    /// of the first few lengths does not fit.
    pub open spec fn combos(self) -> Option<int> {
        if self.x.end < self.x.start || self.m.end < self.m.start || self.a.end < self.a.start
            || self.s.end < self.s.start {
            None
        } else {
            let x = self.x.end - self.x.start;
            let m = self.m.end - self.m.start;
            let a = self.a.end - self.a.start;
            let s = self.s.end - self.s.start;
            if x * m > usize::MAX || x * m * a > usize::MAX || x * m * a * s > usize::MAX {
                None
            } else {
                Some(x * m * a * s)
            }
        }
    }

    /// The number of parts in the range.
    pub fn count_num_combos(&self) -> (r: Option<usize>)
        ensures
            match r {
                Some(n) => self.combos() == Some(n as int),
                None => self.combos().is_none(),
            },
    {
        if self.x.end < self.x.start || self.m.end < self.m.start || self.a.end < self.a.start
            || self.s.end < self.s.start {
            return None;
        }
        let x = self.x.end - self.x.start;
        let m = self.m.end - self.m.start;
        let a = self.a.end - self.a.start;
        let s = self.s.end - self.s.start;
        match x.checked_mul(m) {
            Some(xm) => match xm.checked_mul(a) {
                Some(xma) => xma.checked_mul(s),
                None => None,
            },
            None => None,
        }
    }
}

impl Matcher {
    /// Whether the part passes the test.
    pub open spec fn passes(self, part: Part) -> bool {
        match self {
            Matcher::PropLessThan(p, threshold) => part.rating(p) < threshold,
            Matcher::PropGreaterThan(p, threshold) => part.rating(p) > threshold,
        }
    }

    /// The rating that the test looks at.
    pub open spec fn name(self) -> PropertyName {
        match self {
            Matcher::PropLessThan(p, _) => p,
            Matcher::PropGreaterThan(p, _) => p,
        }
    }

    /// Whether the part passes the test.
    pub fn matches(&self, part: &Part) -> (r: bool)
        ensures
            r == self.passes(*part),
    {
        match self {
            Matcher::PropLessThan(p, threshold) => part.get(*p) < *threshold,
            Matcher::PropGreaterThan(p, threshold) => part.get(*p) > *threshold,
        }
    }

    /// The rating that the test looks at.
    pub fn prop_name(&self) -> (r: PropertyName)
        ensures
            r == self.name(),
    {
        match self {
            Matcher::PropLessThan(p, _) => *p,
            Matcher::PropGreaterThan(p, _) => *p,
        }
    }
}

/// What a test makes of a range: the parts that pass and those that do not,
/// each as a range, if there are any. `None` where the span tested ends
/// before the threshold though it starts at or after it, or starts above
/// it though it ends at or below it; or where the threshold plus 1 does not
/// fit.
pub open spec fn halves(m: Matcher, range: PartRange) -> Option<Seq<(PartRange, bool)>> {
    let span = range.span(m.name());
    match m {
        Matcher::PropLessThan(p, t) => if span.start < t && span.end < t {
            Some(seq![(range, true)])
        } else if span.start < t {
            Some(
                seq![
                    (range.with(p, Span { start: span.start, end: t }), true),
                    (range.with(p, Span { start: t, end: span.end }), false),
                ],
            )
        } else if span.end < t {
            None
        } else {
            Some(seq![(range, false)])
        },
        Matcher::PropGreaterThan(p, t) => if span.start > t && span.end > t {
            Some(seq![(range, true)])
        } else if span.start > t {
            None
        } else if span.end > t {
            if t + 1 > usize::MAX {
                None
            } else {
                Some(
                    seq![
                        (range.with(p, Span { start: span.start, end: (t + 1) as usize }), false),
                        (range.with(p, Span { start: (t + 1) as usize, end: span.end }), true),
                    ],
                )
            }
        } else {
            Some(seq![(range, false)])
        },
    }
}

/// A range, and what was decided for it, if anything.
pub type Sorted = (PartRange, Option<Decision>);

/// What a rule makes of one range: each half that its test gives, with the
/// rule's decision for the half that passes; the whole range with the
/// decision where the rule has no test.
pub open spec fn rule_on_range(matcher: Option<Matcher>, outcome: Decision, range: PartRange) -> Option<
    Seq<Sorted>,
> {
    match matcher {
        Some(m) => match halves(m, range) {
            Some(parts) => Some(
                Seq::new(
                    parts.len(),
                    |i: int|
                        (
                            parts[i].0,
                            if parts[i].1 {
                                Some(outcome)
                            } else {
                                None
                            },
                        ),
                ),
            ),
            None => None,
        },
        None => Some(seq![(range, Some(outcome))]),
    }
}

/// What a rule makes of the ranges, one after the other.
pub open spec fn rule_on_ranges(matcher: Option<Matcher>, outcome: Decision, ranges: Seq<PartRange>) -> Option<
    Seq<Sorted>,
>
    decreases ranges.len(),
{
    if ranges.len() == 0 {
        Some(Seq::empty())
    } else {
        match (
            rule_on_ranges(matcher, outcome, ranges.drop_last()),
            rule_on_range(matcher, outcome, ranges.last()),
        ) {
            (Some(head), Some(tail)) => Some(head + tail),
            _ => None,
        }
    }
}

/// The ranges with what the rules decided for them, as they come out of `Rule::apply_ranges`.
pub open spec fn sorted_view(v: Seq<(PartRange, Option<IntermediateOutcome>)>) -> Seq<Sorted> {
    Seq::new(
        v.len(),
        |i: int|
            (
                v[i].0,
                match v[i].1 {
                    Some(o) => Some(o@),
                    None => None,
                },
            ),
    )
}

proof fn lemma_rule_on_ranges_stays_none(
    matcher: Option<Matcher>,
    outcome: Decision,
    ranges: Seq<PartRange>,
    k: int,
)
    requires
        0 <= k <= ranges.len(),
        rule_on_ranges(matcher, outcome, ranges.take(k)).is_none(),
    ensures
        rule_on_ranges(matcher, outcome, ranges).is_none(),
    decreases ranges.len() - k,
{
    if k < ranges.len() {
        assert(ranges.take(k + 1).drop_last() =~= ranges.take(k));
        lemma_rule_on_ranges_stays_none(matcher, outcome, ranges, k + 1);
    } else {
        assert(ranges.take(k) =~= ranges);
    }
}

impl Rule {
    /// What the rule decides for `part`: its decision where it has no test
    /// or the part passes it, and nothing otherwise.
    pub open spec fn decides(&self, part: Part) -> Option<Decision> {
        match self.matcher {
            Some(m) => if m.passes(part) {
                Some(self.outcome@)
            } else {
                None
            },
            None => Some(self.outcome@),
        }
    }

    /// What the rule decides for `part`.
    pub fn try_apply(&self, part: &Part) -> (r: Option<IntermediateOutcome>)
        ensures
            match r {
                Some(o) => self.decides(*part) == Some(o@),
                None => self.decides(*part).is_none(),
            },
    {
        match &self.matcher {
            Some(matcher) => {
                if matcher.matches(part) {
                    Some(self.outcome.copy())
                } else {
                    None
                }
            },
            None => Some(self.outcome.copy()),
        }
    }

    /// What the rule makes of `part_ranges`: for each range in turn, the
    /// parts of it that pass the test with the rule's decision, and those
    /// that do not without one.
    #[verifier::loop_isolation(false)]
    pub fn apply_ranges(&self, part_ranges: &[PartRange]) -> (r: Option<
        Vec<(PartRange, Option<IntermediateOutcome>)>,
    >)
        ensures
            match r {
                Some(v) => rule_on_ranges(self.matcher, self.outcome@, part_ranges@) == Some(
                    sorted_view(v@),
                ),
                None => rule_on_ranges(self.matcher, self.outcome@, part_ranges@).is_none(),
            },
    {
        let mut result: Vec<(PartRange, Option<IntermediateOutcome>)> = Vec::new();
        let mut i: usize = 0;
        assert(part_ranges@.take(0) =~= Seq::<PartRange>::empty());
        assert(sorted_view(result@) =~= Seq::<Sorted>::empty());
        while i < part_ranges.len()
            invariant
                i <= part_ranges@.len(),
                rule_on_ranges(self.matcher, self.outcome@, part_ranges@.take(i as int)) == Some(
                    sorted_view(result@),
                ),
            decreases part_ranges@.len() - i,
        {
            proof {
                assert(part_ranges@.take(i + 1).drop_last() =~= part_ranges@.take(i as int));
                assert(part_ranges@.take(i + 1).last() == part_ranges@[i as int]);
            }
            let range = part_ranges[i];
            let ghost before = sorted_view(result@);
            let ghost decision = self.outcome@;
            match self.matcher {
                Some(matcher) => {
                    let span = range.get(matcher.prop_name());
                    match matcher {
                        Matcher::PropLessThan(p, t) => {
                            if span.start < t && span.end < t {
                                result.push((range, Some(self.outcome.copy())));
                                assert(sorted_view(result@) =~= before + seq![
                                    (range, Some(decision)),
                                ]);
                            } else if span.start < t {
                                let lower = range.set(p, Span { start: span.start, end: t });
                                let upper = range.set(p, Span { start: t, end: span.end });
                                result.push((lower, Some(self.outcome.copy())));
                                result.push((upper, None));
                                assert(sorted_view(result@) =~= before + seq![
                                    (lower, Some(decision)),
                                    (upper, None::<Decision>),
                                ]);
                            } else if span.end < t {
                                proof {
                                    lemma_rule_on_ranges_stays_none(
                                        self.matcher,
                                        decision,
                                        part_ranges@,
                                        i + 1,
                                    );
                                }
                                return None;
                            } else {
                                result.push((range, None));
                                assert(sorted_view(result@) =~= before + seq![
                                    (range, None::<Decision>),
                                ]);
                            }
                        },
                        Matcher::PropGreaterThan(p, t) => {
                            if span.start > t && span.end > t {
                                result.push((range, Some(self.outcome.copy())));
                                assert(sorted_view(result@) =~= before + seq![
                                    (range, Some(decision)),
                                ]);
                            } else if span.start > t {
                                proof {
                                    lemma_rule_on_ranges_stays_none(
                                        self.matcher,
                                        decision,
                                        part_ranges@,
                                        i + 1,
                                    );
                                }
                                return None;
                            } else if span.end > t {
                                let next = match t.checked_add(1) {
                                    Some(v) => v,
                                    None => {
                                        proof {
                                            lemma_rule_on_ranges_stays_none(
                                                self.matcher,
                                                decision,
                                                part_ranges@,
                                                i + 1,
                                            );
                                        }
                                        return None;
                                    },
                                };
                                let lower = range.set(p, Span { start: span.start, end: next });
                                let upper = range.set(p, Span { start: next, end: span.end });
                                result.push((lower, None));
                                result.push((upper, Some(self.outcome.copy())));
                                assert(sorted_view(result@) =~= before + seq![
                                    (lower, None::<Decision>),
                                    (upper, Some(decision)),
                                ]);
                            } else {
                                result.push((range, None));
                                assert(sorted_view(result@) =~= before + seq![
                                    (range, None::<Decision>),
                                ]);
                            }
                        },
                    }
                },
                None => {
                    result.push((range, Some(self.outcome.copy())));
                    assert(sorted_view(result@) =~= before + seq![(range, Some(decision))]);
                },
            }
            proof {
                let one = rule_on_range(self.matcher, decision, range);
                assert(one.is_some());
                assert(sorted_view(result@) =~= before + one.unwrap());
            }
            i += 1;
        }
        assert(part_ranges@.take(i as int) =~= part_ranges@);
        Some(result)
    }
}

/// A rule as its test and its decision.
pub type RuleView = (Option<Matcher>, Decision);

/// The rules as tests and decisions.
pub open spec fn rules_view(rules: Seq<Rule>) -> Seq<RuleView> {
    Seq::new(rules.len(), |i: int| (rules[i].matcher, rules[i].outcome@))
}

/// What the first of `rules` that decides for `part` decides; `None` where
/// none does.
pub open spec fn first_decision(rules: Seq<RuleView>, part: Part) -> Option<Decision>
    decreases rules.len(),
{
    if rules.len() == 0 {
        None
    } else {
        let rule = rules.first();
        let passes = match rule.0 {
            Some(m) => m.passes(part),
            None => true,
        };
        if passes {
            Some(rule.1)
        } else {
            first_decision(rules.drop_first(), part)
        }
    }
}

/// The ranges of `sorted` that have a decision, with it, in order.
pub open spec fn decided(sorted: Seq<Sorted>) -> Seq<(PartRange, Decision)>
    decreases sorted.len(),
{
    if sorted.len() == 0 {
        Seq::empty()
    } else {
        match sorted.last().1 {
            Some(d) => decided(sorted.drop_last()).push((sorted.last().0, d)),
            None => decided(sorted.drop_last()),
        }
    }
}

/// The ranges of `sorted` that have no decision, in order.
pub open spec fn undecided(sorted: Seq<Sorted>) -> Seq<PartRange>
    decreases sorted.len(),
{
    if sorted.len() == 0 {
        Seq::empty()
    } else {
        match sorted.last().1 {
            Some(d) => undecided(sorted.drop_last()),
            None => undecided(sorted.drop_last()).push(sorted.last().0),
        }
    }
}

/// The ranges decided so far and those still to decide, after the rules
/// `rules` have been applied in order to what was still to decide.
pub open spec fn sifted(rules: Seq<RuleView>, parts: Seq<PartRange>) -> Option<
    (Seq<(PartRange, Decision)>, Seq<PartRange>),
>
    decreases rules.len(),
{
    if rules.len() == 0 {
        Some((Seq::empty(), parts))
    } else {
        match sifted(rules.drop_last(), parts) {
            Some((done, left)) => match rule_on_ranges(rules.last().0, rules.last().1, left) {
                Some(sorted) => Some((done + decided(sorted), undecided(sorted))),
                None => None,
            },
            None => None,
        }
    }
}

/// What the workflow makes of the ranges `parts`: each piece with the
/// decision of the first rule that decides for it. `None` where a rule
/// cannot be applied, or a piece is left without a decision.
pub open spec fn workflow_on_ranges(rules: Seq<RuleView>, parts: Seq<PartRange>) -> Option<
    Seq<(PartRange, Decision)>,
> {
    match sifted(rules, parts) {
        Some((done, left)) => if left.len() == 0 {
            Some(done)
        } else {
            None
        },
        None => None,
    }
}

/// The ranges with their decisions.
pub open spec fn decided_view(v: Seq<(PartRange, IntermediateOutcome)>) -> Seq<(PartRange, Decision)> {
    Seq::new(v.len(), |i: int| (v[i].0, v[i].1@))
}

proof fn lemma_sifted_stays_none(rules: Seq<RuleView>, parts: Seq<PartRange>, k: int)
    requires
        0 <= k <= rules.len(),
        sifted(rules.take(k), parts).is_none(),
    ensures
        sifted(rules, parts).is_none(),
    decreases rules.len() - k,
{
    if k < rules.len() {
        assert(rules.take(k + 1).drop_last() =~= rules.take(k));
        lemma_sifted_stays_none(rules, parts, k + 1);
    } else {
        assert(rules.take(k) =~= rules);
    }
}

fn copy_ranges(v: &[PartRange]) -> (r: Vec<PartRange>)
    ensures
        r@ == v@,
{
    let mut r: Vec<PartRange> = Vec::new();
    let mut i: usize = 0;
    while i < v.len()
        invariant
            i <= v@.len(),
            r@ == v@.take(i as int),
        decreases v@.len() - i,
    {
        r.push(v[i]);
        i += 1;
        assert(r@ =~= v@.take(i as int));
    }
    assert(v@.take(i as int) =~= v@);
    r
}

impl Workflow {
    /// What the workflow decides for `part`; `None` where no rule decides.
    #[verifier::loop_isolation(false)]
    pub fn apply(&self, part: &Part) -> (r: Option<IntermediateOutcome>)
        ensures
            match r {
                Some(o) => first_decision(rules_view(self.rules@), *part) == Some(o@),
                None => first_decision(rules_view(self.rules@), *part).is_none(),
            },
    {
        let ghost all = rules_view(self.rules@);
        let mut i: usize = 0;
        assert(all.skip(0) =~= all);
        while i < self.rules.len()
            invariant
                i <= self.rules@.len(),
                first_decision(all, *part) == first_decision(all.skip(i as int), *part),
            decreases self.rules@.len() - i,
        {
            proof {
                assert(all.skip(i as int).first() == all[i as int]);
                assert(all.skip(i as int).drop_first() =~= all.skip(i + 1));
            }
            match self.rules[i].try_apply(part) {
                Some(outcome) => {
                    return Some(outcome);
                },
                None => {},
            }
            i += 1;
        }
        None
    }

    /// What the workflow makes of the ranges `parts`.
    #[verifier::loop_isolation(false)]
    pub fn apply_ranges(&self, parts: &[PartRange]) -> (r: Option<
        Vec<(PartRange, IntermediateOutcome)>,
    >)
        ensures
            match r {
                Some(v) => workflow_on_ranges(rules_view(self.rules@), parts@) == Some(
                    decided_view(v@),
                ),
                None => workflow_on_ranges(rules_view(self.rules@), parts@).is_none(),
            },
    {
        let ghost all = rules_view(self.rules@);
        let mut result: Vec<(PartRange, IntermediateOutcome)> = Vec::new();
        let mut unprocessed = copy_ranges(parts);
        let mut i: usize = 0;
        assert(all.take(0) =~= Seq::<RuleView>::empty());
        assert(decided_view(result@) =~= Seq::<(PartRange, Decision)>::empty());
        while i < self.rules.len()
            invariant
                i <= self.rules@.len(),
                sifted(all.take(i as int), parts@) == Some((decided_view(result@), unprocessed@)),
            decreases self.rules@.len() - i,
        {
            proof {
                assert(all.take(i + 1).drop_last() =~= all.take(i as int));
                assert(all.take(i + 1).last() == all[i as int]);
            }
            let sorted = match self.rules[i].apply_ranges(unprocessed.as_slice()) {
                Some(v) => v,
                None => {
                    proof {
                        lemma_sifted_stays_none(all, parts@, i + 1);
                    }
                    return None;
                },
            };
            let ghost done = decided_view(result@);
            let ghost pairs = sorted_view(sorted@);
            let mut still: Vec<PartRange> = Vec::new();
            let mut k: usize = 0;
            assert(pairs.take(0) =~= Seq::<Sorted>::empty());
            assert(done + decided(pairs.take(0)) =~= done);
            while k < sorted.len()
                invariant
                    k <= sorted@.len(),
                    decided_view(result@) == done + decided(pairs.take(k as int)),
                    still@ == undecided(pairs.take(k as int)),
                decreases sorted@.len() - k,
            {
                proof {
                    assert(pairs.take(k + 1).drop_last() =~= pairs.take(k as int));
                    assert(pairs.take(k + 1).last() == pairs[k as int]);
                }
                let ghost shown = decided_view(result@);
                match &sorted[k].1 {
                    Some(outcome) => {
                        result.push((sorted[k].0, outcome.copy()));
                        assert(decided_view(result@) =~= shown.push((sorted@[k as int].0, outcome@)));
                        assert(done + decided(pairs.take(k as int)).push(
                            (sorted@[k as int].0, outcome@),
                        ) =~= shown.push((sorted@[k as int].0, outcome@)));
                    },
                    None => {
                        still.push(sorted[k].0);
                    },
                }
                k += 1;
            }
            assert(pairs.take(k as int) =~= pairs);
            unprocessed = still;
            i += 1;
        }
        assert(all.take(i as int) =~= all);
        if unprocessed.len() == 0 {
            Some(result)
        } else {
            None
        }
    }
}

/// The workflows as names and rules.
pub open spec fn collection_view(workflows: Seq<(Vec<char>, Workflow)>) -> Seq<
    (Seq<char>, Seq<RuleView>),
> {
    Seq::new(workflows.len(), |i: int| (workflows[i].0@, rules_view(workflows[i].1.rules@)))
}

/// The place of the last of the first `k` workflows that is named `name`.
pub open spec fn place_of(workflows: Seq<(Seq<char>, Seq<RuleView>)>, name: Seq<char>, k: int) -> Option<
    int,
>
    decreases k,
{
    if k <= 0 {
        None
    } else if workflows[k - 1].0 == name {
        Some(k - 1)
    } else {
        place_of(workflows, name, k - 1)
    }
}

/// What becomes of `part`, starting with the workflow `name` and following
/// at most `fuel` workflows. `None` where a workflow named is unknown, a
/// workflow has no rule that decides, or more workflows would have to be
/// followed.
pub open spec fn route(
    workflows: Seq<(Seq<char>, Seq<RuleView>)>,
    name: Seq<char>,
    part: Part,
    fuel: nat,
) -> Option<FinalOutcome>
    decreases fuel,
{
    if fuel == 0 {
        None
    } else {
        match place_of(workflows, name, workflows.len() as int) {
            Some(at) => match first_decision(workflows[at].1, part) {
                Some(Decision::Accept) => Some(FinalOutcome::Accept),
                Some(Decision::Reject) => Some(FinalOutcome::Reject),
                Some(Decision::Redirect(next)) => route(workflows, next, part, (fuel - 1) as nat),
                None => None,
            },
            None => None,
        }
    }
}

/// The pieces that the range `range` with the decision `decision` falls
/// into in the end, each accepted or rejected, following at most `fuel`
/// workflows one within the other. Where a workflow makes several pieces of
/// a range, what becomes of the last piece comes first.
pub open spec fn settle(
    workflows: Seq<(Seq<char>, Seq<RuleView>)>,
    range: PartRange,
    decision: Decision,
    fuel: nat,
) -> Option<Seq<(PartRange, FinalOutcome)>>
    decreases fuel, 0nat,
{
    match decision {
        Decision::Accept => Some(seq![(range, FinalOutcome::Accept)]),
        Decision::Reject => Some(seq![(range, FinalOutcome::Reject)]),
        Decision::Redirect(name) => if fuel == 0 {
            None
        } else {
            match place_of(workflows, name, workflows.len() as int) {
                Some(at) => match workflow_on_ranges(workflows[at].1, seq![range]) {
                    Some(pieces) => settle_all(workflows, pieces, (fuel - 1) as nat),
                    None => None,
                },
                None => None,
            }
        },
    }
}

/// What becomes of each of `pieces`, the last first.
pub open spec fn settle_all(
    workflows: Seq<(Seq<char>, Seq<RuleView>)>,
    pieces: Seq<(PartRange, Decision)>,
    fuel: nat,
) -> Option<Seq<(PartRange, FinalOutcome)>>
    decreases fuel, 1nat, pieces.len(),
{
    if pieces.len() == 0 {
        Some(Seq::empty())
    } else {
        match (
            settle(workflows, pieces.last().0, pieces.last().1, fuel),
            settle_all(workflows, pieces.drop_last(), fuel),
        ) {
            (Some(first), Some(rest)) => Some(first + rest),
            _ => None,
        }
    }
}

fn same_name(a: &Vec<char>, b: &Vec<char>) -> (r: bool)
    ensures
        r == (a@ == b@),
{
    if a.len() != b.len() {
        return false;
    }
    let mut i: usize = 0;
    while i < a.len()
        invariant
            i <= a@.len(),
            a@.len() == b@.len(),
            forall|k: int| 0 <= k < i ==> a@[k] == b@[k],
        decreases a@.len() - i,
    {
        if a[i] != b[i] {
            return false;
        }
        i += 1;
    }
    assert(a@ =~= b@);
    true
}

impl WorkflowCollection {
    /// The place of the workflow named `name`.
    #[verifier::loop_isolation(false)]
    pub fn find(&self, name: &Vec<char>) -> (r: Option<usize>)
        ensures
            match r {
                Some(at) => place_of(
                    collection_view(self.workflows@),
                    name@,
                    self.workflows@.len() as int,
                ) == Some(at as int) && at < self.workflows@.len(),
                None => place_of(
                    collection_view(self.workflows@),
                    name@,
                    self.workflows@.len() as int,
                ).is_none(),
            },
    {
        let ghost all = collection_view(self.workflows@);
        let mut k: usize = self.workflows.len();
        while k > 0
            invariant
                k <= self.workflows@.len(),
                place_of(all, name@, self.workflows@.len() as int) == place_of(all, name@, k as int),
            decreases k,
        {
            assert(all[k - 1].0 == self.workflows@[k - 1].0@);
            if same_name(&self.workflows[k - 1].0, name) {
                return Some(k - 1);
            }
            k -= 1;
        }
        None
    }

    /// What becomes of `part`, starting with the workflow `in`. `None`
    /// where the workflows lead nowhere or in a circle.
    #[verifier::loop_isolation(false)]
    pub fn apply(&self, part: &Part) -> (r: Option<FinalOutcome>)
        ensures
            r == route(
                collection_view(self.workflows@),
                "in"@,
                *part,
                self.workflows@.len(),
            ),
    {
        let ghost all = collection_view(self.workflows@);
        let mut current = crate::text::chars_of("in");
        let mut fuel: usize = self.workflows.len();
        while fuel > 0
            invariant
                route(all, "in"@, *part, self.workflows@.len()) == route(
                    all,
                    current@,
                    *part,
                    fuel as nat,
                ),
            decreases fuel,
        {
            let at = match self.find(&current) {
                Some(at) => at,
                None => {
                    return None;
                },
            };
            assert(all[at as int].1 == rules_view(self.workflows@[at as int].1.rules@));
            match self.workflows[at].1.apply(part) {
                Some(IntermediateOutcome::Accept) => {
                    return Some(FinalOutcome::Accept);
                },
                Some(IntermediateOutcome::Reject) => {
                    return Some(FinalOutcome::Reject);
                },
                Some(IntermediateOutcome::Redirect(next)) => {
                    current = next;
                },
                None => {
                    return None;
                },
            }
            fuel -= 1;
        }
        None
    }

    /// What becomes of the range with the decision `decision`.
    fn settle_one(&self, range: PartRange, decision: &IntermediateOutcome, fuel: usize) -> (r: Option<
        Vec<(PartRange, FinalOutcome)>,
    >)
        ensures
            match r {
                Some(v) => settle(collection_view(self.workflows@), range, decision@, fuel as nat)
                    == Some(v@),
                None => settle(
                    collection_view(self.workflows@),
                    range,
                    decision@,
                    fuel as nat,
                ).is_none(),
            },
        decreases fuel, 0nat,
    {
        let ghost all = collection_view(self.workflows@);
        match decision {
            IntermediateOutcome::Accept => {
                let mut v = Vec::new();
                v.push((range, FinalOutcome::Accept));
                assert(v@ =~= seq![(range, FinalOutcome::Accept)]);
                Some(v)
            },
            IntermediateOutcome::Reject => {
                let mut v = Vec::new();
                v.push((range, FinalOutcome::Reject));
                assert(v@ =~= seq![(range, FinalOutcome::Reject)]);
                Some(v)
            },
            IntermediateOutcome::Redirect(name) => {
                if fuel == 0 {
                    return None;
                }
                let at = match self.find(name) {
                    Some(at) => at,
                    None => {
                        return None;
                    },
                };
                assert(all[at as int].1 == rules_view(self.workflows@[at as int].1.rules@));
                let mut one: Vec<PartRange> = Vec::new();
                one.push(range);
                assert(one@ =~= seq![range]);
                match self.workflows[at].1.apply_ranges(one.as_slice()) {
                    Some(pieces) => {
                        assert(decided_view(pieces@).take(pieces@.len() as int) =~= decided_view(
                            pieces@,
                        ));
                        self.settle_each(&pieces, pieces.len(), fuel - 1)
                    },
                    None => None,
                }
            },
        }
    }

    /// What becomes of the first `upto` of `pieces`, the last first.
    fn settle_each(
        &self,
        pieces: &Vec<(PartRange, IntermediateOutcome)>,
        upto: usize,
        fuel: usize,
    ) -> (r: Option<Vec<(PartRange, FinalOutcome)>>)
        requires
            upto <= pieces@.len(),
        ensures
            match r {
                Some(v) => settle_all(
                    collection_view(self.workflows@),
                    decided_view(pieces@).take(upto as int),
                    fuel as nat,
                ) == Some(v@),
                None => settle_all(
                    collection_view(self.workflows@),
                    decided_view(pieces@).take(upto as int),
                    fuel as nat,
                ).is_none(),
            },
        decreases fuel, 1nat, upto,
    {
        let ghost shown = decided_view(pieces@).take(upto as int);
        if upto == 0 {
            return Some(Vec::new());
        }
        proof {
            assert(shown.drop_last() =~= decided_view(pieces@).take(upto - 1));
            assert(shown.last() == (pieces@[upto - 1].0, pieces@[upto - 1].1@));
            if upto == pieces@.len() {
                assert(decided_view(pieces@).take(upto as int) =~= decided_view(pieces@));
            }
        }
        let first = match self.settle_one(pieces[upto - 1].0, &pieces[upto - 1].1, fuel) {
            Some(v) => v,
            None => {
                return None;
            },
        };
        let rest = match self.settle_each(pieces, upto - 1, fuel) {
            Some(v) => v,
            None => {
                return None;
            },
        };
        let mut out = first;
        let ghost head = out@;
        let mut k: usize = 0;
        while k < rest.len()
            invariant
                k <= rest@.len(),
                out@ == head + rest@.take(k as int),
            decreases rest@.len() - k,
        {
            out.push(rest[k]);
            k += 1;
            assert(out@ =~= head + rest@.take(k as int));
        }
        assert(rest@.take(k as int) =~= rest@);
        Some(out)
    }

    /// The pieces that `range` falls into in the end, each accepted or
    /// rejected, starting with the workflow `in`. `None` where the workflows
    /// lead nowhere or in a circle, or a rule cannot be applied to a range.
    pub fn apply_ranges(&self, range: PartRange) -> (r: Option<Vec<(PartRange, FinalOutcome)>>)
        ensures
            match r {
                Some(v) => settle(
                    collection_view(self.workflows@),
                    range,
                    Decision::Redirect("in"@),
                    self.workflows@.len(),
                ) == Some(v@),
                None => settle(
                    collection_view(self.workflows@),
                    range,
                    Decision::Redirect("in"@),
                    self.workflows@.len(),
                ).is_none(),
            },
    {
        let start = IntermediateOutcome::Redirect(crate::text::chars_of("in"));
        self.settle_one(range, &start, self.workflows.len())
    }
}

/// Whether `c` is a letter of ASCII.
pub open spec fn is_letter(c: char) -> bool {
    ('a' <= c <= 'z') || ('A' <= c <= 'Z')
}

/// Whether `s` is one or more letters of ASCII.
pub open spec fn is_word(s: Seq<char>) -> bool {
    s.len() > 0 && forall|i: int| 0 <= i < s.len() ==> is_letter(#[trigger] s[i])
}

/// The rating that `c` names.
pub open spec fn rating_of(c: char) -> Option<PropertyName> {
    if c == 'x' {
        Some(PropertyName::X)
    } else if c == 'm' {
        Some(PropertyName::M)
    } else if c == 'a' {
        Some(PropertyName::A)
    } else if c == 's' {
        Some(PropertyName::S)
    } else {
        None
    }
}

/// The number that `s` writes: one or more digits, of a value that fits.
pub open spec fn count_of(s: Seq<char>) -> Option<int> {
    if s.len() > 0 && all_digits(s) {
        unsigned_of(s, usize::MAX as int)
    } else {
        None
    }
}

/// The test that `s` writes: the letter of a rating, `<` or `>`, and a number.
pub open spec fn matcher_of(s: Seq<char>) -> Option<Matcher> {
    if s.len() < 3 {
        None
    } else {
        match (rating_of(s[0]), count_of(s.subrange(2, s.len() as int))) {
            (Some(p), Some(t)) => if s[1] == '<' {
                Some(Matcher::PropLessThan(p, t as usize))
            } else if s[1] == '>' {
                Some(Matcher::PropGreaterThan(p, t as usize))
            } else {
                None
            },
            _ => None,
        }
    }
}

/// The decision that `s` writes: `A` to accept, `R` to reject, and any
/// other word, which may not begin with `A` or `R`, to go on with the
/// workflow of that name.
pub open spec fn decision_of(s: Seq<char>) -> Option<Decision> {
    if !is_word(s) {
        None
    } else if s[0] == 'A' {
        if s.len() == 1 {
            Some(Decision::Accept)
        } else {
            None
        }
    } else if s[0] == 'R' {
        if s.len() == 1 {
            Some(Decision::Reject)
        } else {
            None
        }
    } else {
        Some(Decision::Redirect(s))
    }
}

/// The rule that `s` writes: a decision, which a test and a colon may precede.
pub open spec fn rule_of(s: Seq<char>) -> Option<RuleView> {
    let parts = split_on(s, ':');
    if parts.len() == 1 {
        match decision_of(parts[0]) {
            Some(d) => Some((None, d)),
            None => None,
        }
    } else if parts.len() == 2 {
        match (matcher_of(parts[0]), decision_of(parts[1])) {
            (Some(m), Some(d)) => Some((Some(m), d)),
            _ => None,
        }
    } else {
        None
    }
}

/// Reads a rule.
pub open spec fn rule_reader() -> spec_fn(Seq<char>) -> Option<RuleView> {
    |s: Seq<char>| rule_of(s)
}

/// The workflow that `line` writes: a name, and in braces its rules with
/// commas between them.
pub open spec fn workflow_of(line: Seq<char>) -> Option<(Seq<char>, Seq<RuleView>)> {
    let parts = split_on(line, '{');
    if parts.len() != 2 || !is_word(parts[0]) || parts[1].len() == 0 || parts[1].last() != '}' {
        None
    } else {
        match map_all(split_on(parts[1].drop_last(), ','), rule_reader()) {
            Some(rules) => Some((parts[0], rules)),
            None => None,
        }
    }
}

/// The part after the rating that `item` sets: the letter of a rating, an
/// equals sign and a number.
pub open spec fn rated(part: Part, item: Seq<char>) -> Option<Part> {
    if item.len() < 3 || item[1] != '=' {
        None
    } else {
        match (rating_of(item[0]), count_of(item.subrange(2, item.len() as int))) {
            (Some(PropertyName::X), Some(v)) => Some(Part { x: v as usize, ..part }),
            (Some(PropertyName::M), Some(v)) => Some(Part { m: v as usize, ..part }),
            (Some(PropertyName::A), Some(v)) => Some(Part { a: v as usize, ..part }),
            (Some(PropertyName::S), Some(v)) => Some(Part { s: v as usize, ..part }),
            _ => None,
        }
    }
}

/// The part that the items set, starting from ratings of 0.
pub open spec fn part_from(items: Seq<Seq<char>>) -> Option<Part>
    decreases items.len(),
{
    if items.len() == 0 {
        Some(Part { x: 0, m: 0, a: 0, s: 0 })
    } else {
        match part_from(items.drop_last()) {
            Some(part) => rated(part, items.last()),
            None => None,
        }
    }
}

/// The part that `line` writes: in braces, its ratings with commas between them.
pub open spec fn part_of(line: Seq<char>) -> Option<Part> {
    if line.len() < 2 || line[0] != '{' || line.last() != '}' {
        None
    } else {
        part_from(split_on(line.subrange(1, line.len() - 1), ','))
    }
}

/// The number of lines at the start of `lines` that write workflows.
pub open spec fn heading(lines: Seq<Seq<char>>) -> int
    decreases lines.len(),
{
    if lines.len() == 0 || workflow_of(lines.first()).is_none() {
        0
    } else {
        1 + heading(lines.drop_first())
    }
}

/// The workflows that the first `k` lines write.
pub open spec fn workflows_of(lines: Seq<Seq<char>>, k: int) -> Seq<(Seq<char>, Seq<RuleView>)> {
    Seq::new(k as nat, |i: int| workflow_of(lines[i]).unwrap())
}

/// The parts that `lines` write, one on each line that is not blank, white
/// space at the ends of a line ignored. `None` where such a line writes no part.
pub open spec fn parts_of(lines: Seq<Seq<char>>) -> Option<Seq<Part>>
    decreases lines.len(),
{
    if lines.len() == 0 {
        Some(Seq::empty())
    } else {
        match parts_of(lines.drop_last()) {
            Some(parts) => if trimmed(lines.last()).len() == 0 {
                Some(parts)
            } else {
                match part_of(trimmed(lines.last())) {
                    Some(p) => Some(parts.push(p)),
                    None => None,
                }
            },
            None => None,
        }
    }
}

fn letter(c: char) -> (b: bool)
    ensures
        b == is_letter(c),
{
    (c >= 'a' && c <= 'z') || (c >= 'A' && c <= 'Z')
}

fn word(s: &Vec<char>) -> (b: bool)
    ensures
        b == is_word(s@),
{
    if s.len() == 0 {
        return false;
    }
    let mut i: usize = 0;
    while i < s.len()
        invariant
            i <= s@.len(),
            forall|k: int| 0 <= k < i ==> is_letter(#[trigger] s@[k]),
        decreases s@.len() - i,
    {
        if !letter(s[i]) {
            return false;
        }
        i += 1;
    }
    true
}

fn read_rating(c: char) -> (r: Option<PropertyName>)
    ensures
        r == rating_of(c),
{
    if c == 'x' {
        Some(PropertyName::X)
    } else if c == 'm' {
        Some(PropertyName::M)
    } else if c == 'a' {
        Some(PropertyName::A)
    } else if c == 's' {
        Some(PropertyName::S)
    } else {
        None
    }
}

fn read_count(s: &Vec<char>, from: usize) -> (r: Option<usize>)
    requires
        from <= s@.len(),
    ensures
        match r {
            Some(v) => count_of(s@.subrange(from as int, s@.len() as int)) == Some(v as int),
            None => count_of(s@.subrange(from as int, s@.len() as int)).is_none(),
        },
{
    let digits = copy_range(s, from, s.len());
    if digits.len() == 0 {
        return None;
    }
    if digits[0] == '+' {
        assert(!all_digits(digits@));
        return None;
    }
    match parse_unsigned(&digits, usize::MAX as u64) {
        Some(v) => Some(v as usize),
        None => None,
    }
}

fn read_matcher(s: &Vec<char>) -> (r: Option<Matcher>)
    ensures
        r == matcher_of(s@),
{
    if s.len() < 3 {
        return None;
    }
    let p = read_rating(s[0]);
    let t = read_count(s, 2);
    match (p, t) {
        (Some(p), Some(t)) => {
            if s[1] == '<' {
                Some(Matcher::PropLessThan(p, t))
            } else if s[1] == '>' {
                Some(Matcher::PropGreaterThan(p, t))
            } else {
                None
            }
        },
        _ => None,
    }
}

fn read_decision(s: &Vec<char>) -> (r: Option<IntermediateOutcome>)
    ensures
        match r {
            Some(o) => decision_of(s@) == Some(o@),
            None => decision_of(s@).is_none(),
        },
{
    if !word(s) {
        return None;
    }
    if s[0] == 'A' {
        if s.len() == 1 {
            Some(IntermediateOutcome::Accept)
        } else {
            None
        }
    } else if s[0] == 'R' {
        if s.len() == 1 {
            Some(IntermediateOutcome::Reject)
        } else {
            None
        }
    } else {
        let name = copy_range(s, 0, s.len());
        assert(name@ =~= s@);
        Some(IntermediateOutcome::Redirect(name))
    }
}

fn read_rule(s: &Vec<char>) -> (r: Option<Rule>)
    ensures
        match r {
            Some(rule) => rule_of(s@) == Some((rule.matcher, rule.outcome@)),
            None => rule_of(s@).is_none(),
        },
{
    let parts = split(s, ':');
    assert(views(parts@)[0] == parts@[0]@);
    if parts.len() == 1 {
        match read_decision(&parts[0]) {
            Some(outcome) => Some(Rule { matcher: None, outcome }),
            None => None,
        }
    } else if parts.len() == 2 {
        assert(views(parts@)[1] == parts@[1]@);
        match (read_matcher(&parts[0]), read_decision(&parts[1])) {
            (Some(m), Some(outcome)) => Some(Rule { matcher: Some(m), outcome }),
            _ => None,
        }
    } else {
        None
    }
}

#[verifier::loop_isolation(false)]
fn read_workflow(line: &Vec<char>) -> (r: Option<(Vec<char>, Workflow)>)
    ensures
        match r {
            Some(w) => workflow_of(line@) == Some((w.0@, rules_view(w.1.rules@))),
            None => workflow_of(line@).is_none(),
        },
{
    let parts = split(line, '{');
    if parts.len() != 2 {
        return None;
    }
    assert(views(parts@)[0] == parts@[0]@);
    assert(views(parts@)[1] == parts@[1]@);
    if !word(&parts[0]) {
        return None;
    }
    let body = &parts[1];
    if body.len() == 0 || body[body.len() - 1] != '}' {
        return None;
    }
    let inner = copy_range(body, 0, body.len() - 1);
    assert(inner@ =~= body@.drop_last());
    let texts = split(&inner, ',');
    let ghost items = views(texts@);
    let ghost f = rule_reader();
    let mut rules: Vec<Rule> = Vec::new();
    let mut i: usize = 0;
    assert(items.take(0) =~= Seq::<Seq<char>>::empty());
    assert(rules_view(rules@) =~= Seq::<RuleView>::empty());
    while i < texts.len()
        invariant
            i <= texts@.len(),
            map_all(items.take(i as int), f) == Some(rules_view(rules@)),
        decreases texts@.len() - i,
    {
        proof {
            lemma_map_all_step(items, f, i as int);
        }
        let ghost before = rules_view(rules@);
        match read_rule(&texts[i]) {
            Some(rule) => {
                let ghost entry = (rule.matcher, rule.outcome@);
                rules.push(rule);
                assert(rules_view(rules@) =~= before.push(entry));
            },
            None => {
                proof {
                    lemma_map_all_none(items, f, i + 1);
                }
                return None;
            },
        }
        i += 1;
    }
    assert(items.take(i as int) =~= items);
    let name = copy_range(&parts[0], 0, parts[0].len());
    assert(name@ =~= parts@[0]@);
    Some((name, Workflow { rules }))
}

proof fn lemma_part_from_stays_none(items: Seq<Seq<char>>, k: int)
    requires
        0 <= k <= items.len(),
        part_from(items.take(k)).is_none(),
    ensures
        part_from(items).is_none(),
    decreases items.len() - k,
{
    if k < items.len() {
        assert(items.take(k + 1).drop_last() =~= items.take(k));
        lemma_part_from_stays_none(items, k + 1);
    } else {
        assert(items.take(k) =~= items);
    }
}

#[verifier::loop_isolation(false)]
fn read_part(line: &Vec<char>) -> (r: Option<Part>)
    ensures
        r == part_of(line@),
{
    let n = line.len();
    if n < 2 || line[0] != '{' || line[n - 1] != '}' {
        return None;
    }
    let inner = copy_range(line, 1, n - 1);
    let texts = split(&inner, ',');
    let ghost items = views(texts@);
    let mut part = Part { x: 0, m: 0, a: 0, s: 0 };
    let mut i: usize = 0;
    assert(items.take(0) =~= Seq::<Seq<char>>::empty());
    while i < texts.len()
        invariant
            i <= texts@.len(),
            part_from(items.take(i as int)) == Some(part),
        decreases texts@.len() - i,
    {
        proof {
            assert(items.take(i + 1).drop_last() =~= items.take(i as int));
            assert(items.take(i + 1).last() == texts@[i as int]@);
        }
        let item = &texts[i];
        if item.len() < 3 || item[1] != '=' {
            proof {
                lemma_part_from_stays_none(items, i + 1);
            }
            return None;
        }
        match (read_rating(item[0]), read_count(item, 2)) {
            (Some(PropertyName::X), Some(v)) => {
                part.x = v;
            },
            (Some(PropertyName::M), Some(v)) => {
                part.m = v;
            },
            (Some(PropertyName::A), Some(v)) => {
                part.a = v;
            },
            (Some(PropertyName::S), Some(v)) => {
                part.s = v;
            },
            _ => {
                proof {
                    lemma_part_from_stays_none(items, i + 1);
                }
                return None;
            },
        }
        i += 1;
    }
    assert(items.take(i as int) =~= items);
    Some(part)
}

proof fn lemma_parts_of_stays_none(lines: Seq<Seq<char>>, k: int)
    requires
        0 <= k <= lines.len(),
        parts_of(lines.take(k)).is_none(),
    ensures
        parts_of(lines).is_none(),
    decreases lines.len() - k,
{
    if k < lines.len() {
        assert(lines.take(k + 1).drop_last() =~= lines.take(k));
        lemma_parts_of_stays_none(lines, k + 1);
    } else {
        assert(lines.take(k) =~= lines);
    }
}

/// Reads the workflows at the start of `input` and the parts that follow
/// them; `None` where a line after the workflows that is not blank writes
/// no part.
#[verifier::loop_isolation(false)]
pub fn parse(input: &str) -> (r: Option<(WorkflowCollection, Vec<Part>)>)
    ensures
        match r {
            Some(sheet) => {
                let ls = lines_of(input@);
                &&& collection_view(sheet.0.workflows@) == workflows_of(ls, heading(ls))
                &&& parts_of(ls.skip(heading(ls))) == Some(sheet.1@)
            },
            None => parts_of(lines_of(input@).skip(heading(lines_of(input@)))).is_none(),
        },
{
    let chars = chars_of(input);
    let ls = lines(&chars);
    let ghost rows = views(ls@);
    let mut workflows: Vec<(Vec<char>, Workflow)> = Vec::new();
    let mut i: usize = 0;
    let mut more = true;
    assert(rows.skip(0) =~= rows);
    while more && i < ls.len()
        invariant
            i <= ls@.len(),
            workflows@.len() == i,
            heading(rows) == i + (if more {
                heading(rows.skip(i as int))
            } else {
                0
            }),
            forall|k: int|
                0 <= k < i ==> workflow_of(rows[k]) == Some(
                    (#[trigger] workflows@[k].0@, rules_view(workflows@[k].1.rules@)),
                ),
        decreases ls@.len() - i, (if more { 1int } else { 0int }),
    {
        proof {
            assert(rows.skip(i as int).first() == ls@[i as int]@);
            assert(rows.skip(i as int).drop_first() =~= rows.skip(i + 1));
        }
        match read_workflow(&ls[i]) {
            Some(w) => {
                workflows.push(w);
                i += 1;
            },
            None => {
                more = false;
            },
        }
    }
    let ghost k0 = i as int;
    assert(heading(rows) == k0);
    assert(collection_view(workflows@) =~= workflows_of(rows, k0));
    let ghost rest = rows.skip(k0);
    let mut parts: Vec<Part> = Vec::new();
    let mut j: usize = i;
    assert(rest.take(0) =~= Seq::<Seq<char>>::empty());
    while j < ls.len()
        invariant
            i <= j <= ls@.len(),
            parts_of(rest.take(j - i)) == Some(parts@),
        decreases ls@.len() - j,
    {
        proof {
            assert(rest.take(j - i + 1).drop_last() =~= rest.take(j - i));
            assert(rest.take(j - i + 1).last() == ls@[j as int]@);
        }
        let bare = trim(&ls[j]);
        if bare.len() > 0 {
            match read_part(&bare) {
                Some(p) => {
                    parts.push(p);
                },
                None => {
                    proof {
                        lemma_parts_of_stays_none(rest, j - i + 1);
                    }
                    return None;
                },
            }
        }
        j += 1;
    }
    assert(rest.take(j - i) =~= rest);
    Some((WorkflowCollection { workflows }, parts))
}

/// Reads the score of a part under the workflows.
pub open spec fn score_reader(workflows: Seq<(Seq<char>, Seq<RuleView>)>) -> spec_fn(Part) -> Option<
    int,
> {
    |part: Part|
        match route(workflows, "in"@, part, workflows.len()) {
            Some(outcome) => Some(part.score_of(outcome)),
            None => None,
        }
}

/// The sum of the scores of `parts` under `workflows`. `None` where what
/// becomes of a part is not decided, or the sum does not fit.
pub open spec fn total_score(workflows: Seq<(Seq<char>, Seq<RuleView>)>, parts: Seq<Part>) -> Option<
    int,
> {
    match map_all(parts, score_reader(workflows)) {
        Some(scores) => if total(scores) <= usize::MAX {
            Some(total(scores))
        } else {
            None
        },
        None => None,
    }
}

/// The sum of the scores of the parts.
#[verifier::loop_isolation(false)]
pub fn score_all(workflows: &WorkflowCollection, parts: &Vec<Part>) -> (r: Option<usize>)
    ensures
        match r {
            Some(v) => total_score(collection_view(workflows.workflows@), parts@) == Some(v as int),
            None => total_score(collection_view(workflows.workflows@), parts@).is_none(),
        },
{
    let ghost all = collection_view(workflows.workflows@);
    let ghost f = score_reader(all);
    let ghost mut scores: Seq<int> = Seq::empty();
    let mut sum: usize = 0;
    let mut overflow = false;
    let mut i: usize = 0;
    assert(parts@.take(0) =~= Seq::<Part>::empty());
    while i < parts.len()
        invariant
            i <= parts@.len(),
            map_all(parts@.take(i as int), f) == Some(scores),
            scores.len() == i,
            forall|k: int| 0 <= k < scores.len() ==> 0 <= #[trigger] scores[k],
            !overflow ==> sum == total(scores),
            overflow ==> total(scores) > usize::MAX,
        decreases parts@.len() - i,
    {
        proof {
            lemma_map_all_step(parts@, f, i as int);
        }
        let outcome = match workflows.apply(&parts[i]) {
            Some(o) => o,
            None => {
                proof {
                    lemma_map_all_none(parts@, f, i + 1);
                }
                return None;
            },
        };
        let ghost before = scores;
        proof {
            scores = before.push(parts@[i as int].score_of(outcome));
            assert(scores.drop_last() =~= before);
            crate::numbers::lemma_total_nonnegative(before);
        }
        match parts[i].score(outcome) {
            Some(v) => {
                if !overflow {
                    match sum.checked_add(v) {
                        Some(t) => {
                            sum = t;
                        },
                        None => {
                            overflow = true;
                        },
                    }
                }
            },
            None => {
                overflow = true;
            },
        }
        i += 1;
    }
    assert(parts@.take(i as int) =~= parts@);
    if overflow {
        None
    } else {
        Some(sum)
    }
}

/// The sum of the scores of the parts that `input` lists under the
/// workflows that it lists. `None` where the input cannot be read or the
/// sum is not defined.
pub fn part1(input: &str) -> (r: Option<usize>)
    ensures
        r matches Some(v) ==> {
            let ls = lines_of(input@);
            match parts_of(ls.skip(heading(ls))) {
                Some(parts) => total_score(workflows_of(ls, heading(ls)), parts) == Some(v as int),
                None => false,
            }
        },
        r is None ==> {
            let ls = lines_of(input@);
            match parts_of(ls.skip(heading(ls))) {
                Some(parts) => total_score(workflows_of(ls, heading(ls)), parts).is_none(),
                None => true,
            }
        },
{
    match parse(input) {
        Some(sheet) => score_all(&sheet.0, &sheet.1),
        None => None,
    }
}

/// The numbers of parts in the ranges of `pieces` that are accepted, in order.
pub open spec fn accepted_counts(pieces: Seq<(PartRange, FinalOutcome)>) -> Option<Seq<int>>
    decreases pieces.len(),
{
    if pieces.len() == 0 {
        Some(Seq::empty())
    } else {
        match accepted_counts(pieces.drop_last()) {
            Some(counts) => if pieces.last().1 is Accept {
                match pieces.last().0.combos() {
                    Some(n) => Some(counts.push(n)),
                    None => None,
                }
            } else {
                Some(counts)
            },
            None => None,
        }
    }
}

/// The number of parts with ratings from 1 to 4000 that `workflows` accept.
/// `None` where what becomes of a range is not decided, a count is not
/// defined, or the sum does not fit.
pub open spec fn accepted_total(workflows: Seq<(Seq<char>, Seq<RuleView>)>) -> Option<int> {
    let all = Span { start: 1, end: 4001 };
    match settle(
        workflows,
        PartRange { x: all, m: all, a: all, s: all },
        Decision::Redirect("in"@),
        workflows.len(),
    ) {
        Some(pieces) => match accepted_counts(pieces) {
            Some(counts) => if total(counts) <= usize::MAX {
                Some(total(counts))
            } else {
                None
            },
            None => None,
        },
        None => None,
    }
}

proof fn lemma_accepted_counts_stay_none(pieces: Seq<(PartRange, FinalOutcome)>, k: int)
    requires
        0 <= k <= pieces.len(),
        accepted_counts(pieces.take(k)).is_none(),
    ensures
        accepted_counts(pieces).is_none(),
    decreases pieces.len() - k,
{
    if k < pieces.len() {
        assert(pieces.take(k + 1).drop_last() =~= pieces.take(k));
        lemma_accepted_counts_stay_none(pieces, k + 1);
    } else {
        assert(pieces.take(k) =~= pieces);
    }
}

/// The number of parts with ratings from 1 to 4000 that the workflows accept.
#[verifier::loop_isolation(false)]
pub fn count_accepted(workflows: &WorkflowCollection) -> (r: Option<usize>)
    ensures
        match r {
            Some(v) => accepted_total(collection_view(workflows.workflows@)) == Some(v as int),
            None => accepted_total(collection_view(workflows.workflows@)).is_none(),
        },
{
    let pieces = match workflows.apply_ranges(PartRange::default()) {
        Some(p) => p,
        None => {
            return None;
        },
    };
    let ghost mut counts: Seq<int> = Seq::empty();
    let mut sum: usize = 0;
    let mut overflow = false;
    let mut i: usize = 0;
    assert(pieces@.take(0) =~= Seq::<(PartRange, FinalOutcome)>::empty());
    while i < pieces.len()
        invariant
            i <= pieces@.len(),
            accepted_counts(pieces@.take(i as int)) == Some(counts),
            forall|k: int| 0 <= k < counts.len() ==> 0 <= #[trigger] counts[k],
            !overflow ==> sum == total(counts),
            overflow ==> total(counts) > usize::MAX,
        decreases pieces@.len() - i,
    {
        proof {
            assert(pieces@.take(i + 1).drop_last() =~= pieces@.take(i as int));
            assert(pieces@.take(i + 1).last() == pieces@[i as int]);
        }
        match pieces[i].1 {
            FinalOutcome::Accept => {
                match pieces[i].0.count_num_combos() {
                    Some(n) => {
                        let ghost before = counts;
                        proof {
                            counts = before.push(n as int);
                            assert(counts.drop_last() =~= before);
                            crate::numbers::lemma_total_nonnegative(before);
                        }
                        if !overflow {
                            match sum.checked_add(n) {
                                Some(t) => {
                                    sum = t;
                                },
                                None => {
                                    overflow = true;
                                },
                            }
                        }
                    },
                    None => {
                        proof {
                            lemma_accepted_counts_stay_none(pieces@, i + 1);
                        }
                        return None;
                    },
                }
            },
            FinalOutcome::Reject => {},
        }
        i += 1;
    }
    assert(pieces@.take(i as int) =~= pieces@);
    if overflow {
        None
    } else {
        Some(sum)
    }
}

/// The number of parts with ratings from 1 to 4000 that the workflows
/// listed at the start of `input` accept.
pub fn part2(input: &str) -> (r: Option<usize>)
    ensures
        match r {
            Some(v) => accepted_total(
                workflows_of(lines_of(input@), heading(lines_of(input@))),
            ) == Some(v as int),
            None => accepted_total(
                workflows_of(lines_of(input@), heading(lines_of(input@))),
            ).is_none() || parts_of(lines_of(input@).skip(heading(lines_of(input@)))).is_none(),
        },
{
    match parse(input) {
        Some(sheet) => count_accepted(&sheet.0),
        None => None,
    }
}

} // verus!
