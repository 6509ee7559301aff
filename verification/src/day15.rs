//! The lens library: a hash of text, and boxes of labelled lenses.
use crate::text::{chars_of, code_of, parse_unsigned, split, split_on, unsigned_of, views};
use vstd::prelude::*;

verus! {

/// The hash of `s`: starting from 0, for each character in turn add its code,
/// multiply by 17 and keep the remainder of the division by 256.
pub open spec fn hash_of(s: Seq<char>) -> int
    decreases s.len(),
{
    if s.len() == 0 {
        0
    } else {
        ((hash_of(s.drop_last()) + s.last() as int) * 17) % 256
    }
}

/// A hash is a number from 0 to 255.
pub proof fn lemma_hash_range(s: Seq<char>)
    ensures
        0 <= hash_of(s) < 256,
    decreases s.len(),
{
    if s.len() > 0 {
        lemma_hash_range(s.drop_last());
    }
}

/// The hash of the characters `s`.
pub fn hash_chars(s: &Vec<char>) -> (h: usize)
    ensures
        h == hash_of(s@),
        h < 256,
{
    let mut acc: usize = 0;
    let mut i: usize = 0;
    while i < s.len()
        invariant
            i <= s@.len(),
            acc == hash_of(s@.take(i as int)),
            acc < 256,
        decreases s@.len() - i,
    {
        let code = code_of(s[i]);
        proof {
            assert(s@.take(i + 1).drop_last() =~= s@.take(i as int));
            assert(s@.take(i + 1).last() == s@[i as int]);
        }
        acc = ((acc as u64 + code as u64) * 17 % 256) as usize;
        i += 1;
    }
    assert(s@.take(i as int) =~= s@);
    acc
}

/// The hash of `input`.
pub fn hash(input: &str) -> (h: usize)
    ensures
        h == hash_of(input@),
        h < 256,
{
    let chars = chars_of(input);
    hash_chars(&chars)
}

/// The steps of the initialisation sequence: the pieces of `input` between
/// commas.
pub fn parse(input: &str) -> (steps: Vec<Vec<char>>)
    ensures
        views(steps@) == split_on(input@, ','),
{
    let chars = chars_of(input);
    split(&chars, ',')
}

/// The sum of the hashes of `steps`.
pub open spec fn hash_sum(steps: Seq<Vec<char>>) -> int
    decreases steps.len(),
{
    if steps.len() == 0 {
        0
    } else {
        hash_sum(steps.drop_last()) + hash_of(steps.last()@)
    }
}

/// The sum of hashes of the first `k` steps is at least 0 and at most the
/// sum of the hashes of all of them.
proof fn lemma_hash_sum_grows(steps: Seq<Vec<char>>, k: int)
    requires
        0 <= k <= steps.len(),
    ensures
        0 <= hash_sum(steps.take(k)) <= hash_sum(steps),
    decreases steps.len() - k,
{
    if k == steps.len() {
        assert(steps.take(k) =~= steps);
        lemma_hash_sum_nonnegative(steps);
    } else {
        lemma_hash_sum_grows(steps, k + 1);
        assert(steps.take(k + 1).drop_last() =~= steps.take(k));
        lemma_hash_range(steps[k]@);
        lemma_hash_sum_nonnegative(steps.take(k));
    }
}

proof fn lemma_hash_sum_nonnegative(steps: Seq<Vec<char>>)
    ensures
        0 <= hash_sum(steps),
    decreases steps.len(),
{
    if steps.len() > 0 {
        lemma_hash_sum_nonnegative(steps.drop_last());
        lemma_hash_range(steps.last()@);
    }
}

/// The sum of the hashes of all steps; `None` where it does not fit.
pub fn part1(input: &Vec<Vec<char>>) -> (r: Option<usize>)
    ensures
        match r {
            Some(total) => total == hash_sum(input@),
            None => hash_sum(input@) > usize::MAX,
        },
{
    let mut total: usize = 0;
    let mut i: usize = 0;
    while i < input.len()
        invariant
            i <= input@.len(),
            total == hash_sum(input@.take(i as int)),
        decreases input@.len() - i,
    {
        let h = hash_chars(&input[i]);
        proof {
            assert(input@.take(i + 1).drop_last() =~= input@.take(i as int));
            assert(input@.take(i + 1).last() == input@[i as int]);
        }
        match total.checked_add(h) {
            Some(next) => {
                total = next;
            },
            None => {
                proof {
                    lemma_hash_sum_grows(input@, i + 1);
                }
                return None;
            },
        }
        i += 1;
    }
    assert(input@.take(i as int) =~= input@);
    Some(total)
}

/// A lens: its label and its focal length.
pub struct Lens {
    pub label: Vec<char>,
    pub focal: usize,
}

/// A lens as its label and its focal length.
pub open spec fn lens_view(lens: Lens) -> (Seq<char>, int) {
    (lens.label@, lens.focal as int)
}

/// The lenses of a box as labels and focal lengths.
pub open spec fn box_view(lenses: Seq<Lens>) -> Seq<(Seq<char>, int)> {
    Seq::new(lenses.len(), |i: int| lens_view(lenses[i]))
}

/// The boxes as sequences of labels and focal lengths.
pub open spec fn boxes_view(boxes: Seq<Vec<Lens>>) -> Seq<Seq<(Seq<char>, int)>> {
    Seq::new(boxes.len(), |i: int| box_view(boxes[i]@))
}

/// `s` without the character `c`.
pub open spec fn without(s: Seq<char>, c: char) -> Seq<char>
    decreases s.len(),
{
    if s.len() == 0 {
        s
    } else if s.last() == c {
        without(s.drop_last(), c)
    } else {
        without(s.drop_last(), c).push(s.last())
    }
}

/// The lenses of a box without those labelled `label`.
pub open spec fn taken_out(lenses: Seq<(Seq<char>, int)>, label: Seq<char>) -> Seq<(Seq<char>, int)>
    decreases lenses.len(),
{
    if lenses.len() == 0 {
        lenses
    } else if lenses.last().0 == label {
        taken_out(lenses.drop_last(), label)
    } else {
        taken_out(lenses.drop_last(), label).push(lenses.last())
    }
}

/// Whether a lens of the box is labelled `label`.
pub open spec fn holds(lenses: Seq<(Seq<char>, int)>, label: Seq<char>) -> bool {
    exists|i: int| 0 <= i < lenses.len() && (#[trigger] lenses[i]).0 == label
}

/// The lenses of a box after a lens labelled `label` of focal length `focal`
/// has been put in: in the place of each lens with that label, or behind
/// the others where there is none.
pub open spec fn put_in(lenses: Seq<(Seq<char>, int)>, label: Seq<char>, focal: int) -> Seq<
    (Seq<char>, int),
> {
    if holds(lenses, label) {
        Seq::new(
            lenses.len(),
            |i: int|
                if lenses[i].0 == label {
                    (label, focal)
                } else {
                    lenses[i]
                },
        )
    } else {
        lenses.push((label, focal))
    }
}

/// The 256 boxes after `step`. A step with a dash takes the lenses with its
/// label, which is the step without its dashes, out of the box that the
/// label's hash names. Any other step is a label, an equals sign and a focal
/// length, and puts that lens in the box that the label's hash names.
/// `None` where such a step has no equals sign or its focal length is no
/// whole number that fits.
pub open spec fn after_step(boxes: Seq<Seq<(Seq<char>, int)>>, step: Seq<char>) -> Option<
    Seq<Seq<(Seq<char>, int)>>,
> {
    if step.contains('-') {
        let label = without(step, '-');
        Some(boxes.update(hash_of(label), taken_out(boxes[hash_of(label)], label)))
    } else {
        let parts = split_on(step, '=');
        if parts.len() < 2 {
            None
        } else {
            match unsigned_of(parts[1], usize::MAX as int) {
                Some(focal) => Some(
                    boxes.update(hash_of(parts[0]), put_in(boxes[hash_of(parts[0])], parts[0], focal)),
                ),
                None => None,
            }
        }
    }
}

/// The 256 boxes, empty at first, after all of `steps`.
pub open spec fn arranged(steps: Seq<Seq<char>>) -> Option<Seq<Seq<(Seq<char>, int)>>>
    decreases steps.len(),
{
    if steps.len() == 0 {
        Some(Seq::new(256, |i: int| Seq::<(Seq<char>, int)>::empty()))
    } else {
        match arranged(steps.drop_last()) {
            Some(boxes) => after_step(boxes, steps.last()),
            None => None,
        }
    }
}

/// The focusing power of the first `k` lenses of box `b`: for each lens the
/// product of the box's number, counted from 1, the lens's slot, counted
/// from 1, and its focal length.
pub open spec fn box_power(lenses: Seq<(Seq<char>, int)>, b: int, k: int) -> int
    decreases k,
{
    if k <= 0 {
        0
    } else {
        box_power(lenses, b, k - 1) + (b + 1) * k * lenses[k - 1].1
    }
}

/// The focusing power of the first `k` boxes.
pub open spec fn focusing_power(boxes: Seq<Seq<(Seq<char>, int)>>, k: int) -> int
    decreases k,
{
    if k <= 0 {
        0
    } else {
        focusing_power(boxes, k - 1) + box_power(boxes[k - 1], k - 1, boxes[k - 1].len() as int)
    }
}

proof fn lemma_arranged_stays_none(steps: Seq<Seq<char>>, k: int)
    requires
        0 <= k <= steps.len(),
        arranged(steps.take(k)).is_none(),
    ensures
        arranged(steps).is_none(),
    decreases steps.len() - k,
{
    if k < steps.len() {
        assert(steps.take(k + 1).drop_last() =~= steps.take(k));
        lemma_arranged_stays_none(steps, k + 1);
    } else {
        assert(steps.take(k) =~= steps);
    }
}

fn same_chars(a: &Vec<char>, b: &Vec<char>) -> (r: bool)
    ensures
        r == (a@ == b@),
{
    if a.len() != b.len() {
        return false;
    }
    let mut i: usize = 0;
    while i < a.len()
        invariant
            i <= a@.len(),
            a@.len() == b@.len(),
            forall|k: int| 0 <= k < i ==> a@[k] == b@[k],
        decreases a@.len() - i,
    {
        if a[i] != b[i] {
            return false;
        }
        i += 1;
    }
    assert(a@ =~= b@);
    true
}

fn copy_chars(v: &Vec<char>) -> (r: Vec<char>)
    ensures
        r@ == v@,
{
    crate::text::copy_range(v, 0, v.len())
}

/// Whether `step` holds a dash, and `step` without its dashes.
fn strip_dashes(step: &Vec<char>) -> (r: (bool, Vec<char>))
    ensures
        r.0 == step@.contains('-'),
        r.1@ == without(step@, '-'),
{
    let mut found = false;
    let mut label: Vec<char> = Vec::new();
    let mut i: usize = 0;
    assert(step@.take(0) =~= Seq::<char>::empty());
    while i < step.len()
        invariant
            i <= step@.len(),
            label@ == without(step@.take(i as int), '-'),
            found == step@.take(i as int).contains('-'),
        decreases step@.len() - i,
    {
        proof {
            assert(step@.take(i + 1).drop_last() =~= step@.take(i as int));
            assert(step@.take(i + 1).last() == step@[i as int]);
            let short = step@.take(i as int);
            let long = step@.take(i + 1);
            if short.contains('-') {
                let k = choose|k: int| 0 <= k < short.len() && short[k] == '-';
                assert(long[k] == '-');
            }
            if long.contains('-') && step@[i as int] != '-' {
                let k = choose|k: int| 0 <= k < long.len() && long[k] == '-';
                assert(short[k] == '-');
            }
            if step@[i as int] == '-' {
                assert(long[i as int] == '-');
            }
        }
        if step[i] == '-' {
            found = true;
        } else {
            label.push(step[i]);
        }
        i += 1;
    }
    assert(step@.take(i as int) =~= step@);
    (found, label)
}

fn take_out(lenses: &Vec<Lens>, label: &Vec<char>) -> (r: Vec<Lens>)
    ensures
        box_view(r@) == taken_out(box_view(lenses@), label@),
{
    let ghost all = box_view(lenses@);
    let mut out: Vec<Lens> = Vec::new();
    let mut i: usize = 0;
    assert(all.take(0) =~= Seq::<(Seq<char>, int)>::empty());
    assert(box_view(out@) =~= Seq::<(Seq<char>, int)>::empty());
    while i < lenses.len()
        invariant
            i <= lenses@.len(),
            all == box_view(lenses@),
            box_view(out@) == taken_out(all.take(i as int), label@),
        decreases lenses@.len() - i,
    {
        proof {
            assert(all.take(i + 1).drop_last() =~= all.take(i as int));
            assert(all.take(i + 1).last() == lens_view(lenses@[i as int]));
        }
        let ghost before = box_view(out@);
        if !same_chars(&lenses[i].label, label) {
            let lens = Lens { label: copy_chars(&lenses[i].label), focal: lenses[i].focal };
            out.push(lens);
            assert(box_view(out@) =~= before.push(lens_view(lenses@[i as int])));
        }
        i += 1;
    }
    assert(all.take(i as int) =~= all);
    out
}

fn put(lenses: &Vec<Lens>, label: &Vec<char>, focal: usize) -> (r: Vec<Lens>)
    ensures
        box_view(r@) == put_in(box_view(lenses@), label@, focal as int),
{
    let ghost all = box_view(lenses@);
    let mut out: Vec<Lens> = Vec::new();
    let mut existing = false;
    let mut i: usize = 0;
    while i < lenses.len()
        invariant
            i <= lenses@.len(),
            all == box_view(lenses@),
            out@.len() == i,
            existing == holds(all.take(i as int), label@),
            forall|k: int|
                0 <= k < i ==> lens_view(#[trigger] out@[k]) == if all[k].0 == label@ {
                    (label@, focal as int)
                } else {
                    all[k]
                },
        decreases lenses@.len() - i,
    {
        proof {
            let short = all.take(i as int);
            let long = all.take(i + 1);
            if holds(short, label@) {
                let k = choose|k: int| 0 <= k < short.len() && (#[trigger] short[k]).0 == label@;
                assert(long[k].0 == label@);
            }
            if holds(long, label@) && all[i as int].0 != label@ {
                let k = choose|k: int| 0 <= k < long.len() && (#[trigger] long[k]).0 == label@;
                assert(short[k].0 == label@);
            }
            if all[i as int].0 == label@ {
                assert(long[i as int].0 == label@);
            }
        }
        if same_chars(&lenses[i].label, label) {
            existing = true;
            out.push(Lens { label: copy_chars(label), focal });
        } else {
            out.push(Lens { label: copy_chars(&lenses[i].label), focal: lenses[i].focal });
        }
        i += 1;
    }
    assert(all.take(i as int) =~= all);
    if !existing {
        out.push(Lens { label: copy_chars(label), focal });
        assert(box_view(out@) =~= all.push((label@, focal as int)));
    } else {
        assert(box_view(out@) =~= put_in(all, label@, focal as int));
    }
    out
}

/// The boxes after all of `input`; `None` where a step cannot be read.
#[verifier::loop_isolation(false)]
pub fn arrange(input: &Vec<Vec<char>>) -> (r: Option<Vec<Vec<Lens>>>)
    ensures
        match r {
            Some(boxes) => arranged(views(input@)) == Some(boxes_view(boxes@)) && boxes@.len()
                == 256,
            None => arranged(views(input@)).is_none(),
        },
{
    let ghost steps = views(input@);
    let mut boxes: Vec<Vec<Lens>> = Vec::new();
    let mut b: usize = 0;
    while b < 256
        invariant
            b <= 256,
            boxes@.len() == b,
            forall|k: int| 0 <= k < b ==> (#[trigger] boxes@[k])@.len() == 0,
        decreases 256 - b,
    {
        boxes.push(Vec::new());
        b += 1;
    }
    assert(boxes_view(boxes@) =~= Seq::new(256, |i: int| Seq::<(Seq<char>, int)>::empty())) by {
        assert forall|k: int| 0 <= k < 256 implies #[trigger] boxes_view(boxes@)[k]
            == Seq::<(Seq<char>, int)>::empty() by {
            assert(box_view(boxes@[k]@) =~= Seq::<(Seq<char>, int)>::empty());
        }
    }
    let mut i: usize = 0;
    assert(steps.take(0) =~= Seq::<Seq<char>>::empty());
    while i < input.len()
        invariant
            i <= input@.len(),
            boxes@.len() == 256,
            arranged(steps.take(i as int)) == Some(boxes_view(boxes@)),
        decreases input@.len() - i,
    {
        proof {
            assert(steps.take(i + 1).drop_last() =~= steps.take(i as int));
            assert(steps.take(i + 1).last() == input@[i as int]@);
        }
        let ghost before = boxes_view(boxes@);
        let step = &input[i];
        let (dashed, bare) = strip_dashes(step);
        if dashed {
            let n = hash_chars(&bare);
            let new_box = take_out(&boxes[n], &bare);
            assert(before[n as int] == box_view(boxes@[n as int]@));
            boxes.set(n, new_box);
            assert(boxes_view(boxes@) =~= before.update(
                n as int,
                taken_out(before[n as int], bare@),
            ));
        } else {
            let parts = split(step, '=');
            if parts.len() < 2 {
                proof {
                    lemma_arranged_stays_none(steps, i + 1);
                }
                return None;
            }
            assert(views(parts@)[0] == parts@[0]@);
            assert(views(parts@)[1] == parts@[1]@);
            let n = hash_chars(&parts[0]);
            match parse_unsigned(&parts[1], usize::MAX as u64) {
                Some(focal) => {
                    let new_box = put(&boxes[n], &parts[0], focal as usize);
                    assert(before[n as int] == box_view(boxes@[n as int]@));
                    boxes.set(n, new_box);
                    assert(boxes_view(boxes@) =~= before.update(
                        n as int,
                        put_in(before[n as int], parts@[0]@, focal as int),
                    ));
                },
                None => {
                    proof {
                        lemma_arranged_stays_none(steps, i + 1);
                    }
                    return None;
                },
            }
        }
        i += 1;
    }
    assert(steps.take(i as int) =~= steps);
    Some(boxes)
}

proof fn lemma_box_power_grows(lenses: Seq<(Seq<char>, int)>, b: int, k: int, n: int)
    requires
        0 <= b,
        0 <= k <= n <= lenses.len(),
        forall|i: int| 0 <= i < lenses.len() ==> 0 <= (#[trigger] lenses[i]).1,
    ensures
        0 <= box_power(lenses, b, k) <= box_power(lenses, b, n),
    decreases n - k,
{
    if k < n {
        lemma_box_power_grows(lenses, b, k + 1, n);
        assert(0 <= (b + 1) * (k + 1) * lenses[k].1) by (nonlinear_arith)
            requires
                0 <= b,
                0 <= k,
                0 <= lenses[k].1,
        ;
    }
    lemma_box_power_nonnegative(lenses, b, k);
}

proof fn lemma_box_power_nonnegative(lenses: Seq<(Seq<char>, int)>, b: int, k: int)
    requires
        0 <= b,
        k <= lenses.len(),
        forall|i: int| 0 <= i < lenses.len() ==> 0 <= (#[trigger] lenses[i]).1,
    ensures
        0 <= box_power(lenses, b, k),
    decreases k,
{
    if k > 0 {
        lemma_box_power_nonnegative(lenses, b, k - 1);
        assert(0 <= (b + 1) * k * lenses[k - 1].1) by (nonlinear_arith)
            requires
                0 <= b,
                0 < k,
                0 <= lenses[k - 1].1,
        ;
    }
}

proof fn lemma_focusing_power_grows(boxes: Seq<Seq<(Seq<char>, int)>>, k: int, n: int)
    requires
        0 <= k <= n <= boxes.len(),
        forall|b: int, i: int|
            0 <= b < boxes.len() && 0 <= i < boxes[b].len() ==> 0 <= (#[trigger] boxes[b][i]).1,
    ensures
        0 <= focusing_power(boxes, k) <= focusing_power(boxes, n),
    decreases n - k,
{
    if k < n {
        lemma_focusing_power_grows(boxes, k + 1, n);
        lemma_box_power_nonnegative(boxes[k], k, boxes[k].len() as int);
    }
    lemma_focusing_power_nonnegative(boxes, k);
}

proof fn lemma_focusing_power_nonnegative(boxes: Seq<Seq<(Seq<char>, int)>>, k: int)
    requires
        k <= boxes.len(),
        forall|b: int, i: int|
            0 <= b < boxes.len() && 0 <= i < boxes[b].len() ==> 0 <= (#[trigger] boxes[b][i]).1,
    ensures
        0 <= focusing_power(boxes, k),
    decreases k,
{
    if k > 0 {
        lemma_focusing_power_nonnegative(boxes, k - 1);
        lemma_box_power_nonnegative(boxes[k - 1], k - 1, boxes[k - 1].len() as int);
    }
}

/// The focusing power of `boxes`; `None` where it does not fit.
#[verifier::loop_isolation(false)]
pub fn power_of(boxes: &Vec<Vec<Lens>>) -> (r: Option<usize>)
    ensures
        match r {
            Some(p) => p == focusing_power(boxes_view(boxes@), boxes@.len() as int),
            None => focusing_power(boxes_view(boxes@), boxes@.len() as int) > usize::MAX,
        },
{
    let ghost all = boxes_view(boxes@);
    assert forall|b: int, i: int| 0 <= b < all.len() && 0 <= i < all[b].len() implies 0 <= (
    #[trigger] all[b][i]).1 by {}
    let mut total: usize = 0;
    let mut b: usize = 0;
    while b < boxes.len()
        invariant
            b <= boxes@.len(),
            total == focusing_power(all, b as int),
        decreases boxes@.len() - b,
    {
        let lenses = &boxes[b];
        let ghost these = all[b as int];
        let mut acc: usize = 0;
        let mut slot: usize = 0;
        while slot < lenses.len()
            invariant
                slot <= lenses@.len(),
                b < boxes@.len(),
                these == box_view(lenses@),
                acc == box_power(these, b as int, slot as int),
            decreases lenses@.len() - slot,
        {
            let focal = lenses[slot].focal;
            let next = if focal == 0 {
                assert((b + 1) * (slot + 1) * 0 == 0);
                Some(acc)
            } else {
                match (b + 1).checked_mul(slot + 1) {
                    Some(m) => match m.checked_mul(focal) {
                        Some(p) => acc.checked_add(p),
                        None => None,
                    },
                    None => None,
                }
            };
            match next {
                Some(v) => {
                    acc = v;
                },
                None => {
                    proof {
                        let f = these[slot as int].1;
                        assert(f == lenses@[slot as int].focal);
                        assert((b + 1) * (slot + 1) <= (b + 1) * (slot + 1) * f) by (nonlinear_arith)
                            requires
                                0 <= b,
                                0 <= slot,
                                1 <= f,
                        ;
                        lemma_box_power_grows(these, b as int, slot + 1, these.len() as int);
                        lemma_box_power_nonnegative(these, b as int, slot as int);
                        lemma_focusing_power_grows(all, b + 1, all.len() as int);
                        lemma_focusing_power_nonnegative(all, b as int);
                    }
                    return None;
                },
            }
            slot += 1;
        }
        match total.checked_add(acc) {
            Some(t) => {
                total = t;
            },
            None => {
                proof {
                    lemma_focusing_power_grows(all, b + 1, all.len() as int);
                }
                return None;
            },
        }
        b += 1;
    }
    Some(total)
}

/// The focusing power of the boxes after all steps. `None` where a step
/// cannot be read or the power does not fit.
pub fn part2(input: &Vec<Vec<char>>) -> (r: Option<usize>)
    ensures
        match r {
            Some(p) => arranged(views(input@)) matches Some(boxes) && p == focusing_power(
                boxes,
                256,
            ),
            None => arranged(views(input@)) matches Some(boxes) ==> focusing_power(boxes, 256)
                > usize::MAX,
        },
{
    match arrange(input) {
        Some(boxes) => power_of(&boxes),
        None => None,
    }
}

} // verus!
