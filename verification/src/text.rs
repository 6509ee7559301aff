//! Reading text: characters, lines, fields and numbers.
use vstd::prelude::*;
use vstd::std_specs::iter::IteratorSpec;

verus! {

broadcast use vstd::string::next_postcondition, vstd::string::axiom_spec_iter;

/// The characters of `s`, in order.
pub fn chars_of(s: &str) -> (v: Vec<char>)
    ensures
        v@ == s@,
{
    let mut v: Vec<char> = Vec::new();
    let mut it = s.chars();
    loop
        invariant
            it.remaining().len() <= s@.len(),
            v@ + it.remaining() == s@,
            it.decrease() is Some,
        decreases it.decrease()->0,
    {
        let ghost before = it.remaining();
        match it.next() {
            Some(c) => {
                v.push(c);
                assert(v@ + it.remaining() =~= s@) by {
                    assert(before =~= seq![c] + before.drop_first());
                }
            },
            None => {
                assert(v@ + before =~= v@);
                return v;
            },
        }
    }
}

/// The code of the character `c`.
pub fn code_of(c: char) -> (n: u32)
    ensures
        n == c as int,
        n <= 0x10FFFF,
{
    c as u32
}

/// The views of the vectors of `v`.
pub open spec fn views<T>(v: Seq<Vec<T>>) -> Seq<Seq<T>> {
    Seq::new(v.len(), |i: int| v[i]@)
}

/// Adding a vector to a vector of vectors adds its view to the views.
pub proof fn lemma_views_push<T>(v: Seq<Vec<T>>, x: Vec<T>)
    ensures
        views(v.push(x)) == views(v).push(x@),
{
    assert(views(v.push(x)) =~= views(v).push(x@));
}

/// The number of characters of `s` before the first one that `stop` holds
/// of; the length of `s` where it holds of none.
pub open spec fn span(s: Seq<char>, stop: spec_fn(char) -> bool) -> nat
    decreases s.len(),
{
    if s.len() == 0 || stop(s[0]) {
        0
    } else {
        1 + span(s.drop_first(), stop)
    }
}

/// `span` is `k` where `stop` holds of none of the first `k` characters and
/// holds of the next, if there is one.
pub proof fn lemma_span(s: Seq<char>, stop: spec_fn(char) -> bool, k: int)
    requires
        0 <= k <= s.len(),
        forall|i: int| 0 <= i < k ==> !stop(#[trigger] s[i]),
        k == s.len() || stop(s[k]),
    ensures
        span(s, stop) == k,
    decreases k,
{
    if k > 0 {
        lemma_span(s.drop_first(), stop, k - 1);
    }
}

/// `span` stays within the text.
pub proof fn lemma_span_bound(s: Seq<char>, stop: spec_fn(char) -> bool)
    ensures
        span(s, stop) <= s.len(),
    decreases s.len(),
{
    if s.len() > 0 && !stop(s[0]) {
        lemma_span_bound(s.drop_first(), stop);
    }
}

/// Holds of the character `sep` alone.
pub open spec fn equals(sep: char) -> spec_fn(char) -> bool {
    |c: char| c == sep
}

/// Holds of white space where `space` is set, and of all else where it is not.
pub open spec fn space_is(space: bool) -> spec_fn(char) -> bool {
    |c: char| is_space(c) == space
}

/// The pieces of `s` between occurrences of `sep`. There is always at least
/// one piece, and a piece may be empty.
pub open spec fn split_on(s: Seq<char>, sep: char) -> Seq<Seq<char>>
    decreases s.len(),
{
    let k = span(s, equals(sep));
    if k >= s.len() {
        seq![s]
    } else {
        seq![s.subrange(0, k as int)] + split_on(s.subrange(k as int + 1, s.len() as int), sep)
    }
}

/// `s` without its last character where that is a carriage return.
pub open spec fn strip_cr(s: Seq<char>) -> Seq<char> {
    if s.len() > 0 && s.last() == '\r' {
        s.drop_last()
    } else {
        s
    }
}

/// The lines of `s`. A line feed ends a line, and a carriage return right
/// before it belongs to the line ending. What follows the last line feed is a
/// line too, unless it is empty.
pub open spec fn lines_of(s: Seq<char>) -> Seq<Seq<char>>
    decreases s.len(),
{
    if s.len() == 0 {
        Seq::empty()
    } else {
        let k = span(s, equals('\n'));
        if k >= s.len() {
            seq![s]
        } else {
            seq![strip_cr(s.subrange(0, k as int))] + lines_of(
                s.subrange(k as int + 1, s.len() as int),
            )
        }
    }
}

/// Whether `c` is white space: a tab, a line feed, a vertical tab, a form
/// feed, a carriage return, a space, or one of the other characters that
/// Unicode lists as white space.
pub open spec fn is_space(c: char) -> bool {
    let n = c as int;
    ||| 9 <= n <= 13
    ||| n == 0x20
    ||| n == 0x85
    ||| n == 0xA0
    ||| n == 0x1680
    ||| 0x2000 <= n <= 0x200A
    ||| n == 0x2028
    ||| n == 0x2029
    ||| n == 0x202F
    ||| n == 0x205F
    ||| n == 0x3000
}

/// Whether `c` is white space.
pub fn is_space_char(c: char) -> (b: bool)
    ensures
        b == is_space(c),
{
    let n = c as u32;
    (9 <= n && n <= 13) || n == 0x20 || n == 0x85 || n == 0xA0 || n == 0x1680 || (0x2000 <= n && n
        <= 0x200A) || n == 0x2028 || n == 0x2029 || n == 0x202F || n == 0x205F || n == 0x3000
}

/// The words of `s`: the longest stretches without white space.
pub open spec fn words_of(s: Seq<char>) -> Seq<Seq<char>>
    decreases s.len(),
{
    let lead = span(s, space_is(false));
    if lead >= s.len() {
        Seq::empty()
    } else {
        let rest = s.subrange(lead as int, s.len() as int);
        let k = span(rest, space_is(true));
        if 0 < k <= rest.len() {
            seq![rest.subrange(0, k as int)] + words_of(rest.subrange(k as int, rest.len() as int))
        } else {
            Seq::empty()
        }
    }
}

/// `s` without the white space at its two ends.
pub open spec fn trimmed(s: Seq<char>) -> Seq<char> {
    let lead = span(s, space_is(false));
    if lead >= s.len() {
        Seq::empty()
    } else {
        let tail = span(s.reverse(), space_is(false));
        s.subrange(lead as int, s.len() - tail)
    }
}

/// Whether `s` begins with `prefix`.
pub open spec fn starts_with(s: Seq<char>, prefix: Seq<char>) -> bool {
    prefix.len() <= s.len() && s.subrange(0, prefix.len() as int) == prefix
}

/// Whether every character of `s` is a decimal digit.
pub open spec fn all_digits(s: Seq<char>) -> bool {
    forall|i: int| 0 <= i < s.len() ==> '0' <= #[trigger] s[i] <= '9'
}

/// The number that the digits `s` write in base ten; 0 for no digits.
pub open spec fn decimal(s: Seq<char>) -> int
    decreases s.len(),
{
    if s.len() == 0 {
        0
    } else {
        decimal(s.drop_last()) * 10 + (s.last() as int - 48)
    }
}

/// The whole number that `s` writes, where it is at most `max`: one or more
/// digits, which a plus sign may precede.
pub open spec fn unsigned_of(s: Seq<char>, max: int) -> Option<int> {
    let body = if s.len() > 0 && s[0] == '+' {
        s.drop_first()
    } else {
        s
    };
    if body.len() > 0 && all_digits(body) && decimal(body) <= max {
        Some(decimal(body))
    } else {
        None
    }
}

/// The number that `s` writes, where it lies between `min` and `max`: one or
/// more digits, which a plus or a minus sign may precede.
pub open spec fn signed_of(s: Seq<char>, min: int, max: int) -> Option<int> {
    let negative = s.len() > 0 && s[0] == '-';
    let body = if s.len() > 0 && (s[0] == '+' || s[0] == '-') {
        s.drop_first()
    } else {
        s
    };
    let value = if negative {
        -decimal(body)
    } else {
        decimal(body)
    };
    if body.len() > 0 && all_digits(body) && min <= value <= max {
        Some(value)
    } else {
        None
    }
}

/// Digits never write a negative number, and more digits never write less.
pub proof fn lemma_decimal_grows(s: Seq<char>, k: int)
    requires
        all_digits(s),
        0 <= k <= s.len(),
    ensures
        0 <= decimal(s.take(k)) <= decimal(s),
    decreases s.len() - k,
{
    if k == s.len() {
        assert(s.take(k) =~= s);
        lemma_decimal_nonnegative(s);
    } else {
        lemma_decimal_grows(s, k + 1);
        assert(s.take(k + 1).drop_last() =~= s.take(k));
        lemma_decimal_nonnegative(s.take(k));
    }
}

proof fn lemma_decimal_nonnegative(s: Seq<char>)
    requires
        all_digits(s),
    ensures
        0 <= decimal(s),
    decreases s.len(),
{
    if s.len() > 0 {
        lemma_decimal_nonnegative(s.drop_last());
    }
}

/// The value of the digits `s[from..]`, where every one is a digit and the
/// value is at most `max`.
fn digits_value(s: &Vec<char>, from: usize, max: u128) -> (r: Option<u128>)
    requires
        from <= s@.len(),
    ensures
        r matches Some(v) ==> all_digits(s@.subrange(from as int, s@.len() as int)) && v == decimal(
            s@.subrange(from as int, s@.len() as int),
        ) && v <= max,
        r is None ==> !all_digits(s@.subrange(from as int, s@.len() as int)) || decimal(
            s@.subrange(from as int, s@.len() as int),
        ) > max,
{
    let ghost body = s@.subrange(from as int, s@.len() as int);
    let mut value: u128 = 0;
    let mut i: usize = from;
    while i < s.len()
        invariant
            from <= i <= s@.len(),
            body == s@.subrange(from as int, s@.len() as int),
            all_digits(body.take(i - from)),
            value == decimal(body.take(i - from)),
            value <= max,
        decreases s@.len() - i,
    {
        let c = s[i];
        assert(body[i - from] == c);
        if c < '0' || c > '9' {
            return None;
        }
        let digit = (c as u32 - 48) as u128;
        proof {
            assert(body.take(i - from + 1).drop_last() =~= body.take(i - from));
            assert(body.take(i - from + 1).last() == c);
            assert(all_digits(body.take(i - from + 1))) by {
                assert forall|j: int| 0 <= j < i - from + 1 implies '0' <= #[trigger] body.take(
                    i - from + 1,
                )[j] <= '9' by {
                    if j < i - from {
                        assert(body.take(i - from)[j] == body[j]);
                    }
                }
            }
        }
        let next = match value.checked_mul(10) {
            Some(tenfold) => tenfold.checked_add(digit),
            None => None,
        };
        match next {
            Some(n) if n <= max => {
                value = n;
            },
            _ => {
                proof {
                    if all_digits(body) {
                        lemma_decimal_grows(body, i - from + 1);
                    }
                }
                return None;
            },
        }
        i += 1;
    }
    assert(body.take(i - from) =~= body);
    Some(value)
}

/// The whole number that `s` writes, where it is at most `max`.
pub fn parse_unsigned_wide(s: &Vec<char>, max: u128) -> (r: Option<u128>)
    ensures
        match r {
            Some(v) => unsigned_of(s@, max as int) == Some(v as int),
            None => unsigned_of(s@, max as int).is_none(),
        },
{
    let from: usize = if s.len() > 0 && s[0] == '+' {
        1
    } else {
        0
    };
    assert(s@.subrange(1, s@.len() as int) =~= s@.drop_first());
    assert(s@.subrange(0, s@.len() as int) =~= s@);
    if from == s.len() {
        return None;
    }
    digits_value(s, from, max)
}

/// The whole number that `s` writes, where it is at most `max`.
pub fn parse_unsigned(s: &Vec<char>, max: u64) -> (r: Option<u64>)
    ensures
        match r {
            Some(v) => unsigned_of(s@, max as int) == Some(v as int),
            None => unsigned_of(s@, max as int).is_none(),
        },
{
    match parse_unsigned_wide(s, max as u128) {
        Some(v) => Some(v as u64),
        None => None,
    }
}

/// The number that `s` writes, where it lies between `-bound - 1` and `bound`.
pub fn parse_signed(s: &Vec<char>, bound: u64) -> (r: Option<i64>)
    requires
        bound <= i64::MAX,
    ensures
        match r {
            Some(v) => signed_of(s@, -(bound as int) - 1, bound as int) == Some(v as int),
            None => signed_of(s@, -(bound as int) - 1, bound as int).is_none(),
        },
{
    let negative = s.len() > 0 && s[0] == '-';
    let from: usize = if s.len() > 0 && (s[0] == '+' || s[0] == '-') {
        1
    } else {
        0
    };
    assert(s@.subrange(1, s@.len() as int) =~= s@.drop_first());
    assert(s@.subrange(0, s@.len() as int) =~= s@);
    if from == s.len() {
        return None;
    }
    if negative {
        match digits_value(s, from, bound as u128 + 1) {
            Some(v) => {
                if v == bound as u128 + 1 {
                    Some(-(bound as i64) - 1)
                } else {
                    Some(-(v as i64))
                }
            },
            None => None,
        }
    } else {
        match digits_value(s, from, bound as u128) {
            Some(v) => Some(v as i64),
            None => None,
        }
    }
}

/// Where `span` ends before the end of the text, `stop` holds of the
/// character it ends at.
pub proof fn lemma_span_stops(s: Seq<char>, stop: spec_fn(char) -> bool)
    requires
        span(s, stop) < s.len(),
    ensures
        stop(s[span(s, stop) as int]),
    decreases s.len(),
{
    if s.len() > 0 && !stop(s[0]) {
        lemma_span_stops(s.drop_first(), stop);
    }
}

/// The characters of `s` from index `from` up to, not including, index `to`.
pub fn copy_range(s: &Vec<char>, from: usize, to: usize) -> (r: Vec<char>)
    requires
        from <= to <= s@.len(),
    ensures
        r@ == s@.subrange(from as int, to as int),
{
    let mut r: Vec<char> = Vec::new();
    let mut i: usize = from;
    while i < to
        invariant
            from <= i <= to <= s@.len(),
            r@ == s@.subrange(from as int, i as int),
        decreases to - i,
    {
        r.push(s[i]);
        i += 1;
        assert(r@ =~= s@.subrange(from as int, i as int));
    }
    r
}

/// The index of the first occurrence of `sep` in `s` at or after `from`; the
/// length of `s` where there is none.
fn find_char(s: &Vec<char>, from: usize, sep: char) -> (k: usize)
    requires
        from <= s@.len(),
    ensures
        from <= k <= s@.len(),
        k - from == span(s@.subrange(from as int, s@.len() as int), equals(sep)),
{
    let ghost rest = s@.subrange(from as int, s@.len() as int);
    let mut k: usize = from;
    while k < s.len() && s[k] != sep
        invariant
            from <= k <= s@.len(),
            rest == s@.subrange(from as int, s@.len() as int),
            forall|i: int| 0 <= i < k - from ==> #[trigger] rest[i] != sep,
        decreases s@.len() - k,
    {
        assert(rest[k - from] == s@[k as int]);
        k += 1;
    }
    proof {
        if k < s@.len() {
            assert(rest[k - from] == s@[k as int]);
        }
        lemma_span(rest, equals(sep), k - from);
    }
    k
}

/// The index of the first character of `s` at or after `from` that is white
/// space, where `space` is set, or that is not, where it is not; the length
/// of `s` where there is none.
fn find_space(s: &Vec<char>, from: usize, space: bool) -> (k: usize)
    requires
        from <= s@.len(),
    ensures
        from <= k <= s@.len(),
        k - from == span(s@.subrange(from as int, s@.len() as int), space_is(space)),
{
    let ghost rest = s@.subrange(from as int, s@.len() as int);
    let mut k: usize = from;
    while k < s.len() && is_space_char(s[k]) != space
        invariant
            from <= k <= s@.len(),
            rest == s@.subrange(from as int, s@.len() as int),
            forall|i: int| 0 <= i < k - from ==> is_space(#[trigger] rest[i]) != space,
        decreases s@.len() - k,
    {
        assert(rest[k - from] == s@[k as int]);
        k += 1;
    }
    proof {
        if k < s@.len() {
            assert(rest[k - from] == s@[k as int]);
        }
        lemma_span(rest, space_is(space), k - from);
    }
    k
}

/// Splits `s` at each occurrence of `sep`.
pub fn split(s: &Vec<char>, sep: char) -> (pieces: Vec<Vec<char>>)
    ensures
        views(pieces@) == split_on(s@, sep),
        pieces@.len() >= 1,
{
    let n = s.len();
    let mut pieces: Vec<Vec<char>> = Vec::new();
    let mut pos: usize = 0;
    assert(s@.subrange(0, n as int) =~= s@);
    assert(views(pieces@) + split_on(s@, sep) =~= split_on(s@, sep));
    loop
        invariant
            n == s@.len(),
            pos <= n,
            split_on(s@, sep) == views(pieces@) + split_on(s@.subrange(pos as int, n as int), sep),
        decreases n - pos,
    {
        let ghost rest = s@.subrange(pos as int, n as int);
        let ghost before = views(pieces@);
        let k = find_char(s, pos, sep);
        let piece = copy_range(s, pos, k);
        proof {
            assert(rest.subrange(0, k - pos) =~= piece@);
            lemma_views_push(pieces@, piece);
        }
        pieces.push(piece);
        if k == n {
            proof {
                assert(rest =~= piece@);
                assert(split_on(rest, sep) == seq![rest]);
                assert(before + seq![rest] =~= before.push(rest));
            }
            return pieces;
        }
        proof {
            let tail = s@.subrange(k + 1, n as int);
            assert(rest.subrange(k - pos + 1, rest.len() as int) =~= tail);
            assert(split_on(rest, sep) == seq![piece@] + split_on(tail, sep));
            assert(before + (seq![piece@] + split_on(tail, sep)) =~= before.push(piece@) + split_on(
                tail,
                sep,
            ));
        }
        pos = k + 1;
    }
}

/// Splits `s` into its lines.
pub fn lines(s: &Vec<char>) -> (rows: Vec<Vec<char>>)
    ensures
        views(rows@) == lines_of(s@),
{
    let n = s.len();
    let mut rows: Vec<Vec<char>> = Vec::new();
    let mut pos: usize = 0;
    assert(s@.subrange(0, n as int) =~= s@);
    assert(views(rows@) + lines_of(s@) =~= lines_of(s@));
    while pos < n
        invariant
            n == s@.len(),
            pos <= n,
            lines_of(s@) == views(rows@) + lines_of(s@.subrange(pos as int, n as int)),
        decreases n - pos,
    {
        let ghost rest = s@.subrange(pos as int, n as int);
        let ghost before = views(rows@);
        let k = find_char(s, pos, '\n');
        if k == n {
            let line = copy_range(s, pos, k);
            proof {
                assert(rest =~= line@);
                assert(lines_of(rest) == seq![rest]);
                assert(lines_of(s@.subrange(n as int, n as int)) == Seq::<Seq<char>>::empty());
                lemma_views_push(rows@, line);
                assert(before + seq![rest] =~= before.push(rest) + Seq::<Seq<char>>::empty());
            }
            rows.push(line);
            pos = n;
        } else {
            let end = if k > pos && s[k - 1] == '\r' {
                k - 1
            } else {
                k
            };
            let line = copy_range(s, pos, end);
            proof {
                let full = rest.subrange(0, k - pos);
                let tail = s@.subrange(k + 1, n as int);
                assert(full =~= s@.subrange(pos as int, k as int));
                if k > pos {
                    assert(full.last() == s@[k - 1]);
                }
                if end < k {
                    assert(full.drop_last() =~= line@);
                } else {
                    assert(full =~= line@);
                }
                assert(line@ == strip_cr(full));
                assert(rest.subrange(k - pos + 1, rest.len() as int) =~= tail);
                assert(lines_of(rest) == seq![line@] + lines_of(tail));
                lemma_views_push(rows@, line);
                assert(before + (seq![line@] + lines_of(tail)) =~= before.push(line@) + lines_of(
                    tail,
                ));
            }
            rows.push(line);
            pos = k + 1;
        }
    }
    assert(lines_of(s@.subrange(n as int, n as int)) == Seq::<Seq<char>>::empty());
    assert(views(rows@) + Seq::<Seq<char>>::empty() =~= views(rows@));
    rows
}

/// Splits `s` into its words.
pub fn words(s: &Vec<char>) -> (found: Vec<Vec<char>>)
    ensures
        views(found@) == words_of(s@),
{
    let n = s.len();
    let mut found: Vec<Vec<char>> = Vec::new();
    let mut pos: usize = 0;
    assert(s@.subrange(0, n as int) =~= s@);
    assert(views(found@) + words_of(s@) =~= words_of(s@));
    loop
        invariant
            n == s@.len(),
            pos <= n,
            words_of(s@) == views(found@) + words_of(s@.subrange(pos as int, n as int)),
        decreases n - pos,
    {
        let ghost here = s@.subrange(pos as int, n as int);
        let ghost before = views(found@);
        let from = find_space(s, pos, false);
        if from == n {
            proof {
                assert(words_of(here) == Seq::<Seq<char>>::empty());
                assert(before + Seq::<Seq<char>>::empty() =~= before);
            }
            return found;
        }
        let to = find_space(s, from, true);
        let word = copy_range(s, from, to);
        proof {
            let rest = here.subrange(from - pos, here.len() as int);
            assert(rest =~= s@.subrange(from as int, n as int));
            assert(!is_space(rest[0])) by {
                lemma_span_stops(here, space_is(false));
            }
            assert(to > from) by {
                if to == from {
                    lemma_span_stops(rest, space_is(true));
                }
            }
            let tail = s@.subrange(to as int, n as int);
            assert(rest.subrange(0, to - from) =~= word@);
            assert(rest.subrange(to - from, rest.len() as int) =~= tail);
            assert(words_of(here) == seq![word@] + words_of(tail));
            lemma_views_push(found@, word);
            assert(before + (seq![word@] + words_of(tail)) =~= before.push(word@) + words_of(tail));
        }
        found.push(word);
        pos = to;
    }
}

/// `s` without the white space at its two ends.
pub fn trim(s: &Vec<char>) -> (r: Vec<char>)
    ensures
        r@ == trimmed(s@),
{
    let n = s.len();
    let from = find_space(s, 0, false);
    assert(s@.subrange(0, n as int) =~= s@);
    if from == n {
        return Vec::new();
    }
    let ghost back = s@.reverse();
    let mut to: usize = n;
    while to > 0 && is_space_char(s[to - 1])
        invariant
            to <= n,
            n == s@.len(),
            back == s@.reverse(),
            forall|i: int| 0 <= i < n - to ==> is_space(#[trigger] back[i]),
        decreases to,
    {
        assert(back[n - to] == s@[to - 1]);
        to -= 1;
    }
    proof {
        if to > 0 {
            assert(back[n - to] == s@[to - 1]);
        }
        lemma_span(back, space_is(false), n - to);
        lemma_span_stops(s@, space_is(false));
        assert(from < to) by {
            if to <= from {
                assert(back[n - 1 - from] == s@[from as int]);
            }
        }
    }
    copy_range(s, from, to)
}

/// `s` without `prefix` at its start; `None` where it does not start with it.
pub fn strip_prefix(s: &Vec<char>, prefix: &Vec<char>) -> (r: Option<Vec<char>>)
    ensures
        match r {
            Some(rest) => starts_with(s@, prefix@) && rest@ == s@.subrange(
                prefix@.len() as int,
                s@.len() as int,
            ),
            None => !starts_with(s@, prefix@),
        },
{
    if prefix.len() > s.len() {
        return None;
    }
    let mut i: usize = 0;
    while i < prefix.len()
        invariant
            i <= prefix@.len() <= s@.len(),
            forall|k: int| 0 <= k < i ==> s@[k] == prefix@[k],
        decreases prefix@.len() - i,
    {
        if s[i] != prefix[i] {
            assert(s@.subrange(0, prefix@.len() as int)[i as int] != prefix@[i as int]);
            return None;
        }
        i += 1;
    }
    assert(s@.subrange(0, prefix@.len() as int) =~= prefix@);
    Some(copy_range(s, prefix.len(), s.len()))
}

/// The number of bytes that `c` takes in UTF-8.
pub open spec fn utf8_len(c: char) -> int {
    if (c as int) < 0x80 {
        1
    } else if (c as int) < 0x800 {
        2
    } else if (c as int) < 0x10000 {
        3
    } else {
        4
    }
}

/// The number of bytes that `s` takes in UTF-8.
pub open spec fn byte_len(s: Seq<char>) -> int
    decreases s.len(),
{
    if s.len() == 0 {
        0
    } else {
        byte_len(s.drop_last()) + utf8_len(s.last())
    }
}

/// The number of bytes that `s` takes in UTF-8; `None` where it does not fit.
pub fn byte_length(s: &Vec<char>) -> (r: Option<usize>)
    ensures
        match r {
            Some(n) => n == byte_len(s@),
            None => byte_len(s@) > usize::MAX,
        },
{
    let mut total: usize = 0;
    let mut i: usize = 0;
    while i < s.len()
        invariant
            i <= s@.len(),
            total == byte_len(s@.take(i as int)),
        decreases s@.len() - i,
    {
        proof {
            assert(s@.take(i + 1).drop_last() =~= s@.take(i as int));
            assert(s@.take(i + 1).last() == s@[i as int]);
        }
        let code = code_of(s[i]);
        let width: usize = if code < 0x80 {
            1
        } else if code < 0x800 {
            2
        } else if code < 0x10000 {
            3
        } else {
            4
        };
        match total.checked_add(width) {
            Some(next) => {
                total = next;
            },
            None => {
                proof {
                    lemma_byte_len_grows(s@, i + 1);
                }
                return None;
            },
        }
        i += 1;
    }
    assert(s@.take(i as int) =~= s@);
    Some(total)
}

proof fn lemma_byte_len_grows(s: Seq<char>, k: int)
    requires
        0 <= k <= s.len(),
    ensures
        0 <= byte_len(s.take(k)) <= byte_len(s),
    decreases s.len() - k,
{
    if k == s.len() {
        assert(s.take(k) =~= s);
        lemma_byte_len_nonnegative(s);
    } else {
        lemma_byte_len_grows(s, k + 1);
        assert(s.take(k + 1).drop_last() =~= s.take(k));
        lemma_byte_len_nonnegative(s.take(k));
    }
}

proof fn lemma_byte_len_nonnegative(s: Seq<char>)
    ensures
        0 <= byte_len(s),
    decreases s.len(),
{
    if s.len() > 0 {
        lemma_byte_len_nonnegative(s.drop_last());
    }
}

/// What `f` makes of each member of `s`, in order; `None` where it makes
/// nothing of one of them.
pub open spec fn map_all<A, B>(s: Seq<A>, f: spec_fn(A) -> Option<B>) -> Option<Seq<B>>
    decreases s.len(),
{
    if s.len() == 0 {
        Some(Seq::empty())
    } else {
        match (map_all(s.drop_last(), f), f(s.last())) {
            (Some(head), Some(last)) => Some(head.push(last)),
            _ => None,
        }
    }
}

/// `map_all` of the first `k + 1` members, from that of the first `k`.
pub proof fn lemma_map_all_step<A, B>(s: Seq<A>, f: spec_fn(A) -> Option<B>, k: int)
    requires
        0 <= k < s.len(),
    ensures
        map_all(s.take(k + 1), f) == match (map_all(s.take(k), f), f(s[k])) {
            (Some(head), Some(last)) => Some(head.push(last)),
            _ => None,
        },
{
    assert(s.take(k + 1).drop_last() =~= s.take(k));
    assert(s.take(k + 1).last() == s[k]);
}

/// Where `f` makes nothing of one of the first `k` members, `map_all` is `None`.
pub proof fn lemma_map_all_none<A, B>(s: Seq<A>, f: spec_fn(A) -> Option<B>, k: int)
    requires
        0 <= k <= s.len(),
        map_all(s.take(k), f).is_none(),
    ensures
        map_all(s, f).is_none(),
    decreases s.len() - k,
{
    if k < s.len() {
        lemma_map_all_step(s, f, k);
        lemma_map_all_none(s, f, k + 1);
    } else {
        assert(s.take(k) =~= s);
    }
}

/// What `map_all` gives has one member for each of `s`, made of it by `f`.
pub proof fn lemma_map_all_some<A, B>(s: Seq<A>, f: spec_fn(A) -> Option<B>)
    requires
        map_all(s, f).is_some(),
    ensures
        map_all(s, f).unwrap().len() == s.len(),
        forall|i: int| 0 <= i < s.len() ==> f(s[i]) == Some(#[trigger] map_all(s, f).unwrap()[i]),
    decreases s.len(),
{
    if s.len() > 0 {
        lemma_map_all_some(s.drop_last(), f);
        let head = map_all(s.drop_last(), f).unwrap();
        let all = map_all(s, f).unwrap();
        assert forall|i: int| 0 <= i < s.len() implies f(s[i]) == Some(#[trigger] all[i]) by {
            if i < s.len() - 1 {
                assert(s.drop_last()[i] == s[i]);
                assert(all[i] == head[i]);
            }
        }
    }
}

/// Reads a whole number of at most `max`.
pub open spec fn unsigned_reader(max: int) -> spec_fn(Seq<char>) -> Option<int> {
    |word: Seq<char>| unsigned_of(word, max)
}

/// Reads a number between `min` and `max`.
pub open spec fn signed_reader(min: int, max: int) -> spec_fn(Seq<char>) -> Option<int> {
    |word: Seq<char>| signed_of(word, min, max)
}

/// The members of `v` as mathematical integers.
pub open spec fn as_ints(v: Seq<u64>) -> Seq<int> {
    Seq::new(v.len(), |i: int| v[i] as int)
}

/// The members of `v` as mathematical integers.
pub open spec fn signed_as_ints(v: Seq<i64>) -> Seq<int> {
    Seq::new(v.len(), |i: int| v[i] as int)
}

/// The whole numbers that `words` write, each at most `max`; `None` where
/// one of them writes none.
pub fn parse_all_unsigned(words: &Vec<Vec<char>>, max: u64) -> (r: Option<Vec<u64>>)
    ensures
        match r {
            Some(v) => map_all(views(words@), unsigned_reader(max as int)) == Some(as_ints(v@)),
            None => map_all(views(words@), unsigned_reader(max as int)).is_none(),
        },
{
    let ghost ws = views(words@);
    let ghost f = unsigned_reader(max as int);
    let mut out: Vec<u64> = Vec::new();
    let mut i: usize = 0;
    assert(ws.take(0) =~= Seq::<Seq<char>>::empty());
    assert(as_ints(out@) =~= Seq::<int>::empty());
    while i < words.len()
        invariant
            i <= words@.len(),
            ws == views(words@),
            f == unsigned_reader(max as int),
            map_all(ws.take(i as int), f) == Some(as_ints(out@)),
        decreases words@.len() - i,
    {
        proof {
            lemma_map_all_step(ws, f, i as int);
        }
        let ghost before = as_ints(out@);
        match parse_unsigned(&words[i], max) {
            Some(v) => {
                out.push(v);
                assert(as_ints(out@) =~= before.push(v as int));
            },
            None => {
                proof {
                    lemma_map_all_none(ws, f, i + 1);
                }
                return None;
            },
        }
        i += 1;
    }
    assert(ws.take(i as int) =~= ws);
    Some(out)
}

/// The numbers that `words` write, each between `-bound - 1` and `bound`;
/// `None` where one of them writes none.
pub fn parse_all_signed(words: &Vec<Vec<char>>, bound: u64) -> (r: Option<Vec<i64>>)
    requires
        bound <= i64::MAX,
    ensures
        match r {
            Some(v) => map_all(views(words@), signed_reader(-(bound as int) - 1, bound as int))
                == Some(signed_as_ints(v@)),
            None => map_all(
                views(words@),
                signed_reader(-(bound as int) - 1, bound as int),
            ).is_none(),
        },
{
    let ghost ws = views(words@);
    let ghost f = signed_reader(-(bound as int) - 1, bound as int);
    let mut out: Vec<i64> = Vec::new();
    let mut i: usize = 0;
    assert(ws.take(0) =~= Seq::<Seq<char>>::empty());
    assert(signed_as_ints(out@) =~= Seq::<int>::empty());
    while i < words.len()
        invariant
            i <= words@.len(),
            bound <= i64::MAX,
            ws == views(words@),
            f == signed_reader(-(bound as int) - 1, bound as int),
            map_all(ws.take(i as int), f) == Some(signed_as_ints(out@)),
        decreases words@.len() - i,
    {
        proof {
            lemma_map_all_step(ws, f, i as int);
        }
        let ghost before = signed_as_ints(out@);
        match parse_signed(&words[i], bound) {
            Some(v) => {
                out.push(v);
                assert(signed_as_ints(out@) =~= before.push(v as int));
            },
            None => {
                proof {
                    lemma_map_all_none(ws, f, i + 1);
                }
                return None;
            },
        }
        i += 1;
    }
    assert(ws.take(i as int) =~= ws);
    Some(out)
}

/// `s` without its white space.
pub open spec fn squeezed(s: Seq<char>) -> Seq<char>
    decreases s.len(),
{
    if s.len() == 0 {
        s
    } else if is_space(s.last()) {
        squeezed(s.drop_last())
    } else {
        squeezed(s.drop_last()).push(s.last())
    }
}

/// `s` without its white space.
pub fn squeeze(s: &Vec<char>) -> (r: Vec<char>)
    ensures
        r@ == squeezed(s@),
{
    let mut r: Vec<char> = Vec::new();
    let mut i: usize = 0;
    assert(s@.take(0) =~= Seq::<char>::empty());
    while i < s.len()
        invariant
            i <= s@.len(),
            r@ == squeezed(s@.take(i as int)),
        decreases s@.len() - i,
    {
        proof {
            assert(s@.take(i + 1).drop_last() =~= s@.take(i as int));
            assert(s@.take(i + 1).last() == s@[i as int]);
        }
        if !is_space_char(s[i]) {
            r.push(s[i]);
        }
        i += 1;
    }
    assert(s@.take(i as int) =~= s@);
    r
}

/// Whether the characters `v` are those of `s`.
pub fn equals_str(v: &Vec<char>, s: &str) -> (b: bool)
    ensures
        b == (v@ == s@),
{
    let other = chars_of(s);
    if v.len() != other.len() {
        return false;
    }
    let mut i: usize = 0;
    while i < v.len()
        invariant
            i <= v@.len(),
            v@.len() == other@.len(),
            other@ == s@,
            forall|k: int| 0 <= k < i ==> v@[k] == other@[k],
        decreases v@.len() - i,
    {
        if v[i] != other[i] {
            return false;
        }
        i += 1;
    }
    assert(v@ =~= other@);
    true
}

/// Whether `c` is white space of ASCII: a tab, a line feed, a form feed, a
/// carriage return or a space.
pub open spec fn is_ascii_space(c: char) -> bool {
    c == ' ' || c == '\t' || c == '\n' || c == '\r' || c as int == 12
}

/// Holds of ASCII white space where `space` is set, and of all else where it
/// is not.
pub open spec fn ascii_space_is(space: bool) -> spec_fn(char) -> bool {
    |c: char| is_ascii_space(c) == space
}

/// The words of `s` where only ASCII white space parts words.
pub open spec fn ascii_words_of(s: Seq<char>) -> Seq<Seq<char>>
    decreases s.len(),
{
    let lead = span(s, ascii_space_is(false));
    if lead >= s.len() {
        Seq::empty()
    } else {
        let rest = s.subrange(lead as int, s.len() as int);
        let k = span(rest, ascii_space_is(true));
        if 0 < k <= rest.len() {
            seq![rest.subrange(0, k as int)] + ascii_words_of(
                rest.subrange(k as int, rest.len() as int),
            )
        } else {
            Seq::empty()
        }
    }
}

fn is_ascii_space_char(c: char) -> (b: bool)
    ensures
        b == is_ascii_space(c),
{
    c == ' ' || c == '\t' || c == '\n' || c == '\r' || code_of(c) == 12
}

fn find_ascii_space(s: &Vec<char>, from: usize, space: bool) -> (k: usize)
    requires
        from <= s@.len(),
    ensures
        from <= k <= s@.len(),
        k - from == span(s@.subrange(from as int, s@.len() as int), ascii_space_is(space)),
{
    let ghost rest = s@.subrange(from as int, s@.len() as int);
    let mut k: usize = from;
    while k < s.len() && is_ascii_space_char(s[k]) != space
        invariant
            from <= k <= s@.len(),
            rest == s@.subrange(from as int, s@.len() as int),
            forall|i: int| 0 <= i < k - from ==> is_ascii_space(#[trigger] rest[i]) != space,
        decreases s@.len() - k,
    {
        assert(rest[k - from] == s@[k as int]);
        k += 1;
    }
    proof {
        if k < s@.len() {
            assert(rest[k - from] == s@[k as int]);
        }
        lemma_span(rest, ascii_space_is(space), k - from);
    }
    k
}

/// Splits `s` into its words, parted by ASCII white space.
pub fn ascii_words(s: &Vec<char>) -> (found: Vec<Vec<char>>)
    ensures
        views(found@) == ascii_words_of(s@),
{
    let n = s.len();
    let mut found: Vec<Vec<char>> = Vec::new();
    let mut pos: usize = 0;
    assert(s@.subrange(0, n as int) =~= s@);
    assert(views(found@) + ascii_words_of(s@) =~= ascii_words_of(s@));
    loop
        invariant
            n == s@.len(),
            pos <= n,
            ascii_words_of(s@) == views(found@) + ascii_words_of(s@.subrange(pos as int, n as int)),
        decreases n - pos,
    {
        let ghost here = s@.subrange(pos as int, n as int);
        let ghost before = views(found@);
        let from = find_ascii_space(s, pos, false);
        if from == n {
            proof {
                assert(ascii_words_of(here) == Seq::<Seq<char>>::empty());
                assert(before + Seq::<Seq<char>>::empty() =~= before);
            }
            return found;
        }
        let to = find_ascii_space(s, from, true);
        let word = copy_range(s, from, to);
        proof {
            let rest = here.subrange(from - pos, here.len() as int);
            assert(rest =~= s@.subrange(from as int, n as int));
            assert(!is_ascii_space(rest[0])) by {
                lemma_span_stops(here, ascii_space_is(false));
            }
            assert(to > from) by {
                if to == from {
                    lemma_span_stops(rest, ascii_space_is(true));
                }
            }
            let tail = s@.subrange(to as int, n as int);
            assert(rest.subrange(0, to - from) =~= word@);
            assert(rest.subrange(to - from, rest.len() as int) =~= tail);
            assert(ascii_words_of(here) == seq![word@] + ascii_words_of(tail));
            lemma_views_push(found@, word);
            assert(before + (seq![word@] + ascii_words_of(tail)) =~= before.push(word@)
                + ascii_words_of(tail));
        }
        found.push(word);
        pos = to;
    }
}

/// The value of the hexadecimal digit `c`, if it is one.
pub open spec fn hex_digit(c: char) -> Option<int> {
    if '0' <= c <= '9' {
        Some(c as int - 48)
    } else if 'a' <= c <= 'f' {
        Some(c as int - 87)
    } else if 'A' <= c <= 'F' {
        Some(c as int - 55)
    } else {
        None
    }
}

/// Whether every character of `s` is a hexadecimal digit.
pub open spec fn all_hex(s: Seq<char>) -> bool {
    forall|i: int| 0 <= i < s.len() ==> hex_digit(#[trigger] s[i]).is_some()
}

/// The number that the hexadecimal digits `s` write; 0 for no digits.
pub open spec fn hexadecimal(s: Seq<char>) -> int
    decreases s.len(),
{
    if s.len() == 0 {
        0
    } else {
        hexadecimal(s.drop_last()) * 16 + match hex_digit(s.last()) {
            Some(d) => d,
            None => 0,
        }
    }
}

/// The whole number that `s` writes in base sixteen, where it is at most
/// `max`: one or more hexadecimal digits, which a plus sign may precede.
pub open spec fn hex_of(s: Seq<char>, max: int) -> Option<int> {
    let body = if s.len() > 0 && s[0] == '+' {
        s.drop_first()
    } else {
        s
    };
    if body.len() > 0 && all_hex(body) && hexadecimal(body) <= max {
        Some(hexadecimal(body))
    } else {
        None
    }
}

proof fn lemma_hexadecimal_grows(s: Seq<char>, k: int)
    requires
        all_hex(s),
        0 <= k <= s.len(),
    ensures
        0 <= hexadecimal(s.take(k)) <= hexadecimal(s),
    decreases s.len() - k,
{
    if k == s.len() {
        assert(s.take(k) =~= s);
        lemma_hexadecimal_nonnegative(s);
    } else {
        lemma_hexadecimal_grows(s, k + 1);
        assert(s.take(k + 1).drop_last() =~= s.take(k));
        assert(s.take(k + 1).last() == s[k]);
        lemma_hexadecimal_nonnegative(s.take(k));
    }
}

proof fn lemma_hexadecimal_nonnegative(s: Seq<char>)
    requires
        all_hex(s),
    ensures
        0 <= hexadecimal(s),
    decreases s.len(),
{
    if s.len() > 0 {
        assert(all_hex(s.drop_last())) by {
            assert forall|i: int| 0 <= i < s.drop_last().len() implies hex_digit(
                #[trigger] s.drop_last()[i],
            ).is_some() by {
                assert(s.drop_last()[i] == s[i]);
            }
        }
        lemma_hexadecimal_nonnegative(s.drop_last());
    }
}

/// The whole number that `s` writes in base sixteen, where it is at most `max`.
#[verifier::loop_isolation(false)]
pub fn parse_hex(s: &Vec<char>, max: u64) -> (r: Option<u64>)
    ensures
        match r {
            Some(v) => hex_of(s@, max as int) == Some(v as int),
            None => hex_of(s@, max as int).is_none(),
        },
{
    let from: usize = if s.len() > 0 && s[0] == '+' {
        1
    } else {
        0
    };
    assert(s@.subrange(1, s@.len() as int) =~= s@.drop_first());
    assert(s@.subrange(0, s@.len() as int) =~= s@);
    if from == s.len() {
        return None;
    }
    let ghost body = s@.subrange(from as int, s@.len() as int);
    let mut value: u64 = 0;
    let mut i: usize = from;
    assert(body.take(0) =~= Seq::<char>::empty());
    while i < s.len()
        invariant
            from <= i <= s@.len(),
            all_hex(body.take(i - from)),
            value == hexadecimal(body.take(i - from)),
            value <= max,
        decreases s@.len() - i,
    {
        let c = s[i];
        assert(body[i - from] == c);
        let digit: u64 = if c >= '0' && c <= '9' {
            (c as u32 - 48) as u64
        } else if c >= 'a' && c <= 'f' {
            (c as u32 - 87) as u64
        } else if c >= 'A' && c <= 'F' {
            (c as u32 - 55) as u64
        } else {
            assert(!all_hex(body));
            return None;
        };
        proof {
            assert(body.take(i - from + 1).drop_last() =~= body.take(i - from));
            assert(body.take(i - from + 1).last() == c);
            assert(all_hex(body.take(i - from + 1))) by {
                assert forall|j: int| 0 <= j < i - from + 1 implies hex_digit(
                    #[trigger] body.take(i - from + 1)[j],
                ).is_some() by {
                    if j < i - from {
                        assert(body.take(i - from)[j] == body[j]);
                    }
                }
            }
        }
        let next = match value.checked_mul(16) {
            Some(v) => v.checked_add(digit),
            None => None,
        };
        match next {
            Some(n) if n <= max => {
                value = n;
            },
            _ => {
                proof {
                    if all_hex(body) {
                        lemma_hexadecimal_grows(body, i - from + 1);
                    }
                }
                return None;
            },
        }
        i += 1;
    }
    assert(body.take(i - from) =~= body);
    Some(value)
}

/// No word is empty.
pub proof fn lemma_ascii_words_nonempty(s: Seq<char>, i: int)
    requires
        0 <= i < ascii_words_of(s).len(),
    ensures
        ascii_words_of(s)[i].len() > 0,
    decreases s.len(),
{
    let lead = span(s, ascii_space_is(false));
    if lead < s.len() {
        let rest = s.subrange(lead as int, s.len() as int);
        let k = span(rest, ascii_space_is(true));
        if 0 < k <= rest.len() {
            if i > 0 {
                lemma_ascii_words_nonempty(rest.subrange(k as int, rest.len() as int), i - 1);
            }
        }
    }
}

/// The place of the first occurrence of `pattern` in `s`; the length of `s`
/// where there is none.
pub open spec fn first_match(s: Seq<char>, pattern: Seq<char>) -> nat
    decreases s.len(),
{
    if s.len() < pattern.len() {
        s.len()
    } else if starts_with(s, pattern) {
        0
    } else if s.len() == 0 {
        0
    } else {
        1 + first_match(s.drop_first(), pattern)
    }
}

/// The pieces of `s` between occurrences of `pattern`, which is not empty;
/// the occurrences are found from the left and never overlap.
pub open spec fn split_on_text(s: Seq<char>, pattern: Seq<char>) -> Seq<Seq<char>>
    decreases s.len(),
{
    let k = first_match(s, pattern);
    if pattern.len() == 0 || k + pattern.len() > s.len() {
        seq![s]
    } else {
        seq![s.subrange(0, k as int)] + split_on_text(
            s.subrange((k + pattern.len()) as int, s.len() as int),
            pattern,
        )
    }
}

/// `first_match` is `k` where `pattern` occurs at none of the first `k`
/// places and occurs at `k` or no longer fits there.
proof fn lemma_first_match(s: Seq<char>, pattern: Seq<char>, k: int)
    requires
        pattern.len() > 0,
        0 <= k <= s.len(),
        forall|i: int| 0 <= i < k ==> !starts_with(#[trigger] s.subrange(i, s.len() as int), pattern),
        starts_with(s.subrange(k, s.len() as int), pattern) || s.len() - k < pattern.len(),
    ensures
        first_match(s, pattern) == if starts_with(s.subrange(k, s.len() as int), pattern) {
            k
        } else {
            s.len() as int
        },
    decreases k,
{
    assert(s.subrange(0, s.len() as int) =~= s);
    if k == 0 {
        if !starts_with(s, pattern) {
            lemma_first_match_short(s, pattern);
        }
    } else {
        assert(!starts_with(s.subrange(0, s.len() as int), pattern));
        if s.len() < pattern.len() {
        } else {
            let t = s.drop_first();
            assert forall|i: int| 0 <= i < k - 1 implies !starts_with(
                #[trigger] t.subrange(i, t.len() as int),
                pattern,
            ) by {
                assert(t.subrange(i, t.len() as int) =~= s.subrange(i + 1, s.len() as int));
            }
            assert(t.subrange(k - 1, t.len() as int) =~= s.subrange(k, s.len() as int));
            lemma_first_match(t, pattern, k - 1);
        }
    }
}

/// Where `s` is shorter than `pattern`, there is no occurrence.
proof fn lemma_first_match_short(s: Seq<char>, pattern: Seq<char>)
    requires
        s.len() < pattern.len(),
    ensures
        first_match(s, pattern) == s.len(),
{
}

/// Whether `pattern` occurs in `s` at place `at`.
#[verifier::loop_isolation(false)]
fn occurs_at(s: &Vec<char>, at: usize, pattern: &Vec<char>) -> (r: bool)
    requires
        at <= s@.len(),
    ensures
        r == starts_with(s@.subrange(at as int, s@.len() as int), pattern@),
{
    let ghost rest = s@.subrange(at as int, s@.len() as int);
    if pattern.len() > s.len() - at {
        return false;
    }
    let mut k: usize = 0;
    while k < pattern.len()
        invariant
            k <= pattern@.len(),
            pattern@.len() <= s@.len() - at,
            rest == s@.subrange(at as int, s@.len() as int),
            forall|j: int| 0 <= j < k ==> rest[j] == pattern@[j],
        decreases pattern@.len() - k,
    {
        if s[at + k] != pattern[k] {
            assert(rest.subrange(0, pattern@.len() as int)[k as int] != pattern@[k as int]);
            return false;
        }
        assert(rest[k as int] == s@[at + k]);
        k += 1;
    }
    assert(rest.subrange(0, pattern@.len() as int) =~= pattern@);
    true
}

/// Splits `s` at each occurrence of `pattern`, which must not be empty.
#[verifier::loop_isolation(false)]
pub fn split_at_text(s: &Vec<char>, pattern: &str) -> (pieces: Vec<Vec<char>>)
    requires
        pattern@.len() > 0,
    ensures
        views(pieces@) == split_on_text(s@, pattern@),
        pieces@.len() >= 1,
{
    let pat = chars_of(pattern);
    let n = s.len();
    let m = pat.len();
    let mut pieces: Vec<Vec<char>> = Vec::new();
    let mut pos: usize = 0;
    assert(s@.subrange(0, n as int) =~= s@);
    assert(views(pieces@) + split_on_text(s@, pat@) =~= split_on_text(s@, pat@));
    loop
        invariant
            pos <= n,
            split_on_text(s@, pat@) == views(pieces@) + split_on_text(
                s@.subrange(pos as int, n as int),
                pat@,
            ),
        decreases n - pos,
    {
        let ghost rest = s@.subrange(pos as int, n as int);
        let ghost before = views(pieces@);
        let mut k: usize = pos;
        let mut found = false;
        while !found && n - k >= m
            invariant
                pos <= k <= n,
                forall|i: int|
                    0 <= i < k - pos ==> !starts_with(
                        #[trigger] rest.subrange(i, rest.len() as int),
                        pat@,
                    ),
                found ==> starts_with(rest.subrange(k - pos, rest.len() as int), pat@),
            decreases n - k, (if found { 0int } else { 1int }),
        {
            assert(rest.subrange(k - pos, rest.len() as int) =~= s@.subrange(k as int, n as int));
            if occurs_at(s, k, &pat) {
                found = true;
            } else {
                k += 1;
            }
        }
        proof {
            if !found {
                // no occurrence fits any more: none up to the end either
                assert forall|i: int| 0 <= i < rest.len() implies !starts_with(
                    #[trigger] rest.subrange(i, rest.len() as int),
                    pat@,
                ) by {
                    if i >= k - pos {
                        assert(rest.subrange(i, rest.len() as int).len() < pat@.len());
                    }
                }
                assert(rest.subrange(rest.len() as int, rest.len() as int).len() < pat@.len());
                lemma_first_match(rest, pat@, rest.len() as int);
            } else {
                lemma_first_match(rest, pat@, k - pos);
            }
        }
        if !found {
            let piece = copy_range(s, pos, n);
            proof {
                assert(rest =~= piece@);
                lemma_views_push(pieces@, piece);
                assert(before + seq![rest] =~= before.push(rest));
            }
            pieces.push(piece);
            return pieces;
        }
        let piece = copy_range(s, pos, k);
        proof {
            let tail = s@.subrange(k + m, n as int);
            assert(rest.subrange(0, k - pos) =~= piece@);
            assert(rest.subrange(k - pos + m, rest.len() as int) =~= tail);
            lemma_views_push(pieces@, piece);
            assert(before + (seq![piece@] + split_on_text(tail, pat@)) =~= before.push(piece@)
                + split_on_text(tail, pat@));
        }
        pieces.push(piece);
        pos = k + m;
    }
}

/// Holds of every character but the decimal digits.
pub open spec fn no_digit() -> spec_fn(char) -> bool {
    |c: char| !('0' <= c <= '9')
}

/// The pieces of `s` between the characters that `stop` holds of. There is
/// always at least one piece, and a piece may be empty.
pub open spec fn split_where(s: Seq<char>, stop: spec_fn(char) -> bool) -> Seq<Seq<char>>
    decreases s.len(),
{
    let k = span(s, stop);
    if k >= s.len() {
        seq![s]
    } else {
        seq![s.subrange(0, k as int)] + split_where(s.subrange(k as int + 1, s.len() as int), stop)
    }
}

/// Splits `s` at each character that is no decimal digit.
#[verifier::loop_isolation(false)]
pub fn split_at_non_digits(s: &Vec<char>) -> (pieces: Vec<Vec<char>>)
    ensures
        views(pieces@) == split_where(s@, no_digit()),
        pieces@.len() >= 1,
{
    let n = s.len();
    let mut pieces: Vec<Vec<char>> = Vec::new();
    let mut pos: usize = 0;
    assert(s@.subrange(0, n as int) =~= s@);
    assert(views(pieces@) + split_where(s@, no_digit()) =~= split_where(s@, no_digit()));
    loop
        invariant
            pos <= n,
            split_where(s@, no_digit()) == views(pieces@) + split_where(
                s@.subrange(pos as int, n as int),
                no_digit(),
            ),
        decreases n - pos,
    {
        let ghost rest = s@.subrange(pos as int, n as int);
        let ghost before = views(pieces@);
        let mut k: usize = pos;
        while k < n && s[k] >= '0' && s[k] <= '9'
            invariant
                pos <= k <= n,
                forall|i: int| 0 <= i < k - pos ==> !no_digit()(#[trigger] rest[i]),
            decreases n - k,
        {
            assert(rest[k - pos] == s@[k as int]);
            k += 1;
        }
        proof {
            if k < n {
                assert(rest[k - pos] == s@[k as int]);
            }
            lemma_span(rest, no_digit(), k - pos);
        }
        let piece = copy_range(s, pos, k);
        proof {
            assert(rest.subrange(0, k - pos) =~= piece@);
            lemma_views_push(pieces@, piece);
        }
        pieces.push(piece);
        if k == n {
            proof {
                assert(rest =~= piece@);
                assert(split_where(rest, no_digit()) == seq![rest]);
                assert(before + seq![rest] =~= before.push(rest));
            }
            return pieces;
        }
        proof {
            let tail = s@.subrange(k + 1, n as int);
            assert(rest.subrange(k - pos + 1, rest.len() as int) =~= tail);
            assert(split_where(rest, no_digit()) == seq![piece@] + split_where(tail, no_digit()));
            assert(before + (seq![piece@] + split_where(tail, no_digit())) =~= before.push(piece@)
                + split_where(tail, no_digit()));
        }
        pos = k + 1;
    }
}

/// The number under which `name` was noted, where it was.
pub open spec fn place(names: Seq<Seq<char>>, name: Seq<char>) -> Option<int>
    decreases names.len(),
{
    if names.len() == 0 {
        None
    } else {
        match place(names.drop_last(), name) {
            Some(i) => Some(i),
            None => if names.last() == name {
                Some(names.len() - 1)
            } else {
                None
            },
        }
    }
}

/// A name noted has a number below the count of names, and stands there.
pub proof fn lemma_place_range(names: Seq<Seq<char>>, name: Seq<char>)
    ensures
        match place(names, name) {
            Some(i) => 0 <= i < names.len() && names[i] == name,
            None => true,
        },
    decreases names.len(),
{
    if names.len() > 0 {
        lemma_place_range(names.drop_last(), name);
    }
}

/// A name found among the first `k` names has the same number among all.
pub proof fn lemma_place_stays(names: Seq<Seq<char>>, name: Seq<char>, k: int)
    requires
        0 <= k <= names.len(),
        place(names.take(k), name).is_some(),
    ensures
        place(names, name) == place(names.take(k), name),
    decreases names.len(),
{
    if k == names.len() {
        assert(names.take(k) =~= names);
    } else {
        assert(names.drop_last().take(k) =~= names.take(k));
        lemma_place_stays(names.drop_last(), name, k);
    }
}

/// Whether two texts are the same.
pub fn same_text(a: &Vec<char>, b: &Vec<char>) -> (r: bool)
    ensures
        r == (a@ == b@),
{
    if a.len() != b.len() {
        return false;
    }
    let mut i: usize = 0;
    while i < a.len()
        invariant
            i <= a@.len(),
            a@.len() == b@.len(),
            forall|k: int| 0 <= k < i ==> a@[k] == b@[k],
        decreases a@.len() - i,
    {
        if a[i] != b[i] {
            return false;
        }
        i += 1;
    }
    assert(a@ =~= b@);
    true
}

/// The number under which `name` was noted.
pub fn find_name(names: &Vec<Vec<char>>, name: &Vec<char>) -> (r: Option<usize>)
    ensures
        match r {
            Some(i) => place(views(names@), name@) == Some(i as int) && i < names@.len(),
            None => place(views(names@), name@).is_none(),
        },
{
    let ghost all = views(names@);
    let mut i: usize = 0;
    assert(all.take(0) =~= Seq::<Seq<char>>::empty());
    while i < names.len()
        invariant
            i <= names@.len(),
            all == views(names@),
            place(all.take(i as int), name@).is_none(),
        decreases names@.len() - i,
    {
        assert(all.take(i + 1).drop_last() =~= all.take(i as int));
        assert(all.take(i + 1).last() == names@[i as int]@);
        if same_text(&names[i], name) {
            proof {
                lemma_place_stays(all, name@, i + 1);
            }
            return Some(i);
        }
        i += 1;
    }
    assert(all.take(i as int) =~= all);
    None
}

/// The number under which `name` was noted; 0 where it was not.
pub open spec fn number(names: Seq<Seq<char>>, name: Seq<char>) -> int {
    match place(names, name) {
        Some(i) => i,
        None => 0,
    }
}

/// The number under which `name` was noted; 0 where it was not.
pub fn number_of(names: &Vec<Vec<char>>, name: &Vec<char>) -> (r: usize)
    ensures
        r == number(views(names@), name@),
        names@.len() > 0 ==> r < names@.len(),
{
    match find_name(names, name) {
        Some(i) => i,
        None => 0,
    }
}

} // verus!
