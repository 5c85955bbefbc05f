//! Schedule linearization: reduces a set of possibly-overlapping scene
//! schedules to a time-ordered, non-overlapping partition of the day.
//!
//! Later-starting schedules win the overlapping portion of their span, so a
//! narrow window carves an exception into a broader one. Adjacent spans that
//! name the same scene are merged. Entries without a positive width carry no
//! time and are dropped.

use crate::time_range_parser::{
    find_char, find_in, hm_hours, hm_minutes, is_digit, parse_hm, shape_24h, to_chars, value_24h,
};
use vstd::prelude::*;

verus! {

/// Every character is a decimal digit.
pub open spec fn all_digits(s: Seq<char>) -> bool {
    forall|k: int| 0 <= k < s.len() ==> is_digit(#[trigger] s[k])
}

/// The number written in decimal digits, most significant first.
pub open spec fn digits_val(s: Seq<char>) -> int
    decreases s.len(),
{
    if s.len() == 0 {
        0
    } else {
        10 * digits_val(s.drop_last()) + crate::time_range_parser::digit_val(s.last())
    }
}

/// What parsing a decimal number yields: digits only, at least one, and a
/// value that fits.
pub open spec fn spec_parse_u32(s: Seq<char>) -> Option<u32> {
    if s.len() > 0 && all_digits(s) && digits_val(s) <= u32::MAX {
        Some(digits_val(s) as u32)
    } else {
        None
    }
}

/// The index of the last occurrence of `c` in `s`.
pub open spec fn find_last_char(s: Seq<char>, c: char) -> Option<int>
    decreases s.len(),
{
    if s.len() == 0 {
        None
    } else if s.last() == c {
        Some(s.len() - 1)
    } else {
        find_last_char(s.drop_last(), c)
    }
}

proof fn lemma_find_last_char_some(s: Seq<char>, c: char, i: int)
    requires
        0 <= i < s.len(),
        s[i] == c,
        forall|k: int| i < k < s.len() ==> s[k] != c,
    ensures
        find_last_char(s, c) == Some(i),
    decreases s.len(),
{
    if i < s.len() - 1 {
        lemma_find_last_char_some(s.drop_last(), c, i);
    }
}

proof fn lemma_find_last_char_none(s: Seq<char>, c: char)
    requires
        forall|k: int| 0 <= k < s.len() ==> s[k] != c,
    ensures
        find_last_char(s, c) == None::<int>,
    decreases s.len(),
{
    if s.len() > 0 {
        lemma_find_last_char_none(s.drop_last(), c);
    }
}

/// A scene together with the minute-of-day span during which it should hold.
#[derive(Debug, PartialEq)]
pub struct ScheduledScene {
    pub scene_id: String,
    pub start: u32,
    pub end: u32,
}

impl Clone for ScheduledScene {
    fn clone(&self) -> (r: ScheduledScene)
        ensures
            r == *self,
    {
        ScheduledScene { scene_id: self.scene_id.clone(), start: self.start, end: self.end }
    }
}

impl ScheduledScene {
    pub fn new(scene_id: &str, start: u32, end: u32) -> (r: ScheduledScene)
        ensures
            r.scene_id@ == scene_id@,
            r.start == start,
            r.end == end,
    {
        ScheduledScene { scene_id: scene_id.to_owned(), start, end }
    }
}

proof fn lemma_digits_val_nonneg(s: Seq<char>)
    requires
        all_digits(s),
    ensures
        digits_val(s) >= 0,
    decreases s.len(),
{
    if s.len() > 0 {
        assert(all_digits(s.drop_last()));
        lemma_digits_val_nonneg(s.drop_last());
    }
}

/// A longer run of digits never names a smaller number.
proof fn lemma_digits_val_grows(s: Seq<char>, i: int)
    requires
        0 <= i <= s.len(),
        all_digits(s),
    ensures
        digits_val(s) >= digits_val(s.take(i)),
    decreases s.len() - i,
{
    if i < s.len() {
        assert(s.take(i + 1).drop_last() =~= s.take(i));
        assert(s.take(i + 1).last() == s[i]);
        assert(all_digits(s.take(i)));
        lemma_digits_val_nonneg(s.take(i));
        lemma_digits_val_grows(s, i + 1);
    } else {
        assert(s.take(i) =~= s);
    }
}

/// Parses `chars[a..b]` as a decimal number, as `str::parse` would on a
/// digits-only string.
fn parse_u32_digits(chars: &Vec<char>, a: usize, b: usize) -> (r: Option<u32>)
    requires
        a <= b && b <= chars@.len(),
    ensures
        r == spec_parse_u32(chars@.subrange(a as int, b as int)),
{
    let ghost sub = chars@.subrange(a as int, b as int);
    if a == b {
        return None;
    }
    let mut acc: u64 = 0;
    let mut i: usize = a;
    while i < b
        invariant
            a <= i <= b,
            b <= chars@.len(),
            sub == chars@.subrange(a as int, b as int),
            all_digits(sub.take(i - a)),
            acc as int == digits_val(sub.take(i - a)),
            acc <= u32::MAX,
        decreases b - i,
    {
        let c = chars[i];
        proof {
            assert(sub.take(i - a + 1).drop_last() =~= sub.take(i - a));
            assert(sub.take(i - a + 1).last() == chars@[i as int]);
        }
        if !(c >= '0' && c <= '9') {
            proof {
                assert(!is_digit(sub[i - a]));
            }
            return None;
        }
        let d = (c as u32) - 48;
        acc = acc * 10 + (d as u64);
        if acc > u32::MAX as u64 {
            proof {
                if all_digits(sub) {
                    lemma_digits_val_grows(sub, i - a + 1);
                }
            }
            return None;
        }
        i = i + 1;
    }
    proof {
        assert(sub.take(b - a) =~= sub);
    }
    Some(acc as u32)
}

/// What `extract_minutes` yields on a `H[:MM]`-style string: a colon
/// splits hours from minutes, two or more colons mean no time at all, a
/// part that is not a plain number or a field out of range is an error.
/// An hour of 24 is the end-of-day mark and is legal only together with
/// zero minutes.
pub open spec fn spec_extract_minutes(s: Seq<char>) -> Result<Option<u32>, ()> {
    match find_char(s, ':') {
        None => match spec_parse_u32(s) {
            None => Err(()),
            Some(hs) => if hs > 24 {
                Err(())
            } else {
                Ok(Some((hs * 60) as u32))
            },
        },
        Some(i) => {
            if find_char(s.skip(i + 1), ':') is Some {
                Ok(None)
            } else {
                match (spec_parse_u32(s.take(i)), spec_parse_u32(s.skip(i + 1))) {
                    (Some(hs), Some(ms)) => if ms > 59 || hs > 24 || (hs == 24 && ms != 0) {
                        Err(())
                    } else {
                        Ok(Some((hs * 60 + ms) as u32))
                    },
                    _ => Err(()),
                }
            }
        },
    }
}

/// Reads a `H[:MM]` string as minutes since midnight: hours up to 24,
/// minutes up to 59, an hour of 24 only with zero minutes. Three or more
/// colon-separated parts yield `Ok(None)`; anything else that fails to
/// read is an error.
pub fn extract_minutes(text: &String) -> (r: Result<Option<u32>, ()>)
    ensures
        r == spec_extract_minutes(text@),
{
    let chars = to_chars(text.as_str());
    let n = chars.len();
    proof {
        assert(chars@.subrange(0, n as int) =~= chars@);
    }
    match find_in(&chars, 0, n, ':') {
        None => {
            match parse_u32_digits(&chars, 0, n) {
                None => Err(()),
                Some(hs) => if hs > 24 {
                    Err(())
                } else {
                    Ok(Some(hs * 60))
                },
            }
        },
        Some(i) => {
            proof {
                assert(chars@.subrange(i + 1, n as int) =~= chars@.skip(i + 1));
                assert(chars@.subrange(0, i as int) =~= chars@.take(i as int));
            }
            match find_in(&chars, i + 1, n, ':') {
                Some(_) => Ok(None),
                None => {
                    let hours = parse_u32_digits(&chars, 0, i);
                    let minutes = parse_u32_digits(&chars, i + 1, n);
                    match (hours, minutes) {
                        (Some(hs), Some(ms)) => if ms > 59 || hs > 24 || (hs == 24 && ms != 0) {
                            Err(())
                        } else {
                            Ok(Some(hs * 60 + ms))
                        },
                        _ => Err(()),
                    }
                },
            }
        },
    }
}

/// What `extract_time_range` yields: the label must end in a
/// parenthesized `<from>h-<to>h` pair of 24-hour literals, with minutes
/// up to 59 and hours up to 24.
pub open spec fn spec_extract_time_range(s: Seq<char>) -> Option<(u32, u32)> {
    match find_last_char(s, '(') {
        None => None,
        Some(i) => {
            if s.last() == ')' {
                spec_inner_range(s.subrange(i + 1, s.len() - 1))
            } else {
                None
            }
        },
    }
}

/// The `<from>h-<to>h` body between the parentheses: both endpoints
/// must be 24-hour literals that `value_24h` accepts.
pub open spec fn spec_inner_range(inner: Seq<char>) -> Option<(u32, u32)> {
    match find_char(inner, '-') {
        None => None,
        Some(k) => {
            let from = inner.take(k);
            let to = inner.skip(k + 1);
            if shape_24h(from) && shape_24h(to) {
                match (value_24h(from), value_24h(to)) {
                    (Some(a), Some(b)) => Some((a, b)),
                    _ => None,
                }
            } else {
                None
            }
        },
    }
}

/// The last `(` in `chars`, if any.
fn find_last_open(chars: &Vec<char>) -> (r: Option<usize>)
    ensures
        match r {
            None => find_last_char(chars@, '(') == None::<int>,
            Some(i) => i < chars@.len() && chars@[i as int] == '(' && find_last_char(
                chars@,
                '(',
            ) == Some(i as int),
        },
{
    let mut j: usize = chars.len();
    while j > 0
        invariant
            j <= chars@.len(),
            forall|k: int| j <= k < chars@.len() ==> chars@[k] != '(',
        decreases j,
    {
        if chars[j - 1] == '(' {
            proof {
                lemma_find_last_char_some(chars@, '(', j - 1);
            }
            return Some(j - 1);
        }
        j = j - 1;
    }
    proof {
        lemma_find_last_char_none(chars@, '(');
    }
    None
}

/// Reads `chars[a..b]` as a 24-hour literal endpoint of a label's range.
fn parse_range_end(chars: &Vec<char>, a: usize, b: usize) -> (r: Option<u32>)
    requires
        a <= b && b <= chars@.len(),
    ensures
        ({
            let sub = chars@.subrange(a as int, b as int);
            match r {
                Some(v) => shape_24h(sub) && value_24h(sub) == Some(v),
                None => !shape_24h(sub) || value_24h(sub) is None,
            }
        }),
{
    let ghost sub = chars@.subrange(a as int, b as int);
    if b - a < 2 || chars[b - 1] != 'h' {
        return None;
    }
    proof {
        assert(sub.last() == chars@[b - 1]);
        assert(sub.drop_last() =~= chars@.subrange(a as int, b - 1));
    }
    match parse_hm(chars, a, b - 1) {
        None => None,
        Some(p) => {
            if p.1 > 59 || p.0 > 24 || (p.0 == 24 && p.1 != 0) {
                None
            } else {
                Some(p.0 * 60 + p.1)
            }
        },
    }
}

/// Extracts the time range from a label that ends in a parenthesized
/// `<from>h-<to>h` pair of 24-hour literals, such as
/// `"Evening (18:30h-23h)"`.
pub fn extract_time_range(text: &String) -> (r: Option<(u32, u32)>)
    ensures
        r == spec_extract_time_range(text@),
{
    let chars = to_chars(text.as_str());
    let n = chars.len();
    let opened = match find_last_open(&chars) {
        None => {
            return None;
        },
        Some(i) => i,
    };
    if chars[n - 1] != ')' {
        return None;
    }
    proof {
        assert(chars@[opened as int] == '(');
        assert(opened != n - 1);
    }
    let ghost inner = chars@.subrange(opened + 1, n - 1);
    let dash = match find_in(&chars, opened + 1, n - 1, '-') {
        None => {
            return None;
        },
        Some(d) => d,
    };
    proof {
        assert(inner.take(dash - opened - 1) =~= chars@.subrange(opened + 1, dash as int));
        assert(inner.skip(dash - opened) =~= chars@.subrange(dash + 1, n - 1));
    }
    let from = parse_range_end(&chars, opened + 1, dash);
    let to = parse_range_end(&chars, dash + 1, n - 1);
    match (from, to) {
        (Some(a), Some(b)) => Some((a, b)),
        _ => None,
    }
}

/// The scene identity of an entry, as a sequence of characters.
pub open spec fn sid(s: ScheduledScene) -> Seq<char> {
    s.scene_id@
}

/// An entry covers a positive span of time.
pub open spec fn positive(s: ScheduledScene) -> bool {
    s.start < s.end
}

/// Entry `s` covers the time point `t`.
pub open spec fn covers(s: ScheduledScene, t: int) -> bool {
    s.start <= t < s.end
}

/// Entries whose span has positive width; the rest carry no time.
pub open spec fn keep_positive(l: Seq<ScheduledScene>) -> Seq<ScheduledScene>
    decreases l.len(),
{
    if l.len() == 0 {
        Seq::empty()
    } else {
        let rest = keep_positive(l.drop_last());
        if positive(l.last()) {
            rest.push(l.last())
        } else {
            rest
        }
    }
}

/// Insert `x` into `sorted` behind every entry whose start is at most
/// `x.start`, so that entries with equal starts keep their relative order.
pub open spec fn insert_by_start(sorted: Seq<ScheduledScene>, x: ScheduledScene) -> Seq<
    ScheduledScene,
>
    decreases sorted.len(),
{
    if sorted.len() == 0 {
        seq![x]
    } else if sorted.last().start <= x.start {
        sorted.push(x)
    } else {
        insert_by_start(sorted.drop_last(), x).push(sorted.last())
    }
}

/// Stable sort by ascending start.
pub open spec fn sort_by_start(l: Seq<ScheduledScene>) -> Seq<ScheduledScene>
    decreases l.len(),
{
    if l.len() == 0 {
        Seq::empty()
    } else {
        insert_by_start(sort_by_start(l.drop_last()), l.last())
    }
}

/// Starts are non-decreasing.
pub open spec fn sorted_by_start(l: Seq<ScheduledScene>) -> bool {
    forall|i: int, j: int| 0 <= i <= j < l.len() ==> l[i].start <= l[j].start
}

/// A time-ordered partition: every entry has positive width and ends no
/// later than its successor begins.
pub open spec fn partitioned(l: Seq<ScheduledScene>) -> bool {
    &&& forall|i: int| 0 <= i < l.len() ==> positive(#[trigger] l[i])
    &&& forall|i: int| 0 <= i < l.len() - 1 ==> #[trigger] l[i].end <= l[i + 1].start
}

/// One step of the sweep: resolve the next candidate (in start order)
/// against the top of the stack of still-open spans.
pub open spec fn sweep_step(
    stack: Seq<ScheduledScene>,
    out: Seq<ScheduledScene>,
    cur: ScheduledScene,
) -> (Seq<ScheduledScene>, Seq<ScheduledScene>) {
    if stack.len() == 0 {
        (seq![cur], out)
    } else {
        let top = stack.last();
        if cur.start >= top.end {
            // the top is fully resolved
            (stack.drop_last().push(cur), out.push(top))
        } else if cur.start <= top.start {
            // the newcomer cannot win the span the top covers
            (stack.push(cur), out)
        } else if sid(top) == sid(cur) {
            // same scene: shorten the top so the spans stay adjacent
            (
                stack.drop_last().push(
                    ScheduledScene { scene_id: top.scene_id, start: top.start, end: cur.start },
                ).push(cur),
                out,
            )
        } else {
            // the newcomer takes over from its start on
            (
                stack.push(cur),
                out.push(
                    ScheduledScene { scene_id: top.scene_id, start: top.start, end: cur.start },
                ),
            )
        }
    }
}

/// The sweep over all candidates in start order.
pub open spec fn sweep(
    stack: Seq<ScheduledScene>,
    out: Seq<ScheduledScene>,
    rest: Seq<ScheduledScene>,
) -> (Seq<ScheduledScene>, Seq<ScheduledScene>)
    decreases rest.len(),
{
    if rest.len() == 0 {
        (stack, out)
    } else {
        let next = sweep_step(stack, out, rest[0]);
        sweep(next.0, next.1, rest.skip(1))
    }
}

/// One step of the unwind: resolve a popped span against the last settled
/// entry, appending any residual trailing span.
pub open spec fn unwind_step(out: Seq<ScheduledScene>, top: ScheduledScene) -> Seq<
    ScheduledScene,
> {
    if out.len() == 0 {
        out.push(top)
    } else {
        let last = out.last();
        if top.start >= last.end {
            if sid(last) == sid(top) {
                out.drop_last().push(
                    ScheduledScene { scene_id: last.scene_id, start: last.start, end: top.end },
                )
            } else {
                out.push(top)
            }
        } else if top.end > last.end {
            if sid(last) == sid(top) {
                out.drop_last().push(
                    ScheduledScene { scene_id: last.scene_id, start: last.start, end: top.end },
                )
            } else {
                out.push(
                    ScheduledScene { scene_id: top.scene_id, start: last.end, end: top.end },
                )
            }
        } else {
            out
        }
    }
}

/// Unwind the stack of still-open spans, most recently pushed first.
pub open spec fn unwind(stack: Seq<ScheduledScene>, out: Seq<ScheduledScene>) -> Seq<
    ScheduledScene,
>
    decreases stack.len(),
{
    if stack.len() == 0 {
        out
    } else {
        unwind(stack.drop_last(), unwind_step(out, stack.last()))
    }
}

/// What `linearize_schedules` returns: drop widthless entries, sort by
/// start keeping encounter order among equal starts, sweep, then unwind.
pub open spec fn spec_linearize(l: Seq<ScheduledScene>) -> Seq<ScheduledScene> {
    let sorted = sort_by_start(keep_positive(l));
    let swept = sweep(Seq::empty(), Seq::empty(), sorted);
    unwind(swept.0, swept.1)
}

/// Every entry covers a positive span.
pub open spec fn all_positive(l: Seq<ScheduledScene>) -> bool {
    forall|i: int| 0 <= i < l.len() ==> positive(#[trigger] l[i])
}

proof fn lemma_keep_positive_all_positive(l: Seq<ScheduledScene>)
    ensures
        all_positive(keep_positive(l)),
    decreases l.len(),
{
    if l.len() > 0 {
        lemma_keep_positive_all_positive(l.drop_last());
    }
}

/// Inserting into a start-sorted list keeps it sorted and adds exactly the
/// new element.
proof fn lemma_insert_by_start_sorted(s: Seq<ScheduledScene>, x: ScheduledScene)
    requires
        sorted_by_start(s),
    ensures
        sorted_by_start(insert_by_start(s, x)),
        insert_by_start(s, x).len() == s.len() + 1,
        forall|k: int|
            0 <= k < insert_by_start(s, x).len() ==> (#[trigger] insert_by_start(s, x)[k] == x
                || s.contains(insert_by_start(s, x)[k])),
    decreases s.len(),
{
    if s.len() == 0 {
    } else if s.last().start <= x.start {
        assert forall|k: int| 0 <= k < s.push(x).len() implies (#[trigger] s.push(x)[k] == x
            || s.contains(s.push(x)[k])) by {
            if k < s.len() {
                assert(s.contains(s[k]));
            }
        }
    } else {
        lemma_insert_by_start_sorted(s.drop_last(), x);
        let r = insert_by_start(s.drop_last(), x).push(s.last());
        assert forall|k: int| 0 <= k < r.len() implies (#[trigger] r[k] == x || s.contains(
            r[k],
        )) by {
            if k < r.len() - 1 {
                let e = insert_by_start(s.drop_last(), x)[k];
                if e != x {
                    let m = choose|m: int|
                        0 <= m < s.drop_last().len() && s.drop_last()[m] == e;
                    assert(s[m] == e);
                }
            } else {
                assert(s.contains(s.last()));
            }
        }
        assert forall|i: int, j: int| 0 <= i <= j < r.len() implies r[i].start
            <= r[j].start by {
            if j == r.len() - 1 && i < j {
                let e = insert_by_start(s.drop_last(), x)[i];
                if e == x {
                } else {
                    let m = choose|m: int|
                        0 <= m < s.drop_last().len() && s.drop_last()[m] == e;
                    assert(s[m].start <= s.last().start);
                }
            }
        }
    }
}

proof fn lemma_sort_by_start_sorted(l: Seq<ScheduledScene>)
    requires
        all_positive(l),
    ensures
        sorted_by_start(sort_by_start(l)),
        all_positive(sort_by_start(l)),
    decreases l.len(),
{
    if l.len() > 0 {
        assert(all_positive(l.drop_last()));
        lemma_sort_by_start_sorted(l.drop_last());
        lemma_insert_by_start_sorted(sort_by_start(l.drop_last()), l.last());
        let r = insert_by_start(sort_by_start(l.drop_last()), l.last());
        assert forall|k: int| 0 <= k < r.len() implies positive(#[trigger] r[k]) by {
            if r[k] != l.last() {
                assert(sort_by_start(l.drop_last()).contains(r[k]));
            }
        }
    }
}

/// The sweep's running state: settled entries form a partition, every open
/// span is positive, the last settled entry ends before the top open span
/// begins, and all open spans start no later than any remaining candidate.
spec fn sweep_inv(
    stack: Seq<ScheduledScene>,
    out: Seq<ScheduledScene>,
    rest: Seq<ScheduledScene>,
) -> bool {
    &&& partitioned(out)
    &&& all_positive(stack)
    &&& sorted_by_start(rest)
    &&& all_positive(rest)
    &&& (forall|i: int, j: int|
        0 <= i < stack.len() && 0 <= j < rest.len() ==> #[trigger] stack[i].start
            <= #[trigger] rest[j].start)
    &&& (out.len() > 0 && stack.len() > 0 ==> out.last().end <= stack.last().start)
    &&& (stack.len() == 0 ==> out.len() == 0)
}

proof fn lemma_sweep_preserves(
    stack: Seq<ScheduledScene>,
    out: Seq<ScheduledScene>,
    rest: Seq<ScheduledScene>,
)
    requires
        sweep_inv(stack, out, rest),
    ensures
        partitioned(sweep(stack, out, rest).1),
        all_positive(sweep(stack, out, rest).0),
        sweep(stack, out, rest).1.len() > 0 && sweep(stack, out, rest).0.len() > 0 ==> sweep(
            stack,
            out,
            rest,
        ).1.last().end <= sweep(stack, out, rest).0.last().start,
    decreases rest.len(),
{
    if rest.len() > 0 {
        let cur = rest[0];
        let step = sweep_step(stack, out, cur);
        let rest2 = rest.skip(1);
        assert(forall|j: int| 0 <= j < rest2.len() ==> #[trigger] rest2[j] == rest[j + 1]);
        assert(sorted_by_start(rest2));
        assert(all_positive(rest2));
        if stack.len() == 0 {
            assert(sweep_inv(step.0, step.1, rest2));
        } else {
            let top = stack.last();
            assert(top.start <= cur.start);
            if cur.start >= top.end {
                assert(sweep_inv(step.0, step.1, rest2));
            } else if cur.start <= top.start {
                assert(sweep_inv(step.0, step.1, rest2));
            } else if sid(top) == sid(cur) {
                assert(sweep_inv(step.0, step.1, rest2));
            } else {
                assert(sweep_inv(step.0, step.1, rest2));
            }
        }
        lemma_sweep_preserves(step.0, step.1, rest2);
    }
}

proof fn lemma_unwind_step_preserves(out: Seq<ScheduledScene>, top: ScheduledScene)
    requires
        partitioned(out),
        positive(top),
    ensures
        partitioned(unwind_step(out, top)),
{
}

proof fn lemma_unwind_preserves(stack: Seq<ScheduledScene>, out: Seq<ScheduledScene>)
    requires
        partitioned(out),
        all_positive(stack),
    ensures
        partitioned(unwind(stack, out)),
    decreases stack.len(),
{
    if stack.len() > 0 {
        lemma_unwind_step_preserves(out, stack.last());
        assert(all_positive(stack.drop_last()));
        lemma_unwind_preserves(stack.drop_last(), unwind_step(out, stack.last()));
    }
}

/// Law: a linearized schedule is a partition of the covered time: every
/// entry has positive width, and each entry ends no later than the next
/// begins.
pub proof fn lemma_linearize_partitioned(l: Seq<ScheduledScene>)
    ensures
        partitioned(spec_linearize(l)),
{
    lemma_keep_positive_all_positive(l);
    lemma_sort_by_start_sorted(keep_positive(l));
    let sorted = sort_by_start(keep_positive(l));
    assert(sweep_inv(Seq::empty(), Seq::empty(), sorted));
    lemma_sweep_preserves(Seq::empty(), Seq::empty(), sorted);
    let swept = sweep(Seq::empty(), Seq::empty(), sorted);
    lemma_unwind_preserves(swept.0, swept.1);
}

/// In a partition, an earlier entry ends no later than a later one begins.
pub(crate) proof fn lemma_partitioned_ordered(l: Seq<ScheduledScene>, i: int, j: int)
    requires
        partitioned(l),
        0 <= i < j < l.len(),
    ensures
        l[i].end <= l[j].start,
    decreases j - i,
{
    if i + 1 < j {
        lemma_partitioned_ordered(l, i + 1, j);
    }
}

/// Law: at any time point, at most one entry of a linearized schedule is
/// active.
pub proof fn lemma_linearize_at_most_one(l: Seq<ScheduledScene>, t: int, i: int, j: int)
    requires
        0 <= i < spec_linearize(l).len(),
        0 <= j < spec_linearize(l).len(),
        covers(spec_linearize(l)[i], t),
        covers(spec_linearize(l)[j], t),
    ensures
        i == j,
{
    lemma_linearize_partitioned(l);
    if i < j {
        lemma_partitioned_ordered(spec_linearize(l), i, j);
    } else if j < i {
        lemma_partitioned_ordered(spec_linearize(l), j, i);
    }
}

/// `l` with its last two entries merged into one span, when they name the
/// same scene; otherwise `l` unchanged.
pub open spec fn merge_tail(l: Seq<ScheduledScene>) -> Seq<ScheduledScene> {
    if l.len() >= 2 && sid(l[l.len() - 2]) == sid(l.last()) {
        l.drop_last().drop_last().push(
            ScheduledScene {
                scene_id: l[l.len() - 2].scene_id,
                start: l[l.len() - 2].start,
                end: l.last().end,
            },
        )
    } else {
        l
    }
}

proof fn lemma_keep_positive_identity(l: Seq<ScheduledScene>)
    requires
        all_positive(l),
    ensures
        keep_positive(l) == l,
    decreases l.len(),
{
    if l.len() == 0 {
        assert(keep_positive(l) =~= l);
    } else {
        assert(all_positive(l.drop_last()));
        lemma_keep_positive_identity(l.drop_last());
        assert(keep_positive(l) =~= l);
    }
}

proof fn lemma_sort_by_start_identity(l: Seq<ScheduledScene>)
    requires
        sorted_by_start(l),
    ensures
        sort_by_start(l) == l,
    decreases l.len(),
{
    if l.len() == 0 {
        assert(sort_by_start(l) =~= l);
    } else {
        assert(sorted_by_start(l.drop_last()));
        lemma_sort_by_start_identity(l.drop_last());
        if l.len() == 1 {
            assert(insert_by_start(l.drop_last(), l.last()) =~= l);
        } else {
            assert(l.drop_last().last().start <= l.last().start);
            assert(insert_by_start(l.drop_last(), l.last()) =~= l);
        }
    }
}

proof fn lemma_partitioned_sorted(l: Seq<ScheduledScene>)
    requires
        partitioned(l),
    ensures
        sorted_by_start(l),
{
    assert forall|i: int, j: int| 0 <= i <= j < l.len() implies l[i].start <= l[j].start by {
        if i < j {
            lemma_partitioned_ordered(l, i, j);
        }
    }
}

/// Sweeping a list that is already a partition settles every entry but the
/// last, which stays open on the stack.
proof fn lemma_sweep_of_partition(l: Seq<ScheduledScene>, k: int)
    requires
        partitioned(l),
        0 <= k < l.len(),
    ensures
        sweep(seq![l[k]], l.take(k), l.skip(k + 1)) == (seq![l.last()], l.drop_last()),
    decreases l.len() - k,
{
    if k == l.len() - 1 {
        assert(l.skip(k + 1) =~= Seq::<ScheduledScene>::empty());
        assert(l.take(k) =~= l.drop_last());
    } else {
        let rest = l.skip(k + 1);
        assert(rest[0] == l[k + 1]);
        assert(l[k].end <= l[k + 1].start);
        let step = sweep_step(seq![l[k]], l.take(k), rest[0]);
        assert(step.0 =~= seq![l[k + 1]]);
        assert(step.1 =~= l.take(k + 1));
        assert(rest.skip(1) =~= l.skip(k + 2));
        lemma_sweep_of_partition(l, k + 1);
    }
}

/// Law: linearizing is idempotent up to entry merging. Feeding a
/// linearized schedule back in returns it unchanged, except that its two
/// final entries merge into one when they name the same scene.
pub proof fn lemma_linearize_idempotent(l: Seq<ScheduledScene>)
    ensures
        spec_linearize(spec_linearize(l)) == merge_tail(spec_linearize(l)),
{
    let y = spec_linearize(l);
    lemma_linearize_partitioned(l);
    lemma_partitioned_sorted(y);
    lemma_keep_positive_identity(y);
    lemma_sort_by_start_identity(y);
    if y.len() == 0 {
        assert(spec_linearize(y) =~= y);
    } else {
        let first = sweep_step(Seq::empty(), Seq::empty(), y[0]);
        assert(first.0 =~= seq![y[0]]);
        assert(first.1 =~= y.take(0));
        assert(y.skip(0).skip(1) =~= y.skip(1));
        assert(y.skip(0)[0] == y[0]);
        lemma_sweep_of_partition(y, 0);
        assert(sweep(Seq::empty(), Seq::empty(), y) == (seq![y.last()], y.drop_last()));
        let stepped = unwind_step(y.drop_last(), y.last());
        assert(spec_linearize(y) == unwind(seq![y.last()], y.drop_last()));
        assert(seq![y.last()].drop_last() =~= Seq::<ScheduledScene>::empty());
        assert(unwind(Seq::<ScheduledScene>::empty(), stepped) == stepped);
        assert(spec_linearize(y) == unwind(seq![y.last()].drop_last(), stepped));
        assert(spec_linearize(y) == stepped);
        if y.len() == 1 {
            assert(stepped =~= y);
        } else {
            let last2 = y.drop_last().last();
            assert(last2 == y[y.len() - 2]);
            assert(last2.end <= y.last().start);
            if sid(last2) == sid(y.last()) {
                assert(stepped =~= merge_tail(y));
            } else {
                assert(stepped =~= y);
            }
        }
    }
}

/// Inserting behind every entry with a start at most `x.start` is the same
/// as splicing `x` in at the first position `j` whose entry starts later.
proof fn lemma_insert_by_start_at(s: Seq<ScheduledScene>, x: ScheduledScene, j: int)
    requires
        0 <= j <= s.len(),
        forall|k: int| j <= k < s.len() ==> s[k].start > x.start,
        j > 0 ==> s[j - 1].start <= x.start,
    ensures
        insert_by_start(s, x) == s.take(j).push(x) + s.skip(j),
    decreases s.len(),
{
    if j == s.len() {
        if s.len() == 0 {
            assert(insert_by_start(s, x) =~= s.take(j).push(x) + s.skip(j));
        } else {
            assert(s.take(j).push(x) + s.skip(j) =~= s.push(x));
        }
    } else {
        assert(s[s.len() - 1].start > x.start);
        lemma_insert_by_start_at(s.drop_last(), x, j);
        assert(s.drop_last().take(j) =~= s.take(j));
        assert(s.drop_last().skip(j) =~= s.skip(j).drop_last());
        assert((s.take(j).push(x) + s.skip(j).drop_last()).push(s.last()) =~= s.take(j).push(x)
            + s.skip(j));
    }
}

/// Linearizes a collection of scene schedules into a time-ordered,
/// non-overlapping list. Later-starting schedules take priority over
/// earlier, broader ones for the span they share; adjacent spans of the
/// same scene are merged; entries without positive width are dropped.
pub fn linearize_schedules(list: Vec<ScheduledScene>) -> (r: Vec<ScheduledScene>)
    ensures
        r@ == spec_linearize(list@),
        partitioned(r@),
{
    proof {
        lemma_linearize_partitioned(list@);
    }
    // Drop entries that cover no time at all.
    let mut kept: Vec<ScheduledScene> = Vec::new();
    let mut i: usize = 0;
    while i < list.len()
        invariant
            i <= list.len(),
            kept@ == keep_positive(list@.take(i as int)),
        decreases list.len() - i,
    {
        proof {
            assert(list@.take(i + 1).drop_last() =~= list@.take(i as int));
            assert(list@.take(i + 1).last() == list@[i as int]);
        }
        if list[i].start < list[i].end {
            kept.push(list[i].clone());
        }
        i = i + 1;
    }
    proof {
        assert(list@.take(list@.len() as int) =~= list@);
    }

    // Stable insertion sort by ascending start.
    let mut sorted: Vec<ScheduledScene> = Vec::new();
    let mut i: usize = 0;
    while i < kept.len()
        invariant
            i <= kept.len(),
            sorted@ == sort_by_start(kept@.take(i as int)),
        decreases kept.len() - i,
    {
        let x = kept[i].clone();
        let mut j: usize = sorted.len();
        while j > 0 && sorted[j - 1].start > x.start
            invariant
                j <= sorted.len(),
                forall|k: int| j <= k < sorted@.len() ==> sorted@[k].start > x.start,
            decreases j,
        {
            j = j - 1;
        }
        proof {
            lemma_insert_by_start_at(sorted@, x, j as int);
            assert(kept@.take(i + 1).drop_last() =~= kept@.take(i as int));
            assert(kept@.take(i + 1).last() == kept@[i as int]);
            assert(sorted@.take(j as int).push(x) + sorted@.skip(j as int) =~= sorted@.insert(
                j as int,
                x,
            ));
        }
        sorted.insert(j, x);
        i = i + 1;
    }
    proof {
        assert(kept@.take(kept@.len() as int) =~= kept@);
    }

    let ghost target = sweep(Seq::empty(), Seq::empty(), sorted@);

    // Sweep: settle each candidate in start order against the stack of
    // still-open spans.
    let mut stack: Vec<ScheduledScene> = Vec::new();
    let mut out: Vec<ScheduledScene> = Vec::new();
    let mut i: usize = 0;
    proof {
        assert(sorted@.skip(0) =~= sorted@);
    }
    while i < sorted.len()
        invariant
            i <= sorted.len(),
            sweep(stack@, out@, sorted@.skip(i as int)) == target,
        decreases sorted.len() - i,
    {
        let ghost prev_stack = stack@;
        let ghost prev_out = out@;
        let cur = sorted[i].clone();
        proof {
            let step = sweep_step(prev_stack, prev_out, sorted@[i as int]);
            assert(sorted@.skip(i as int)[0] == sorted@[i as int]);
            assert(sorted@.skip(i as int).skip(1) =~= sorted@.skip(i + 1));
            assert(sweep(prev_stack, prev_out, sorted@.skip(i as int)) == sweep(
                step.0,
                step.1,
                sorted@.skip(i + 1),
            ));
        }
        if stack.len() == 0 {
            stack.push(cur);
        } else {
            let top_start = stack[stack.len() - 1].start;
            let top_end = stack[stack.len() - 1].end;
            if cur.start >= top_end {
                // the top is fully resolved
                let top = stack.pop().unwrap();
                out.push(top);
                stack.push(cur);
            } else if cur.start <= top_start {
                // the newcomer cannot win the span the top covers
                stack.push(cur);
            } else {
                let top = stack.pop().unwrap();
                if top.scene_id == cur.scene_id {
                    // same scene: shorten the top so the spans stay adjacent
                    let shortened = ScheduledScene {
                        scene_id: top.scene_id,
                        start: top.start,
                        end: cur.start,
                    };
                    stack.push(shortened);
                    stack.push(cur);
                } else {
                    // the newcomer takes over from its start on
                    let settled = ScheduledScene {
                        scene_id: top.scene_id.clone(),
                        start: top.start,
                        end: cur.start,
                    };
                    out.push(settled);
                    stack.push(top);
                    stack.push(cur);
                }
            }
        }
        proof {
            let step = sweep_step(prev_stack, prev_out, sorted@[i as int]);
            assert(stack@ =~= step.0);
            assert(out@ =~= step.1);
        }
        i = i + 1;
    }
    proof {
        assert(sorted@.skip(sorted@.len() as int) =~= Seq::<ScheduledScene>::empty());
        assert((stack@, out@) == target);
    }

    let ghost fin = unwind(target.0, target.1);

    // Unwind the remaining open spans, most recently pushed first.
    while stack.len() > 0
        invariant
            unwind(stack@, out@) == fin,
        decreases stack.len(),
    {
        let ghost prev_stack = stack@;
        let ghost prev_out = out@;
        let top = stack.pop().unwrap();
        if out.len() == 0 {
            out.push(top);
        } else {
            let last_end = out[out.len() - 1].end;
            if top.start >= last_end {
                let last = out.pop().unwrap();
                if last.scene_id == top.scene_id {
                    let merged = ScheduledScene {
                        scene_id: last.scene_id,
                        start: last.start,
                        end: top.end,
                    };
                    out.push(merged);
                } else {
                    out.push(last);
                    out.push(top);
                }
            } else if top.end > last_end {
                let last = out.pop().unwrap();
                if last.scene_id == top.scene_id {
                    let merged = ScheduledScene {
                        scene_id: last.scene_id,
                        start: last.start,
                        end: top.end,
                    };
                    out.push(merged);
                } else {
                    let trailing = ScheduledScene {
                        scene_id: top.scene_id,
                        start: last.end,
                        end: top.end,
                    };
                    out.push(last);
                    out.push(trailing);
                }
            }
            // otherwise the span is fully shadowed and dropped
        }
        proof {
            assert(stack@ =~= prev_stack.drop_last());
            assert(out@ =~= unwind_step(prev_out, prev_stack.last()));
        }
    }
    out
}

} // verus!
