//! Time-expression parsing: turns free text such as `"Evening (18:23h-sunset)"`
//! into minute-of-day ranges.
//!
//! A label holds zero or more parenthesized groups of comma-separated
//! segments of the form `<from>-<to>`. Each endpoint is tried as a 24-hour
//! literal (`H[:MM]h`), then as a 12-hour literal (`H[:MM]AM`/`PM`), then as
//! a variable defined beforehand (for example `sunrise`). Malformed segments
//! are dropped, never failing the label as a whole.

use vstd::prelude::*;
use vstd::string::StrSliceExecFns;

verus! {

/// A time range in minutes since midnight: start, then end. The range is
/// half-open; a range whose start lies after its end wraps past midnight.
pub type TimeRange = (u32, u32);

/// Resolves textual time ranges against a table of named variables.
pub struct TimeRangeParser {
    variables: Vec<(String, u32)>,
}

pub open spec fn is_digit(c: char) -> bool {
    '0' <= c && c <= '9'
}

pub open spec fn digit_val(c: char) -> int {
    c as int - '0' as int
}

/// The shape `H`, `HH`, `H:MM` or `HH:MM`, digits only.
pub open spec fn hm_shape(s: Seq<char>) -> bool {
    ||| (s.len() == 1 && is_digit(s[0]))
    ||| (s.len() == 2 && is_digit(s[0]) && is_digit(s[1]))
    ||| (s.len() == 4 && is_digit(s[0]) && s[1] == ':' && is_digit(s[2]) && is_digit(s[3]))
    ||| (s.len() == 5 && is_digit(s[0]) && is_digit(s[1]) && s[2] == ':' && is_digit(s[3])
        && is_digit(s[4]))
}

/// The hour field of a well-shaped `H[H][:MM]` literal.
pub open spec fn hm_hours(s: Seq<char>) -> int {
    if s.len() == 1 || s.len() == 4 {
        digit_val(s[0])
    } else {
        10 * digit_val(s[0]) + digit_val(s[1])
    }
}

/// The minute field of a well-shaped `H[H][:MM]` literal; zero when absent.
pub open spec fn hm_minutes(s: Seq<char>) -> int {
    if s.len() <= 2 {
        0
    } else if s.len() == 4 {
        10 * digit_val(s[2]) + digit_val(s[3])
    } else {
        10 * digit_val(s[3]) + digit_val(s[4])
    }
}

/// A 24-hour literal: `H[:MM]h`.
pub open spec fn shape_24h(s: Seq<char>) -> bool {
    s.len() >= 2 && s.last() == 'h' && hm_shape(s.drop_last())
}

/// The minute-of-day value of a 24-hour literal. Minutes above 59 and hours
/// above 24 are rejected; an hour of 24 is the end-of-day mark and is
/// accepted only together with zero minutes, and is not reduced modulo a
/// day.
pub open spec fn value_24h(s: Seq<char>) -> Option<u32> {
    let hs = hm_hours(s.drop_last());
    let ms = hm_minutes(s.drop_last());
    if ms > 59 || hs > 24 || (hs == 24 && ms != 0) {
        None
    } else {
        Some((hs * 60 + ms) as u32)
    }
}

/// A 12-hour literal: `H[:MM]AM` or `H[:MM]PM`.
pub open spec fn shape_12h(s: Seq<char>) -> bool {
    s.len() >= 3 && (s[s.len() - 2] == 'A' || s[s.len() - 2] == 'P') && s.last() == 'M'
        && hm_shape(s.take(s.len() - 2))
}

/// The minute-of-day value of a 12-hour literal, converted with the usual
/// rules: `12AM` is midnight and `12PM` is noon.
pub open spec fn value_12h(s: Seq<char>) -> Option<u32> {
    let body = s.take(s.len() - 2);
    let hs = hm_hours(body);
    let ms = hm_minutes(body);
    let raw = hs * 60 + ms;
    if ms > 59 || hs > 12 {
        None
    } else if s[s.len() - 2] == 'A' && raw >= 720 {
        Some((raw - 720) as u32)
    } else if s[s.len() - 2] == 'P' && raw < 720 {
        Some((raw + 720) as u32)
    } else {
        Some(raw as u32)
    }
}

/// The variable table as it figures in contracts: name and value pairs, in
/// definition order.
pub open spec fn vars_of(variables: Seq<(String, u32)>) -> Seq<(Seq<char>, u32)> {
    variables.map_values(|p: (String, u32)| (p.0@, p.1))
}

/// Looks a name up in the variable table; the latest definition wins.
pub open spec fn vars_lookup(vars: Seq<(Seq<char>, u32)>, name: Seq<char>) -> Option<u32>
    decreases vars.len(),
{
    if vars.len() == 0 {
        None
    } else if vars.last().0 == name {
        Some(vars.last().1)
    } else {
        vars_lookup(vars.drop_last(), name)
    }
}

/// Resolves one segment endpoint: a 24-hour literal, else a 12-hour
/// literal, else a variable. A literal of the right shape but with an
/// out-of-range field fails the endpoint without falling back to the
/// variable table.
pub open spec fn spec_segment(vars: Seq<(Seq<char>, u32)>, s: Seq<char>) -> Option<u32> {
    if shape_24h(s) {
        value_24h(s)
    } else if shape_12h(s) {
        value_12h(s)
    } else {
        vars_lookup(vars, s)
    }
}

/// The index of the first occurrence of `c` in `s`.
pub open spec fn find_char(s: Seq<char>, c: char) -> Option<int>
    decreases s.len(),
{
    if s.len() == 0 {
        None
    } else if s[0] == c {
        Some(0)
    } else {
        match find_char(s.skip(1), c) {
            None => None,
            Some(i) => Some(i + 1),
        }
    }
}

pub(crate) proof fn lemma_find_char_some(s: Seq<char>, c: char, i: int)
    requires
        0 <= i < s.len(),
        s[i] == c,
        forall|k: int| 0 <= k < i ==> s[k] != c,
    ensures
        find_char(s, c) == Some(i),
    decreases i,
{
    if i > 0 {
        assert(forall|k: int| 0 <= k < i - 1 ==> s.skip(1)[k] == s[k + 1]);
        lemma_find_char_some(s.skip(1), c, i - 1);
    }
}

pub(crate) proof fn lemma_find_char_none(s: Seq<char>, c: char)
    requires
        forall|k: int| 0 <= k < s.len() ==> s[k] != c,
    ensures
        find_char(s, c) == None::<int>,
    decreases s.len(),
{
    if s.len() > 0 {
        assert(forall|k: int| 0 <= k < s.len() - 1 ==> s.skip(1)[k] == s[k + 1]);
        lemma_find_char_none(s.skip(1), c);
    }
}

/// Whitespace as far as trimming is concerned.
pub open spec fn is_space(c: char) -> bool {
    c == ' ' || c == '\t' || c == '\n' || c == '\r'
}

pub open spec fn trim_start(s: Seq<char>) -> Seq<char>
    decreases s.len(),
{
    if s.len() > 0 && is_space(s[0]) {
        trim_start(s.skip(1))
    } else {
        s
    }
}

pub open spec fn trim_end(s: Seq<char>) -> Seq<char>
    decreases s.len(),
{
    if s.len() > 0 && is_space(s.last()) {
        trim_end(s.drop_last())
    } else {
        s
    }
}

/// `s` with leading and trailing whitespace removed.
pub open spec fn spec_trim(s: Seq<char>) -> Seq<char> {
    trim_end(trim_start(s))
}

/// The comma-separated pieces of `s`, appended to a piece `acc` already
/// begun; there is always at least one piece.
pub open spec fn split_commas(s: Seq<char>, acc: Seq<char>) -> Seq<Seq<char>>
    decreases s.len(),
{
    if s.len() == 0 {
        seq![acc]
    } else if s[0] == ',' {
        seq![acc] + split_commas(s.skip(1), Seq::empty())
    } else {
        split_commas(s.skip(1), acc.push(s[0]))
    }
}

/// The contents of every parenthesized group in `s`, in order. A group
/// runs from a `(` to the nearest `)` after it; a `(` never closed yields
/// no group.
pub open spec fn spec_groups(s: Seq<char>) -> Seq<Seq<char>>
    decreases s.len(),
{
    if s.len() == 0 {
        Seq::empty()
    } else if s[0] == '(' {
        groups_inside(s.skip(1), Seq::empty())
    } else {
        spec_groups(s.skip(1))
    }
}

/// Collects the rest of a group already opened, `acc` holding what came
/// before, then scans on past its closing `)`.
pub open spec fn groups_inside(s: Seq<char>, acc: Seq<char>) -> Seq<Seq<char>>
    decreases s.len(),
{
    if s.len() == 0 {
        Seq::empty()
    } else if s[0] == ')' {
        seq![acc] + spec_groups(s.skip(1))
    } else {
        groups_inside(s.skip(1), acc.push(s[0]))
    }
}

/// Resolves one `<from>-<to>` segment: the text is split at its first `-`
/// and both endpoints must resolve.
pub open spec fn spec_range(vars: Seq<(Seq<char>, u32)>, s: Seq<char>) -> Option<TimeRange> {
    match find_char(s, '-') {
        None => None,
        Some(i) => match (spec_segment(vars, s.take(i)), spec_segment(vars, s.skip(i + 1))) {
            (Some(a), Some(b)) => Some((a, b)),
            _ => None,
        },
    }
}

/// The ranges parsed from a group's pieces, each trimmed first; pieces
/// that fail to resolve are dropped.
pub open spec fn ranges_of_pieces(vars: Seq<(Seq<char>, u32)>, pieces: Seq<Seq<char>>) -> Seq<
    TimeRange,
>
    decreases pieces.len(),
{
    if pieces.len() == 0 {
        Seq::empty()
    } else {
        let rest = ranges_of_pieces(vars, pieces.skip(1));
        match spec_range(vars, spec_trim(pieces[0])) {
            Some(r) => seq![r] + rest,
            None => rest,
        }
    }
}

/// How many of a group's pieces fail to resolve and are dropped.
pub open spec fn skipped_of_pieces(vars: Seq<(Seq<char>, u32)>, pieces: Seq<Seq<char>>) -> int
    decreases pieces.len(),
{
    if pieces.len() == 0 {
        0
    } else {
        let rest = skipped_of_pieces(vars, pieces.skip(1));
        match spec_range(vars, spec_trim(pieces[0])) {
            Some(r) => rest,
            None => rest + 1,
        }
    }
}

pub open spec fn ranges_of_groups(vars: Seq<(Seq<char>, u32)>, groups: Seq<Seq<char>>) -> Seq<
    TimeRange,
>
    decreases groups.len(),
{
    if groups.len() == 0 {
        Seq::empty()
    } else {
        ranges_of_pieces(vars, split_commas(groups[0], Seq::empty())) + ranges_of_groups(
            vars,
            groups.skip(1),
        )
    }
}

pub open spec fn skipped_of_groups(vars: Seq<(Seq<char>, u32)>, groups: Seq<Seq<char>>) -> int
    decreases groups.len(),
{
    if groups.len() == 0 {
        0
    } else {
        skipped_of_pieces(vars, split_commas(groups[0], Seq::empty())) + skipped_of_groups(
            vars,
            groups.skip(1),
        )
    }
}

/// Every range parsed from `s`: each parenthesized group contributes the
/// ranges of its comma-separated segments, in order.
pub open spec fn spec_ranges(vars: Seq<(Seq<char>, u32)>, s: Seq<char>) -> Seq<TimeRange> {
    ranges_of_groups(vars, spec_groups(s))
}

/// How many segments across all groups of `s` are dropped as malformed.
pub open spec fn spec_skipped(vars: Seq<(Seq<char>, u32)>, s: Seq<char>) -> int {
    skipped_of_groups(vars, spec_groups(s))
}

/// Whether `range` covers minute-of-day `value`. Ranges are half-open:
/// `start` is inside, `end` is not. A range whose start lies at or after
/// its end wraps past midnight, except that a zero-width range covers
/// nothing at all.
pub open spec fn spec_matches(range: TimeRange, value: u32) -> bool {
    if range.0 == range.1 {
        false
    } else if range.0 < range.1 {
        range.0 <= value && value < range.1
    } else {
        value >= range.0 || value < range.1
    }
}

/// The characters of `text`, one by one.
pub(crate) fn to_chars(text: &str) -> (r: Vec<char>)
    ensures
        r@ == text@,
        r@.len() <= usize::MAX,
{
    let n: usize = text.unicode_len();
    let mut r: Vec<char> = Vec::new();
    let mut i: usize = 0;
    while i < n
        invariant
            i <= n,
            n == text@.len(),
            r@ == text@.take(i as int),
        decreases n - i,
    {
        let c = text.get_char(i);
        r.push(c);
        proof {
            assert(text@.take(i + 1) =~= text@.take(i as int).push(text@[i as int]));
        }
        i = i + 1;
    }
    proof {
        assert(text@.take(n as int) =~= text@);
    }
    r
}

/// The first occurrence of `c` in `chars[a..b]`, if any.
pub(crate) fn find_in(chars: &Vec<char>, a: usize, b: usize, c: char) -> (r: Option<usize>)
    requires
        a <= b && b <= chars@.len(),
    ensures
        match r {
            None => find_char(chars@.subrange(a as int, b as int), c) == None::<int>,
            Some(j) => a <= j < b && chars@[j as int] == c && find_char(
                chars@.subrange(a as int, b as int),
                c,
            ) == Some(j - a),
        },
{
    let mut i: usize = a;
    while i < b
        invariant
            a <= i <= b,
            b <= chars@.len(),
            forall|k: int| a <= k < i ==> chars@[k] != c,
        decreases b - i,
    {
        if chars[i] == c {
            proof {
                lemma_find_char_some(chars@.subrange(a as int, b as int), c, i - a);
            }
            return Some(i);
        }
        i = i + 1;
    }
    proof {
        lemma_find_char_none(chars@.subrange(a as int, b as int), c);
    }
    None
}

fn is_digit_char(c: char) -> (r: bool)
    ensures
        r == is_digit(c),
{
    c >= '0' && c <= '9'
}

fn digit_value(c: char) -> (r: u32)
    requires
        is_digit(c),
    ensures
        r as int == digit_val(c),
        r <= 9,
{
    (c as u32) - 48
}

/// Parses `chars[a..b]` as an `H[H][:MM]` literal, returning hours and
/// minutes.
pub(crate) fn parse_hm(chars: &Vec<char>, a: usize, b: usize) -> (r: Option<(u32, u32)>)
    requires
        a <= b && b <= chars@.len(),
    ensures
        ({
            let sub = chars@.subrange(a as int, b as int);
            match r {
                Some(p) => hm_shape(sub) && p.0 as int == hm_hours(sub) && p.1 as int
                    == hm_minutes(sub) && p.0 <= 99 && p.1 <= 99,
                None => !hm_shape(sub),
            }
        }),
{
    let n = b - a;
    if n == 1 {
        if is_digit_char(chars[a]) {
            Some((digit_value(chars[a]), 0))
        } else {
            None
        }
    } else if n == 2 {
        if is_digit_char(chars[a]) && is_digit_char(chars[a + 1]) {
            Some((10 * digit_value(chars[a]) + digit_value(chars[a + 1]), 0))
        } else {
            None
        }
    } else if n == 4 {
        if is_digit_char(chars[a]) && chars[a + 1] == ':' && is_digit_char(chars[a + 2])
            && is_digit_char(chars[a + 3]) {
            Some((digit_value(chars[a]), 10 * digit_value(chars[a + 2]) + digit_value(
                chars[a + 3],
            )))
        } else {
            None
        }
    } else if n == 5 {
        if is_digit_char(chars[a]) && is_digit_char(chars[a + 1]) && chars[a + 2] == ':'
            && is_digit_char(chars[a + 3]) && is_digit_char(chars[a + 4]) {
            Some((10 * digit_value(chars[a]) + digit_value(chars[a + 1]), 10 * digit_value(
                chars[a + 3],
            ) + digit_value(chars[a + 4])))
        } else {
            None
        }
    } else {
        None
    }
}

fn is_space_char(c: char) -> (r: bool)
    ensures
        r == is_space(c),
{
    c == ' ' || c == '\t' || c == '\n' || c == '\r'
}

/// The bounds of `chars[a..b]` with leading and trailing whitespace
/// removed.
fn trim_bounds(chars: &Vec<char>, a: usize, b: usize) -> (r: (usize, usize))
    requires
        a <= b && b <= chars@.len(),
    ensures
        a <= r.0 && r.0 <= r.1 && r.1 <= b,
        chars@.subrange(r.0 as int, r.1 as int) == spec_trim(
            chars@.subrange(a as int, b as int),
        ),
{
    let mut lo: usize = a;
    while lo < b && is_space_char(chars[lo])
        invariant
            a <= lo <= b,
            b <= chars@.len(),
            trim_start(chars@.subrange(a as int, b as int)) == trim_start(
                chars@.subrange(lo as int, b as int),
            ),
        decreases b - lo,
    {
        proof {
            assert(chars@.subrange(lo as int, b as int).skip(1) =~= chars@.subrange(
                lo + 1,
                b as int,
            ));
        }
        lo = lo + 1;
    }
    let mut hi: usize = b;
    while hi > lo && is_space_char(chars[hi - 1])
        invariant
            lo <= hi <= b,
            b <= chars@.len(),
            trim_end(chars@.subrange(lo as int, b as int)) == trim_end(
                chars@.subrange(lo as int, hi as int),
            ),
        decreases hi,
    {
        proof {
            assert(chars@.subrange(lo as int, hi as int).drop_last() =~= chars@.subrange(
                lo as int,
                hi - 1,
            ));
        }
        hi = hi - 1;
    }
    (lo, hi)
}

/// The bounds of every parenthesized group in `chars`.
fn scan_groups(chars: &Vec<char>) -> (r: Vec<(usize, usize)>)
    ensures
        forall|k: int|
            0 <= k < r@.len() ==> (#[trigger] r@[k]).0 <= r@[k].1 && r@[k].1 <= chars@.len(),
        spec_groups(chars@) == r@.map_values(
            |p: (usize, usize)| chars@.subrange(p.0 as int, p.1 as int),
        ),
{
    let ghost gf = |p: (usize, usize)| chars@.subrange(p.0 as int, p.1 as int);
    let ghost target = spec_groups(chars@);
    let mut out: Vec<(usize, usize)> = Vec::new();
    let mut inside: bool = false;
    let mut start: usize = 0;
    let mut i: usize = 0;
    let n = chars.len();
    proof {
        assert(chars@.skip(0) =~= chars@);
        assert(out@.map_values(gf) =~= Seq::<Seq<char>>::empty());
    }
    while i < n
        invariant
            i <= n,
            n == chars@.len(),
            inside ==> start <= i,
            forall|k: int|
                0 <= k < out@.len() ==> (#[trigger] out@[k]).0 <= out@[k].1 && out@[k].1
                    <= chars@.len(),
            target == out@.map_values(gf) + (if inside {
                groups_inside(chars@.skip(i as int), chars@.subrange(start as int, i as int))
            } else {
                spec_groups(chars@.skip(i as int))
            }),
            gf == (|p: (usize, usize)| chars@.subrange(p.0 as int, p.1 as int)),
        decreases n - i,
    {
        proof {
            assert(chars@.skip(i as int)[0] == chars@[i as int]);
            assert(chars@.skip(i as int).skip(1) =~= chars@.skip(i + 1));
        }
        let c = chars[i];
        if inside {
            if c == ')' {
                proof {
                    assert(out@.push((start, i)).map_values(gf) =~= out@.map_values(gf).push(
                        chars@.subrange(start as int, i as int),
                    ));
                    assert(out@.map_values(gf) + (seq![
                        chars@.subrange(start as int, i as int),
                    ] + spec_groups(chars@.skip(i + 1))) =~= out@.push((start, i)).map_values(
                        gf,
                    ) + spec_groups(chars@.skip(i + 1)));
                }
                out.push((start, i));
                inside = false;
            } else {
                proof {
                    assert(chars@.subrange(start as int, i as int).push(chars@[i as int])
                        =~= chars@.subrange(start as int, i + 1));
                }
            }
        } else {
            if c == '(' {
                inside = true;
                start = i + 1;
                proof {
                    assert(chars@.subrange(i + 1, i + 1) =~= Seq::<char>::empty());
                }
            }
        }
        i = i + 1;
    }
    proof {
        assert(chars@.skip(n as int) =~= Seq::<char>::empty());
        assert(target =~= out@.map_values(gf));
    }
    out
}

/// The bounds of the comma-separated pieces of `chars[ga..gb]`; there is
/// always at least one piece.
fn scan_split(chars: &Vec<char>, ga: usize, gb: usize) -> (r: Vec<(usize, usize)>)
    requires
        ga <= gb && gb <= chars@.len(),
    ensures
        forall|k: int|
            0 <= k < r@.len() ==> ga <= (#[trigger] r@[k]).0 && r@[k].0 <= r@[k].1 && r@[k].1
                <= gb,
        split_commas(chars@.subrange(ga as int, gb as int), Seq::empty()) == r@.map_values(
            |p: (usize, usize)| chars@.subrange(p.0 as int, p.1 as int),
        ),
{
    let ghost pf = |p: (usize, usize)| chars@.subrange(p.0 as int, p.1 as int);
    let ghost target = split_commas(chars@.subrange(ga as int, gb as int), Seq::empty());
    let mut out: Vec<(usize, usize)> = Vec::new();
    let mut start: usize = ga;
    let mut i: usize = ga;
    proof {
        assert(out@.map_values(pf) =~= Seq::<Seq<char>>::empty());
        assert(chars@.subrange(ga as int, ga as int) =~= Seq::<char>::empty());
    }
    while i < gb
        invariant
            ga <= start <= i <= gb,
            gb <= chars@.len(),
            forall|k: int|
                0 <= k < out@.len() ==> ga <= (#[trigger] out@[k]).0 && out@[k].0 <= out@[k].1
                    && out@[k].1 <= gb,
            target == out@.map_values(pf) + split_commas(
                chars@.subrange(i as int, gb as int),
                chars@.subrange(start as int, i as int),
            ),
            pf == (|p: (usize, usize)| chars@.subrange(p.0 as int, p.1 as int)),
        decreases gb - i,
    {
        proof {
            assert(chars@.subrange(i as int, gb as int)[0] == chars@[i as int]);
            assert(chars@.subrange(i as int, gb as int).skip(1) =~= chars@.subrange(
                i + 1,
                gb as int,
            ));
        }
        let c = chars[i];
        if c == ',' {
            proof {
                assert(out@.push((start, i)).map_values(pf) =~= out@.map_values(pf).push(
                    chars@.subrange(start as int, i as int),
                ));
                assert(out@.map_values(pf) + (seq![chars@.subrange(start as int, i as int)]
                    + split_commas(chars@.subrange(i + 1, gb as int), Seq::empty())) =~= out@.push(
                    (start, i),
                ).map_values(pf) + split_commas(
                    chars@.subrange(i + 1, gb as int),
                    Seq::empty(),
                ));
                assert(chars@.subrange(i + 1, i + 1) =~= Seq::<char>::empty());
            }
            out.push((start, i));
            start = i + 1;
        } else {
            proof {
                assert(chars@.subrange(start as int, i as int).push(chars@[i as int])
                    =~= chars@.subrange(start as int, i + 1));
            }
        }
        i = i + 1;
    }
    proof {
        assert(chars@.subrange(gb as int, gb as int) =~= Seq::<char>::empty());
        assert(out@.push((start, gb)).map_values(pf) =~= out@.map_values(pf).push(
            chars@.subrange(start as int, gb as int),
        ));
        assert(target =~= out@.push((start, gb)).map_values(pf));
    }
    out.push((start, gb));
    out
}

proof fn lemma_skipped_of_pieces_nonneg(vars: Seq<(Seq<char>, u32)>, pieces: Seq<Seq<char>>)
    ensures
        0 <= skipped_of_pieces(vars, pieces) <= pieces.len(),
    decreases pieces.len(),
{
    if pieces.len() > 0 {
        lemma_skipped_of_pieces_nonneg(vars, pieces.skip(1));
    }
}

proof fn lemma_skipped_of_groups_nonneg(vars: Seq<(Seq<char>, u32)>, groups: Seq<Seq<char>>)
    ensures
        skipped_of_groups(vars, groups) >= 0,
    decreases groups.len(),
{
    if groups.len() > 0 {
        lemma_skipped_of_pieces_nonneg(vars, split_commas(groups[0], Seq::empty()));
        lemma_skipped_of_groups_nonneg(vars, groups.skip(1));
    }
}

proof fn lemma_split_commas_count(s: Seq<char>, acc: Seq<char>)
    ensures
        1 <= split_commas(s, acc).len() <= s.len() + 1,
    decreases s.len(),
{
    if s.len() > 0 {
        if s[0] == ',' {
            lemma_split_commas_count(s.skip(1), Seq::empty());
        } else {
            lemma_split_commas_count(s.skip(1), acc.push(s[0]));
        }
    }
}

proof fn lemma_skipped_of_groups_bound(vars: Seq<(Seq<char>, u32)>, s: Seq<char>)
    ensures
        0 <= skipped_of_groups(vars, spec_groups(s)) <= s.len(),
    decreases s.len(), 1int,
{
    if s.len() > 0 {
        if s[0] == '(' {
            lemma_skipped_inside_bound(vars, s.skip(1), Seq::empty());
        } else {
            lemma_skipped_of_groups_bound(vars, s.skip(1));
        }
    }
}

proof fn lemma_skipped_inside_bound(
    vars: Seq<(Seq<char>, u32)>,
    s: Seq<char>,
    acc: Seq<char>,
)
    ensures
        0 <= skipped_of_groups(vars, groups_inside(s, acc)) <= s.len() + acc.len(),
    decreases s.len(), 0int,
{
    if s.len() > 0 {
        if s[0] == ')' {
            let g = seq![acc] + spec_groups(s.skip(1));
            assert(g[0] == acc);
            assert(g.skip(1) =~= spec_groups(s.skip(1)));
            lemma_split_commas_count(acc, Seq::empty());
            lemma_skipped_of_pieces_nonneg(vars, split_commas(acc, Seq::empty()));
            lemma_skipped_of_groups_bound(vars, s.skip(1));
        } else {
            lemma_skipped_inside_bound(vars, s.skip(1), acc.push(s[0]));
        }
    }
}

/// Compares a string against `chars[a..b]`.
fn str_eq_chars(s: &String, chars: &Vec<char>, a: usize, b: usize) -> (r: bool)
    requires
        a <= b && b <= chars@.len(),
    ensures
        r == (s@ == chars@.subrange(a as int, b as int)),
{
    let n: usize = s.as_str().unicode_len();
    if n != b - a {
        return false;
    }
    let mut i: usize = 0;
    while i < n
        invariant
            i <= n,
            n == s@.len(),
            n == b - a,
            a <= b <= chars@.len(),
            forall|k: int| 0 <= k < i ==> s@[k] == chars@[a + k],
        decreases n - i,
    {
        if s.as_str().get_char(i) != chars[a + i] {
            return false;
        }
        i = i + 1;
    }
    proof {
        assert(s@ =~= chars@.subrange(a as int, b as int));
    }
    true
}

/// The first of the ranges that covers minute-of-day `now`.
pub open spec fn first_active(ranges: Seq<TimeRange>, now: u32) -> Option<TimeRange>
    decreases ranges.len(),
{
    if ranges.len() == 0 {
        None
    } else if spec_matches(ranges[0], now) {
        Some(ranges[0])
    } else {
        first_active(ranges.skip(1), now)
    }
}

impl TimeRangeParser {
    /// The variable table this parser resolves names against.
    pub closed spec fn vars(&self) -> Seq<(Seq<char>, u32)> {
        vars_of(self.variables@)
    }

    pub fn new() -> (r: TimeRangeParser)
        ensures
            r.vars() == Seq::<(Seq<char>, u32)>::empty(),
    {
        let parser = TimeRangeParser { variables: Vec::new() };
        proof {
            assert(parser.vars() =~= Seq::<(Seq<char>, u32)>::empty());
        }
        parser
    }

    /// Defines the variables that segment endpoints may name; replaces any
    /// table defined before.
    pub fn define_variables(&mut self, variables: Vec<(String, u32)>)
        ensures
            final (self).vars() == vars_of(variables@),
    {
        self.variables = variables;
    }

    /// Looks `chars[a..b]` up in the variable table; the latest
    /// definition of a name wins.
    fn lookup_variable(&self, chars: &Vec<char>, a: usize, b: usize) -> (r: Option<u32>)
        requires
            a <= b && b <= chars@.len(),
        ensures
            r == vars_lookup(self.vars(), chars@.subrange(a as int, b as int)),
    {
        let ghost name = chars@.subrange(a as int, b as int);
        proof {
            assert(self.vars().take(self.variables@.len() as int) =~= self.vars());
        }
        let mut j: usize = self.variables.len();
        while j > 0
            invariant
                j <= self.variables@.len(),
                a <= b && b <= chars@.len(),
                name == chars@.subrange(a as int, b as int),
                vars_lookup(self.vars(), name) == vars_lookup(
                    self.vars().take(j as int),
                    name,
                ),
            decreases j,
        {
            proof {
                assert(self.vars().take(j as int).last() == self.vars()[j - 1]);
                assert(self.vars().take(j as int).drop_last() =~= self.vars().take(j - 1));
            }
            if str_eq_chars(&self.variables[j - 1].0, chars, a, b) {
                return Some(self.variables[j - 1].1);
            }
            j = j - 1;
        }
        proof {
            assert(self.vars().take(0) =~= Seq::<(Seq<char>, u32)>::empty());
        }
        None
    }

    /// Resolves the endpoint `chars[a..b]`: a 24-hour literal, else a
    /// 12-hour literal, else a variable.
    fn parse_segment(&self, chars: &Vec<char>, a: usize, b: usize) -> (r: Option<u32>)
        requires
            a <= b && b <= chars@.len(),
        ensures
            r == spec_segment(self.vars(), chars@.subrange(a as int, b as int)),
    {
        let ghost sub = chars@.subrange(a as int, b as int);
        let n = b - a;
        if n >= 2 && chars[b - 1] == 'h' {
            proof {
                assert(sub.last() == chars@[b - 1]);
                assert(sub.drop_last() =~= chars@.subrange(a as int, b - 1));
            }
            match parse_hm(chars, a, b - 1) {
                Some(p) => {
                    if p.1 > 59 || p.0 > 24 || (p.0 == 24 && p.1 != 0) {
                        return None;
                    }
                    return Some(p.0 * 60 + p.1);
                },
                None => {
                    return self.lookup_variable(chars, a, b);
                },
            }
        }
        if n >= 3 && chars[b - 1] == 'M' && (chars[b - 2] == 'A' || chars[b - 2] == 'P') {
            proof {
                assert(sub.last() == chars@[b - 1]);
                assert(sub[sub.len() - 2] == chars@[b - 2]);
                assert(sub.take(sub.len() - 2) =~= chars@.subrange(a as int, b - 2));
            }
            match parse_hm(chars, a, b - 2) {
                Some(p) => {
                    if p.1 > 59 || p.0 > 12 {
                        return None;
                    }
                    let raw = p.0 * 60 + p.1;
                    if chars[b - 2] == 'A' && raw >= 720 {
                        return Some(raw - 720);
                    }
                    if chars[b - 2] == 'P' && raw < 720 {
                        return Some(raw + 720);
                    }
                    return Some(raw);
                },
                None => {
                    return self.lookup_variable(chars, a, b);
                },
            }
        }
        self.lookup_variable(chars, a, b)
    }

    /// Extracts one time range from a `<from>-<to>` segment: the text is
    /// split at its first `-`, and both endpoints must resolve.
    pub fn extract_time_range(&self, text: &str) -> (r: Option<TimeRange>)
        ensures
            r == spec_range(self.vars(), text@),
    {
        let chars = to_chars(text);
        let n = chars.len();
        proof {
            assert(chars@.subrange(0, n as int) =~= chars@);
        }
        match find_in(&chars, 0, n, '-') {
            None => None,
            Some(i) => {
                proof {
                    assert(chars@.subrange(0, i as int) =~= chars@.take(i as int));
                    assert(chars@.subrange(i + 1, n as int) =~= chars@.skip(i + 1));
                }
                let from = self.parse_segment(&chars, 0, i);
                let to = self.parse_segment(&chars, i + 1, n);
                match (from, to) {
                    (Some(a), Some(b)) => Some((a, b)),
                    _ => None,
                }
            },
        }
    }

    /// Extracts every time range named in a label, and counts the
    /// segments that were dropped as malformed. Each parenthesized group
    /// contributes its comma-separated segments in order; a label without
    /// a group yields nothing.
    pub fn extract_time_ranges_counted(&self, text: &str) -> (r: (Vec<TimeRange>, usize))
        ensures
            r.0@ == spec_ranges(self.vars(), text@),
            r.1 as int == spec_skipped(self.vars(), text@),
    {
        let ghost vars = self.vars();
        let chars = to_chars(text);
        let groups = scan_groups(&chars);
        let ghost gf = |p: (usize, usize)| chars@.subrange(p.0 as int, p.1 as int);
        let ghost gseq = spec_groups(chars@);
        proof {
            lemma_skipped_of_groups_bound(vars, chars@);
            assert(gseq.skip(0) =~= gseq);
        }
        let mut out: Vec<TimeRange> = Vec::new();
        let mut skipped: usize = 0;
        let mut gi: usize = 0;
        while gi < groups.len()
            invariant
                gi <= groups@.len(),
                gseq == groups@.map_values(gf),
                gf == (|p: (usize, usize)| chars@.subrange(p.0 as int, p.1 as int)),
                forall|k: int|
                    0 <= k < groups@.len() ==> (#[trigger] groups@[k]).0 <= groups@[k].1
                        && groups@[k].1 <= chars@.len(),
                spec_ranges(vars, chars@) == out@ + ranges_of_groups(
                    vars,
                    gseq.skip(gi as int),
                ),
                spec_skipped(vars, chars@) == skipped as int + skipped_of_groups(
                    vars,
                    gseq.skip(gi as int),
                ),
                spec_skipped(vars, chars@) <= chars@.len(),
                chars@.len() <= usize::MAX,
                vars == self.vars(),
            decreases groups@.len() - gi,
        {
            let (ga, gb) = (groups[gi].0, groups[gi].1);
            let ghost group = chars@.subrange(ga as int, gb as int);
            proof {
                assert(gseq.skip(gi as int)[0] == gseq[gi as int]);
                assert(gseq[gi as int] == gf(groups@[gi as int]));
                assert(gseq.skip(gi as int).skip(1) =~= gseq.skip(gi + 1));
            }
            let pieces = scan_split(&chars, ga, gb);
            let ghost pf = |p: (usize, usize)| chars@.subrange(p.0 as int, p.1 as int);
            let ghost pseq = split_commas(group, Seq::empty());
            let mut pi: usize = 0;
            proof {
                assert(pseq.skip(0) =~= pseq);
            }
            while pi < pieces.len()
                invariant
                    pi <= pieces@.len(),
                    pseq == pieces@.map_values(pf),
                    pf == (|p: (usize, usize)| chars@.subrange(p.0 as int, p.1 as int)),
                    forall|k: int|
                        0 <= k < pieces@.len() ==> (#[trigger] pieces@[k]).0 <= pieces@[k].1
                            && pieces@[k].1 <= chars@.len(),
                    spec_ranges(vars, chars@) == out@ + ranges_of_pieces(
                        vars,
                        pseq.skip(pi as int),
                    ) + ranges_of_groups(vars, gseq.skip(gi + 1)),
                    spec_skipped(vars, chars@) == skipped as int + skipped_of_pieces(
                        vars,
                        pseq.skip(pi as int),
                    ) + skipped_of_groups(vars, gseq.skip(gi + 1)),
                    spec_skipped(vars, chars@) <= chars@.len(),
                    chars@.len() <= usize::MAX,
                    vars == self.vars(),
                decreases pieces@.len() - pi,
            {
                let (pa, pb) = (pieces[pi].0, pieces[pi].1);
                proof {
                    assert(pseq.skip(pi as int)[0] == pseq[pi as int]);
                    assert(pseq[pi as int] == pf(pieces@[pi as int]));
                    assert(pseq.skip(pi as int).skip(1) =~= pseq.skip(pi + 1));
                }
                let ghost piece = chars@.subrange(pa as int, pb as int);
                let (ta, tb) = trim_bounds(&chars, pa, pb);
                let ghost trimmed = chars@.subrange(ta as int, tb as int);
                let parsed: Option<TimeRange> = match find_in(&chars, ta, tb, '-') {
                    None => None,
                    Some(d) => {
                        proof {
                            assert(trimmed.take(d - ta) =~= chars@.subrange(
                                ta as int,
                                d as int,
                            ));
                            assert(trimmed.skip(d - ta + 1) =~= chars@.subrange(
                                d + 1,
                                tb as int,
                            ));
                        }
                        let from = self.parse_segment(&chars, ta, d);
                        let to = self.parse_segment(&chars, d + 1, tb);
                        match (from, to) {
                            (Some(a), Some(b)) => Some((a, b)),
                            _ => None,
                        }
                    },
                };
                proof {
                    assert(parsed == spec_range(vars, spec_trim(piece)));
                }
                match parsed {
                    Some(range) => {
                        proof {
                            assert(out@ + (seq![range] + ranges_of_pieces(
                                vars,
                                pseq.skip(pi + 1),
                            )) =~= out@.push(range) + ranges_of_pieces(vars, pseq.skip(pi + 1)));
                        }
                        out.push(range);
                    },
                    None => {
                        proof {
                            lemma_skipped_of_pieces_nonneg(vars, pseq.skip(pi + 1));
                            lemma_skipped_of_groups_nonneg(vars, gseq.skip(gi + 1));
                        }
                        skipped = skipped + 1;
                    },
                }
                pi = pi + 1;
            }
            proof {
                assert(pseq.skip(pieces@.len() as int) =~= Seq::<Seq<char>>::empty());
            }
            gi = gi + 1;
        }
        proof {
            assert(gseq.skip(groups@.len() as int) =~= Seq::<Seq<char>>::empty());
            assert(out@ + Seq::<TimeRange>::empty() =~= out@);
        }
        (out, skipped)
    }

    /// Extracts every time range named in a label; segments that fail to
    /// resolve are dropped without failing the label.
    pub fn extract_time_ranges(&self, text: &str) -> (r: Vec<TimeRange>)
        ensures
            r@ == spec_ranges(self.vars(), text@),
    {
        let (ranges, _skipped) = self.extract_time_ranges_counted(text);
        ranges
    }

    /// Checks whether a minute-of-day value falls in a time range.
    pub fn matches_time_range(&self, range: &TimeRange, value: u32) -> (r: bool)
        ensures
            r == spec_matches(*range, value),
    {
        if range.0 == range.1 {
            false
        } else if range.0 < range.1 {
            value >= range.0 && value < range.1
        } else {
            value >= range.0 || value < range.1
        }
    }
}

} // verus!
