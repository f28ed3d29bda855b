//! Wall-clock offsets given on the command line.
use vstd::prelude::*;
use crate::text::{chars_of, is_ws, parse_i64, parse_i64_spec, split_at_char, split_on};

verus! {

pub open spec fn trim_start(s: Seq<char>) -> Seq<char>
    decreases s.len(),
{
    if s.len() > 0 && is_ws(s[0]) {
        trim_start(s.drop_first())
    } else {
        s
    }
}

pub open spec fn trim_end(s: Seq<char>) -> Seq<char>
    decreases s.len(),
{
    if s.len() > 0 && is_ws(s.last()) {
        trim_end(s.drop_last())
    } else {
        s
    }
}

/// `s` without leading and trailing whitespace.
pub open spec fn trim(s: Seq<char>) -> Seq<char> {
    trim_end(trim_start(s))
}

pub open spec fn in_i64(v: int) -> bool {
    i64::MIN <= v <= i64::MAX
}

/// Seconds written as `HH:MM:SS`, `MM:SS` or `SS` (surrounding whitespace
/// and fields after the third ignored), in microseconds when that fits in an
/// `i64`.
pub open spec fn parse_time_spec(s: Seq<char>) -> Option<i64> {
    let parts = split_on(trim(s), ':');
    let secs: Option<int> = if parts.len() >= 3 {
        match (parse_i64_spec(parts[0]), parse_i64_spec(parts[1]), parse_i64_spec(parts[2])) {
            (Some(h), Some(m), Some(sec)) => Some(h * 3600 + m * 60 + sec),
            _ => None,
        }
    } else if parts.len() == 2 {
        match (parse_i64_spec(parts[0]), parse_i64_spec(parts[1])) {
            (Some(m), Some(sec)) => Some(m * 60 + sec),
            _ => None,
        }
    } else {
        match parse_i64_spec(trim(s)) {
            Some(sec) => Some(sec as int),
            None => None,
        }
    };
    match secs {
        Some(v) => if in_i64(v * 1_000_000) {
            Some((v * 1_000_000) as i64)
        } else {
            None
        },
        None => None,
    }
}

fn is_ws_exec(c: char) -> (r: bool)
    ensures
        r == is_ws(c),
{
    c == ' ' || ('\u{9}' <= c && c <= '\u{d}') || c == '\u{85}' || c == '\u{a0}' || c == '\u{1680}'
        || ('\u{2000}' <= c && c <= '\u{200a}') || c == '\u{2028}' || c == '\u{2029}' || c
        == '\u{202f}' || c == '\u{205f}' || c == '\u{3000}'
}

/// `s` without leading and trailing whitespace.
pub fn trim_chars(s: &Vec<char>) -> (r: Vec<char>)
    ensures
        r@ == trim(s@),
{
    let n = s.len();
    let mut a: usize = 0;
    assert(s@.subrange(0, n as int) == s@);
    while a < n && is_ws_exec(s[a])
        invariant
            n == s@.len(),
            a <= n,
            trim_start(s@) == trim_start(s@.subrange(a as int, n as int)),
        decreases n - a,
    {
        assert(s@.subrange(a as int, n as int).drop_first() =~= s@.subrange(a + 1, n as int));
        a = a + 1;
    }
    assert(trim_start(s@.subrange(a as int, n as int)) == s@.subrange(a as int, n as int));
    let mut b: usize = n;
    while b > a && is_ws_exec(s[b - 1])
        invariant
            n == s@.len(),
            a <= b <= n,
            trim(s@) == trim_end(s@.subrange(a as int, b as int)),
        decreases b,
    {
        assert(s@.subrange(a as int, b as int).drop_last() =~= s@.subrange(a as int, b - 1));
        b = b - 1;
    }
    let mut r: Vec<char> = Vec::new();
    let mut i: usize = a;
    while i < b
        invariant
            a <= i <= b <= n,
            n == s@.len(),
            r@ =~= s@.subrange(a as int, i as int),
        decreases b - i,
    {
        r.push(s[i]);
        i = i + 1;
    }
    r
}

fn field(parts: &Vec<Vec<char>>, i: usize) -> (r: Option<i64>)
    requires
        i < parts@.len(),
    ensures
        r == parse_i64_spec(parts@[i as int]@),
{
    parse_i64(&parts[i])
}

/// Reads a wall-clock offset (`HH:MM:SS`, `MM:SS` or `SS`) as microseconds.
pub fn parse_time(s: &str) -> (r: Option<i64>)
    ensures
        r == parse_time_spec(s@),
{
    let cs = chars_of(s);
    let trimmed = trim_chars(&cs);
    let parts = split_at_char(&trimmed, ':');
    let ghost pv = parts@.map_values(|w: Vec<char>| w@);
    assert(pv.len() == parts@.len());
    assert(forall|i: int| 0 <= i < pv.len() ==> #[trigger] pv[i] == parts@[i]@);
    let secs: Option<i128> = if parts.len() >= 3 {
        match (field(&parts, 0), field(&parts, 1), field(&parts, 2)) {
            (Some(h), Some(m), Some(sec)) => Some(h as i128 * 3600 + m as i128 * 60 + sec as i128),
            _ => None,
        }
    } else if parts.len() == 2 {
        match (field(&parts, 0), field(&parts, 1)) {
            (Some(m), Some(sec)) => Some(m as i128 * 60 + sec as i128),
            _ => None,
        }
    } else {
        match parse_i64(&trimmed) {
            Some(sec) => Some(sec as i128),
            None => None,
        }
    };
    match secs {
        Some(v) => {
            let us = v * 1_000_000;
            if i64::MIN as i128 <= us && us <= i64::MAX as i128 {
                Some(us as i64)
            } else {
                None
            }
        },
        None => None,
    }
}

} // verus!
