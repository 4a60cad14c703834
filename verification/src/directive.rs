//! The standalone offset directive: a line of the exact shape `#UTC+N` or
//! `#UTC-N`, surrounding whitespace ignored, with `N` of one or two digits
//! and at most 23. It is recognized only when the expression grammar has
//! rejected the line, and is not composable inside larger expressions.

use crate::scan::digits_val;
use crate::scan::is_digit;
use crate::scan::lemma_digit_run_end_of_run;
use crate::scan::lemma_digit_run_end_props;
use crate::scan::scan_digits;
use vstd::prelude::*;
use vstd::string::StrSliceExecFns;

verus! {

/// The whitespace characters ignored around a directive.
pub open spec fn is_space_char(c: char) -> bool {
    c == ' ' || c == '\t' || c == '\n' || c == '\r' || c == '\u{b}' || c == '\u{c}'
}

/// The first position at or after `i` that does not hold whitespace.
pub open spec fn trim_from(s: Seq<char>, i: int) -> int
    recommends
        0 <= i <= s.len(),
    decreases s.len() - i when 0 <= i <= s.len()
{
    if i < s.len() && is_space_char(s[i]) {
        trim_from(s, i + 1)
    } else {
        i
    }
}

/// The position after the last non-whitespace character before `j`.
pub open spec fn trim_until(s: Seq<char>, j: int) -> int
    recommends
        0 <= j <= s.len(),
    decreases j when 0 <= j
{
    if j > 0 && is_space_char(s[j - 1]) {
        trim_until(s, j - 1)
    } else {
        j
    }
}

pub proof fn lemma_trim_from_props(s: Seq<char>, i: int)
    requires
        0 <= i <= s.len(),
    ensures
        i <= trim_from(s, i) <= s.len(),
        trim_from(s, i) == s.len() || !is_space_char(s[trim_from(s, i)]),
    decreases s.len() - i,
{
    if i < s.len() && is_space_char(s[i]) {
        lemma_trim_from_props(s, i + 1);
    }
}

pub proof fn lemma_trim_until_props(s: Seq<char>, j: int)
    requires
        0 <= j <= s.len(),
    ensures
        0 <= trim_until(s, j) <= j,
        forall|k: int| trim_until(s, j) <= k < j ==> is_space_char(#[trigger] s[k]),
    decreases j,
{
    if j > 0 && is_space_char(s[j - 1]) {
        lemma_trim_until_props(s, j - 1);
    }
}

/// The hours declared by the line, when, after trimming whitespace, it has
/// the exact shape `#UTC`, a sign, and one or two digits valued at most 23.
pub open spec fn directive_hours(s: Seq<char>) -> Option<int> {
    let a = trim_from(s, 0);
    let b = trim_until(s, s.len() as int);
    if a + 5 <= b && b <= s.len() && s[a] == '#' && s[a + 1] == 'U' && s[a + 2] == 'T' && s[a + 3]
        == 'C' && (s[a + 4] == '+' || s[a + 4] == '-') && 1 <= b - (a + 5) <= 2 && (forall|k: int|
        a + 5 <= k < b ==> is_digit(#[trigger] s[k])) {
        let v = digits_val(s, a + 5, b);
        if v <= 23 {
            Some(
                if s[a + 4] == '+' {
                    v
                } else {
                    -v
                },
            )
        } else {
            None
        }
    } else {
        None
    }
}

/// A recognized directive always declares between -23 and 23 hours.
pub proof fn lemma_directive_hours_bounded(s: Seq<char>)
    ensures
        directive_hours(s) matches Some(h) ==> -23 <= h <= 23,
{
    lemma_trim_from_props(s, 0);
    lemma_trim_until_props(s, s.len() as int);
    let a = trim_from(s, 0);
    let b = trim_until(s, s.len() as int);
    if directive_hours(s) is Some {
        crate::scan::lemma_digits_val_nonneg(s, a + 5, b);
    }
}

/// Read a line as an offset directive: exactly [`directive_hours`].
/// Malformed directives are `None`, never an error.
pub fn parse_offset_directive(s: &str) -> (r: Option<i32>)
    ensures
        match r {
            Some(h) => directive_hours(s@) == Some(h as int) && -23 <= h <= 23,
            None => directive_hours(s@) is None,
        },
{
    let n = s.unicode_len();
    proof {
        lemma_trim_from_props(s@, 0);
        lemma_trim_until_props(s@, n as int);
    }
    let mut a: usize = 0;
    loop
        invariant
            n == s@.len(),
            a <= n,
            trim_from(s@, 0) == trim_from(s@, a as int),
        ensures
            a <= n,
            a as int == trim_from(s@, 0),
        decreases n - a,
    {
        if a >= n {
            break ;
        }
        let c = s.get_char(a);
        if !(c == ' ' || c == '\t' || c == '\n' || c == '\r' || c == '\u{b}' || c == '\u{c}') {
            break ;
        }
        a = a + 1;
    }
    let mut b: usize = n;
    loop
        invariant
            n == s@.len(),
            b <= n,
            trim_until(s@, n as int) == trim_until(s@, b as int),
        ensures
            b <= n,
            b as int == trim_until(s@, n as int),
        decreases b,
    {
        if b == 0 {
            break ;
        }
        let c = s.get_char(b - 1);
        if !(c == ' ' || c == '\t' || c == '\n' || c == '\r' || c == '\u{b}' || c == '\u{c}') {
            break ;
        }
        b = b - 1;
    }
    assert(a as int == trim_from(s@, 0));
    assert(b as int == trim_until(s@, n as int));
    if b < 5 || a > b - 5 {
        return None;
    }
    if !(s.get_char(a) == '#' && s.get_char(a + 1) == 'U' && s.get_char(a + 2) == 'T' && s.get_char(
        a + 3,
    ) == 'C') {
        return None;
    }
    let sign = s.get_char(a + 4);
    if !(sign == '+' || sign == '-') {
        return None;
    }
    let width = b - (a + 5);
    if width < 1 || width > 2 {
        return None;
    }
    let (j, v) = scan_digits(s, n, a + 5);
    proof {
        lemma_digit_run_end_props(s@, a as int + 5);
    }
    if j != b {
        proof {
            assert(!(forall|k: int| a + 5 <= k < b ==> is_digit(#[trigger] s@[k]))) by {
                if forall|k: int| a + 5 <= k < b ==> is_digit(#[trigger] s@[k]) {
                    assert(b == n || !is_digit(s@[b as int]));
                    lemma_digit_run_end_of_run(s@, a as int + 5, b as int);
                }
            }
        }
        return None;
    }
    proof {
        assert(digits_val(s@, a as int + 5, a as int + 5) == 0);
        assert(digits_val(s@, a as int + 5, a as int + 6) == crate::scan::digit_val(
            s@[a as int + 5],
        ));
        if width == 2 {
            assert(digits_val(s@, a as int + 5, a as int + 7) == digits_val(
                s@,
                a as int + 5,
                a as int + 6,
            ) * 10 + crate::scan::digit_val(s@[a as int + 6]));
        }
        assert(0 <= digits_val(s@, a as int + 5, b as int) <= 99);
    }
    if v <= 23 {
        let h = v as i32;
        if sign == '+' {
            Some(h)
        } else {
            Some(-h)
        }
    } else {
        None
    }
}

} // verus!
