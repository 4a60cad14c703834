//! Lexical scanning: character classes, digit runs, and the values of
//! numeric literals, including the saturation policy for oversized numbers.

use vstd::arithmetic::div_mod::lemma_div_is_ordered;
use vstd::arithmetic::div_mod::lemma_fundamental_div_mod_converse;
use vstd::arithmetic::mul::lemma_mul_inequality;
use vstd::prelude::*;
use vstd::string::StrSliceExecFns;

verus! {

/// Is `c` an ASCII decimal digit?
pub open spec fn is_digit(c: char) -> bool {
    48 <= c as u32 <= 57
}

/// The value of an ASCII decimal digit.
pub open spec fn digit_val(c: char) -> int {
    c as u32 - 48
}

/// Is `c` an ASCII letter? Unit suffixes must be followed by a non-letter.
pub open spec fn is_ascii_letter(c: char) -> bool {
    (97 <= c as u32 <= 122) || (65 <= c as u32 <= 90)
}

/// Decide [`is_digit`] on a character.
pub fn check_digit(c: char) -> (r: bool)
    ensures
        r == is_digit(c),
{
    let u = c as u32;
    48 <= u && u <= 57
}

/// Decide [`is_ascii_letter`] on a character.
pub fn check_letter(c: char) -> (r: bool)
    ensures
        r == is_ascii_letter(c),
{
    let u = c as u32;
    (97 <= u && u <= 122) || (65 <= u && u <= 90)
}

/// Clamp a mathematical value from above to the `i64` maximum: the
/// saturation policy for oversized numeric literals.
pub open spec fn clamp_to_i64_max(v: int) -> int {
    if v > i64::MAX as int {
        i64::MAX as int
    } else {
        v
    }
}

/// Clamp a mathematical value from above to the `u64` maximum.
pub open spec fn clamp_to_u64_max(v: int) -> int {
    if v > u64::MAX as int {
        u64::MAX as int
    } else {
        v
    }
}

/// The first position at or after `i` that does not hold a digit.
pub open spec fn digit_run_end(s: Seq<char>, i: int) -> int
    recommends
        0 <= i <= s.len(),
    decreases s.len() - i when 0 <= i <= s.len()
{
    if i < s.len() && is_digit(s[i]) {
        digit_run_end(s, i + 1)
    } else {
        i
    }
}

pub proof fn lemma_digit_run_end_props(s: Seq<char>, i: int)
    requires
        0 <= i <= s.len(),
    ensures
        i <= digit_run_end(s, i) <= s.len(),
        forall|k: int| i <= k < digit_run_end(s, i) ==> is_digit(#[trigger] s[k]),
        digit_run_end(s, i) == s.len() || !is_digit(s[digit_run_end(s, i)]),
    decreases s.len() - i,
{
    if i < s.len() && is_digit(s[i]) {
        lemma_digit_run_end_props(s, i + 1);
    }
}

/// A run of digits from `i` to `j`, with `j` at the end of the text or at a
/// non-digit, is found exactly by `digit_run_end`.
pub proof fn lemma_digit_run_end_of_run(s: Seq<char>, i: int, j: int)
    requires
        0 <= i <= j <= s.len(),
        forall|k: int| i <= k < j ==> is_digit(#[trigger] s[k]),
        j == s.len() || !is_digit(s[j]),
    ensures
        digit_run_end(s, i) == j,
    decreases j - i,
{
    if i < j {
        assert(is_digit(s[i]));
        lemma_digit_run_end_of_run(s, i + 1, j);
    }
}

/// The value of the decimal digits in `s[i .. j)`, most significant first.
pub open spec fn digits_val(s: Seq<char>, i: int, j: int) -> int
    recommends
        0 <= i <= j <= s.len(),
    decreases j - i when i <= j
{
    if i >= j {
        0
    } else {
        digits_val(s, i, j - 1) * 10 + digit_val(s[j - 1])
    }
}

pub proof fn lemma_digits_val_nonneg(s: Seq<char>, i: int, j: int)
    requires
        0 <= i <= j <= s.len(),
        forall|k: int| i <= k < j ==> is_digit(#[trigger] s[k]),
    ensures
        digits_val(s, i, j) >= 0,
    decreases j - i,
{
    if i < j {
        lemma_digits_val_nonneg(s, i, j - 1);
    }
}

/// The contribution, in scale units, of the fractional digits `s[i .. j)`
/// of a literal scaled by `m` units per whole: the floor of the fraction
/// `0.(digits)` times `m`, computed digit by digit.
pub open spec fn frac_scaled(s: Seq<char>, i: int, j: int, m: int) -> int
    recommends
        0 <= i <= j <= s.len(),
        m >= 1,
    decreases j - i when i <= j
{
    if i >= j {
        0
    } else {
        (digit_val(s[i]) * m + frac_scaled(s, i + 1, j, m)) / 10
    }
}

pub proof fn lemma_frac_scaled_bounds(s: Seq<char>, i: int, j: int, m: int)
    requires
        0 <= i <= j <= s.len(),
        m >= 1,
        forall|k: int| i <= k < j ==> is_digit(#[trigger] s[k]),
    ensures
        0 <= frac_scaled(s, i, j, m) <= m - 1,
    decreases j - i,
{
    if i < j {
        lemma_frac_scaled_bounds(s, i + 1, j, m);
        let d = digit_val(s[i]);
        let r = frac_scaled(s, i + 1, j, m);
        assert(is_digit(s[i]));
        assert(0 <= d <= 9);
        lemma_mul_inequality(d, 9, m);
        lemma_mul_inequality(0, d, m);
        lemma_div_is_ordered(0, d * m + r, 10);
        lemma_div_is_ordered(d * m + r, 10 * m - 1, 10);
        lemma_fundamental_div_mod_converse(10 * m - 1, 10, m - 1, 9);
    }
}

/// The boundary required after most unit suffixes: the end of the text or
/// any character that is not an ASCII letter.
pub open spec fn end_boundary(s: Seq<char>, q: int) -> bool {
    q >= s.len() || !is_ascii_letter(s[q])
}

/// Does a numeric literal (one or more digits) start at `i`?
pub open spec fn has_number(s: Seq<char>, i: int) -> bool {
    digit_run_end(s, i) > i
}

/// The first position after the numeric literal starting at `i`: the
/// integer digits, then optionally a dot and any fractional digits.
pub open spec fn number_token_end(s: Seq<char>, i: int) -> int {
    let j = digit_run_end(s, i);
    if j < s.len() && s[j] == '.' {
        digit_run_end(s, j + 1)
    } else {
        j
    }
}

/// The value of the numeric literal at `i`, scaled by `m` units per whole
/// and clamped to the `i64` maximum: used for duration terms, where `m` is
/// the number of milliseconds in one unit.
pub open spec fn number_scaled_val(s: Seq<char>, i: int, m: int) -> int {
    let j = digit_run_end(s, i);
    let frac = if j < s.len() && s[j] == '.' {
        frac_scaled(s, j + 1, digit_run_end(s, j + 1), m)
    } else {
        0
    };
    clamp_to_i64_max(digits_val(s, i, j) * m + frac)
}

/// The value of the numeric literal at `i` read as whole units with the
/// fraction truncated, clamped to the `i64` maximum: used for timestamps.
pub open spec fn number_whole_val(s: Seq<char>, i: int) -> int {
    clamp_to_i64_max(digits_val(s, i, digit_run_end(s, i)))
}

/// Scan the digit run starting at `start`; the value saturates at the `u64`
/// maximum once the digits exceed it.
pub fn scan_digits(s: &str, n: usize, start: usize) -> (r: (usize, u64))
    requires
        n == s@.len(),
        start <= n,
    ensures
        r.0 == digit_run_end(s@, start as int),
        r.1 as int == clamp_to_u64_max(digits_val(s@, start as int, digit_run_end(s@, start as int))),
{
    let mut i: usize = start;
    let mut v: u64 = 0;
    proof {
        lemma_digit_run_end_props(s@, start as int);
    }
    loop
        invariant
            n == s@.len(),
            start <= i <= n,
            forall|k: int| start <= k < i ==> is_digit(#[trigger] s@[k]),
            digit_run_end(s@, start as int) == digit_run_end(s@, i as int),
            v as int == clamp_to_u64_max(digits_val(s@, start as int, i as int)),
        decreases n - i,
    {
        if i >= n {
            proof {
                lemma_digits_val_nonneg(s@, start as int, i as int);
            }
            return (i, v);
        }
        let c = s.get_char(i);
        let u = c as u32;
        if !(48 <= u && u <= 57) {
            assert(digit_run_end(s@, i as int) == i as int);
            return (i, v);
        }
        let d: u64 = (u - 48) as u64;
        proof {
            lemma_digits_val_nonneg(s@, start as int, i as int);
            assert(digits_val(s@, start as int, i as int + 1) == digits_val(
                s@,
                start as int,
                i as int,
            ) * 10 + digit_val(s@[i as int]));
        }
        let next = match v.checked_mul(10) {
            Some(x) => match x.checked_add(d) {
                Some(y) => y,
                None => u64::MAX,
            },
            None => u64::MAX,
        };
        v = next;
        i = i + 1;
    }
}

/// Scan the numeric literal at `start` as a duration of `m` milliseconds
/// per unit; `None` when no digit stands at `start`.
pub fn scan_number_scaled(s: &str, n: usize, start: usize, m: u64) -> (r: Option<(i64, usize)>)
    requires
        n == s@.len(),
        start <= n,
        1 <= m <= 86400000,
    ensures
        match r {
            Some(v) => has_number(s@, start as int) && v.0 as int == number_scaled_val(
                s@,
                start as int,
                m as int,
            ) && v.0 >= 0 && v.1 == number_token_end(s@, start as int) && start < v.1 <= n,
            None => !has_number(s@, start as int),
        },
{
    let (iend, iv) = scan_digits(s, n, start);
    if iend == start {
        return None;
    }
    proof {
        lemma_digit_run_end_props(s@, start as int);
        lemma_digits_val_nonneg(s@, start as int, iend as int);
    }
    let ghost frac_spec: int = if iend < n && s@[iend as int] == '.' {
        frac_scaled(s@, iend as int + 1, digit_run_end(s@, iend as int + 1), m as int)
    } else {
        0
    };
    let (fv, tok_end) = if iend < n && s.get_char(iend) == '.' {
        let (fend, _) = scan_digits(s, n, iend + 1);
        proof {
            lemma_digit_run_end_props(s@, iend as int + 1);
        }
        let mut k: usize = fend;
        let mut fv: u64 = 0;
        while k > iend + 1
            invariant
                n == s@.len(),
                start < iend < n,
                iend + 1 <= k <= fend <= n,
                fend == digit_run_end(s@, iend as int + 1),
                forall|t: int| iend + 1 <= t < fend ==> is_digit(#[trigger] s@[t]),
                1 <= m <= 86400000,
                fv as int == frac_scaled(s@, k as int, fend as int, m as int),
                fv <= m - 1,
            decreases k,
        {
            let c = s.get_char(k - 1);
            let u = c as u32;
            assert(is_digit(s@[k as int - 1]));
            let d: u64 = (u - 48) as u64;
            proof {
                lemma_mul_inequality(d as int, 9, m as int);
                lemma_mul_inequality(0, d as int, m as int);
            }
            let x: u64 = d * m + fv;
            fv = x / 10;
            proof {
                assert(frac_scaled(s@, k as int - 1, fend as int, m as int) == (digit_val(
                    s@[k as int - 1],
                ) * m + frac_scaled(s@, k as int, fend as int, m as int)) / 10);
                lemma_frac_scaled_bounds(s@, k as int - 1, fend as int, m as int);
            }
            k = k - 1;
        }
        (fv, fend)
    } else {
        (0u64, iend)
    };
    assert(fv as int == frac_spec);
    assert(fv <= m - 1);
    proof {
        lemma_mul_inequality(iv as int, u64::MAX as int, m as int);
        lemma_mul_inequality(m as int, 86400000, u64::MAX as int);
        vstd::arithmetic::mul::lemma_mul_is_commutative(u64::MAX as int, m as int);
    }
    let total: u128 = (iv as u128) * (m as u128) + (fv as u128);
    let v: i64 = if total > i64::MAX as u128 {
        i64::MAX
    } else {
        total as i64
    };
    proof {
        let iv_true = digits_val(s@, start as int, iend as int);
        if iv_true > u64::MAX as int {
            assert(iv == u64::MAX);
            lemma_mul_inequality(1, m as int, iv as int);
            vstd::arithmetic::mul::lemma_mul_is_commutative(m as int, iv as int);
            lemma_mul_inequality(1, m as int, iv_true);
            vstd::arithmetic::mul::lemma_mul_is_commutative(m as int, iv_true);
            assert(total as int >= iv as int);
            assert(iv_true * (m as int) >= iv_true);
        } else {
            assert(iv as int == iv_true);
        }
    }
    Some((v, tok_end))
}

/// Scan the numeric literal at `start` as a whole-unit value with the
/// fraction truncated; `None` when no digit stands at `start`.
pub fn scan_number_whole(s: &str, n: usize, start: usize) -> (r: Option<(i64, usize)>)
    requires
        n == s@.len(),
        start <= n,
    ensures
        match r {
            Some(v) => has_number(s@, start as int) && v.0 as int == number_whole_val(
                s@,
                start as int,
            ) && v.0 >= 0 && v.1 == number_token_end(s@, start as int) && start < v.1 <= n,
            None => !has_number(s@, start as int),
        },
{
    let (iend, iv) = scan_digits(s, n, start);
    if iend == start {
        return None;
    }
    proof {
        lemma_digit_run_end_props(s@, start as int);
        lemma_digits_val_nonneg(s@, start as int, iend as int);
    }
    let v: i64 = if iv > i64::MAX as u64 {
        i64::MAX
    } else {
        iv as i64
    };
    let tok_end = if iend < n && s.get_char(iend) == '.' {
        let (fend, _) = scan_digits(s, n, iend + 1);
        proof {
            lemma_digit_run_end_props(s@, iend as int + 1);
        }
        fend
    } else {
        iend
    };
    Some((v, tok_end))
}

} // verus!
