//! The expression grammar: a recursive-descent parser for one line of
//! text, mirrored exactly by specification functions that define the
//! accepted language and its values.
//!
//! Precedence, lowest to highest: additive `+` and `-`, left-associative,
//! with spaces permitted around the operators; then the atoms, tried in
//! order: a parenthesized sub-expression, a run of duration terms, a
//! numeric or quoted date-time or `now` timestamp literal, and a `#N`
//! back-reference.

use crate::calendar::civil_expr;
use crate::calendar::resolve_civil;
use crate::expr::fits_i64;
use crate::expr::spec_add;
use crate::expr::spec_sub;
use crate::expr::Duration;
use crate::expr::ExprModel;
use crate::expr::Expression;
use crate::scan::check_digit;
use crate::scan::check_letter;
use crate::scan::clamp_to_u64_max;
use crate::scan::digit_run_end;
use crate::scan::digits_val;
use crate::scan::end_boundary;
use crate::scan::has_number;
use crate::scan::is_digit;
use crate::scan::number_scaled_val;
use crate::scan::number_token_end;
use crate::scan::number_whole_val;
use crate::scan::scan_digits;
use crate::scan::scan_number_scaled;
use crate::scan::scan_number_whole;
use vstd::prelude::*;
use vstd::string::StrSliceExecFns;

verus! {

/// The evaluation context of one line: the active UTC offset in whole
/// hours, the "now" instant, and the previously resolved expressions.
pub struct StateModel {
    pub offset: int,
    pub now: int,
    pub records: Seq<ExprModel>,
}

/// The per-line evaluation state handed to the grammar: the offset active
/// for this line, the "now" instant, and a read-only view of the
/// expressions of all previously resolved lines.
pub struct State<'a> {
    pub offset: i32,
    pub now: i64,
    pub records: &'a [Expression],
}

impl<'a> View for State<'a> {
    type V = StateModel;

    open spec fn view(&self) -> StateModel {
        StateModel {
            offset: self.offset as int,
            now: self.now as int,
            records: self.records@.map_values(|e: Expression| e@),
        }
    }
}

impl<'a> State<'a> {
    /// The declared offset stays inside the [-23, 23] hour band.
    pub open spec fn wf(&self) -> bool {
        -23 <= self.offset <= 23
    }

    /// Package an evaluation state for one line.
    pub fn new(offset: i32, now: i64, records: &'a [Expression]) -> (r: Self)
        requires
            -23 <= offset <= 23,
        ensures
            r@ == (StateModel {
                offset: offset as int,
                now: now as int,
                records: records@.map_values(|e: Expression| e@),
            }),
            r.wf(),
    {
        Self { offset, now, records }
    }
}

/// A line that the expression grammar does not accept.
#[derive(Clone, Copy, PartialEq, Eq, Structural, Debug)]
pub struct ParseError;

/// The first position at or after `i` that does not hold a space.
pub open spec fn skip_spaces(s: Seq<char>, i: int) -> int
    recommends
        0 <= i <= s.len(),
    decreases s.len() - i when 0 <= i <= s.len()
{
    if i < s.len() && s[i] == ' ' {
        skip_spaces(s, i + 1)
    } else {
        i
    }
}

/// One duration term: a non-negative number immediately followed by a unit
/// suffix. Suffixes are tried in the order seconds, minutes, hours, days,
/// milliseconds; the one-letter suffixes except `d` must be followed by a
/// non-letter, which is how `5m` is five minutes while `5ms` is five
/// milliseconds. The result is the pair of the term's milliseconds and the
/// first position after the suffix.
pub open spec fn duration_term(s: Seq<char>, i: int) -> Option<(int, int)>
    recommends
        0 <= i <= s.len(),
{
    if !has_number(s, i) {
        None
    } else {
        let p = number_token_end(s, i);
        if p < s.len() && s[p] == 's' && end_boundary(s, p + 1) {
            Some((number_scaled_val(s, i, 1000), p + 1))
        } else if p < s.len() && s[p] == 'm' && end_boundary(s, p + 1) {
            Some((number_scaled_val(s, i, 60000), p + 1))
        } else if p < s.len() && s[p] == 'h' && end_boundary(s, p + 1) {
            Some((number_scaled_val(s, i, 3600000), p + 1))
        } else if p < s.len() && s[p] == 'd' {
            Some((number_scaled_val(s, i, 86400000), p + 1))
        } else if p + 1 < s.len() && s[p] == 'm' && s[p + 1] == 's' && end_boundary(s, p + 2) {
            Some((number_scaled_val(s, i, 1), p + 2))
        } else {
            None
        }
    }
}

/// A maximal run of adjacent duration terms with no separator between
/// them, implicitly summed: concatenation is addition. The sum is over the
/// unbounded integers; the caller decides what an overflowing sum means.
pub open spec fn duration_terms(s: Seq<char>, i: int) -> Option<(int, int)>
    recommends
        0 <= i <= s.len(),
    decreases s.len() - i when 0 <= i <= s.len()
{
    match duration_term(s, i) {
        None => None,
        Some(t) => if i < t.1 && t.1 <= s.len() {
            match duration_terms(s, t.1) {
                None => Some(t),
                Some(u) => Some((t.0 + u.0, u.1)),
            }
        } else {
            Some(t)
        },
    }
}

/// The fixed 21-character shape of a quoted date-time literal with date
/// separator `sep_ymd` and date/time separator `sep`.
pub open spec fn datetime_shape(s: Seq<char>, i: int, sep_ymd: char, sep: char) -> bool {
    &&& i + 21 <= s.len()
    &&& s[i] == '\''
    &&& is_digit(s[i + 1])
    &&& is_digit(s[i + 2])
    &&& is_digit(s[i + 3])
    &&& is_digit(s[i + 4])
    &&& s[i + 5] == sep_ymd
    &&& is_digit(s[i + 6])
    &&& is_digit(s[i + 7])
    &&& s[i + 8] == sep_ymd
    &&& is_digit(s[i + 9])
    &&& is_digit(s[i + 10])
    &&& s[i + 11] == sep
    &&& is_digit(s[i + 12])
    &&& is_digit(s[i + 13])
    &&& s[i + 14] == ':'
    &&& is_digit(s[i + 15])
    &&& is_digit(s[i + 16])
    &&& s[i + 17] == ':'
    &&& is_digit(s[i + 18])
    &&& is_digit(s[i + 19])
    &&& s[i + 20] == '\''
}

/// A quoted date-time literal in one of the three accepted formats,
/// resolved in the offset of `off` whole hours. A well-shaped literal with
/// invalid calendar values is the failure variant, not a parse error.
pub open spec fn datetime_atom_val(s: Seq<char>, i: int, off: int) -> Option<(ExprModel, int)> {
    if datetime_shape(s, i, '-', ' ') || datetime_shape(s, i, '-', 'T') || datetime_shape(
        s,
        i,
        '/',
        ' ',
    ) {
        Some(
            (
                civil_expr(
                    digits_val(s, i + 1, i + 5),
                    digits_val(s, i + 6, i + 8),
                    digits_val(s, i + 9, i + 11),
                    digits_val(s, i + 12, i + 14),
                    digits_val(s, i + 15, i + 17),
                    digits_val(s, i + 18, i + 20),
                    off,
                ),
                i + 21,
            ),
        )
    } else {
        None
    }
}

/// One atom of the grammar, tried in order: a parenthesized
/// sub-expression, a run of duration terms, a negative or non-negative
/// numeric timestamp, a quoted date-time literal, the literal `now`, and a
/// `#N` back-reference. The result pairs the atom's value with the first
/// position after it.
pub open spec fn atom(s: Seq<char>, st: StateModel, i: int) -> Option<(ExprModel, int)>
    recommends
        0 <= i <= s.len(),
    decreases s.len() - i, 0int when 0 <= i <= s.len()
{
    if i < s.len() && s[i] == '(' {
        let j = skip_spaces(s, i + 1);
        if i + 1 <= j && j <= s.len() {
            match additive(s, st, j) {
                Some(inner) => {
                    let k = skip_spaces(s, inner.1);
                    if 0 <= k && k < s.len() && s[k] == ')' {
                        Some((inner.0, k + 1))
                    } else {
                        None
                    }
                }
                None => None,
            }
        } else {
            None
        }
    } else {
        match duration_terms(s, i) {
            Some(t) => Some(
                (
                    if fits_i64(t.0) {
                        ExprModel::Duration(t.0)
                    } else {
                        ExprModel::Nothing
                    },
                    t.1,
                ),
            ),
            None => if i < s.len() && s[i] == '-' {
                if has_number(s, i + 1) && end_boundary(s, number_token_end(s, i + 1)) {
                    Some(
                        (
                            ExprModel::Timestamp(-number_whole_val(s, i + 1)),
                            number_token_end(s, i + 1),
                        ),
                    )
                } else {
                    None
                }
            } else if has_number(s, i) {
                if end_boundary(s, number_token_end(s, i)) {
                    Some((ExprModel::Timestamp(number_whole_val(s, i)), number_token_end(s, i)))
                } else {
                    None
                }
            } else if i < s.len() && s[i] == '\'' {
                datetime_atom_val(s, i, st.offset)
            } else if i + 3 <= s.len() && s[i] == 'n' && s[i + 1] == 'o' && s[i + 2] == 'w' {
                Some((ExprModel::Timestamp(st.now), i + 3))
            } else if i < s.len() && s[i] == '#' {
                let j = digit_run_end(s, i + 1);
                if j > i + 1 {
                    let idx = clamp_to_u64_max(digits_val(s, i + 1, j));
                    let v = if 1 <= idx <= st.records.len() {
                        st.records[idx - 1]
                    } else {
                        ExprModel::Nothing
                    };
                    Some((v, j))
                } else {
                    None
                }
            } else {
                None
            },
        }
    }
}

/// The left-associative tail of an additive chain: starting from the value
/// `acc` at position `i`, fold in every following `+` or `-` atom, with
/// spaces permitted around the operators. Stops, leaving the operator
/// unconsumed, as soon as no further operator-atom pair parses.
pub open spec fn additive_rest(s: Seq<char>, st: StateModel, acc: ExprModel, i: int) -> (
    ExprModel,
    int,
)
    recommends
        0 <= i <= s.len(),
    decreases s.len() - i, 1int when 0 <= i <= s.len()
{
    let j = skip_spaces(s, i);
    if i <= j && j < s.len() && (s[j] == '+' || s[j] == '-') {
        let k = skip_spaces(s, j + 1);
        if j + 1 <= k && k <= s.len() {
            match atom(s, st, k) {
                Some(next) => {
                    let combined = if s[j] == '+' {
                        spec_add(acc, next.0)
                    } else {
                        spec_sub(acc, next.0)
                    };
                    if i < next.1 && next.1 <= s.len() {
                        additive_rest(s, st, combined, next.1)
                    } else {
                        (acc, i)
                    }
                }
                None => (acc, i),
            }
        } else {
            (acc, i)
        }
    } else {
        (acc, i)
    }
}

/// A full additive expression: a first atom, then the additive tail.
pub open spec fn additive(s: Seq<char>, st: StateModel, i: int) -> Option<(ExprModel, int)>
    recommends
        0 <= i <= s.len(),
    decreases s.len() - i, 2int when 0 <= i <= s.len()
{
    match atom(s, st, i) {
        Some(first) => if i < first.1 && first.1 <= s.len() {
            Some(additive_rest(s, st, first.0, first.1))
        } else {
            Some(first)
        },
        None => None,
    }
}

/// The value of a whole line under the expression grammar: the additive
/// expression that consumes the entire line, or nothing when the grammar
/// rejects the line.
pub open spec fn line_value(s: Seq<char>, st: StateModel) -> Option<ExprModel> {
    match additive(s, st, 0) {
        Some(r) => if r.1 == s.len() {
            Some(r.0)
        } else {
            None
        },
        None => None,
    }
}

/// The first position at or after `i` that does not hold a space.
pub fn p_skip_spaces(s: &str, n: usize, i: usize) -> (r: usize)
    requires
        n == s@.len(),
        i <= n,
    ensures
        r as int == skip_spaces(s@, i as int),
        i <= r <= n,
{
    let mut k: usize = i;
    loop
        invariant
            n == s@.len(),
            i <= k <= n,
            skip_spaces(s@, i as int) == skip_spaces(s@, k as int),
        decreases n - k,
    {
        if k >= n {
            return k;
        }
        let c = s.get_char(k);
        if c != ' ' {
            return k;
        }
        k = k + 1;
    }
}

/// Decide [`end_boundary`]: the position is past the end of the text or
/// does not hold a letter.
pub fn p_end_boundary(s: &str, n: usize, q: usize) -> (r: bool)
    requires
        n == s@.len(),
        q <= n,
    ensures
        r == end_boundary(s@, q as int),
{
    if q >= n {
        true
    } else {
        !check_letter(s.get_char(q))
    }
}

/// Find the end of the numeric literal at `i`, if one starts there.
fn p_number_end(s: &str, n: usize, i: usize) -> (r: Option<usize>)
    requires
        n == s@.len(),
        i <= n,
    ensures
        match r {
            Some(p) => has_number(s@, i as int) && p as int == number_token_end(s@, i as int) && i
                < p <= n,
            None => !has_number(s@, i as int),
        },
{
    let (j, _) = scan_digits(s, n, i);
    proof {
        crate::scan::lemma_digit_run_end_props(s@, i as int);
    }
    if j == i {
        return None;
    }
    if j < n && s.get_char(j) == '.' {
        let (f, _) = scan_digits(s, n, j + 1);
        proof {
            crate::scan::lemma_digit_run_end_props(s@, j as int + 1);
        }
        Some(f)
    } else {
        Some(j)
    }
}

/// Parse one duration term at `i`: exactly [`duration_term`].
fn p_duration_term(s: &str, n: usize, i: usize) -> (r: Option<(i64, usize)>)
    requires
        n == s@.len(),
        i <= n,
    ensures
        match r {
            Some(t) => duration_term(s@, i as int) == Some((t.0 as int, t.1 as int)) && 0 <= t.0
                && i < t.1 <= n,
            None => duration_term(s@, i as int) is None,
        },
{
    let p = match p_number_end(s, n, i) {
        Some(p) => p,
        None => {
            return None;
        },
    };
    let m: u64 = if p < n && s.get_char(p) == 's' && p_end_boundary(s, n, p + 1) {
        1000
    } else if p < n && s.get_char(p) == 'm' && p_end_boundary(s, n, p + 1) {
        60000
    } else if p < n && s.get_char(p) == 'h' && p_end_boundary(s, n, p + 1) {
        3600000
    } else if p < n && s.get_char(p) == 'd' {
        86400000
    } else if n - p >= 2 && s.get_char(p) == 'm' && s.get_char(p + 1) == 's' && p_end_boundary(
        s,
        n,
        p + 2,
    ) {
        1
    } else {
        return None;
    };
    let width: usize = if m == 1 {
        2
    } else {
        1
    };
    match scan_number_scaled(s, n, i, m) {
        Some(v) => Some((v.0, p + width)),
        None => {
            proof {
                assert(false);
            }
            None
        },
    }
}

/// Parse the maximal run of duration terms at `i`. The returned sum
/// saturates one past the `i64` maximum, which is enough to decide
/// overflow, since every term is non-negative.
fn p_duration_terms(s: &str, n: usize, i: usize) -> (r: Option<(u128, usize)>)
    requires
        n == s@.len(),
        i <= n,
    ensures
        match r {
            Some(t) => {
                &&& duration_terms(s@, i as int) matches Some(u) && u.1 == t.1 as int && 0 <= u.0
                    && t.0 as int == (if u.0 > i64::MAX as int {
                    i64::MAX as int + 1
                } else {
                    u.0
                })
                &&& i < t.1 <= n
            },
            None => duration_terms(s@, i as int) is None,
        },
    decreases n - i,
{
    match p_duration_term(s, n, i) {
        None => None,
        Some((v, j)) => {
            match p_duration_terms(s, n, j) {
                None => Some((v as u128, j)),
                Some((v2, k)) => {
                    let total: u128 = v as u128 + v2;
                    let capped: u128 = if total > i64::MAX as u128 {
                        i64::MAX as u128 + 1
                    } else {
                        total
                    };
                    Some((capped, k))
                },
            }
        },
    }
}

/// Read the value of exactly four digit characters.
fn read4(s: &str, n: usize, a: usize) -> (v: u32)
    requires
        n == s@.len(),
        a + 4 <= n,
        is_digit(s@[a as int]),
        is_digit(s@[a as int + 1]),
        is_digit(s@[a as int + 2]),
        is_digit(s@[a as int + 3]),
    ensures
        v as int == digits_val(s@, a as int, a as int + 4),
        v <= 9999,
{
    let d0 = s.get_char(a) as u32 - 48;
    let d1 = s.get_char(a + 1) as u32 - 48;
    let d2 = s.get_char(a + 2) as u32 - 48;
    let d3 = s.get_char(a + 3) as u32 - 48;
    proof {
        assert(digits_val(s@, a as int, a as int) == 0);
    }
    assert(digits_val(s@, a as int, a as int + 1) == crate::scan::digit_val(s@[a as int]));
    assert(digits_val(s@, a as int, a as int + 2) == digits_val(s@, a as int, a as int + 1) * 10
        + crate::scan::digit_val(s@[a as int + 1]));
    assert(digits_val(s@, a as int, a as int + 3) == digits_val(s@, a as int, a as int + 2) * 10
        + crate::scan::digit_val(s@[a as int + 2]));
    assert(digits_val(s@, a as int, a as int + 4) == digits_val(s@, a as int, a as int + 3) * 10
        + crate::scan::digit_val(s@[a as int + 3]));
    ((d0 * 10 + d1) * 10 + d2) * 10 + d3
}

/// Read the value of exactly two digit characters.
fn read2(s: &str, n: usize, a: usize) -> (v: u32)
    requires
        n == s@.len(),
        a + 2 <= n,
        is_digit(s@[a as int]),
        is_digit(s@[a as int + 1]),
    ensures
        v as int == digits_val(s@, a as int, a as int + 2),
        v <= 99,
{
    let d0 = s.get_char(a) as u32 - 48;
    let d1 = s.get_char(a + 1) as u32 - 48;
    proof {
        assert(digits_val(s@, a as int, a as int) == 0);
    }
    assert(digits_val(s@, a as int, a as int + 1) == crate::scan::digit_val(s@[a as int]));
    assert(digits_val(s@, a as int, a as int + 2) == digits_val(s@, a as int, a as int + 1) * 10
        + crate::scan::digit_val(s@[a as int + 1]));
    d0 * 10 + d1
}

/// Decide the fixed shape of a quoted date-time literal at `i`.
fn p_datetime_shape(s: &str, n: usize, i: usize, sep_ymd: char, sep: char) -> (r: bool)
    requires
        n == s@.len(),
        i <= n,
    ensures
        r == datetime_shape(s@, i as int, sep_ymd, sep),
{
    if n - i < 21 {
        return false;
    }
    s.get_char(i) == '\'' && check_digit(s.get_char(i + 1)) && check_digit(s.get_char(i + 2))
        && check_digit(s.get_char(i + 3)) && check_digit(s.get_char(i + 4)) && s.get_char(i + 5)
        == sep_ymd && check_digit(s.get_char(i + 6)) && check_digit(s.get_char(i + 7))
        && s.get_char(i + 8) == sep_ymd && check_digit(s.get_char(i + 9)) && check_digit(
        s.get_char(i + 10),
    ) && s.get_char(i + 11) == sep && check_digit(s.get_char(i + 12)) && check_digit(
        s.get_char(i + 13),
    ) && s.get_char(i + 14) == ':' && check_digit(s.get_char(i + 15)) && check_digit(
        s.get_char(i + 16),
    ) && s.get_char(i + 17) == ':' && check_digit(s.get_char(i + 18)) && check_digit(
        s.get_char(i + 19),
    ) && s.get_char(i + 20) == '\''
}

/// Parse a quoted date-time literal at `i`: exactly [`datetime_atom_val`].
fn p_datetime(s: &str, n: usize, i: usize, off: i32) -> (r: Option<(Expression, usize)>)
    requires
        n == s@.len(),
        i <= n,
        -23 <= off <= 23,
    ensures
        match r {
            Some(t) => datetime_atom_val(s@, i as int, off as int) == Some((t.0@, t.1 as int)) && i
                < t.1 <= n,
            None => datetime_atom_val(s@, i as int, off as int) is None,
        },
{
    let matched = p_datetime_shape(s, n, i, '-', ' ') || p_datetime_shape(s, n, i, '-', 'T')
        || p_datetime_shape(s, n, i, '/', ' ');
    if !matched {
        return None;
    }
    let year = read4(s, n, i + 1);
    let month = read2(s, n, i + 6);
    let day = read2(s, n, i + 9);
    let hour = read2(s, n, i + 12);
    let minute = read2(s, n, i + 15);
    let second = read2(s, n, i + 18);
    let e = resolve_civil(year, month, day, hour, minute, second, off);
    Some((e, i + 21))
}

/// Parse one atom at `i`: exactly [`atom`].
fn p_atom(s: &str, n: usize, state: &State, i: usize) -> (r: Option<(Expression, usize)>)
    requires
        n == s@.len(),
        i <= n,
        state.wf(),
    ensures
        match r {
            Some(t) => atom(s@, state@, i as int) == Some((t.0@, t.1 as int)) && i < t.1 <= n,
            None => atom(s@, state@, i as int) is None,
        },
    decreases n - i, 0int,
{
    if i < n && s.get_char(i) == '(' {
        let j = p_skip_spaces(s, n, i + 1);
        match p_additive(s, n, state, j) {
            Some((v, m)) => {
                let k = p_skip_spaces(s, n, m);
                if k < n && s.get_char(k) == ')' {
                    Some((v, k + 1))
                } else {
                    None
                }
            },
            None => None,
        }
    } else {
        match p_duration_terms(s, n, i) {
            Some((v, j)) => {
                let e = if v > i64::MAX as u128 {
                    Expression::Nothing
                } else {
                    Expression::Duration(Duration::milliseconds(v as i64))
                };
                Some((e, j))
            },
            None => {
                if i < n && s.get_char(i) == '-' {
                    match scan_number_whole(s, n, i + 1) {
                        Some((v, p)) => {
                            if p_end_boundary(s, n, p) {
                                Some((Expression::Timestamp(-v), p))
                            } else {
                                None
                            }
                        },
                        None => None,
                    }
                } else {
                    match scan_number_whole(s, n, i) {
                        Some((v, p)) => {
                            if p_end_boundary(s, n, p) {
                                Some((Expression::Timestamp(v), p))
                            } else {
                                None
                            }
                        },
                        None => {
                            if i < n && s.get_char(i) == '\'' {
                                p_datetime(s, n, i, state.offset)
                            } else if n - i >= 3 && s.get_char(i) == 'n' && s.get_char(i + 1) == 'o'
                                && s.get_char(i + 2) == 'w' {
                                Some((Expression::Timestamp(state.now), i + 3))
                            } else if i < n && s.get_char(i) == '#' {
                                let (j, v) = scan_digits(s, n, i + 1);
                                proof {
                                    crate::scan::lemma_digit_run_end_props(s@, i as int + 1);
                                }
                                if j > i + 1 {
                                    let len = state.records.len();
                                    let e = if 1 <= v && v <= len as u64 {
                                        state.records[(v - 1) as usize]
                                    } else {
                                        Expression::Nothing
                                    };
                                    Some((e, j))
                                } else {
                                    None
                                }
                            } else {
                                None
                            }
                        },
                    }
                }
            },
        }
    }
}

/// Fold the additive tail starting from `acc` at `i`: exactly
/// [`additive_rest`].
fn p_additive_rest(s: &str, n: usize, state: &State, acc: Expression, i: usize) -> (r: (
    Expression,
    usize,
))
    requires
        n == s@.len(),
        i <= n,
        state.wf(),
    ensures
        additive_rest(s@, state@, acc@, i as int) == (r.0@, r.1 as int),
        i <= r.1 <= n,
    decreases n - i, 1int,
{
    let j = p_skip_spaces(s, n, i);
    if j < n {
        let c = s.get_char(j);
        if c == '+' || c == '-' {
            let k = p_skip_spaces(s, n, j + 1);
            match p_atom(s, n, state, k) {
                Some((v, m)) => {
                    let combined = if c == '+' {
                        acc.add(v)
                    } else {
                        acc.sub(v)
                    };
                    p_additive_rest(s, n, state, combined, m)
                },
                None => (acc, i),
            }
        } else {
            (acc, i)
        }
    } else {
        (acc, i)
    }
}

/// Parse a full additive expression at `i`: exactly [`additive`].
fn p_additive(s: &str, n: usize, state: &State, i: usize) -> (r: Option<(Expression, usize)>)
    requires
        n == s@.len(),
        i <= n,
        state.wf(),
    ensures
        match r {
            Some(t) => additive(s@, state@, i as int) == Some((t.0@, t.1 as int)) && i < t.1 <= n,
            None => additive(s@, state@, i as int) is None,
        },
    decreases n - i, 2int,
{
    match p_atom(s, n, state, i) {
        Some((v, j)) => {
            let (v2, k) = p_additive_rest(s, n, state, v, j);
            Some((v2, k))
        },
        None => None,
    }
}

/// A declared offset stays inside the [-23, 23] hour band; every other
/// variant carries no offset at all.
pub open spec fn offset_bounded(e: ExprModel) -> bool {
    match e {
        ExprModel::Offset(h) => -23 <= h <= 23,
        _ => true,
    }
}

/// Do all the expressions of the prior records keep their declared
/// offsets inside the [-23, 23] hour band?
pub open spec fn records_offsets_bounded(rs: Seq<ExprModel>) -> bool {
    forall|k: int| 0 <= k < rs.len() ==> offset_bounded(#[trigger] rs[k])
}

/// An atom's value keeps declared offsets bounded: the only atom that can
/// produce an offset at all is a back-reference, which hands back a prior
/// record's expression unchanged.
pub proof fn lemma_atom_offset_bounded(s: Seq<char>, st: StateModel, i: int)
    requires
        0 <= i <= s.len(),
        records_offsets_bounded(st.records),
    ensures
        atom(s, st, i) matches Some(t) ==> offset_bounded(t.0),
    decreases s.len() - i, 0int,
{
    if i < s.len() && s[i] == '(' {
        let j = skip_spaces(s, i + 1);
        if i + 1 <= j && j <= s.len() {
            lemma_additive_offset_bounded(s, st, j);
        }
    }
}

/// The additive tail keeps declared offsets bounded: the algebra never
/// produces an offset.
pub proof fn lemma_additive_rest_offset_bounded(s: Seq<char>, st: StateModel, acc: ExprModel, i: int)
    requires
        0 <= i <= s.len(),
        records_offsets_bounded(st.records),
        offset_bounded(acc),
    ensures
        offset_bounded(additive_rest(s, st, acc, i).0),
    decreases s.len() - i, 1int,
{
    let j = skip_spaces(s, i);
    if i <= j && j < s.len() && (s[j] == '+' || s[j] == '-') {
        let k = skip_spaces(s, j + 1);
        if j + 1 <= k && k <= s.len() {
            lemma_atom_offset_bounded(s, st, k);
            match atom(s, st, k) {
                Some(next) => {
                    let combined = if s[j] == '+' {
                        spec_add(acc, next.0)
                    } else {
                        spec_sub(acc, next.0)
                    };
                    assert(offset_bounded(combined));
                    if i < next.1 && next.1 <= s.len() {
                        lemma_additive_rest_offset_bounded(s, st, combined, next.1);
                    }
                },
                None => {},
            }
        }
    }
}

/// A full additive expression keeps declared offsets bounded.
pub proof fn lemma_additive_offset_bounded(s: Seq<char>, st: StateModel, i: int)
    requires
        0 <= i <= s.len(),
        records_offsets_bounded(st.records),
    ensures
        additive(s, st, i) matches Some(t) ==> offset_bounded(t.0),
    decreases s.len() - i, 2int,
{
    lemma_atom_offset_bounded(s, st, i);
    match atom(s, st, i) {
        Some(first) => {
            if i < first.1 && first.1 <= s.len() {
                lemma_additive_rest_offset_bounded(s, st, first.0, first.1);
            }
        },
        None => {},
    }
}

/// A whole line's value keeps declared offsets bounded.
pub proof fn lemma_line_value_offset_bounded(s: Seq<char>, st: StateModel)
    requires
        records_offsets_bounded(st.records),
    ensures
        line_value(s, st) matches Some(v) ==> offset_bounded(v),
{
    lemma_additive_offset_bounded(s, st, 0);
}

/// Parse one line as an expression. `Ok` exactly when the additive grammar
/// consumes the whole line, with the value that [`line_value`] assigns to
/// it; `Err` when the grammar rejects the line, in which case the caller
/// may still read it as an offset directive.
pub fn parse_expression(input: &str, state: &State) -> (r: Result<Expression, ParseError>)
    requires
        state.wf(),
    ensures
        match line_value(input@, state@) {
            Some(v) => r matches Ok(e) && e@ == v,
            None => r is Err,
        },
{
    let n = input.unicode_len();
    match p_additive(input, n, state, 0) {
        Some((v, j)) => if j == n {
            Ok(v)
        } else {
            Err(ParseError)
        },
        None => Err(ParseError),
    }
}

} // verus!
