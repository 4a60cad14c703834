//! The library's general laws, stated over the specification functions
//! that the public contracts use, and proved once and for all inputs.

use crate::calendar::civil_expr;
use crate::calendar::valid_civil;
use crate::document::doc_records;
use crate::document::doc_rest;
use crate::document::split_lines;
use crate::document::RecordModel;
use crate::expr::fits_i64;
use crate::expr::spec_add;
use crate::expr::spec_sub;
use crate::expr::ExprModel;
use crate::format::fmt_duration;
use crate::grammar::atom;
use crate::grammar::additive;
use crate::grammar::additive_rest;
use crate::grammar::duration_term;
use crate::grammar::duration_terms;
use crate::grammar::line_value;
use crate::grammar::skip_spaces;
use crate::grammar::StateModel;
use crate::scan::clamp_to_u64_max;
use crate::scan::digit_run_end;
use crate::scan::digits_val;
use crate::scan::is_digit;
use crate::scan::lemma_digit_run_end_of_run;
use crate::scan::lemma_digit_run_end_props;
use crate::scan::number_whole_val;
use vstd::prelude::*;

verus! {

/// Re-parsing an unchanged document with an unchanged "now" instant is
/// idempotent: the record sequence is a function of the text and the
/// instant alone, so it comes out identical every time.
pub proof fn lemma_reparse_idempotent(
    text_first: Seq<char>,
    text_second: Seq<char>,
    now_first: int,
    now_second: int,
)
    requires
        text_first == text_second,
        now_first == now_second,
    ensures
        doc_records(text_first, now_first) == doc_records(text_second, now_second),
{
}

/// The zero duration renders as `0s`.
pub proof fn lemma_fmt_duration_zero()
    ensures
        fmt_duration(0) == seq!['0', 's'],
{
}

/// A negative duration renders as a `-` followed by exactly the rendering
/// of its absolute value.
pub proof fn lemma_fmt_duration_negative(ms: int)
    requires
        ms < 0,
    ensures
        fmt_duration(ms) == seq!['-'] + fmt_duration(-ms),
{
}

/// A well-shaped date-time literal whose fields do not name an existing
/// calendar date and clock time resolves to the failure variant, in every
/// offset, rather than to an error.
pub proof fn lemma_invalid_civil_is_nothing(y: int, mo: int, d: int, h: int, mi: int, s: int, off: int)
    requires
        !valid_civil(y, mo, d, h, mi, s),
    ensures
        civil_expr(y, mo, d, h, mi, s, off) == ExprModel::Nothing,
{
}

/// A line of nothing but digits parses as a timestamp literal, and a
/// value beyond the `i64` maximum saturates to that maximum instead of
/// wrapping or failing.
pub proof fn lemma_digit_line_is_timestamp(s: Seq<char>, st: StateModel)
    requires
        s.len() > 0,
        forall|k: int| 0 <= k < s.len() ==> is_digit(#[trigger] s[k]),
    ensures
        line_value(s, st) == Some(
            ExprModel::Timestamp(crate::scan::clamp_to_i64_max(digits_val(s, 0, s.len() as int))),
        ),
        digits_val(s, 0, s.len() as int) > i64::MAX as int ==> line_value(s, st) == Some(
            ExprModel::Timestamp(i64::MAX as int),
        ),
{
    lemma_digit_run_end_of_run(s, 0, s.len() as int);
    assert(duration_term(s, 0) is None);
    assert(duration_terms(s, 0) is None);
    assert(!is_digit('('));
    assert(!is_digit('-'));
    let a = atom(s, st, 0);
    assert(a == Some((ExprModel::Timestamp(number_whole_val(s, 0)), s.len() as int)));
    assert(skip_spaces(s, s.len() as int) == s.len() as int);
    assert(additive_rest(s, st, ExprModel::Timestamp(number_whole_val(s, 0)), s.len() as int) == (
        ExprModel::Timestamp(number_whole_val(s, 0)),
        s.len() as int,
    ));
}

/// Adding any strictly positive timestamp to the saturated maximum
/// timestamp overflows: the algebra yields the failure variant, in both
/// operand orders.
pub proof fn lemma_saturated_add_overflows(t: int)
    requires
        0 < t <= i64::MAX as int,
    ensures
        spec_add(ExprModel::Timestamp(t), ExprModel::Timestamp(i64::MAX as int))
            == ExprModel::Nothing,
        spec_add(ExprModel::Timestamp(i64::MAX as int), ExprModel::Timestamp(t))
            == ExprModel::Nothing,
{
}

/// Subtracting the saturated maximum timestamp from any small
/// non-negative timestamp overflows the milliseconds re-typing: the
/// algebra yields the failure variant. (For operands close enough to the
/// maximum the difference is small and representable, so the law is
/// stated away from that band.)
pub proof fn lemma_saturated_sub_overflows(t: int)
    requires
        0 <= t < i64::MAX as int - i64::MAX as int / 1000,
    ensures
        spec_sub(ExprModel::Timestamp(t), ExprModel::Timestamp(i64::MAX as int))
            == ExprModel::Nothing,
{
    let d = t - i64::MAX as int;
    assert(d * 1000 < i64::MIN as int);
}

/// A document always yields exactly one record per line, whatever the
/// lines hold: a failed line only makes its own record the failure
/// variant and never aborts the evaluation of the rest.
pub proof fn lemma_one_record_per_line(text: Seq<char>, now: int)
    ensures
        doc_records(text, now).len() == split_lines(text).len(),
        doc_records(text, now).len() >= 1,
{
    lemma_doc_rest_len(split_lines(text), now, 0, Seq::empty());
    crate::document::lemma_split_lines_from_nonempty(text, 0);
}

proof fn lemma_doc_rest_len(lines: Seq<Seq<char>>, now: int, off: int, prior: Seq<ExprModel>)
    ensures
        doc_rest(lines, now, off, prior).len() == lines.len(),
    decreases lines.len(),
{
    if lines.len() > 0 {
        let st = StateModel { offset: off, now: now, records: prior };
        let e = crate::document::line_expr(lines[0], st);
        let off2 = match e {
            ExprModel::Offset(h) => h,
            _ => off,
        };
        lemma_doc_rest_len(lines.drop_first(), now, off2, prior.push(e));
    }
}

/// The first record of a document reports offset UTC+0.
pub proof fn lemma_first_record_offset_zero(text: Seq<char>, now: int)
    ensures
        doc_records(text, now).len() > 0 ==> doc_records(text, now)[0].offset == 0,
{
    crate::document::lemma_split_lines_from_nonempty(text, 0);
}

/// An offset declared on one line takes effect exactly on the next line:
/// every later record reports the declared hours until another
/// declaration, and a line that declares nothing leaves the offset of its
/// successor unchanged.
pub proof fn lemma_offset_propagation_rest(
    lines: Seq<Seq<char>>,
    now: int,
    off: int,
    prior: Seq<ExprModel>,
    k: int,
)
    requires
        0 <= k < doc_rest(lines, now, off, prior).len() - 1,
    ensures
        doc_rest(lines, now, off, prior)[k + 1].offset == (match doc_rest(
            lines,
            now,
            off,
            prior,
        )[k].expression {
            ExprModel::Offset(h) => h,
            _ => doc_rest(lines, now, off, prior)[k].offset,
        }),
    decreases lines.len(),
{
    let whole = doc_rest(lines, now, off, prior);
    let st = StateModel { offset: off, now: now, records: prior };
    let e = crate::document::line_expr(lines[0], st);
    let off2 = match e {
        ExprModel::Offset(h) => h,
        _ => off,
    };
    let rest = doc_rest(lines.drop_first(), now, off2, prior.push(e));
    if k == 0 {
        assert(whole[0] == RecordModel { offset: off, expression: e });
        if rest.len() > 0 {
            assert(whole[1] == rest[0]);
            assert(rest[0].offset == off2);
        }
    } else {
        lemma_offset_propagation_rest(lines.drop_first(), now, off2, prior.push(e), k - 1);
        assert(whole[k] == rest[k - 1]);
        assert(whole[k + 1] == rest[k]);
    }
}

/// The document-level form of the propagation law: record 0 reports
/// UTC+0, and each record after the first reports its predecessor's
/// declared offset, or its predecessor's own offset when that line
/// declared nothing.
pub proof fn lemma_offset_propagation(text: Seq<char>, now: int, k: int)
    requires
        0 <= k < doc_records(text, now).len() - 1,
    ensures
        doc_records(text, now)[k + 1].offset == (match doc_records(text, now)[k].expression {
            ExprModel::Offset(h) => h,
            _ => doc_records(text, now)[k].offset,
        }),
{
    lemma_offset_propagation_rest(split_lines(text), now, 0, Seq::empty(), k);
}

/// A line of `#` followed by digits resolves to the referenced prior
/// line's expression, one-based; an index of zero or beyond the prior
/// lines resolves to the failure variant, never to an error.
pub proof fn lemma_backref_resolution(s: Seq<char>, st: StateModel)
    requires
        s.len() >= 2,
        s[0] == '#',
        forall|k: int| 1 <= k < s.len() ==> is_digit(#[trigger] s[k]),
    ensures
        ({
            let idx = clamp_to_u64_max(digits_val(s, 1, s.len() as int));
            line_value(s, st) == Some(
                if 1 <= idx <= st.records.len() {
                    st.records[idx - 1]
                } else {
                    ExprModel::Nothing
                },
            )
        }),
{
    lemma_digit_run_end_of_run(s, 1, s.len() as int);
    assert(!is_digit('#'));
    assert(digit_run_end(s, 0) == 0) by {
        lemma_digit_run_end_props(s, 0);
        if digit_run_end(s, 0) > 0 {
            assert(is_digit(s[0]));
        }
    }
    assert(duration_term(s, 0) is None);
    assert(duration_terms(s, 0) is None);
    let idx = clamp_to_u64_max(digits_val(s, 1, s.len() as int));
    let v = if 1 <= idx <= st.records.len() {
        st.records[idx - 1]
    } else {
        ExprModel::Nothing
    };
    assert(atom(s, st, 0) == Some((v, s.len() as int)));
    assert(skip_spaces(s, s.len() as int) == s.len() as int);
    assert(additive_rest(s, st, v, s.len() as int) == (v, s.len() as int));
}

/// Powers of ten.
pub open spec fn pow10(k: nat) -> int
    decreases k,
{
    if k == 0 {
        1
    } else {
        10 * pow10((k - 1) as nat)
    }
}

pub proof fn lemma_pow10_pos(k: nat)
    ensures
        pow10(k) >= 1,
    decreases k,
{
    if k > 0 {
        lemma_pow10_pos((k - 1) as nat);
    }
}

/// Digit values peel from the left as well as from the right.
proof fn lemma_digits_val_left_peel(s: Seq<char>, i: int, j: int)
    requires
        0 <= i < j <= s.len(),
    ensures
        digits_val(s, i, j) == crate::scan::digit_val(s[i]) * pow10((j - i - 1) as nat)
            + digits_val(s, i + 1, j),
    decreases j - i,
{
    let d = crate::scan::digit_val(s[i]);
    if j - i == 1 {
        assert(digits_val(s, i, i) == 0);
        assert(digits_val(s, i + 1, j) == 0);
        assert(pow10(0) == 1);
        assert(digits_val(s, i, j) == digits_val(s, i, i) * 10 + d);
    } else {
        lemma_digits_val_left_peel(s, i, j - 1);
        let p = pow10((j - i - 2) as nat);
        assert(pow10((j - i - 1) as nat) == 10 * p);
        assert(digits_val(s, i, j - 1) * 10 == d * (10 * p) + digits_val(s, i + 1, j - 1) * 10)
            by (nonlinear_arith)
            requires
                digits_val(s, i, j - 1) == d * p + digits_val(s, i + 1, j - 1),
        ;
        assert(digits_val(s, i, j) == digits_val(s, i, j - 1) * 10 + crate::scan::digit_val(
            s[j - 1],
        ));
        assert(digits_val(s, i + 1, j) == digits_val(s, i + 1, j - 1) * 10
            + crate::scan::digit_val(s[j - 1]));
    }
}

/// The digit-by-digit fraction recurrence computes exactly the floor of
/// the scaled fraction: reading the digits as an integer `F` of `k`
/// places, the recurrence equals `F * m / 10^k` in integer division.
pub proof fn lemma_frac_scaled_is_floor(s: Seq<char>, i: int, j: int, m: int)
    requires
        0 <= i <= j <= s.len(),
        m >= 1,
        forall|k: int| i <= k < j ==> is_digit(#[trigger] s[k]),
    ensures
        crate::scan::frac_scaled(s, i, j, m) == digits_val(s, i, j) * m / pow10((j - i) as nat),
    decreases j - i,
{
    if i >= j {
        assert(digits_val(s, i, j) == 0);
    } else {
        lemma_frac_scaled_is_floor(s, i + 1, j, m);
        let d = crate::scan::digit_val(s[i]);
        let q = pow10((j - i - 1) as nat);
        let fp = digits_val(s, i + 1, j);
        lemma_pow10_pos((j - i - 1) as nat);
        crate::scan::lemma_digits_val_nonneg(s, i + 1, j);
        assert(0 <= d <= 9);
        vstd::arithmetic::mul::lemma_mul_inequality(0, d, m);
        vstd::arithmetic::mul::lemma_mul_inequality(0, fp, m);
        vstd::arithmetic::mul::lemma_mul_is_commutative(d, m);
        vstd::arithmetic::mul::lemma_mul_is_commutative(fp, m);
        vstd::arithmetic::mul::lemma_mul_inequality(0, d * m, q);
        vstd::arithmetic::mul::lemma_mul_is_commutative(d * m, q);
        vstd::arithmetic::div_mod::lemma_hoist_over_denominator(fp * m, d * m, q as nat);
        vstd::arithmetic::div_mod::lemma_div_denominator(fp * m + (d * m) * q, q, 10);
        lemma_digits_val_left_peel(s, i, j);
        assert(digits_val(s, i, j) * m == (d * m) * q + fp * m) by (nonlinear_arith)
            requires
                digits_val(s, i, j) == d * q + fp,
        ;
        assert(pow10((j - i) as nat) == 10 * q);
        assert(q * 10 == 10 * q);
        assert(crate::scan::frac_scaled(s, i, j, m) == (d * m + fp * m / q) / 10);
    }
}

/// Digit values read inside a prefix are unchanged by appending text.
pub proof fn lemma_digits_val_prefix(s: Seq<char>, t: Seq<char>, i: int, j: int)
    requires
        0 <= i <= j <= s.len(),
    ensures
        digits_val(s + t, i, j) == digits_val(s, i, j),
    decreases j - i,
{
    if i < j {
        lemma_digits_val_prefix(s, t, i, j - 1);
        assert((s + t)[j - 1] == s[j - 1]);
    }
}

/// Digit values read inside an appended suffix are the suffix's own.
pub proof fn lemma_digits_val_shift(s: Seq<char>, t: Seq<char>, i: int, j: int)
    requires
        0 <= i <= j <= t.len(),
    ensures
        digits_val(s + t, s.len() + i, s.len() + j) == digits_val(t, i, j),
    decreases j - i,
{
    if i < j {
        lemma_digits_val_shift(s, t, i, j - 1);
        assert((s + t)[s.len() + j - 1] == t[j - 1]);
    }
}

/// Fraction scaling read inside a prefix is unchanged by appending text.
pub proof fn lemma_frac_scaled_prefix(s: Seq<char>, t: Seq<char>, i: int, j: int, m: int)
    requires
        0 <= i <= j <= s.len(),
    ensures
        crate::scan::frac_scaled(s + t, i, j, m) == crate::scan::frac_scaled(s, i, j, m),
    decreases j - i,
{
    if i < j {
        lemma_frac_scaled_prefix(s, t, i + 1, j, m);
        assert((s + t)[i] == s[i]);
    }
}

/// Fraction scaling read inside an appended suffix is the suffix's own.
pub proof fn lemma_frac_scaled_shift(s: Seq<char>, t: Seq<char>, i: int, j: int, m: int)
    requires
        0 <= i <= j <= t.len(),
    ensures
        crate::scan::frac_scaled(s + t, s.len() + i, s.len() + j, m) == crate::scan::frac_scaled(
            t,
            i,
            j,
            m,
        ),
    decreases j - i,
{
    if i < j {
        lemma_frac_scaled_shift(s, t, i + 1, j, m);
        assert((s + t)[s.len() + i] == t[i]);
    }
}

/// A digit run that ends strictly inside a prefix is unchanged by
/// appending text.
pub proof fn lemma_digit_run_prefix(s: Seq<char>, t: Seq<char>, i: int)
    requires
        0 <= i <= s.len(),
        digit_run_end(s, i) < s.len(),
    ensures
        digit_run_end(s + t, i) == digit_run_end(s, i),
{
    lemma_digit_run_end_props(s, i);
    let j = digit_run_end(s, i);
    assert forall|k: int| i <= k < j implies is_digit(#[trigger] (s + t)[k]) by {
        assert((s + t)[k] == s[k]);
    }
    assert((s + t)[j] == s[j]);
    lemma_digit_run_end_of_run(s + t, i, j);
}

/// A digit run inside an appended suffix is the suffix's own, shifted.
pub proof fn lemma_digit_run_shift(s: Seq<char>, t: Seq<char>, i: int)
    requires
        0 <= i <= t.len(),
    ensures
        digit_run_end(s + t, s.len() + i) == s.len() + digit_run_end(t, i),
{
    lemma_digit_run_end_props(t, i);
    let j = digit_run_end(t, i);
    assert forall|k: int| s.len() + i <= k < s.len() + j implies is_digit(
        #[trigger] (s + t)[k],
    ) by {
        assert((s + t)[k] == t[k - s.len()]);
    }
    if j < t.len() {
        assert((s + t)[s.len() + j] == t[j]);
    }
    lemma_digit_run_end_of_run(s + t, s.len() + i, s.len() + j);
}

/// A numeric literal whose token ends strictly inside a prefix keeps its
/// extent and its values when text is appended.
pub proof fn lemma_number_prefix(s: Seq<char>, t: Seq<char>, i: int, m: int)
    requires
        0 <= i <= s.len(),
        crate::scan::has_number(s, i),
        crate::scan::number_token_end(s, i) < s.len(),
    ensures
        crate::scan::has_number(s + t, i),
        crate::scan::number_token_end(s + t, i) == crate::scan::number_token_end(s, i),
        number_whole_val(s + t, i) == number_whole_val(s, i),
        crate::scan::number_scaled_val(s + t, i, m) == crate::scan::number_scaled_val(s, i, m),
{
    lemma_digit_run_end_props(s, i);
    let j = digit_run_end(s, i);
    if j < s.len() && s[j] == '.' {
        lemma_digit_run_end_props(s, j + 1);
    }
    let p = crate::scan::number_token_end(s, i);
    assert(j <= p < s.len());
    lemma_digit_run_prefix(s, t, i);
    assert((s + t)[j] == s[j]);
    lemma_digits_val_prefix(s, t, i, j);
    if j < s.len() && s[j] == '.' {
        lemma_digit_run_prefix(s, t, j + 1);
        lemma_frac_scaled_prefix(s, t, j + 1, digit_run_end(s, j + 1), m);
    }
}

/// A numeric literal inside an appended suffix is the suffix's own,
/// shifted, with the same values.
pub proof fn lemma_number_shift(s: Seq<char>, t: Seq<char>, i: int, m: int)
    requires
        0 <= i <= t.len(),
    ensures
        crate::scan::has_number(s + t, s.len() + i) == crate::scan::has_number(t, i),
        crate::scan::has_number(t, i) ==> crate::scan::number_token_end(s + t, s.len() + i)
            == s.len() + crate::scan::number_token_end(t, i),
        crate::scan::has_number(t, i) ==> number_whole_val(s + t, s.len() + i)
            == number_whole_val(t, i),
        crate::scan::has_number(t, i) ==> crate::scan::number_scaled_val(s + t, s.len() + i, m)
            == crate::scan::number_scaled_val(t, i, m),
{
    lemma_digit_run_end_props(t, i);
    let j = digit_run_end(t, i);
    lemma_digit_run_shift(s, t, i);
    lemma_digits_val_shift(s, t, i, j);
    if j < t.len() {
        assert((s + t)[s.len() + j] == t[j]);
        if t[j] == '.' {
            lemma_digit_run_end_props(t, j + 1);
            lemma_digit_run_shift(s, t, j + 1);
            lemma_frac_scaled_shift(s, t, j + 1, digit_run_end(t, j + 1), m);
        }
    }
}

/// A duration term that parses inside a prefix keeps its value and its
/// extent when text that does not start with a letter is appended.
pub proof fn lemma_duration_term_prefix(s: Seq<char>, t: Seq<char>, i: int)
    requires
        0 <= i <= s.len(),
        duration_term(s, i) is Some,
        t.len() > 0 ==> !crate::scan::is_ascii_letter(t[0]),
    ensures
        duration_term(s + t, i) == duration_term(s, i),
{
    lemma_digit_run_end_props(s, i);
    assert(crate::scan::has_number(s, i));
    if digit_run_end(s, i) < s.len() {
        lemma_digit_run_end_props(s, digit_run_end(s, i) + 1);
    }
    let p = crate::scan::number_token_end(s, i);
    assert(p < s.len()) by {
        if p >= s.len() {
            assert(duration_term(s, i) is None);
        }
    }
    lemma_number_prefix(s, t, i, 1000);
    lemma_number_prefix(s, t, i, 60000);
    lemma_number_prefix(s, t, i, 3600000);
    lemma_number_prefix(s, t, i, 86400000);
    lemma_number_prefix(s, t, i, 1);
    assert((s + t)[p] == s[p]);
    if p + 1 < s.len() {
        assert((s + t)[p + 1] == s[p + 1]);
    }
    if p + 2 < s.len() {
        assert((s + t)[p + 2] == s[p + 2]);
    }
    assert forall|q: int| p <= q <= p + 2 && q < s.len() implies crate::scan::end_boundary(
        s + t,
        q,
    ) == crate::scan::end_boundary(s, q) by {
        assert((s + t)[q] == s[q]);
    }
    if t.len() > 0 {
        assert((s + t)[s.len() as int] == t[0]);
        assert(crate::scan::end_boundary(s + t, s.len() as int));
    }
}

/// A duration term inside an appended suffix is the suffix's own,
/// shifted.
pub proof fn lemma_duration_term_shift(s: Seq<char>, t: Seq<char>, i: int)
    requires
        0 <= i <= t.len(),
    ensures
        duration_term(s + t, s.len() + i) == (match duration_term(t, i) {
            Some(u) => Some((u.0, s.len() + u.1)),
            None => None::<(int, int)>,
        }),
{
    lemma_number_shift(s, t, i, 1000);
    lemma_number_shift(s, t, i, 60000);
    lemma_number_shift(s, t, i, 3600000);
    lemma_number_shift(s, t, i, 86400000);
    lemma_number_shift(s, t, i, 1);
    if crate::scan::has_number(t, i) {
        lemma_digit_run_end_props(t, i);
        if digit_run_end(t, i) < t.len() {
            lemma_digit_run_end_props(t, digit_run_end(t, i) + 1);
        }
        let p = crate::scan::number_token_end(t, i);
        assert(0 <= p <= t.len());
        assert forall|q: int| 0 <= q <= t.len() implies crate::scan::end_boundary(
            s + t,
            s.len() + q,
        ) == crate::scan::end_boundary(t, q) by {
            if q < t.len() {
                assert((s + t)[s.len() + q] == t[q]);
            }
        }
    }
}

/// Every run of duration terms has a non-negative millisecond sum, and
/// consumes text forward without overrunning it.
pub proof fn lemma_duration_terms_props(s: Seq<char>, i: int)
    requires
        0 <= i <= s.len(),
    ensures
        duration_terms(s, i) matches Some(u) ==> 0 <= u.0 && i < u.1 <= s.len(),
        duration_term(s, i) matches Some(w) ==> 0 <= w.0 && i < w.1 <= s.len(),
    decreases s.len() - i,
{
    lemma_digit_run_end_props(s, i);
    if crate::scan::has_number(s, i) {
        let j = digit_run_end(s, i);
        if j < s.len() && s[j] == '.' {
            lemma_digit_run_end_props(s, j + 1);
            crate::scan::lemma_frac_scaled_bounds(s, j + 1, digit_run_end(s, j + 1), 1000);
            crate::scan::lemma_frac_scaled_bounds(s, j + 1, digit_run_end(s, j + 1), 60000);
            crate::scan::lemma_frac_scaled_bounds(s, j + 1, digit_run_end(s, j + 1), 3600000);
            crate::scan::lemma_frac_scaled_bounds(s, j + 1, digit_run_end(s, j + 1), 86400000);
            crate::scan::lemma_frac_scaled_bounds(s, j + 1, digit_run_end(s, j + 1), 1);
        }
        crate::scan::lemma_digits_val_nonneg(s, i, j);
        lemma_scaled_val_nonneg(s, i, 1000);
        lemma_scaled_val_nonneg(s, i, 60000);
        lemma_scaled_val_nonneg(s, i, 3600000);
        lemma_scaled_val_nonneg(s, i, 86400000);
        lemma_scaled_val_nonneg(s, i, 1);
    }
    match duration_term(s, i) {
        Some(w) => {
            if i < w.1 && w.1 <= s.len() {
                lemma_duration_terms_props(s, w.1);
            }
        },
        None => {},
    }
}

/// Helper: the scaled value of a numeric literal is non-negative and at
/// most the `i64` maximum.
proof fn lemma_scaled_val_nonneg(s: Seq<char>, i: int, m: int)
    requires
        0 <= i <= s.len(),
        crate::scan::has_number(s, i),
        m >= 1,
    ensures
        0 <= crate::scan::number_scaled_val(s, i, m) <= i64::MAX as int,
{
    lemma_digit_run_end_props(s, i);
    let j = digit_run_end(s, i);
    crate::scan::lemma_digits_val_nonneg(s, i, j);
    vstd::arithmetic::mul::lemma_mul_inequality(0, digits_val(s, i, j), m);
    vstd::arithmetic::mul::lemma_mul_is_commutative(digits_val(s, i, j), m);
    if j < s.len() && s[j] == '.' {
        lemma_digit_run_end_props(s, j + 1);
        crate::scan::lemma_frac_scaled_bounds(s, j + 1, digit_run_end(s, j + 1), m);
    }
}

/// A run of duration terms inside an appended suffix is the suffix's
/// own, shifted.
pub proof fn lemma_duration_terms_shift(s: Seq<char>, t: Seq<char>, i: int)
    requires
        0 <= i <= t.len(),
    ensures
        duration_terms(s + t, s.len() + i) == (match duration_terms(t, i) {
            Some(u) => Some((u.0, s.len() + u.1)),
            None => None::<(int, int)>,
        }),
    decreases t.len() - i,
{
    lemma_duration_term_shift(s, t, i);
    lemma_duration_terms_props(t, i);
    match duration_term(t, i) {
        Some(w) => {
            lemma_duration_terms_shift(s, t, w.1);
        },
        None => {},
    }
}

/// A full run of duration terms, followed by appended text that starts
/// with a non-letter non-digit, still parses to the same sum and stops at
/// the prefix's end.
pub proof fn lemma_duration_terms_prefix_stop(s: Seq<char>, t: Seq<char>, i: int, v: int)
    requires
        0 <= i <= s.len(),
        duration_terms(s, i) == Some((v, s.len() as int)),
        t.len() > 0,
        !is_digit(t[0]),
        !crate::scan::is_ascii_letter(t[0]),
    ensures
        duration_terms(s + t, i) == Some((v, s.len() as int)),
    decreases s.len() - i,
{
    lemma_duration_terms_props(s, i);
    lemma_duration_term_prefix(s, t, i);
    match duration_term(s, i) {
        Some(w) => {
            match duration_terms(s, w.1) {
                Some(u) => {
                    lemma_duration_terms_prefix_stop(s, t, w.1, u.0);
                },
                None => {
                    assert(w.1 == s.len() as int);
                    assert((s + t)[s.len() as int] == t[0]);
                    lemma_digit_run_end_of_run(s + t, s.len() as int, s.len() as int);
                    assert(duration_term(s + t, s.len() as int) is None);
                },
            }
        },
        None => {},
    }
}

/// Concatenating two complete duration literals parses to the sum of
/// their sums: concatenation is addition, term by term.
pub proof fn lemma_duration_terms_concat(s: Seq<char>, t: Seq<char>, i: int, va: int, vb: int)
    requires
        0 <= i <= s.len(),
        duration_terms(s, i) == Some((va, s.len() as int)),
        duration_terms(t, 0) == Some((vb, t.len() as int)),
    ensures
        duration_terms(s + t, i) == Some((va + vb, (s + t).len() as int)),
    decreases s.len() - i,
{
    lemma_duration_terms_props(s, i);
    lemma_duration_terms_props(t, 0);
    assert(crate::scan::has_number(t, 0));
    lemma_digit_run_end_props(t, 0);
    assert(is_digit(t[0]));
    assert(!crate::scan::is_ascii_letter(t[0]));
    lemma_duration_term_prefix(s, t, i);
    match duration_term(s, i) {
        Some(w) => {
            match duration_terms(s, w.1) {
                Some(u) => {
                    lemma_duration_terms_concat(s, t, w.1, u.0, vb);
                },
                None => {
                    assert(w.1 == s.len() as int);
                    lemma_duration_terms_shift(s, t, 0);
                },
            }
        },
        None => {},
    }
}

/// A run of digits bounded by a space or the end of the line parses as
/// one timestamp-literal atom, its value clamped to the `i64` maximum.
pub proof fn lemma_ts_literal_atom(s: Seq<char>, st: StateModel, i: int, j: int)
    requires
        0 <= i < j <= s.len(),
        forall|k: int| i <= k < j ==> is_digit(#[trigger] s[k]),
        j == s.len() || s[j] == ' ',
    ensures
        atom(s, st, i) == Some(
            (
                ExprModel::Timestamp(crate::scan::clamp_to_i64_max(digits_val(s, i, j))),
                j,
            ),
        ),
{
    lemma_digit_run_end_of_run(s, i, j);
    assert(crate::scan::number_token_end(s, i) == j);
    assert(duration_term(s, i) is None);
    assert(duration_terms(s, i) is None);
    assert(is_digit(s[i]));
    assert(!is_digit('('));
    assert(!is_digit('-'));
    assert(crate::scan::end_boundary(s, j));
    assert(number_whole_val(s, i) == crate::scan::clamp_to_i64_max(digits_val(s, i, j)));
}

/// The additive tail ` op atom` at `i`: a space, one `+` or `-`, a space,
/// then an atom that reaches the end of the line, folds once and stops.
pub proof fn lemma_one_op_tail(s: Seq<char>, st: StateModel, acc: ExprModel, i: int, v2: ExprModel)
    requires
        0 <= i,
        i + 3 < s.len(),
        s[i] == ' ',
        s[i + 1] == '+' || s[i + 1] == '-',
        s[i + 2] == ' ',
        s[i + 3] != ' ',
        atom(s, st, i + 3) == Some((v2, s.len() as int)),
    ensures
        additive_rest(s, st, acc, i) == ((if s[i + 1] == '+' {
            spec_add(acc, v2)
        } else {
            spec_sub(acc, v2)
        }), s.len() as int),
{
    assert(skip_spaces(s, i + 1) == i + 1);
    assert(skip_spaces(s, i) == i + 1);
    assert(skip_spaces(s, i + 3) == i + 3);
    assert(skip_spaces(s, i + 2) == i + 3);
    let combined = if s[i + 1] == '+' {
        spec_add(acc, v2)
    } else {
        spec_sub(acc, v2)
    };
    assert(skip_spaces(s, s.len() as int) == s.len() as int);
    assert(additive_rest(s, st, combined, s.len() as int) == (combined, s.len() as int));
}

/// Adjacent duration literals with no operator between them sum
/// implicitly: the concatenation of two complete duration literals parses
/// to exactly the algebra's addition of the two durations.
pub proof fn lemma_duration_concatenation(s: Seq<char>, t: Seq<char>, st: StateModel, va: int, vb: int)
    requires
        duration_terms(s, 0) == Some((va, s.len() as int)),
        duration_terms(t, 0) == Some((vb, t.len() as int)),
    ensures
        line_value(s + t, st) == Some(
            spec_add(ExprModel::Duration(va), ExprModel::Duration(vb)),
        ),
{
    lemma_duration_terms_props(s, 0);
    lemma_duration_terms_props(t, 0);
    lemma_duration_terms_concat(s, t, 0, va, vb);
    let w = s + t;
    lemma_digit_run_end_props(s, 0);
    assert(is_digit(s[0]));
    assert(w[0] == s[0]);
    assert(!is_digit('('));
    assert(atom(w, st, 0) == Some(
        (
            if fits_i64(va + vb) {
                ExprModel::Duration(va + vb)
            } else {
                ExprModel::Nothing
            },
            w.len() as int,
        ),
    ));
    assert(skip_spaces(w, w.len() as int) == w.len() as int);
    let x = if fits_i64(va + vb) {
        ExprModel::Duration(va + vb)
    } else {
        ExprModel::Nothing
    };
    assert(additive_rest(w, st, x, w.len() as int) == (x, w.len() as int));
    assert(spec_add(ExprModel::Duration(va), ExprModel::Duration(vb)) == x);
}

/// Two timestamp literals joined by an additive operator, with a space on
/// each side of the operator, parse to exactly the algebra's combination
/// of the two timestamps: for both `+` and `-` the result is re-typed as
/// a seconds-valued duration, or the failure variant on overflow.
pub proof fn lemma_timestamp_pair_op(a: Seq<char>, b: Seq<char>, st: StateModel, op: char)
    requires
        a.len() > 0,
        b.len() > 0,
        forall|k: int| 0 <= k < a.len() ==> is_digit(#[trigger] a[k]),
        forall|k: int| 0 <= k < b.len() ==> is_digit(#[trigger] b[k]),
        op == '+' || op == '-',
    ensures
        ({
            let s = a + seq![' ', op, ' '] + b;
            let ta = ExprModel::Timestamp(
                crate::scan::clamp_to_i64_max(digits_val(a, 0, a.len() as int)),
            );
            let tb = ExprModel::Timestamp(
                crate::scan::clamp_to_i64_max(digits_val(b, 0, b.len() as int)),
            );
            line_value(s, st) == Some(
                if op == '+' {
                    spec_add(ta, tb)
                } else {
                    spec_sub(ta, tb)
                },
            )
        }),
{
    let sep = seq![' ', op, ' '];
    let s1 = a + sep;
    let s = s1 + b;
    let al = a.len() as int;
    assert(s.len() == al + 3 + b.len());
    assert(s =~= a + (sep + b));
    assert forall|k: int| 0 <= k < al implies is_digit(#[trigger] s[k]) by {
        assert(s[k] == a[k]);
    }
    assert(s[al] == ' ');
    assert(s[al + 1] == op);
    assert(s[al + 2] == ' ');
    assert forall|k: int| al + 3 <= k < s.len() implies is_digit(#[trigger] s[k]) by {
        assert(s[k] == b[k - al - 3]);
    }
    lemma_digits_val_prefix(a, sep + b, 0, al);
    lemma_digits_val_shift(s1, b, 0, b.len() as int);
    lemma_ts_literal_atom(s, st, 0, al);
    lemma_ts_literal_atom(s, st, al + 3, s.len() as int);
    let ta = ExprModel::Timestamp(crate::scan::clamp_to_i64_max(digits_val(a, 0, al)));
    let tb = ExprModel::Timestamp(
        crate::scan::clamp_to_i64_max(digits_val(b, 0, b.len() as int)),
    );
    assert(is_digit(s[al + 3]));
    assert(s[al + 3] != ' ');
    lemma_one_op_tail(s, st, ta, al, tb);
    assert(additive(s, st, 0) == Some(((if op == '+' {
        spec_add(ta, tb)
    } else {
        spec_sub(ta, tb)
    }), s.len() as int)));
}

/// A timestamp literal and a duration literal joined by ` + `, in either
/// order, parse to the same value: the timestamp shifted forward by the
/// duration's whole seconds, or the failure variant when the duration
/// overflows. Addition of a timestamp and a duration commutes.
pub proof fn lemma_timestamp_duration_commutes(a: Seq<char>, b: Seq<char>, st: StateModel, vb: int)
    requires
        a.len() > 0,
        forall|k: int| 0 <= k < a.len() ==> is_digit(#[trigger] a[k]),
        duration_terms(b, 0) == Some((vb, b.len() as int)),
    ensures
        ({
            let ta = ExprModel::Timestamp(
                crate::scan::clamp_to_i64_max(digits_val(a, 0, a.len() as int)),
            );
            let db = if fits_i64(vb) {
                ExprModel::Duration(vb)
            } else {
                ExprModel::Nothing
            };
            line_value(a + seq![' ', '+', ' '] + b, st) == Some(spec_add(ta, db))
                && line_value(b + seq![' ', '+', ' '] + a, st) == Some(spec_add(db, ta))
                && spec_add(ta, db) == spec_add(db, ta)
        }),
{
    let sep = seq![' ', '+', ' '];
    let al = a.len() as int;
    let bl = b.len() as int;
    lemma_duration_terms_props(b, 0);
    lemma_digit_run_end_props(b, 0);
    assert(is_digit(b[0]));
    let ta = ExprModel::Timestamp(crate::scan::clamp_to_i64_max(digits_val(a, 0, al)));
    let db = if fits_i64(vb) {
        ExprModel::Duration(vb)
    } else {
        ExprModel::Nothing
    };
    // Timestamp first: `a + b-literal`.
    {
        let s1 = a + sep;
        let s = s1 + b;
        assert(s =~= a + (sep + b));
        assert forall|k: int| 0 <= k < al implies is_digit(#[trigger] s[k]) by {
            assert(s[k] == a[k]);
        }
        assert(s[al] == ' ');
        assert(s[al + 1] == '+');
        assert(s[al + 2] == ' ');
        lemma_digits_val_prefix(a, sep + b, 0, al);
        lemma_ts_literal_atom(s, st, 0, al);
        lemma_duration_terms_shift(s1, b, 0);
        assert(duration_terms(s, al + 3) == Some((vb, s.len() as int)));
        assert(s[al + 3] == b[0]);
        assert(!is_digit('('));
        assert(atom(s, st, al + 3) == Some((db, s.len() as int)));
        assert(s[al + 3] != ' ');
        lemma_one_op_tail(s, st, ta, al, db);
        assert(additive(s, st, 0) == Some((spec_add(ta, db), s.len() as int)));
    }
    // Duration first: `b-literal + a`.
    {
        let s1 = b + sep;
        let s = s1 + a;
        assert(s =~= b + (sep + a));
        lemma_duration_terms_prefix_stop(b, sep + a, 0, vb);
        assert(duration_terms(s, 0) == Some((vb, bl)));
        assert(s[0] == b[0]);
        assert(!is_digit('('));
        assert(atom(s, st, 0) == Some((db, bl)));
        assert(s[bl] == ' ');
        assert(s[bl + 1] == '+');
        assert(s[bl + 2] == ' ');
        assert forall|k: int| bl + 3 <= k < s.len() implies is_digit(#[trigger] s[k]) by {
            assert(s[k] == a[k - bl - 3]);
        }
        lemma_digits_val_shift(s1, a, 0, al);
        lemma_ts_literal_atom(s, st, bl + 3, s.len() as int);
        assert(is_digit(s[bl + 3]));
        assert(s[bl + 3] != ' ');
        lemma_one_op_tail(s, st, db, bl, ta);
        assert(additive(s, st, 0) == Some((spec_add(db, ta), s.len() as int)));
    }
}

} // verus!
