//! The expression algebra: typed addition and subtraction over timestamps
//! and durations, with every overflow mapped to the failure variant.

use vstd::prelude::*;

verus! {

/// Mathematical model of an expression value: the same four variants as
/// [`Expression`], but over unbounded integers.
pub enum ExprModel {
    /// An absolute point in time, in whole UTC seconds since the epoch.
    Timestamp(int),
    /// A signed span of time, in milliseconds.
    Duration(int),
    /// A declared UTC offset, in whole hours.
    Offset(int),
    /// An unparseable, invalid, or failed value.
    Nothing,
}

/// Does a mathematical value fit in an `i64`?
pub open spec fn fits_i64(v: int) -> bool {
    i64::MIN <= v <= i64::MAX
}

/// The number of whole seconds in a span of `ms` milliseconds, truncated
/// toward zero, as for a signed integer division by 1000.
pub open spec fn whole_seconds(ms: int) -> int {
    if ms >= 0 {
        ms / 1000
    } else {
        -((-ms) / 1000)
    }
}

/// A signed span of time with millisecond resolution.
#[derive(Clone, Copy, PartialEq, Eq, Structural, Debug)]
pub struct Duration {
    pub ms: i64,
}

impl Duration {
    /// The span of `ms` milliseconds.
    pub fn milliseconds(ms: i64) -> (r: Duration)
        ensures
            r.ms == ms,
    {
        Duration { ms }
    }

    /// The span of `s` whole seconds.
    pub fn seconds(s: i64) -> (r: Duration)
        requires
            fits_i64(s * 1000),
        ensures
            r.ms == s * 1000,
    {
        Duration { ms: s * 1000 }
    }

    /// The whole number of milliseconds in the span.
    pub fn num_milliseconds(&self) -> (r: i64)
        ensures
            r == self.ms,
    {
        self.ms
    }

    /// The whole number of seconds in the span, truncated toward zero.
    pub fn num_seconds(&self) -> (r: i64)
        ensures
            r as int == whole_seconds(self.ms as int),
    {
        if self.ms >= 0 {
            let q: u64 = (self.ms as u64) / 1000;
            q as i64
        } else {
            let a: u64 = (-(self.ms as i128)) as u64;
            let q: u64 = a / 1000;
            assert(a == -(self.ms as int));
            assert(q == (-(self.ms as int)) / 1000);
            -(q as i64)
        }
    }
}

/// One parsed line's value: a tagged union with exactly one active variant.
#[derive(Clone, Copy, PartialEq, Eq, Structural, Debug)]
pub enum Expression {
    /// A declared UTC offset, in whole hours, bounded to [-23, 23].
    Offset(i32),
    /// A signed span of time.
    Duration(Duration),
    /// An absolute point in time, in whole UTC seconds since the epoch.
    Timestamp(i64),
    /// An unparseable, invalid, or failed line.
    Nothing,
}

impl View for Expression {
    type V = ExprModel;

    open spec fn view(&self) -> ExprModel {
        match *self {
            Expression::Offset(h) => ExprModel::Offset(h as int),
            Expression::Duration(d) => ExprModel::Duration(d.ms as int),
            Expression::Timestamp(t) => ExprModel::Timestamp(t as int),
            Expression::Nothing => ExprModel::Nothing,
        }
    }
}

/// A timestamp shifted by a number of seconds, or the failure variant on
/// overflow.
pub open spec fn shifted_timestamp(t: int, s: int) -> ExprModel {
    if fits_i64(t + s) {
        ExprModel::Timestamp(t + s)
    } else {
        ExprModel::Nothing
    }
}

/// A number of seconds re-typed as a duration (stored in milliseconds), or
/// the failure variant if either step overflows.
pub open spec fn seconds_as_duration(s: int) -> ExprModel {
    if fits_i64(s) && fits_i64(s * 1000) {
        ExprModel::Duration(s * 1000)
    } else {
        ExprModel::Nothing
    }
}

/// The addition table of the algebra.
///
/// Mixed operand kinds decide the result kind: two durations add as
/// durations, a timestamp shifted by a duration stays a timestamp, and two
/// timestamps added together are re-typed as a seconds-valued duration.
/// Any combination involving an offset or a failed value, and any overflow,
/// is the failure variant.
pub open spec fn spec_add(a: ExprModel, b: ExprModel) -> ExprModel {
    match (a, b) {
        (ExprModel::Duration(l), ExprModel::Duration(r)) => if fits_i64(l + r) {
            ExprModel::Duration(l + r)
        } else {
            ExprModel::Nothing
        },
        (ExprModel::Duration(l), ExprModel::Timestamp(r)) => shifted_timestamp(
            r,
            whole_seconds(l),
        ),
        (ExprModel::Timestamp(l), ExprModel::Duration(r)) => shifted_timestamp(
            l,
            whole_seconds(r),
        ),
        (ExprModel::Timestamp(l), ExprModel::Timestamp(r)) => seconds_as_duration(l + r),
        _ => ExprModel::Nothing,
    }
}

/// The subtraction table of the algebra.
///
/// The `Duration - Timestamp` row is deliberately asymmetric with
/// `Timestamp - Duration`: it subtracts the timestamp from the duration's
/// whole seconds and produces a timestamp.
pub open spec fn spec_sub(a: ExprModel, b: ExprModel) -> ExprModel {
    match (a, b) {
        (ExprModel::Duration(l), ExprModel::Duration(r)) => if fits_i64(l - r) {
            ExprModel::Duration(l - r)
        } else {
            ExprModel::Nothing
        },
        (ExprModel::Duration(l), ExprModel::Timestamp(r)) => shifted_timestamp(
            -r,
            whole_seconds(l),
        ),
        (ExprModel::Timestamp(l), ExprModel::Duration(r)) => shifted_timestamp(
            l,
            -whole_seconds(r),
        ),
        (ExprModel::Timestamp(l), ExprModel::Timestamp(r)) => seconds_as_duration(l - r),
        _ => ExprModel::Nothing,
    }
}

impl Expression {
    /// A timestamp from an optional seconds value, with `None` mapped to the
    /// failure variant.
    pub fn timestamp(timestamp: Option<i64>) -> (r: Expression)
        ensures
            r@ == match timestamp {
                Some(t) => ExprModel::Timestamp(t as int),
                None => ExprModel::Nothing,
            },
    {
        match timestamp {
            Some(t) => Expression::Timestamp(t),
            None => Expression::Nothing,
        }
    }

    /// A duration from an optional seconds value, with overflow and `None`
    /// mapped to the failure variant.
    pub fn seconds(seconds: Option<i64>) -> (r: Expression)
        ensures
            r@ == match seconds {
                Some(s) => seconds_as_duration(s as int),
                None => ExprModel::Nothing,
            },
    {
        match seconds {
            Some(s) => Expression::milliseconds(s.checked_mul(1000)),
            None => Expression::Nothing,
        }
    }

    /// A duration from an optional milliseconds value, with `None` mapped to
    /// the failure variant.
    pub fn milliseconds(milliseconds: Option<i64>) -> (r: Expression)
        ensures
            r@ == match milliseconds {
                Some(ms) => ExprModel::Duration(ms as int),
                None => ExprModel::Nothing,
            },
    {
        match milliseconds {
            Some(ms) => Expression::Duration(Duration::milliseconds(ms)),
            None => Expression::Nothing,
        }
    }

    /// Addition over the algebra: exactly the table of [`spec_add`].
    pub fn add(self, rhs: Expression) -> (r: Expression)
        ensures
            r@ == spec_add(self@, rhs@),
    {
        match (self, rhs) {
            (Expression::Duration(l), Expression::Duration(r)) => Expression::milliseconds(
                l.ms.checked_add(r.ms),
            ),
            (Expression::Duration(l), Expression::Timestamp(r)) => Expression::timestamp(
                r.checked_add(l.num_seconds()),
            ),
            (Expression::Timestamp(l), Expression::Duration(r)) => Expression::timestamp(
                l.checked_add(r.num_seconds()),
            ),
            (Expression::Timestamp(l), Expression::Timestamp(r)) => Expression::seconds(
                l.checked_add(r),
            ),
            _ => Expression::Nothing,
        }
    }

    /// Subtraction over the algebra: exactly the table of [`spec_sub`].
    pub fn sub(self, rhs: Expression) -> (r: Expression)
        ensures
            r@ == spec_sub(self@, rhs@),
    {
        match (self, rhs) {
            (Expression::Duration(l), Expression::Duration(r)) => Expression::milliseconds(
                l.ms.checked_sub(r.ms),
            ),
            (Expression::Duration(l), Expression::Timestamp(r)) => Expression::timestamp(
                l.num_seconds().checked_sub(r),
            ),
            (Expression::Timestamp(l), Expression::Duration(r)) => Expression::timestamp(
                l.checked_sub(r.num_seconds()),
            ),
            (Expression::Timestamp(l), Expression::Timestamp(r)) => Expression::seconds(
                l.checked_sub(r),
            ),
            _ => Expression::Nothing,
        }
    }
}

} // verus!
