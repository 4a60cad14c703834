//! Calendar-date validity and the conversion from civil date-time fields to
//! Unix timestamps, the latter through `chrono`.

use vstd::prelude::*;

verus! {

/// Is `y` a leap year of the proleptic Gregorian calendar?
pub open spec fn is_leap_year(y: int) -> bool {
    (y % 4 == 0 && y % 100 != 0) || y % 400 == 0
}

/// The number of days in month `m` of year `y`; 0 for an invalid month.
pub open spec fn days_in_month(y: int, m: int) -> int {
    if m == 1 || m == 3 || m == 5 || m == 7 || m == 8 || m == 10 || m == 12 {
        31
    } else if m == 4 || m == 6 || m == 9 || m == 11 {
        30
    } else if m == 2 {
        if is_leap_year(y) {
            29
        } else {
            28
        }
    } else {
        0
    }
}

/// Do the six fields name an existing calendar date and clock time?
/// The year is restricted to the four-digit range the grammar can produce.
pub open spec fn valid_civil(y: int, mo: int, d: int, h: int, mi: int, s: int) -> bool {
    &&& 0 <= y <= 9999
    &&& 1 <= mo <= 12
    &&& 1 <= d <= days_in_month(y, mo)
    &&& 0 <= h <= 23
    &&& 0 <= mi <= 59
    &&& 0 <= s <= 59
}

/// The Unix timestamp, in UTC seconds, of a valid civil date-time read in
/// UTC. The value is computed by `chrono`; nothing in this crate defines it.
pub uninterp spec fn epoch_of(y: int, mo: int, d: int, h: int, mi: int, s: int) -> int;

/// The earliest timestamp of the four-digit-year range: 0000-01-01 00:00:00 UTC.
pub const CIVIL_EPOCH_MIN: i64 = -62167219200;

/// The latest timestamp of the four-digit-year range: 9999-12-31 23:59:59 UTC.
pub const CIVIL_EPOCH_MAX: i64 = 253402300799;

/// Relies on chrono's `NaiveDate::from_ymd_opt` and
/// `NaiveDate::and_hms_opt`: together they accept exactly the existing
/// proleptic-Gregorian calendar dates and clock times (four-digit years are
/// always inside chrono's year range), and `DateTime::timestamp` then gives
/// the UTC epoch seconds, a fixed function of the six fields whose value
/// stays inside the four-digit-year timestamp range.
#[verifier::external_body]
fn chrono_civil_to_epoch(year: u32, month: u32, day: u32, hour: u32, minute: u32, second: u32) -> (r:
    Option<i64>)
    requires
        year <= 9999,
    ensures
        (r is Some) == valid_civil(
            year as int,
            month as int,
            day as int,
            hour as int,
            minute as int,
            second as int,
        ),
        r matches Some(t) ==> t == epoch_of(
            year as int,
            month as int,
            day as int,
            hour as int,
            minute as int,
            second as int,
        ) && CIVIL_EPOCH_MIN <= t <= CIVIL_EPOCH_MAX,
{
    match chrono::NaiveDate::from_ymd_opt(year as i32, month, day) {
        Some(date) => match date.and_hms_opt(hour, minute, second) {
            Some(dt) => Some(dt.and_utc().timestamp()),
            None => None,
        },
        None => None,
    }
}

/// The timestamp of the civil fields read in a fixed offset of
/// `off` whole hours, as an expression: the failure variant when the fields
/// do not name an existing date-time.
pub open spec fn civil_expr(y: int, mo: int, d: int, h: int, mi: int, s: int, off: int) -> crate::expr::ExprModel {
    if valid_civil(y, mo, d, h, mi, s) {
        crate::expr::ExprModel::Timestamp(epoch_of(y, mo, d, h, mi, s) - off * 3600)
    } else {
        crate::expr::ExprModel::Nothing
    }
}

/// Resolve civil fields in a fixed offset of `off` whole hours to an
/// expression: an invalid date or time is the failure variant, not an error.
pub fn resolve_civil(year: u32, month: u32, day: u32, hour: u32, minute: u32, second: u32, off: i32) -> (r:
    crate::expr::Expression)
    requires
        year <= 9999,
        -23 <= off <= 23,
    ensures
        r@ == civil_expr(
            year as int,
            month as int,
            day as int,
            hour as int,
            minute as int,
            second as int,
            off as int,
        ),
{
    match chrono_civil_to_epoch(year, month, day, hour, minute, second) {
        Some(t) => crate::expr::Expression::Timestamp(t - (off as i64) * 3600),
        None => crate::expr::Expression::Nothing,
    }
}

} // verus!
