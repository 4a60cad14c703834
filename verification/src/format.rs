//! Rendering values back to text: decimal numbers, the compact
//! unit-suffixed duration form, the fractional-seconds form, and the
//! `UTC±HH:MM` offset form.

use vstd::prelude::*;
use vstd::string::StringExecFns;

verus! {

/// A type that renders itself as a string, pinned by its own
/// specification-level rendering.
pub trait ToFormattedString {
    /// The exact character sequence the rendering produces.
    spec fn fmt_spec(&self) -> Seq<char>;

    /// Render the value.
    fn to_fmt_string(&self) -> (r: String)
        ensures
            r@ == self.fmt_spec(),
    ;
}

/// The character of one decimal digit.
pub open spec fn digit_char(d: int) -> char {
    if d == 0 {
        '0'
    } else if d == 1 {
        '1'
    } else if d == 2 {
        '2'
    } else if d == 3 {
        '3'
    } else if d == 4 {
        '4'
    } else if d == 5 {
        '5'
    } else if d == 6 {
        '6'
    } else if d == 7 {
        '7'
    } else if d == 8 {
        '8'
    } else {
        '9'
    }
}

/// The decimal digits of `n`, most significant first, with no sign and no
/// leading zeros (a single `0` for zero).
pub open spec fn dec_str(n: nat) -> Seq<char>
    decreases n,
{
    if n < 10 {
        seq![digit_char(n as int)]
    } else {
        dec_str(n / 10) + seq![digit_char((n % 10) as int)]
    }
}

/// The decimal digits of `v`, with a leading `-` when negative.
pub open spec fn dec_str_signed(v: int) -> Seq<char> {
    if v < 0 {
        seq!['-'] + dec_str((-v) as nat)
    } else {
        dec_str(v as nat)
    }
}

/// The one-character string of one decimal digit.
fn digit_literal(d: u64) -> (r: &'static str)
    requires
        d < 10,
    ensures
        r@ == seq![digit_char(d as int)],
{
    proof {
        reveal_strlit("0");
        reveal_strlit("1");
        reveal_strlit("2");
        reveal_strlit("3");
        reveal_strlit("4");
        reveal_strlit("5");
        reveal_strlit("6");
        reveal_strlit("7");
        reveal_strlit("8");
        reveal_strlit("9");
    }
    let r: &'static str = match d {
        0 => "0",
        1 => "1",
        2 => "2",
        3 => "3",
        4 => "4",
        5 => "5",
        6 => "6",
        7 => "7",
        8 => "8",
        _ => "9",
    };
    proof {
        assert(r@ =~= seq![digit_char(d as int)]);
    }
    r
}

/// Append the decimal digits of `n` to `out`.
pub fn push_dec(out: &mut String, n: u64)
    ensures
        final (out)@ == old(out)@ + dec_str(n as nat),
    decreases n,
{
    if n >= 10 {
        push_dec(out, n / 10);
    }
    let ds = digit_literal(n % 10);
    out.append(ds);
    proof {
        if n < 10 {
            assert(final (out)@ =~= old(out)@ + dec_str(n as nat));
        } else {
            assert(final (out)@ =~= old(out)@ + dec_str(n as nat));
        }
    }
}

/// The decimal digits of `n` as a string.
pub fn u64_to_string(n: u64) -> (r: String)
    ensures
        r@ == dec_str(n as nat),
{
    let mut out = String::new();
    push_dec(&mut out, n);
    proof {
        assert(out@ =~= dec_str(n as nat));
    }
    out
}

/// The decimal digits of `v` as a string, with a leading `-` when
/// negative.
pub fn i64_to_string(v: i64) -> (r: String)
    ensures
        r@ == dec_str_signed(v as int),
{
    if v < 0 {
        let mut out = String::new();
        proof {
            reveal_strlit("-");
        }
        out.append("-");
        let a: u64 = (-(v as i128)) as u64;
        push_dec(&mut out, a);
        proof {
            assert(out@ =~= dec_str_signed(v as int));
        }
        out
    } else {
        u64_to_string(v as u64)
    }
}

/// The non-zero components of an absolute duration of `a` milliseconds, in
/// the fixed order days, hours, minutes, seconds, milliseconds, each value
/// immediately followed by its unit suffix, with no separators.
pub open spec fn duration_parts(a: nat) -> Seq<char> {
    let days = a / 86400000;
    let hours = (a / 3600000) % 24;
    let minutes = (a / 60000) % 60;
    let seconds = (a / 1000) % 60;
    let millis = a % 1000;
    (if days > 0 {
        dec_str(days) + seq!['d']
    } else {
        Seq::<char>::empty()
    }) + (if hours > 0 {
        dec_str(hours) + seq!['h']
    } else {
        Seq::<char>::empty()
    }) + (if minutes > 0 {
        dec_str(minutes) + seq!['m']
    } else {
        Seq::<char>::empty()
    }) + (if seconds > 0 {
        dec_str(seconds) + seq!['s']
    } else {
        Seq::<char>::empty()
    }) + (if millis > 0 {
        dec_str(millis) + seq!['m', 's']
    } else {
        Seq::<char>::empty()
    })
}

/// The compact rendering of a duration of `ms` milliseconds: zero is
/// `0s`; otherwise the non-zero components of the absolute value, with a
/// leading `-` when the duration is negative.
pub open spec fn fmt_duration(ms: int) -> Seq<char> {
    if ms == 0 {
        seq!['0', 's']
    } else if ms < 0 {
        seq!['-'] + duration_parts((-ms) as nat)
    } else {
        duration_parts(ms as nat)
    }
}

/// Append one non-zero duration component with its unit suffix; a zero
/// component appends nothing.
fn append_unit(out: &mut String, v: u64, suffix: &str)
    ensures
        final (out)@ == old(out)@ + (if v > 0 {
            dec_str(v as nat) + suffix@
        } else {
            Seq::<char>::empty()
        }),
{
    if v > 0 {
        push_dec(out, v);
        out.append(suffix);
    }
    proof {
        assert(final (out)@ =~= old(out)@ + (if v > 0 {
            dec_str(v as nat) + suffix@
        } else {
            Seq::<char>::empty()
        }));
    }
}

/// The non-zero components of an absolute duration of `a` milliseconds.
fn duration_parts_string(a: u64) -> (out: String)
    ensures
        out@ == duration_parts(a as nat),
{
    let mut out = String::new();
    proof {
        reveal_strlit("d");
        reveal_strlit("h");
        reveal_strlit("m");
        reveal_strlit("s");
        reveal_strlit("ms");
    }
    append_unit(&mut out, a / 86400000, "d");
    append_unit(&mut out, (a / 3600000) % 24, "h");
    append_unit(&mut out, (a / 60000) % 60, "m");
    append_unit(&mut out, (a / 1000) % 60, "s");
    append_unit(&mut out, a % 1000, "ms");
    proof {
        assert("d"@ =~= seq!['d']);
        assert("h"@ =~= seq!['h']);
        assert("m"@ =~= seq!['m']);
        assert("s"@ =~= seq!['s']);
        assert("ms"@ =~= seq!['m', 's']);
        assert(out@ =~= duration_parts(a as nat));
    }
    out
}

impl ToFormattedString for crate::expr::Duration {
    open spec fn fmt_spec(&self) -> Seq<char> {
        fmt_duration(self.ms as int)
    }

    fn to_fmt_string(&self) -> (r: String) {
        if self.ms == 0 {
            proof {
                reveal_strlit("0s");
            }
            let out = String::from_str("0s");
            proof {
                assert(out@ =~= seq!['0', 's']);
            }
            return out;
        }
        let neg = self.ms < 0;
        let a: u64 = if neg {
            (-(self.ms as i128)) as u64
        } else {
            self.ms as u64
        };
        let mut out = String::new();
        proof {
            reveal_strlit("-");
        }
        if neg {
            out.append("-");
        }
        let parts = duration_parts_string(a);
        out.append(parts.as_str());
        proof {
            assert(out@ =~= fmt_duration(self.ms as int));
        }
        out
    }
}

/// The fractional digits of `r` thousandths: three zero-padded digits with
/// the trailing zeros removed.
pub open spec fn ms_frac_digits(r: int) -> Seq<char> {
    if r % 10 != 0 {
        seq![digit_char(r / 100), digit_char((r / 10) % 10), digit_char(r % 10)]
    } else if r % 100 != 0 {
        seq![digit_char(r / 100), digit_char((r / 10) % 10)]
    } else {
        seq![digit_char(r / 100)]
    }
}

/// A duration of `ms` milliseconds as exact fractional seconds: the whole
/// seconds, then, when the thousandths are not zero, a dot and the
/// fractional digits without trailing zeros; a leading `-` when negative.
pub open spec fn ms_decimal(ms: int) -> Seq<char> {
    let a = if ms < 0 {
        -ms
    } else {
        ms
    };
    let sign: Seq<char> = if ms < 0 {
        seq!['-']
    } else {
        Seq::<char>::empty()
    };
    let r = a % 1000;
    if r == 0 {
        sign + dec_str((a / 1000) as nat)
    } else {
        sign + dec_str((a / 1000) as nat) + seq!['.'] + ms_frac_digits(r)
    }
}

/// Render a duration of `ms` milliseconds as fractional seconds.
pub fn ms_to_decimal_string(ms: i64) -> (out: String)
    ensures
        out@ == ms_decimal(ms as int),
{
    let a: u64 = if ms < 0 {
        (-(ms as i128)) as u64
    } else {
        ms as u64
    };
    let r = a % 1000;
    let mut out = String::new();
    proof {
        reveal_strlit("-");
        reveal_strlit(".");
    }
    if ms < 0 {
        out.append("-");
    }
    push_dec(&mut out, a / 1000);
    if r > 0 {
        out.append(".");
        let d2 = r / 100;
        let d1 = (r / 10) % 10;
        let d0 = r % 10;
        if d0 != 0 {
            out.append(digit_literal(d2));
            out.append(digit_literal(d1));
            out.append(digit_literal(d0));
        } else if d1 != 0 {
            out.append(digit_literal(d2));
            out.append(digit_literal(d1));
        } else {
            out.append(digit_literal(d2));
        }
    }
    proof {
        assert(out@ =~= ms_decimal(ms as int));
    }
    out
}

/// The `UTC±HH:MM` rendering of an offset of `h` whole hours.
pub open spec fn offset_utc_string(h: int) -> Seq<char> {
    let a = if h < 0 {
        -h
    } else {
        h
    };
    let sign = if h < 0 {
        '-'
    } else {
        '+'
    };
    seq!['U', 'T', 'C', sign, digit_char(a / 10), digit_char(a % 10), ':', '0', '0']
}

/// Render an offset of `h` whole hours as `UTC±HH:MM`.
pub fn offset_to_string(h: i32) -> (out: String)
    requires
        -23 <= h <= 23,
    ensures
        out@ == offset_utc_string(h as int),
{
    let a: u64 = if h < 0 {
        (-h) as u64
    } else {
        h as u64
    };
    let mut out = String::new();
    proof {
        reveal_strlit("UTC+");
        reveal_strlit("UTC-");
        reveal_strlit(":00");
    }
    if h < 0 {
        out.append("UTC-");
    } else {
        out.append("UTC+");
    }
    out.append(digit_literal(a / 10));
    out.append(digit_literal(a % 10));
    out.append(":00");
    proof {
        assert(out@ =~= offset_utc_string(h as int));
    }
    out
}

} // verus!
