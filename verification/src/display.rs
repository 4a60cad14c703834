//! The presentation layer's per-record projections: each resolved line as
//! a date-time display string and as a numeric string, and the aligned
//! two-column rendering of a whole document.

use crate::directive::lemma_trim_from_props;
use crate::directive::lemma_trim_until_props;
use crate::directive::trim_from;
use crate::directive::trim_until;
use crate::document::doc_records;
use crate::document::lemma_doc_records_offsets_bounded;
use crate::document::p_line_break;
use crate::document::split_lines;
use crate::document::split_lines_from;
use crate::document::Record;
use crate::document::RecordModel;
use crate::expr::Duration;
use crate::expr::ExprModel;
use crate::format::dec_str_signed;
use crate::format::fmt_duration;
use crate::format::ms_decimal;
use crate::format::ms_to_decimal_string;
use crate::format::offset_to_string;
use crate::format::offset_utc_string;
use crate::format::ToFormattedString;
use crate::grammar::offset_bounded;
use vstd::prelude::*;
use vstd::string::StringExecFns;
use vstd::string::StrSliceExecFns;

verus! {

/// The text that chrono renders for the timestamp `t` in a fixed offset of
/// `offset_hours` whole hours: a `YYYY-MM-DD HH:MM:SS +HH:MM` local
/// date-time. The value is computed by `chrono`; nothing in this crate
/// defines it.
pub uninterp spec fn ts_display(t: int, offset_hours: int) -> Seq<char>;

/// Whether the timestamp `t` lies in the range that chrono's calendar can
/// hold, which decides whether a record can be rendered as a date-time.
pub uninterp spec fn ts_renderable(t: int) -> bool;

/// Relies on chrono's `DateTime::from_timestamp`, which accepts exactly
/// the timestamps inside chrono's calendar range, and on the `Display` of
/// `DateTime<FixedOffset>`, which renders the local date-time in the given
/// offset followed by the `+HH:MM` offset; both are fixed functions of the
/// timestamp and the offset.
#[verifier::external_body]
fn chrono_format_timestamp(t: i64, offset_hours: i32) -> (r: Option<String>)
    requires
        -23 <= offset_hours <= 23,
    ensures
        (r is Some) == ts_renderable(t as int),
        r matches Some(s) ==> s@ == ts_display(t as int, offset_hours as int),
{
    match chrono::DateTime::from_timestamp(t, 0) {
        Some(dt) => {
            let off = chrono::FixedOffset::east_opt(offset_hours * 3600).unwrap();
            Some(dt.with_timezone(&off).to_string())
        },
        None => None,
    }
}

/// Mathematical model of one rendered record.
pub enum RenderedModel {
    /// A timestamp in chrono's range, with its pre-rendered date-time text.
    DateTime { ts: int, text: Seq<char> },
    /// A signed span of time, in milliseconds.
    Duration(int),
    /// A declared offset, with its pre-rendered `UTC±HH:MM` text.
    Offset { hours: int, text: Seq<char> },
    /// A failed line, or a timestamp outside chrono's range.
    Nothing,
}

/// One line prepared for display: the date-time and offset texts are
/// rendered once, when the record is built.
#[derive(Clone, PartialEq, Debug)]
pub enum Rendered {
    DateTime { ts: i64, text: String },
    Duration(Duration),
    Offset { hours: i32, text: String },
    Nothing,
}

impl View for Rendered {
    type V = RenderedModel;

    open spec fn view(&self) -> RenderedModel {
        match self {
            Rendered::DateTime { ts, text } => RenderedModel::DateTime {
                ts: *ts as int,
                text: text@,
            },
            Rendered::Duration(d) => RenderedModel::Duration(d.ms as int),
            Rendered::Offset { hours, text } => RenderedModel::Offset {
                hours: *hours as int,
                text: text@,
            },
            Rendered::Nothing => RenderedModel::Nothing,
        }
    }
}

/// The rendered form of one resolved line: a timestamp becomes a date-time
/// in the record's own offset when chrono's range admits it, a declared
/// offset carries its `UTC±HH:MM` text, and everything else keeps its
/// variant.
pub open spec fn rendered_of(rec: RecordModel) -> RenderedModel {
    match rec.expression {
        ExprModel::Timestamp(t) => if ts_renderable(t) {
            RenderedModel::DateTime { ts: t, text: ts_display(t, rec.offset) }
        } else {
            RenderedModel::Nothing
        },
        ExprModel::Duration(ms) => RenderedModel::Duration(ms),
        ExprModel::Offset(h) => RenderedModel::Offset { hours: h, text: offset_utc_string(h) },
        ExprModel::Nothing => RenderedModel::Nothing,
    }
}

/// The date-time display string of a rendered record: the pre-rendered
/// date-time or offset text, the compact unit form for a duration, and a
/// placeholder ellipsis for a failed line.
pub open spec fn datetime_string_of(r: RenderedModel) -> Seq<char> {
    match r {
        RenderedModel::DateTime { text, .. } => text,
        RenderedModel::Duration(ms) => fmt_duration(ms),
        RenderedModel::Offset { text, .. } => text,
        RenderedModel::Nothing => seq!['.', '.', '.'],
    }
}

/// The numeric display string of a rendered record: whole epoch seconds
/// for a date-time, exact fractional seconds for a duration, the offset
/// text for an offset, and the placeholder ellipsis for a failed line.
pub open spec fn timestamp_string_of(r: RenderedModel) -> Seq<char> {
    match r {
        RenderedModel::DateTime { ts, .. } => dec_str_signed(ts),
        RenderedModel::Duration(ms) => ms_decimal(ms),
        RenderedModel::Offset { text, .. } => text,
        RenderedModel::Nothing => seq!['.', '.', '.'],
    }
}

impl Rendered {
    /// A date-time from a timestamp and the offset it is displayed in;
    /// a timestamp outside chrono's range renders as a failed line.
    pub fn timestamp(timestamp: i64, offset: i32) -> (r: Rendered)
        requires
            -23 <= offset <= 23,
        ensures
            r@ == (if ts_renderable(timestamp as int) {
                RenderedModel::DateTime {
                    ts: timestamp as int,
                    text: ts_display(timestamp as int, offset as int),
                }
            } else {
                RenderedModel::Nothing
            }),
    {
        match chrono_format_timestamp(timestamp, offset) {
            Some(text) => Rendered::DateTime { ts: timestamp, text },
            None => Rendered::Nothing,
        }
    }

    /// A duration, kept as it is.
    pub fn duration(duration: Duration) -> (r: Rendered)
        ensures
            r@ == RenderedModel::Duration(duration.ms as int),
    {
        Rendered::Duration(duration)
    }

    /// The rendered form of a failed line.
    pub fn empty() -> (r: Rendered)
        ensures
            r@ == RenderedModel::Nothing,
    {
        Rendered::Nothing
    }

    /// The rendered form of one resolved line: exactly [`rendered_of`].
    pub fn from_record(rec: &Record) -> (r: Rendered)
        requires
            -23 <= rec.offset <= 23,
            offset_bounded(rec@.expression),
        ensures
            r@ == rendered_of(rec@),
    {
        match rec.expression {
            crate::expr::Expression::Timestamp(t) => Rendered::timestamp(t, rec.offset),
            crate::expr::Expression::Duration(d) => Rendered::duration(d),
            crate::expr::Expression::Offset(h) => Rendered::Offset {
                hours: h,
                text: offset_to_string(h),
            },
            crate::expr::Expression::Nothing => Rendered::empty(),
        }
    }

    /// The date-time display string: exactly [`datetime_string_of`].
    pub fn to_datetime_string(&self) -> (r: String)
        ensures
            r@ == datetime_string_of(self@),
    {
        match self {
            Rendered::DateTime { text, .. } => text.clone(),
            Rendered::Duration(d) => d.to_fmt_string(),
            Rendered::Offset { text, .. } => text.clone(),
            Rendered::Nothing => {
                proof {
                    reveal_strlit("...");
                }
                let out = String::from_str("...");
                proof {
                    assert(out@ =~= seq!['.', '.', '.']);
                }
                out
            },
        }
    }

    /// The numeric display string: exactly [`timestamp_string_of`].
    pub fn to_timestamp_string(&self) -> (r: String)
        ensures
            r@ == timestamp_string_of(self@),
    {
        match self {
            Rendered::DateTime { ts, .. } => crate::format::i64_to_string(*ts),
            Rendered::Duration(d) => ms_to_decimal_string(d.ms),
            Rendered::Offset { text, .. } => text.clone(),
            Rendered::Nothing => {
                proof {
                    reveal_strlit("...");
                }
                let out = String::from_str("...");
                proof {
                    assert(out@ =~= seq!['.', '.', '.']);
                }
                out
            },
        }
    }
}

/// Parse a whole document and prepare every record for display.
pub fn parse(input: &str, now: i64) -> (out: Vec<Rendered>)
    ensures
        out@.map_values(|r: Rendered| r@) == doc_records(input@, now as int).map_values(
            |rec: RecordModel| rendered_of(rec),
        ),
{
    let records = crate::document::parse(String::from_str(input), now);
    proof {
        lemma_doc_records_offsets_bounded(input@, now as int);
    }
    let ghost recs_model = doc_records(input@, now as int);
    let mut out: Vec<Rendered> = Vec::new();
    let mut k: usize = 0;
    while k < records.len()
        invariant
            records@.map_values(|r: Record| r@) == recs_model,
            recs_model == doc_records(input@, now as int),
            forall|i: int|
                0 <= i < recs_model.len() ==> -23 <= (#[trigger] recs_model[i]).offset <= 23
                    && offset_bounded(recs_model[i].expression),
            k <= records@.len(),
            out@.map_values(|r: Rendered| r@) == recs_model.take(k as int).map_values(
                |rec: RecordModel| rendered_of(rec),
            ),
        decreases records@.len() - k,
    {
        proof {
            assert(records@[k as int]@ == recs_model[k as int]);
        }
        let r = Rendered::from_record(&records[k]);
        out.push(r);
        proof {
            assert(out@.map_values(|r: Rendered| r@) =~= recs_model.take(k as int).map_values(
                |rec: RecordModel| rendered_of(rec),
            ).push(rendered_of(recs_model[k as int])));
            assert(recs_model.take(k as int + 1).map_values(|rec: RecordModel| rendered_of(rec))
                =~= recs_model.take(k as int).map_values(|rec: RecordModel| rendered_of(rec)).push(
                rendered_of(recs_model[k as int]),
            ));
        }
        k = k + 1;
    }
    proof {
        assert(recs_model.take(recs_model.len() as int) =~= recs_model);
    }
    out
}

/// The line with its surrounding whitespace removed.
pub open spec fn trimmed(s: Seq<char>) -> Seq<char> {
    let a = trim_from(s, 0);
    let b = trim_until(s, s.len() as int);
    if a <= b {
        s.subrange(a, b)
    } else {
        Seq::empty()
    }
}

/// `k` spaces.
pub open spec fn spaces(k: int) -> Seq<char>
    decreases k when k >= 0
{
    if k <= 0 {
        Seq::empty()
    } else {
        spaces(k - 1).push(' ')
    }
}

/// The line padded with spaces on the right to width `w`.
pub open spec fn pad_to(s: Seq<char>, w: int) -> Seq<char> {
    s + spaces(w - s.len())
}

/// The width of the widest trimmed line.
pub open spec fn max_trimmed_len(lines: Seq<Seq<char>>) -> int
    decreases lines.len(),
{
    if lines.len() == 0 {
        0
    } else {
        let rest = max_trimmed_len(lines.drop_first());
        let l = trimmed(lines[0]).len() as int;
        if l > rest {
            l
        } else {
            rest
        }
    }
}

/// The two-column body: each trimmed input line padded to width `w`, a
/// space, and the matching record's date-time string, the rows joined by
/// line feeds; rows exist as far as both lines and records reach.
pub open spec fn container_lines(lines: Seq<Seq<char>>, recs: Seq<RenderedModel>, w: int) -> Seq<
    char,
>
    decreases lines.len(),
{
    if lines.len() == 0 || recs.len() == 0 {
        Seq::empty()
    } else {
        let piece = pad_to(trimmed(lines[0]), w) + seq![' '] + datetime_string_of(recs[0]);
        if lines.len() > 1 && recs.len() > 1 {
            piece + seq!['\n'] + container_lines(lines.drop_first(), recs.drop_first(), w)
        } else {
            piece
        }
    }
}

/// The aligned rendering of a whole document next to its records.
pub open spec fn container_string(input: Seq<char>, recs: Seq<RenderedModel>) -> Seq<char> {
    container_lines(split_lines(input), recs, max_trimmed_len(split_lines(input)))
}

/// Trimming never lengthens a line.
pub proof fn lemma_trimmed_len(s: Seq<char>)
    ensures
        trimmed(s).len() <= s.len(),
{
    lemma_trim_from_props(s, 0);
    lemma_trim_until_props(s, s.len() as int);
}

/// The line with its surrounding whitespace removed.
pub fn trim_line<'a>(line: &'a str) -> (r: &'a str)
    ensures
        r@ == trimmed(line@),
{
    let n = line.unicode_len();
    proof {
        lemma_trim_from_props(line@, 0);
        lemma_trim_until_props(line@, n as int);
    }
    let mut a: usize = 0;
    loop
        invariant
            n == line@.len(),
            a <= n,
            trim_from(line@, 0) == trim_from(line@, a as int),
        ensures
            a <= n,
            a as int == trim_from(line@, 0),
        decreases n - a,
    {
        if a >= n {
            break ;
        }
        let c = line.get_char(a);
        if !(c == ' ' || c == '\t' || c == '\n' || c == '\r' || c == '\u{b}' || c == '\u{c}') {
            break ;
        }
        a = a + 1;
    }
    let mut b: usize = n;
    loop
        invariant
            n == line@.len(),
            b <= n,
            trim_until(line@, n as int) == trim_until(line@, b as int),
        ensures
            b <= n,
            b as int == trim_until(line@, n as int),
        decreases b,
    {
        if b == 0 {
            break ;
        }
        let c = line.get_char(b - 1);
        if !(c == ' ' || c == '\t' || c == '\n' || c == '\r' || c == '\u{b}' || c == '\u{c}') {
            break ;
        }
        b = b - 1;
    }
    if a >= b {
        let r = line.substring_char(0, 0);
        proof {
            assert(r@ =~= trimmed(line@));
        }
        r
    } else {
        let r = line.substring_char(a, b);
        proof {
            assert(r@ =~= trimmed(line@));
        }
        r
    }
}

/// Append `k` spaces to `out`.
fn pad_spaces(out: &mut String, k: usize)
    ensures
        final (out)@ == old(out)@ + spaces(k as int),
{
    let mut i: usize = 0;
    while i < k
        invariant
            i <= k,
            out@ == old(out)@ + spaces(i as int),
        decreases k - i,
    {
        proof {
            reveal_strlit(" ");
        }
        out.append(" ");
        proof {
            assert(out@ =~= old(out)@ + spaces(i as int + 1));
        }
        i = i + 1;
    }
    proof {
        assert(out@ =~= old(out)@ + spaces(k as int));
    }
}

/// The larger of two values.
pub open spec fn int_max(a: int, b: int) -> int {
    if a > b {
        a
    } else {
        b
    }
}

/// The width of the widest trimmed line of the document.
fn compute_width(s: &str, n: usize) -> (w: usize)
    requires
        n == s@.len(),
    ensures
        w as int == max_trimmed_len(split_lines(s@)),
{
    let mut w: usize = 0;
    let mut pos: usize = 0;
    loop
        invariant_except_break
            max_trimmed_len(split_lines(s@)) == int_max(
                w as int,
                max_trimmed_len(split_lines_from(s@, pos as int)),
            ),
        invariant
            n == s@.len(),
            pos <= n,
            w <= n,
        ensures
            w as int == max_trimmed_len(split_lines(s@)),
        decreases n - pos,
    {
        let j = p_line_break(s, n, pos);
        let line = s.substring_char(pos, j);
        let t = trim_line(line);
        let l = t.unicode_len();
        let ghost lines_rest = split_lines_from(s@, pos as int);
        proof {
            crate::document::lemma_line_break_props(s@, pos as int);
            assert(lines_rest[0] == s@.subrange(pos as int, j as int));
            assert(t@ == trimmed(lines_rest[0]));
            lemma_trimmed_len(line@);
            assert(max_trimmed_len(lines_rest) == int_max(
                trimmed(lines_rest[0]).len() as int,
                max_trimmed_len(lines_rest.drop_first()),
            ));
        }
        if l > w {
            w = l;
        }
        if j == n {
            proof {
                assert(lines_rest =~= seq![s@.subrange(pos as int, j as int)]);
                assert(lines_rest.drop_first() =~= Seq::<Seq<char>>::empty());
                assert(max_trimmed_len(Seq::<Seq<char>>::empty()) == 0);
            }
            break ;
        }
        proof {
            assert(lines_rest.drop_first() =~= split_lines_from(s@, j as int + 1));
        }
        pos = j + 1;
    }
    w
}

/// Render the two-column body: exactly [`container_lines`].
fn render_lines(s: &str, n: usize, records: &Vec<Rendered>, w: usize) -> (out: String)
    requires
        n == s@.len(),
        max_trimmed_len(split_lines(s@)) <= w as int,
    ensures
        out@ == container_lines(
            split_lines(s@),
            records@.map_values(|r: Rendered| r@),
            w as int,
        ),
{
    let ghost recs = records@.map_values(|r: Rendered| r@);
    let mut out = String::new();
    let mut pos: usize = 0;
    let mut idx: usize = 0;
    proof {
        assert(recs.skip(0) =~= recs);
        assert(Seq::<char>::empty() + container_lines(split_lines(s@), recs, w as int)
            =~= container_lines(split_lines(s@), recs, w as int));
    }
    loop
        invariant_except_break
            container_lines(split_lines(s@), recs, w as int) == out@ + container_lines(
                split_lines_from(s@, pos as int),
                recs.skip(idx as int),
                w as int,
            ),
        invariant
            n == s@.len(),
            pos <= n,
            idx <= recs.len(),
            recs == records@.map_values(|r: Rendered| r@),
            max_trimmed_len(split_lines_from(s@, pos as int)) <= w as int,
        ensures
            out@ == container_lines(split_lines(s@), recs, w as int),
        decreases n - pos,
    {
        let ghost lines_rest = split_lines_from(s@, pos as int);
        let ghost recs_rest = recs.skip(idx as int);
        if idx >= records.len() {
            proof {
                assert(recs_rest.len() == 0);
                assert(container_lines(lines_rest, recs_rest, w as int) =~= Seq::<char>::empty());
                assert(out@ + Seq::<char>::empty() =~= out@);
            }
            break ;
        }
        let j = p_line_break(s, n, pos);
        let line = s.substring_char(pos, j);
        let t = trim_line(line);
        proof {
            crate::document::lemma_line_break_props(s@, pos as int);
            crate::document::lemma_split_lines_from_nonempty(s@, pos as int);
            assert(lines_rest[0] == s@.subrange(pos as int, j as int));
            assert(t@ == trimmed(lines_rest[0]));
            assert(trimmed(lines_rest[0]).len() <= max_trimmed_len(lines_rest));
        }
        let tl = t.unicode_len();
        let ghost piece = pad_to(trimmed(lines_rest[0]), w as int) + seq![' ']
            + datetime_string_of(recs_rest[0]);
        let ghost out0 = out@;
        out.append(t);
        pad_spaces(&mut out, w - tl);
        proof {
            reveal_strlit(" ");
        }
        out.append(" ");
        let ds = records[idx].to_datetime_string();
        proof {
            assert(recs_rest[0] == recs[idx as int]);
            assert(records@[idx as int]@ == recs[idx as int]);
        }
        out.append(ds.as_str());
        proof {
            assert(out@ =~= out0 + piece);
        }
        if j == n || idx + 1 >= records.len() {
            proof {
                if j == n {
                    assert(lines_rest =~= seq![s@.subrange(pos as int, j as int)]);
                }
                assert(container_lines(lines_rest, recs_rest, w as int) == piece);
            }
            break ;
        }
        proof {
            reveal_strlit("\n");
        }
        out.append("\n");
        proof {
            crate::document::lemma_split_lines_from_nonempty(s@, j as int + 1);
            assert(lines_rest.len() > 1);
            assert(recs_rest.len() > 1);
            assert(lines_rest.drop_first() =~= split_lines_from(s@, j as int + 1));
            assert(recs_rest.drop_first() =~= recs.skip(idx as int + 1));
            assert(out@ =~= out0 + (piece + seq!['\n']));
            assert(container_lines(lines_rest, recs_rest, w as int) == piece + seq!['\n']
                + container_lines(lines_rest.drop_first(), recs_rest.drop_first(), w as int));
            assert(out0 + (piece + seq!['\n']) + container_lines(
                lines_rest.drop_first(),
                recs_rest.drop_first(),
                w as int,
            ) =~= out0 + container_lines(lines_rest, recs_rest, w as int));
        }
        pos = j + 1;
        idx = idx + 1;
    }
    out
}

/// A document and its rendered records, displayed side by side.
pub struct Container {
    pub records: Vec<Rendered>,
    pub input: String,
}

impl ToFormattedString for Container {
    open spec fn fmt_spec(&self) -> Seq<char> {
        container_string(self.input@, self.records@.map_values(|r: Rendered| r@))
    }

    fn to_fmt_string(&self) -> (r: String) {
        let s = self.input.as_str();
        let n = s.unicode_len();
        let w = compute_width(s, n);
        render_lines(s, n, &self.records, w)
    }
}

/// Failure to export the rendered document to a system clipboard.
#[derive(Clone, Copy, PartialEq, Eq, Structural, Debug)]
pub enum ClipboardError {
    /// No clipboard is available in this environment.
    NotAvailable,
    /// The clipboard refused the text.
    Write,
}

/// The message text of a clipboard failure.
pub open spec fn clipboard_error_message(e: ClipboardError) -> Seq<char> {
    match e {
        ClipboardError::NotAvailable => "Clipboard API not available"@,
        ClipboardError::Write => "Could not write text to clipboard"@,
    }
}

impl ClipboardError {
    /// The message text of this failure.
    pub fn message(&self) -> (r: String)
        ensures
            r@ == clipboard_error_message(*self),
    {
        match self {
            ClipboardError::NotAvailable => String::from_str("Clipboard API not available"),
            ClipboardError::Write => String::from_str("Could not write text to clipboard"),
        }
    }
}

} // verus!
