//! The line sequencer: split a document on line feeds, evaluate every line
//! with the offset active for it, thread declared offsets forward, and
//! collect one record per line. A line's failure never aborts the
//! document: it only makes that line's expression the failure variant.

use crate::directive::directive_hours;
use crate::directive::parse_offset_directive;
use crate::expr::ExprModel;
use crate::expr::Expression;
use crate::grammar::lemma_line_value_offset_bounded;
use crate::grammar::line_value;
use crate::grammar::offset_bounded;
use crate::grammar::parse_expression;
use crate::grammar::records_offsets_bounded;
use crate::grammar::State;
use crate::grammar::StateModel;
use vstd::prelude::*;
use vstd::string::StrSliceExecFns;

verus! {

/// Mathematical model of one resolved line.
pub struct RecordModel {
    /// The offset, in whole hours, active when the line was parsed.
    pub offset: int,
    /// The line's resolved expression.
    pub expression: ExprModel,
}

/// One resolved line: the offset in effect for the line, and the line's
/// expression. Records are immutable once created and ordered by line.
#[derive(Clone, Copy, PartialEq, Eq, Structural, Debug)]
pub struct Record {
    pub offset: i32,
    pub expression: Expression,
}

impl View for Record {
    type V = RecordModel;

    open spec fn view(&self) -> RecordModel {
        RecordModel { offset: self.offset as int, expression: self.expression@ }
    }
}

/// The value of one line: the expression grammar first; where it rejects
/// the line, the offset directive; otherwise the failure variant.
pub open spec fn line_expr(s: Seq<char>, st: StateModel) -> ExprModel {
    match line_value(s, st) {
        Some(v) => v,
        None => match directive_hours(s) {
            Some(h) => ExprModel::Offset(h),
            None => ExprModel::Nothing,
        },
    }
}

/// The position of the first line feed at or after `i`.
pub open spec fn line_break(s: Seq<char>, i: int) -> int
    recommends
        0 <= i <= s.len(),
    decreases s.len() - i when 0 <= i <= s.len()
{
    if i < s.len() && s[i] != '\n' {
        line_break(s, i + 1)
    } else {
        i
    }
}

pub proof fn lemma_line_break_props(s: Seq<char>, i: int)
    requires
        0 <= i <= s.len(),
    ensures
        i <= line_break(s, i) <= s.len(),
        line_break(s, i) == s.len() || s[line_break(s, i)] == '\n',
    decreases s.len() - i,
{
    if i < s.len() && s[i] != '\n' {
        lemma_line_break_props(s, i + 1);
    }
}

/// The document's lines from position `i` on: the text split on line
/// feeds. An empty document still has one (empty) line.
pub open spec fn split_lines_from(s: Seq<char>, i: int) -> Seq<Seq<char>>
    recommends
        0 <= i <= s.len(),
    decreases s.len() - i when 0 <= i <= s.len()
{
    let j = line_break(s, i);
    if i <= j && j < s.len() {
        seq![s.subrange(i, j)] + split_lines_from(s, j + 1)
    } else if i <= j && j <= s.len() {
        seq![s.subrange(i, j)]
    } else {
        Seq::empty()
    }
}

/// The whole document's lines.
pub open spec fn split_lines(s: Seq<char>) -> Seq<Seq<char>> {
    split_lines_from(s, 0)
}

/// Splitting from any position inside the text yields at least one line.
pub proof fn lemma_split_lines_from_nonempty(s: Seq<char>, i: int)
    requires
        0 <= i <= s.len(),
    ensures
        split_lines_from(s, i).len() >= 1,
{
    lemma_line_break_props(s, i);
}

/// The records of the remaining lines, given the running offset `off` and
/// the expressions `prior` of all earlier lines. Each line's record
/// reports the offset that was active when the line was parsed; a line
/// declaring an offset changes the running offset only from the next line
/// on.
pub open spec fn doc_rest(lines: Seq<Seq<char>>, now: int, off: int, prior: Seq<ExprModel>) -> Seq<
    RecordModel,
>
    decreases lines.len(),
{
    if lines.len() == 0 {
        Seq::empty()
    } else {
        let st = StateModel { offset: off, now: now, records: prior };
        let e = line_expr(lines[0], st);
        let off2 = match e {
            ExprModel::Offset(h) => h,
            _ => off,
        };
        seq![RecordModel { offset: off, expression: e }] + doc_rest(
            lines.drop_first(),
            now,
            off2,
            prior.push(e),
        )
    }
}

/// The record sequence of a whole document: one record per line, starting
/// from offset UTC+0 and no prior expressions. The result is a function of
/// the text and the "now" instant alone, so re-parsing an unchanged
/// document always reproduces the same records.
pub open spec fn doc_records(text: Seq<char>, now: int) -> Seq<RecordModel> {
    doc_rest(split_lines(text), now, 0, Seq::empty())
}

/// Every record of [`doc_rest`] reports an in-band offset, and its
/// expression keeps any declared offset in band too.
pub proof fn lemma_doc_rest_offsets_bounded(
    lines: Seq<Seq<char>>,
    now: int,
    off: int,
    prior: Seq<ExprModel>,
)
    requires
        -23 <= off <= 23,
        records_offsets_bounded(prior),
    ensures
        forall|k: int|
            0 <= k < doc_rest(lines, now, off, prior).len() ==> -23 <= (#[trigger] doc_rest(
                lines,
                now,
                off,
                prior,
            )[k]).offset <= 23 && offset_bounded(doc_rest(lines, now, off, prior)[k].expression),
    decreases lines.len(),
{
    if lines.len() > 0 {
        let st = StateModel { offset: off, now: now, records: prior };
        let e = line_expr(lines[0], st);
        lemma_line_value_offset_bounded(lines[0], st);
        crate::directive::lemma_directive_hours_bounded(lines[0]);
        assert(offset_bounded(e));
        let off2 = match e {
            ExprModel::Offset(h) => h,
            _ => off,
        };
        assert forall|k: int| 0 <= k < prior.push(e).len() implies offset_bounded(
            #[trigger] prior.push(e)[k],
        ) by {
            if k < prior.len() {
                assert(prior.push(e)[k] == prior[k]);
                assert(offset_bounded(prior[k]));
            } else {
                assert(prior.push(e)[k] == e);
            }
        }
        lemma_doc_rest_offsets_bounded(lines.drop_first(), now, off2, prior.push(e));
        let whole = doc_rest(lines, now, off, prior);
        let rest = doc_rest(lines.drop_first(), now, off2, prior.push(e));
        assert forall|k: int| 0 <= k < whole.len() implies -23 <= (#[trigger] whole[k]).offset <= 23
            && offset_bounded(whole[k].expression) by {
            if k > 0 {
                assert(whole[k] == rest[k - 1]);
            }
        }
    }
}

/// Every record of a parsed document reports an in-band offset, and its
/// expression keeps any declared offset in band.
pub proof fn lemma_doc_records_offsets_bounded(text: Seq<char>, now: int)
    ensures
        forall|k: int|
            0 <= k < doc_records(text, now).len() ==> -23 <= (#[trigger] doc_records(
                text,
                now,
            )[k]).offset <= 23 && offset_bounded(doc_records(text, now)[k].expression),
{
    lemma_doc_rest_offsets_bounded(split_lines(text), now, 0, Seq::empty());
}

/// Evaluate one line in the context of the records parsed so far: the
/// expression grammar first, the offset directive as fallback, and the
/// failure variant when neither accepts the line.
pub fn parse_line(input: &str, offset: i32, now: i64, records: &[Record]) -> (r: Expression)
    requires
        -23 <= offset <= 23,
    ensures
        r@ == line_expr(
            input@,
            StateModel {
                offset: offset as int,
                now: now as int,
                records: records@.map_values(|rec: Record| rec@.expression),
            },
        ),
{
    let mut exprs: Vec<Expression> = Vec::new();
    let mut k: usize = 0;
    while k < records.len()
        invariant
            k <= records@.len(),
            exprs@ == records@.take(k as int).map_values(|rec: Record| rec.expression),
        decreases records@.len() - k,
    {
        exprs.push(records[k].expression);
        proof {
            assert(records@.take(k as int + 1).map_values(|rec: Record| rec.expression)
                =~= records@.take(k as int).map_values(|rec: Record| rec.expression).push(
                records@[k as int].expression,
            ));
        }
        k = k + 1;
    }
    proof {
        assert(records@.take(records@.len() as int) =~= records@);
    }
    let state = State::new(offset, now, exprs.as_slice());
    proof {
        assert(exprs@.map_values(|e: Expression| e@) =~= records@.map_values(
            |rec: Record| rec@.expression,
        ));
    }
    match parse_expression(input, &state) {
        Ok(e) => e,
        Err(_) => match parse_offset_directive(input) {
            Some(h) => Expression::Offset(h),
            None => Expression::Nothing,
        },
    }
}

/// The position of the first line feed at or after `i`.
pub(crate) fn p_line_break(s: &str, n: usize, i: usize) -> (r: usize)
    requires
        n == s@.len(),
        i <= n,
    ensures
        r as int == line_break(s@, i as int),
        i <= r <= n,
{
    let mut k: usize = i;
    loop
        invariant
            n == s@.len(),
            i <= k <= n,
            line_break(s@, i as int) == line_break(s@, k as int),
        ensures
            i <= k <= n,
            k as int == line_break(s@, i as int),
        decreases n - k,
    {
        if k >= n {
            break ;
        }
        if s.get_char(k) == '\n' {
            break ;
        }
        k = k + 1;
    }
    k
}

/// Parse a whole document: split it on line feeds and resolve every line,
/// threading the active offset and the growing list of prior expressions.
/// The records are exactly [`doc_records`] of the text and the instant.
pub fn parse(input: String, now: i64) -> (records: Vec<Record>)
    ensures
        records@.map_values(|r: Record| r@) == doc_records(input@, now as int),
{
    let s = input.as_str();
    let n = s.unicode_len();
    let mut records: Vec<Record> = Vec::new();
    let mut offset: i32 = 0;
    let mut pos: usize = 0;
    proof {
        assert(records@.map_values(|r: Record| r@) =~= Seq::<RecordModel>::empty());
        assert(records@.map_values(|r: Record| r@.expression) =~= Seq::<ExprModel>::empty());
        assert(Seq::<RecordModel>::empty() + doc_records(s@, now as int) =~= doc_records(
            s@,
            now as int,
        ));
    }
    loop
        invariant_except_break
            doc_records(s@, now as int) == records@.map_values(|r: Record| r@) + doc_rest(
                split_lines_from(s@, pos as int),
                now as int,
                offset as int,
                records@.map_values(|r: Record| r@.expression),
            ),
        invariant
            n == s@.len(),
            pos <= n,
            -23 <= offset <= 23,
            records_offsets_bounded(records@.map_values(|r: Record| r@.expression)),
        ensures
            records@.map_values(|r: Record| r@) == doc_records(s@, now as int),
        decreases n - pos,
    {
        let j = p_line_break(s, n, pos);
        let line = s.substring_char(pos, j);
        let e = parse_line(line, offset, now, records.as_slice());
        let ghost lines = split_lines_from(s@, pos as int);
        let ghost prior = records@.map_values(|r: Record| r@.expression);
        proof {
            lemma_line_break_props(s@, pos as int);
            assert(lines[0] == s@.subrange(pos as int, j as int));
            assert(line@ == lines[0]);
        }
        let ghost old_recs = records@;
        let ghost st = StateModel { offset: offset as int, now: now as int, records: prior };
        let ghost em = line_expr(lines[0], st);
        let rec = Record { offset, expression: e };
        records.push(rec);
        proof {
            assert(e@ == em);
            lemma_line_value_offset_bounded(lines[0], st);
            crate::directive::lemma_directive_hours_bounded(lines[0]);
            assert(offset_bounded(em));
            assert(records@ == old_recs.push(rec));
            assert(records@.map_values(|r: Record| r@) =~= old_recs.map_values(
                |r: Record| r@,
            ).push(RecordModel { offset: offset as int, expression: em }));
            assert(records@.map_values(|r: Record| r@.expression) =~= prior.push(em));
            assert forall|k: int| 0 <= k < prior.push(em).len() implies offset_bounded(
                #[trigger] prior.push(em)[k],
            ) by {
                if k < prior.len() {
                    assert(prior.push(em)[k] == prior[k]);
                    assert(offset_bounded(prior[k]));
                } else {
                    assert(prior.push(em)[k] == em);
                }
            }
        }
        let next_offset = match e {
            Expression::Offset(h) => h,
            _ => offset,
        };
        proof {
            assert(-23 <= next_offset <= 23);
            assert(doc_rest(lines, now as int, offset as int, prior) == seq![
                RecordModel { offset: offset as int, expression: em },
            ] + doc_rest(lines.drop_first(), now as int, next_offset as int, prior.push(em)));
        }
        if j == n {
            proof {
                assert(lines =~= seq![s@.subrange(pos as int, j as int)]);
                assert(lines.drop_first() =~= Seq::<Seq<char>>::empty());
                assert(doc_rest(Seq::<Seq<char>>::empty(), now as int, next_offset as int, prior.push(em))
                    =~= Seq::<RecordModel>::empty());
                assert(records@.map_values(|r: Record| r@) =~= doc_records(s@, now as int));
            }
            offset = next_offset;
            break ;
        }
        proof {
            assert(lines.drop_first() =~= split_lines_from(s@, j as int + 1));
        }
        offset = next_offset;
        pos = j + 1;
    }
    records
}

} // verus!
