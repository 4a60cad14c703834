use utc::display;
use utc::parse;
use utc::Container;
use utc::Duration;
use utc::Expression;
use utc::Rendered;
use utc::State;
use utc::ToFormattedString;

#[test]
fn test() {
    let input: String = "#UTC+1\n12323123\n'1970-05-23 16:05:23'".to_string();
    let records = display::parse(&input, 1);
    assert_eq!(records.len(), 3);
    let container = Container { records, input };
    assert_eq!(
        container.to_fmt_string(),
        "#UTC+1                UTC+01:00\n12323123              1970-05-23 16:05:23 +01:00\n'1970-05-23 16:05:23' 1970-05-23 16:05:23 +01:00",
    );
}

#[test]
fn duration_formatting() {
    assert_eq!(Duration::milliseconds(0).to_fmt_string(), "0s");
    assert_eq!(
        Duration::milliseconds(90061500).to_fmt_string(),
        "1d1h1m1s500ms"
    );
    assert_eq!(
        Duration::milliseconds(-90061500).to_fmt_string(),
        "-1d1h1m1s500ms"
    );
    assert_eq!(Duration::milliseconds(-1500).to_fmt_string(), "-1s500ms");
    assert_eq!(Duration::seconds(4 * 3600).to_fmt_string(), "4h");
    assert_eq!(Duration::milliseconds(5).to_fmt_string(), "5ms");
}

#[test]
fn numeric_projections() {
    assert_eq!(
        Rendered::Duration(Duration::milliseconds(1500)).to_timestamp_string(),
        "1.5"
    );
    assert_eq!(
        Rendered::Duration(Duration::milliseconds(100)).to_timestamp_string(),
        "0.1"
    );
    assert_eq!(
        Rendered::Duration(Duration::milliseconds(-2500)).to_timestamp_string(),
        "-2.5"
    );
    assert_eq!(
        Rendered::Duration(Duration::milliseconds(30000)).to_timestamp_string(),
        "30"
    );
    assert_eq!(
        Rendered::Duration(Duration::milliseconds(1005)).to_timestamp_string(),
        "1.005"
    );
    assert_eq!(Rendered::Nothing.to_timestamp_string(), "...");
    assert_eq!(Rendered::Nothing.to_datetime_string(), "...");
    let records = display::parse("12323123", 0);
    assert_eq!(records[0].to_timestamp_string(), "12323123");
}

#[test]
fn offset_directive_forms() {
    let records = parse("#UTC-5\n#UTC+24\n#UTC+1x\n  #UTC+2  \n0".to_string(), 0);
    assert_eq!(records[0].expression, Expression::Offset(-5));
    assert_eq!(records[1].expression, Expression::Nothing);
    assert_eq!(records[2].expression, Expression::Nothing);
    assert_eq!(records[3].expression, Expression::Offset(2));
    assert_eq!(records[4].offset, 2);
    let rendered = display::parse("#UTC-5", 0);
    assert_eq!(rendered[0].to_datetime_string(), "UTC-05:00");
    assert_eq!(rendered[0].to_timestamp_string(), "UTC-05:00");
}

#[test]
fn back_references() {
    let records = parse("10\n#1 + 5m\n#99\n#0".to_string(), 0);
    assert_eq!(records[0].expression, Expression::Timestamp(10));
    assert_eq!(records[1].expression, Expression::Timestamp(310));
    assert_eq!(records[2].expression, Expression::Nothing);
    assert_eq!(records[3].expression, Expression::Nothing);
}

#[test]
fn timestamp_duration_commutative() {
    let records = vec![];
    let state = State::new(0, 0, &records);
    assert_eq!(
        parse_both("5 + 2h", "2h + 5", &state),
        Expression::Timestamp(7205)
    );
}

fn parse_both(a: &str, b: &str, state: &State) -> Expression {
    let left = utc::parse_expression(a, state).unwrap();
    let right = utc::parse_expression(b, state).unwrap();
    assert_eq!(left, right);
    left
}

#[test]
fn calendar_validity() {
    let records = vec![];
    let state = State::new(0, 0, &records);
    assert_eq!(
        utc::parse_expression("'2014-02-30 00:00:00'", &state),
        Ok(Expression::Nothing)
    );
    assert_eq!(
        utc::parse_expression("'2015-02-29 00:00:00'", &state),
        Ok(Expression::Nothing)
    );
    assert!(matches!(
        utc::parse_expression("'2016-02-29 00:00:00'", &state),
        Ok(Expression::Timestamp(_))
    ));
    assert_eq!(
        utc::parse_expression("'1970-01-01 00:00:10'", &state),
        Ok(Expression::Timestamp(10))
    );
}

#[test]
fn reparse_is_idempotent() {
    let input = "#UTC+3\nnow + 4h\n'2014-05-06 10:08:07' - #2\ngarbage here";
    let first = parse(input.to_string(), 1234);
    let second = parse(input.to_string(), 1234);
    assert_eq!(first, second);
}

#[test]
fn empty_document() {
    let records = parse(String::new(), 5);
    assert_eq!(records.len(), 1);
    assert_eq!(records[0].offset, 0);
    assert_eq!(records[0].expression, Expression::Nothing);
}

#[test]
fn number_with_trailing_dot() {
    let records = vec![];
    let state = State::new(0, 0, &records);
    assert_eq!(
        utc::parse_expression("1006.", &state),
        Ok(Expression::Timestamp(1006))
    );
}

#[test]
fn grammar_edges() {
    let records = vec![];
    let state = State::new(0, 0, &records);
    assert!(utc::parse_expression("4h 5m", &state).is_err());
    assert!(utc::parse_expression("(3 + 2h", &state).is_err());
    assert!(utc::parse_expression("3 + ", &state).is_err());
    assert!(utc::parse_expression("", &state).is_err());
    assert_eq!(
        utc::parse_expression("((((1))))", &state),
        Ok(Expression::Timestamp(1))
    );
    assert_eq!(
        utc::parse_expression("99999999999999999999999999d", &state),
        Ok(Expression::Duration(Duration::milliseconds(i64::MAX)))
    );
    assert!(utc::parse_expression("\t3", &state).is_err());
    assert!(utc::parse_expression("nowhere", &state).is_err());
}

#[test]
fn clipboard_error_messages() {
    assert_eq!(
        utc::ClipboardError::NotAvailable.message(),
        "Clipboard API not available"
    );
    assert_eq!(
        utc::ClipboardError::Write.message(),
        "Could not write text to clipboard"
    );
}
