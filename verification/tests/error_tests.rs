use meter_periods::error::{ParseError, ParseErrorKind};
use meter_periods::utils::{parse_date_multiple_days, parse_meter_counter};

#[test]
fn messages_quote_the_offending_text() {
    let e = parse_date_multiple_days("2022-09-31").unwrap_err();
    assert_eq!(
        "invalid date \"2022-09-31\": it isn't of the format \"yyyy-mm-dd\" or it isn't a valid date",
        e.message()
    );
    let e = parse_date_multiple_days("2022-09").unwrap_err();
    assert_eq!("malformed input \"2022-09\": wrong number of separators", e.message());
    let e = parse_date_multiple_days("2022-09-30,").unwrap_err();
    assert_eq!("empty segment in \"2022-09-30,\"", e.message());
    let e = parse_meter_counter("a1=187").unwrap_err();
    assert_eq!(
        "invalid period name \"a1\": it isn't of the format 'p<single digit number>'",
        e.message()
    );
    let e = parse_meter_counter("p1=-3").unwrap_err();
    assert_eq!("invalid counter value \"-3\": it isn't an unsigned integer", e.message());
}

#[test]
fn errors_compare_and_copy_by_value() {
    let e = ParseError::new(ParseErrorKind::EmptyUnit, "a,,b");
    assert_eq!(ParseErrorKind::EmptyUnit, e.kind);
    assert_eq!("a,,b", e.text);
    assert_eq!(e, e.clone());
    assert_ne!(e, ParseError::new(ParseErrorKind::MalformedShape, "a,,b"));
    assert_ne!(e, ParseError::new(ParseErrorKind::EmptyUnit, "a,b"));
}
