use sqlplot_rs::{
    encode, parse_item_value, parse_result_line, ResultLineItem, ResultLineItemValue, SyntaxError,
    SyntaxErrorKind,
};

#[test]
fn integers_round_trip() {
    for n in [0i64, 1, -1, 7, 42, -5, 1000000, i64::MAX, i64::MIN] {
        let line = encode(&[ResultLineItem::integer("k", n)]);
        assert_eq!(parse_result_line(&line), Ok(("", vec![ResultLineItem::integer("k", n)])));
    }
}

#[test]
fn integer_text_is_decimal() {
    assert_eq!(encode(&[ResultLineItem::integer("k", 0)]), "RESULT k=0");
    assert_eq!(encode(&[ResultLineItem::integer("k", -9876)]), "RESULT k=-9876");
    assert_eq!(
        encode(&[ResultLineItem::integer("k", i64::MIN)]),
        "RESULT k=-9223372036854775808"
    );
}

#[test]
fn floats_round_trip() {
    for t in ["-5.5", "0.25", "1e10", "2.5E-3", "5.0"] {
        let line = encode(&[ResultLineItem::float("k", t)]);
        assert_eq!(parse_result_line(&line), Ok(("", vec![ResultLineItem::float("k", t)])));
    }
}

#[test]
fn strings_are_quoted() {
    assert_eq!(encode(&[ResultLineItem::string("k", "xyz")]), "RESULT k=\"xyz\"");
    assert_eq!(
        parse_result_line("RESULT k=\"xyz\""),
        Ok(("", vec![ResultLineItem::string("k", "xyz")]))
    );
}

#[test]
fn empty_string_round_trips() {
    let line = encode(&[ResultLineItem::string("k", "")]);
    assert_eq!(line, "RESULT k=\"\"");
    assert_eq!(parse_result_line(&line), Ok(("", vec![ResultLineItem::string("k", "")])));
}

#[test]
fn omitted_item_leaves_no_trace() {
    let all = encode(&[
        ResultLineItem::string("a", "x"),
        ResultLineItem::integer("secret", 99),
        ResultLineItem::integer("c", 3),
    ]);
    let some = encode(&[ResultLineItem::string("a", "x"), ResultLineItem::integer("c", 3)]);
    assert_eq!(all, "RESULT a=\"x\" secret=99 c=3");
    assert_eq!(some, "RESULT a=\"x\" c=3");
    assert!(!some.contains("secret"));
    assert!(!some.contains("99"));
}

#[test]
fn literals_are_classified_by_shape() {
    assert_eq!(parse_item_value("5"), Ok(("", ResultLineItemValue::Int(5))));
    assert_eq!(parse_item_value("5.0"), Ok(("", ResultLineItemValue::Float("5.0"))));
    assert_eq!(parse_item_value("5e2"), Ok(("", ResultLineItemValue::Float("5e2"))));
    assert_eq!("5e2".parse::<f64>().unwrap(), 500.0);
    assert_eq!(parse_item_value("-5.5"), Ok(("", ResultLineItemValue::Float("-5.5"))));
    assert_eq!(parse_item_value("+7 x"), Ok((" x", ResultLineItemValue::Int(7))));
    assert_eq!(parse_item_value(".5"), Ok(("", ResultLineItemValue::Float(".5"))));
    assert_eq!(parse_item_value("3.x"), Ok(("x", ResultLineItemValue::Float("3."))));
    assert_eq!(parse_item_value("5e"), Ok(("e", ResultLineItemValue::Int(5))));
    assert_eq!(parse_item_value("2.5E+x"), Ok(("E+x", ResultLineItemValue::Float("2.5"))));
}

#[test]
fn only_sign_digits_point_and_exponent_make_a_literal() {
    let invalid = Err(SyntaxError { kind: SyntaxErrorKind::InvalidNumericLiteral, position: 0 });
    for s in ["abc", "nan", "NaN!", "inf", "Infinity", "", " 5", "+", "-.", "+nan"] {
        assert_eq!(parse_item_value(s), invalid, "input {:?}", s);
    }
}

#[test]
fn integer_range_edges() {
    assert_eq!(
        parse_item_value("9223372036854775807"),
        Ok(("", ResultLineItemValue::Int(i64::MAX)))
    );
    assert_eq!(
        parse_item_value("-9223372036854775808"),
        Ok(("", ResultLineItemValue::Int(i64::MIN)))
    );
    assert_eq!(
        parse_item_value("9223372036854775808"),
        Ok(("", ResultLineItemValue::Float("9223372036854775808")))
    );
    assert_eq!(
        parse_item_value("-99999999999999999999"),
        Ok(("", ResultLineItemValue::Float("-99999999999999999999")))
    );
}

#[test]
fn multi_item_line_keeps_order_and_rest() {
    let (rest, items) = parse_result_line("RESULT abc=\"hello there\" def=61 ghi=12.1 rest").unwrap();
    assert_eq!(rest, "rest");
    assert_eq!(
        items,
        vec![
            ResultLineItem::string("abc", "hello there"),
            ResultLineItem::integer("def", 61),
            ResultLineItem::float("ghi", "12.1"),
        ]
    );
}

#[test]
fn repeated_names_are_kept() {
    assert_eq!(
        parse_result_line("RESULT a=1 a=2"),
        Ok(("", vec![ResultLineItem::integer("a", 1), ResultLineItem::integer("a", 2)]))
    );
}

#[test]
fn trailing_whitespace_is_consumed() {
    assert_eq!(
        parse_result_line("RESULT a=1 \t\r\n"),
        Ok(("", vec![ResultLineItem::integer("a", 1)]))
    );
    assert_eq!(
        parse_result_line("RESULT a=1\t\tb=2"),
        Ok(("", vec![ResultLineItem::integer("a", 1), ResultLineItem::integer("b", 2)]))
    );
}

#[test]
fn failures_are_whole() {
    assert_eq!(
        parse_result_line(""),
        Err(SyntaxError { kind: SyntaxErrorKind::MalformedMarker, position: 0 })
    );
    assert_eq!(
        parse_result_line("RESULT "),
        Err(SyntaxError { kind: SyntaxErrorKind::EmptyLine, position: 7 })
    );
    assert_eq!(
        parse_result_line("RESULT k="),
        Err(SyntaxError { kind: SyntaxErrorKind::InvalidNumericLiteral, position: 9 })
    );
}

#[test]
fn each_error_kind() {
    assert_eq!(
        parse_result_line("result a=1"),
        Err(SyntaxError { kind: SyntaxErrorKind::MalformedMarker, position: 0 })
    );
    assert_eq!(
        parse_result_line("RESULT abc"),
        Err(SyntaxError { kind: SyntaxErrorKind::MalformedItem, position: 7 })
    );
    assert_eq!(
        parse_result_line("RESULT =1"),
        Err(SyntaxError { kind: SyntaxErrorKind::MalformedItem, position: 7 })
    );
    assert_eq!(
        parse_result_line("RESULT k=\"abc"),
        Err(SyntaxError { kind: SyntaxErrorKind::UnterminatedString, position: 9 })
    );
    assert_eq!(
        parse_result_line("RESULT k=abc"),
        Err(SyntaxError { kind: SyntaxErrorKind::InvalidNumericLiteral, position: 9 })
    );
    assert_eq!(
        parse_result_line("RESULT k=inf"),
        Err(SyntaxError { kind: SyntaxErrorKind::InvalidNumericLiteral, position: 9 })
    );
}

#[test]
fn dangling_exponent_is_left_over() {
    assert_eq!(
        parse_result_line("RESULT k=1e"),
        Ok(("e", vec![ResultLineItem::integer("k", 1)]))
    );
    assert_eq!(
        parse_result_line("RESULT a=1 b=1e"),
        Ok(("e", vec![ResultLineItem::integer("a", 1), ResultLineItem::integer("b", 1)]))
    );
}

#[test]
fn later_bad_item_is_left_as_rest() {
    assert_eq!(
        parse_result_line("RESULT a=1 b=x"),
        Ok(("b=x", vec![ResultLineItem::integer("a", 1)]))
    );
}

#[test]
fn encode_is_deterministic() {
    let items = [ResultLineItem::string("a", "x y"), ResultLineItem::float("b", "1.5")];
    assert_eq!(encode(&items), encode(&items));
    assert_eq!(encode(&items), "RESULT a=\"x y\" b=1.5");
}

#[test]
fn empty_sequence_gives_marker_alone() {
    assert_eq!(encode(&[]), "RESULT ");
}
