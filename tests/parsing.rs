use sqlplot_rs::{parse_item, parse_item_value, parse_result_line, ResultLineItem, ResultLineItemValue};

fn float_of(v: &ResultLineItemValue) -> f64 {
    match v {
        ResultLineItemValue::Float(t) => t.parse::<f64>().unwrap(),
        other => panic!("not a float: {:?}", other),
    }
}

#[test]
fn parse_item_value_test() {
    let s = "\"hello how are you\"rest";
    assert_eq!(
        Ok(("rest", ResultLineItemValue::Str("hello how are you"))),
        parse_item_value(s)
    );
    let s = "6124rest";
    assert_eq!(
        Ok(("rest", ResultLineItemValue::Int(6124))),
        parse_item_value(s)
    );
    let s = "149.213rest";
    let (rest, value) = parse_item_value(s).unwrap();
    assert_eq!(rest, "rest");
    assert_eq!(float_of(&value), 149.213);
    assert_eq!(value, ResultLineItemValue::Float("149.213"));
}

#[test]
fn parse_item_test() {
    let s = "my_ident=\"hello there\"rest";
    assert_eq!(
        Ok(("rest", ResultLineItem::string("my_ident", "hello there"))),
        parse_item(s)
    );
    let s = "my_ident=6124rest";
    assert_eq!(
        Ok(("rest", ResultLineItem::integer("my_ident", 6124))),
        parse_item(s)
    );
    let s = "my_ident=149.213rest";
    let (rest, item) = parse_item(s).unwrap();
    assert_eq!(rest, "rest");
    assert_eq!(item.ident, "my_ident");
    assert_eq!(float_of(&item.value), 149.213);
    assert_eq!(item, ResultLineItem::float("my_ident", "149.213"));
}

#[test]
fn parse_result_line_test() {
    let s = "RESULT abc=\"hello there\" def=61 ghi=12.1 rest";
    let (rest, items) = parse_result_line(s).unwrap();
    assert_eq!(rest, "rest");
    assert_eq!(items.len(), 3);
    assert_eq!(items[0], ResultLineItem::string("abc", "hello there"));
    assert_eq!(items[1], ResultLineItem::integer("def", 61));
    assert_eq!(items[2].ident, "ghi");
    assert_eq!(float_of(&items[2].value), 12.1);
    let expected = vec![
        ResultLineItem::string("abc", "hello there"),
        ResultLineItem::integer("def", 61),
        ResultLineItem::float("ghi", "12.1"),
    ];
    assert_eq!(Ok(("rest", expected)), parse_result_line(s));
}
