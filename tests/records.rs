use sqlplot_rs::{encode, ResultLine, ResultLineItem};

struct Plain {
    a: &'static str,
    b: u32,
    c: f64,
}

impl ResultLine for Plain {
    fn to_result_line(&self) -> String {
        let c = format!("{:?}", self.c);
        encode(&[
            ResultLineItem::string("a", self.a),
            ResultLineItem::integer("b", self.b as i64),
            ResultLineItem::float("c", &c),
        ])
    }
}

struct Renamed {
    a: &'static str,
    b: u32,
    c: f64,
}

impl ResultLine for Renamed {
    fn to_result_line(&self) -> String {
        let c = format!("{:?}", self.c);
        encode(&[
            ResultLineItem::string("a_token", self.a),
            ResultLineItem::integer("b", self.b as i64),
            ResultLineItem::float("my_c_token", &c),
        ])
    }
}

#[allow(unused)]
struct Skipped {
    a: &'static str,
    b: u32,
    c: f64,
}

impl ResultLine for Skipped {
    fn to_result_line(&self) -> String {
        let c = format!("{:?}", self.c);
        encode(&[ResultLineItem::string("a", self.a), ResultLineItem::float("c", &c)])
    }
}

#[test]
fn gen_result_line_test() {
    let s = Plain { a: "xyz", b: 1, c: -5.5 };
    assert_eq!(s.to_result_line().as_str(), "RESULT a=\"xyz\" b=1 c=-5.5");
}

#[test]
fn rename_test_rename_test() {
    let s = Renamed { a: "xyz", b: 1, c: -5.5 };
    // string values are always quoted
    assert_eq!(s.to_result_line().as_str(), "RESULT a_token=\"xyz\" b=1 my_c_token=-5.5");
}

#[test]
fn skip_test_rename_test() {
    let s = Skipped { a: "xyz", b: 1, c: -5.5 };
    assert_eq!(s.to_result_line().as_str(), "RESULT a=\"xyz\" c=-5.5");
}
