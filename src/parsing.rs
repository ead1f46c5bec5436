//! Reading a result line.
use vstd::prelude::*;

use crate::grammar::{
    all_digits, blank_run, classify, digits_value, int_literal_value, is_blank, is_digit, is_ws,
    item_spec, lemma_blank_run, lemma_blank_run_bound, lemma_first_index, lemma_item_shrinks,
    lemma_real_literal_bound, lemma_ws_run, lemma_ws_run_bound, line_spec, marker, more_items,
    real_literal_len, sign_len, value_spec, ws_run, digit_run, mantissa_len, starts_literal,
    lemma_digit_run, lemma_recognizer_agrees,
};
use crate::model::{
    items_view, ItemView, ResultLineItem, ResultLineItemValue, SyntaxError, SyntaxErrorKind,
    ValueView,
};

verus! {

/// Relies on nom's `number::complete::recognize_float_or_exceptions` on a
/// complete input: it splits off the longest real-number literal at the
/// start of `s` (optional sign, digits with an optional `.` and fraction or a
/// `.` and digits, optional exponent), or `nan`, `inf` in any case, and
/// fails where there is none or where an exponent marker has no digits.
#[verifier::external_body]
fn split_real_literal<'a>(s: &'a str) -> (r: Option<(&'a str, &'a str)>)
    ensures
        match real_literal_len(s@) {
            Some(n) => r matches Some((rest, lit)) && lit@ == s@.take(n as int) && rest@ == s@.skip(n as int),
            None => r is None,
        },
{
    match nom::number::complete::recognize_float_or_exceptions::<&str, nom::error::Error<&str>>(s) {
        Ok((rest, lit)) => Some((rest, lit)),
        Err(_) => None,
    }
}

/// The outcome of reading an item, as the grammar states outcomes.
pub open spec fn item_outcome<'a>(
    r: Result<(&'a str, ResultLineItem<'a>), SyntaxError>,
) -> Result<(ItemView, Seq<char>), SyntaxError> {
    match r {
        Ok((rest, it)) => Ok((it@, rest@)),
        Err(e) => Err(e),
    }
}

/// The outcome of reading a line, as the grammar states outcomes.
pub open spec fn line_outcome<'a>(
    r: Result<(&'a str, Vec<ResultLineItem<'a>>), SyntaxError>,
) -> Result<(Seq<ItemView>, Seq<char>), SyntaxError> {
    match r {
        Ok((rest, items)) => Ok((items_view(items@), rest@)),
        Err(e) => Err(e),
    }
}

/// The outcome of reading a value, as the grammar states outcomes.
pub open spec fn value_outcome<'a>(
    r: Result<(&'a str, ResultLineItemValue<'a>), SyntaxError>,
) -> Result<(ValueView, Seq<char>), SyntaxError> {
    match r {
        Ok((rest, v)) => Ok((v@, rest@)),
        Err(e) => Err(e),
    }
}

/// The integer that `t` spells, if it is an optional sign and decimal digits
/// whose value fits in `i64`.
fn parse_int_literal(t: &str) -> (r: Option<i64>)
    ensures
        r == int_literal_value(t@),
{
    let len = t.unicode_len();
    let mut start: usize = 0;
    let mut negative = false;
    if len > 0 {
        let c = t.get_char(0);
        if c == '+' || c == '-' {
            start = 1;
            negative = c == '-';
        }
    }
    assert(start == sign_len(t@));
    assert(negative == (start == 1 && t@[0] == '-'));
    let ghost d = t@.skip(start as int);
    if start == len {
        return None;
    }
    let mut acc: u64 = 0;
    let mut too_big = false;
    let mut i: usize = start;
    while i < len
        invariant
            start <= i <= len,
            start == sign_len(t@),
            negative == (start == 1 && t@[0] == '-'),
            len == t@.len(),
            d == t@.skip(start as int),
            forall|j: int| 0 <= j < i - start ==> is_digit(#[trigger] d[j]),
            too_big ==> digits_value(d.take(i - start)) > 9223372036854775808,
            !too_big ==> acc == digits_value(d.take(i - start)) && acc <= 9223372036854775808,
        decreases len - i,
    {
        let c = t.get_char(i);
        if !('0' <= c && c <= '9') {
            assert(d[i - start] == c);
            assert(!is_digit(d[i - start]));
            assert(!all_digits(d));
            return None;
        }
        let dv = ((c as u32) - ('0' as u32)) as u64;
        proof {
            let p = d.take(i + 1 - start);
            assert(p.drop_last() =~= d.take(i - start));
            assert(p.last() == c);
            assert(digits_value(p) == digits_value(d.take(i - start)) * 10 + dv);
        }
        if !too_big {
            if acc > 922337203685477580 || (acc == 922337203685477580 && dv > 8) {
                too_big = true;
            } else {
                acc = acc * 10 + dv;
            }
        }
        i += 1;
    }
    assert(d.take(len - start) =~= d);
    assert(all_digits(d));
    if too_big {
        None
    } else if negative {
        if acc == 9223372036854775808 {
            Some(i64::MIN)
        } else {
            Some(-(acc as i64))
        }
    } else if acc <= 9223372036854775807 {
        Some(acc as i64)
    } else {
        None
    }
}

/// Whether `c` is a sign, a decimal digit or a `.`.
fn starts_like_literal(c: char) -> (b: bool)
    ensures
        b == starts_literal(c),
{
    c == '+' || c == '-' || ('0' <= c && c <= '9') || c == '.'
}

/// The number of decimal digits in `s` from position `from` on.
fn digits_from(s: &str, from: usize) -> (n: usize)
    requires
        from <= s@.len(),
    ensures
        n == digit_run(s@.skip(from as int)),
        from + n <= s@.len(),
{
    let len = s.unicode_len();
    let mut i: usize = from;
    while i < len && '0' <= s.get_char(i) && s.get_char(i) <= '9'
        invariant
            from <= i <= len,
            len == s@.len(),
            forall|j: int| from <= j < i ==> is_digit(#[trigger] s@[j]),
        decreases len - i,
    {
        i += 1;
    }
    proof {
        let t = s@.skip(from as int);
        assert forall|j: int| 0 <= j < i - from implies is_digit(#[trigger] t[j]) by {
            assert(t[j] == s@[from + j]);
        }
        if i < len {
            assert(t[i - from] == s@[i as int]);
        }
        lemma_digit_run(t, i - from);
    }
    i - from
}

/// The length of the sign and mantissa at the start of `s`, where there is a
/// mantissa.
fn mantissa_end(s: &str) -> (r: Option<usize>)
    ensures
        r == match mantissa_len(s@.skip(sign_len(s@) as int)) {
            Some(m) => Some((sign_len(s@) + m) as usize),
            None => None::<usize>,
        },
{
    let len = s.unicode_len();
    let mut g: usize = 0;
    if len > 0 {
        let c = s.get_char(0);
        if c == '+' || c == '-' {
            g = 1;
        }
    }
    assert(g == sign_len(s@));
    let ghost t = s@.skip(g as int);
    let d = digits_from(s, g);
    if d > 0 {
        if g + d < len && s.get_char(g + d) == '.' {
            assert(t[d as int] == s@[g + d]);
            let f = digits_from(s, g + d + 1);
            assert(t.skip(d + 1int) =~= s@.skip(g + d + 1));
            Some(g + d + 1 + f)
        } else {
            proof {
                if d < t.len() {
                    assert(t[d as int] == s@[g + d]);
                }
            }
            Some(g + d)
        }
    } else if g < len && s.get_char(g) == '.' {
        assert(t[0] == s@[g as int]);
        let f = digits_from(s, g + 1);
        assert(t.skip(1) =~= s@.skip(g + 1));
        if f > 0 {
            Some(g + 1 + f)
        } else {
            None
        }
    } else {
        proof {
            if t.len() > 0 {
                assert(t[0] == s@[g as int]);
            }
        }
        None
    }
}

/// Reads a real-number literal as an integer where its text is one that
/// fits in `i64`, and as a floating-point literal otherwise.
fn classify_literal<'a>(lit: &'a str) -> (r: ResultLineItemValue<'a>)
    ensures
        r@ == classify(lit@),
{
    match parse_int_literal(lit) {
        Some(n) => ResultLineItemValue::Int(n),
        None => ResultLineItemValue::Float(lit),
    }
}

/// Reads one value at the start of `input`: a string between double quotes
/// (taken verbatim), or the longest real-number literal there, classified.
/// Returns what follows the value, and the value.
pub fn parse_item_value<'a>(input: &'a str) -> (r: Result<(&'a str, ResultLineItemValue<'a>), SyntaxError>)
    ensures
        value_outcome(r) == value_spec(input@),
{
    let len = input.unicode_len();
    if len > 0 && input.get_char(0) == '"' {
        let mut i: usize = 1;
        while i < len && input.get_char(i) != '"'
            invariant
                1 <= i <= len,
                len == input@.len(),
                forall|j: int| 1 <= j < i ==> input@[j] != '"',
            decreases len - i,
        {
            i += 1;
        }
        proof {
            lemma_first_index(input@.drop_first(), '"', i - 1);
        }
        if i < len {
            let text = input.substring_char(1, i);
            let rest = input.substring_char(i + 1, len);
            Ok((rest, ResultLineItemValue::Str(text)))
        } else {
            Err(SyntaxError { kind: SyntaxErrorKind::UnterminatedString, position: 0 })
        }
    } else {
        proof {
            lemma_real_literal_bound(input@);
        }
        if len == 0 || !starts_like_literal(input.get_char(0)) {
            return Err(SyntaxError { kind: SyntaxErrorKind::InvalidNumericLiteral, position: 0 });
        }
        proof {
            lemma_recognizer_agrees(input@);
        }
        match split_real_literal(input) {
            Some((rest, lit)) => Ok((rest, classify_literal(lit))),
            None => match mantissa_end(input) {
                Some(n) => {
                    let lit = input.substring_char(0, n);
                    let rest = input.substring_char(n, len);
                    Ok((rest, classify_literal(lit)))
                },
                None => Err(SyntaxError { kind: SyntaxErrorKind::InvalidNumericLiteral, position: 0 }),
            },
        }
    }
}

/// Reads one item at the start of `input`: a name of at least one character
/// up to the first `=`, then a value. Returns what follows, and the item.
pub fn parse_item<'a>(input: &'a str) -> (r: Result<(&'a str, ResultLineItem<'a>), SyntaxError>)
    ensures
        item_outcome(r) == item_spec(input@),
{
    let len = input.unicode_len();
    let mut e: usize = 0;
    while e < len && input.get_char(e) != '='
        invariant
            e <= len,
            len == input@.len(),
            forall|j: int| 0 <= j < e ==> input@[j] != '=',
        decreases len - e,
    {
        e += 1;
    }
    proof {
        lemma_first_index(input@, '=', e as int);
    }
    if e == 0 || e == len {
        return Err(SyntaxError { kind: SyntaxErrorKind::MalformedItem, position: 0 });
    }
    let ident = input.substring_char(0, e);
    let tail = input.substring_char(e + 1, len);
    match parse_item_value(tail) {
        Ok((rest, value)) => Ok((rest, ResultLineItem { ident, value })),
        Err(err) => Err(SyntaxError { kind: err.kind, position: e + 1 }),
    }
}

/// The number of blanks at the start of `s`.
fn blank_prefix_len(s: &str) -> (n: usize)
    ensures
        n == blank_run(s@),
{
    let len = s.unicode_len();
    let mut i: usize = 0;
    while i < len && (s.get_char(i) == ' ' || s.get_char(i) == '\t')
        invariant
            i <= len,
            len == s@.len(),
            forall|j: int| 0 <= j < i ==> is_blank(#[trigger] s@[j]),
        decreases len - i,
    {
        i += 1;
    }
    proof {
        lemma_blank_run(s@, i as int);
    }
    i
}

/// The number of blanks and line breaks at the start of `s`.
fn ws_prefix_len(s: &str) -> (n: usize)
    ensures
        n == ws_run(s@),
{
    let len = s.unicode_len();
    let mut i: usize = 0;
    while i < len && (s.get_char(i) == ' ' || s.get_char(i) == '\t' || s.get_char(i) == '\r'
        || s.get_char(i) == '\n')
        invariant
            i <= len,
            len == s@.len(),
            forall|j: int| 0 <= j < i ==> is_ws(#[trigger] s@[j]),
        decreases len - i,
    {
        i += 1;
    }
    proof {
        lemma_ws_run(s@, i as int);
    }
    i
}

/// Whether `s` starts with the marker `RESULT `.
fn has_marker(s: &str) -> (b: bool)
    ensures
        b == (s@.len() >= 7 && s@.take(7) == marker()),
{
    let len = s.unicode_len();
    if len < 7 {
        return false;
    }
    let b = s.get_char(0) == 'R' && s.get_char(1) == 'E' && s.get_char(2) == 'S'
        && s.get_char(3) == 'U' && s.get_char(4) == 'L' && s.get_char(5) == 'T'
        && s.get_char(6) == ' ';
    proof {
        let t = s@.take(7);
        if b {
            assert(t =~= marker());
        } else if t == marker() {
            assert(t[0] == 'R' && t[1] == 'E' && t[2] == 'S' && t[3] == 'U');
            assert(t[4] == 'L' && t[5] == 'T' && t[6] == ' ');
        }
    }
    b
}

/// Reads a result line: the marker `RESULT `, at least one item, further
/// items each after one or more blanks, then any blanks and line breaks.
/// Returns the text that is left after that, and the items in order. The
/// line parses as a whole or not at all.
pub fn parse_result_line<'a>(input: &'a str) -> (r: Result<(&'a str, Vec<ResultLineItem<'a>>), SyntaxError>)
    ensures
        line_outcome(r) == line_spec(input@),
{
    if !has_marker(input) {
        return Err(SyntaxError { kind: SyntaxErrorKind::MalformedMarker, position: 0 });
    }
    let len = input.unicode_len();
    if len == 7 {
        return Err(SyntaxError { kind: SyntaxErrorKind::EmptyLine, position: 7 });
    }
    let body = input.substring_char(7, len);
    assert(body@ == input@.skip(7));
    match parse_item(body) {
        Err(e) => Err(SyntaxError { kind: e.kind, position: e.position + 7 }),
        Ok((first_rest, first)) => {
            let mut items: Vec<ResultLineItem<'a>> = Vec::new();
            items.push(first);
            let mut rest = first_rest;
            let mut done = false;
            let ghost start = first_rest@;
            while !done
                invariant
                    items@.len() >= 1,
                    items_view(items@)[0] == first@,
                    !done ==> more_items(start).0 == items_view(items@).drop_first()
                        + more_items(rest@).0,
                    !done ==> more_items(start).1 == more_items(rest@).1,
                    done ==> more_items(start).0 == items_view(items@).drop_first(),
                    done ==> more_items(start).1 == rest@,
                decreases rest@.len() + if done { 0int } else { 1int },
            {
                let b = blank_prefix_len(rest);
                if b == 0 {
                    done = true;
                    assert(more_items(rest@).0 =~= Seq::<ItemView>::empty());
                    assert(items_view(items@).drop_first() + Seq::<ItemView>::empty() =~= items_view(items@).drop_first());
                } else {
                    let rlen = rest.unicode_len();
                    proof {
                        lemma_blank_run_bound(rest@);
                        lemma_item_shrinks(rest@.skip(b as int));
                    }
                    match parse_item(rest.substring_char(b, rlen)) {
                        Ok((next_rest, it)) => {
                            let ghost old_items = items_view(items@);
                            let ghost m = more_items(next_rest@);
                            assert(more_items(rest@).0 == seq![it@] + m.0);
                            items.push(it);
                            assert(items_view(items@) =~= old_items.push(it@));
                            assert(items_view(items@).drop_first() + m.0 =~= old_items.drop_first() + (seq![it@] + m.0));
                            rest = next_rest;
                        },
                        Err(_) => {
                            done = true;
                            assert(more_items(rest@).0 =~= Seq::<ItemView>::empty());
                            assert(items_view(items@).drop_first() + Seq::<ItemView>::empty() =~= items_view(items@).drop_first());
                        },
                    }
                }
            }
            let w = ws_prefix_len(rest);
            proof {
                lemma_ws_run_bound(rest@);
            }
            let rlen = rest.unicode_len();
            let left = rest.substring_char(w, rlen);
            assert(items_view(items@) =~= seq![first@] + more_items(start).0);
            Ok((left, items))
        },
    }
}

} // verus!
