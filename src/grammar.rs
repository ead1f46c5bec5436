//! The grammar of a result line, stated over sequences of characters.
use vstd::prelude::*;

use crate::model::{ItemView, SyntaxError, SyntaxErrorKind, ValueView};

verus! {

pub open spec fn is_digit(c: char) -> bool {
    '0' <= c && c <= '9'
}

pub open spec fn is_sign(c: char) -> bool {
    c == '+' || c == '-'
}

/// The number of decimal digits at the start of `s`.
pub open spec fn digit_run(s: Seq<char>) -> nat
    decreases s.len(),
{
    if s.len() > 0 && is_digit(s[0]) {
        1 + digit_run(s.drop_first())
    } else {
        0
    }
}

/// 1 where `s` starts with a sign, else 0.
pub open spec fn sign_len(s: Seq<char>) -> nat {
    if s.len() > 0 && is_sign(s[0]) {
        1
    } else {
        0
    }
}

/// The length of the mantissa at the start of `s` (digits with an optional
/// `.` and fraction, or a `.` and at least one digit).
pub open spec fn mantissa_len(s: Seq<char>) -> Option<nat> {
    let d = digit_run(s);
    if d > 0 {
        if d < s.len() && s[d as int] == '.' {
            Some(d + 1 + digit_run(s.skip(d + 1int)))
        } else {
            Some(d)
        }
    } else if s.len() > 0 && s[0] == '.' && digit_run(s.skip(1)) > 0 {
        Some(1 + digit_run(s.skip(1)))
    } else {
        None
    }
}

/// The length of the exponent at the start of `s`: `Some(0)` where there is
/// none, `None` where an `e` or `E` is not followed by digits.
pub open spec fn exponent_len(s: Seq<char>) -> Option<nat> {
    if s.len() > 0 && (s[0] == 'e' || s[0] == 'E') {
        let t = s.skip(1);
        let g = sign_len(t);
        let d = digit_run(t.skip(g as int));
        if d > 0 {
            Some(1 + g + d)
        } else {
            None
        }
    } else {
        Some(0)
    }
}

pub open spec fn lower(c: char) -> char {
    if 'A' <= c && c <= 'Z' {
        ((c as u32) + 32) as char
    } else {
        c
    }
}

/// `s` starts with the three letters `a`, `b`, `c`, in either case.
pub open spec fn starts_with3_no_case(s: Seq<char>, a: char, b: char, c: char) -> bool {
    s.len() >= 3 && lower(s[0]) == a && lower(s[1]) == b && lower(s[2]) == c
}

/// The length of the longest prefix of `s` that reads as a real-number
/// literal: an optional sign, a mantissa and an optional exponent, or else
/// `nan` or `inf` in any case. `None` where there is no such prefix, or where
/// the mantissa is followed by an exponent marker without digits.
pub open spec fn real_literal_len(s: Seq<char>) -> Option<nat> {
    let g = sign_len(s);
    match mantissa_len(s.skip(g as int)) {
        Some(m) => match exponent_len(s.skip((g + m) as int)) {
            Some(e) => Some(g + m + e),
            None => None,
        },
        None => if starts_with3_no_case(s, 'n', 'a', 'n') || starts_with3_no_case(s, 'i', 'n', 'f') {
            Some(3)
        } else {
            None
        },
    }
}

/// The length of the longest prefix of `s` that reads as a real-number
/// literal of this format: an optional sign, a mantissa, and an exponent
/// where one with digits follows. An exponent marker without digits is not
/// part of the literal. `None` where no mantissa follows the sign.
pub open spec fn numeric_literal_len(s: Seq<char>) -> Option<nat> {
    let g = sign_len(s);
    match mantissa_len(s.skip(g as int)) {
        Some(m) => match exponent_len(s.skip((g + m) as int)) {
            Some(e) => Some(g + m + e),
            None => Some(g + m),
        },
        None => None,
    }
}

/// A text that can be written as a floating-point value: it reads whole as
/// a real-number literal, does not read as an integer, and does not end in a
/// decimal point.
pub open spec fn float_literal_ok(t: Seq<char>) -> bool {
    &&& numeric_literal_len(t) == Some(t.len())
    &&& int_literal_value(t) is None
    &&& t.last() != '.'
}

/// A character that a literal of this format can start with.
pub open spec fn starts_literal(c: char) -> bool {
    is_sign(c) || is_digit(c) || c == '.'
}

/// The index in `s` of the first `c`, or `s.len()` if it has none.
pub open spec fn first_index(s: Seq<char>, c: char) -> nat
    decreases s.len(),
{
    if s.len() == 0 || s[0] == c {
        0
    } else {
        1 + first_index(s.drop_first(), c)
    }
}

pub open spec fn all_digits(s: Seq<char>) -> bool {
    forall|i: int| 0 <= i < s.len() ==> is_digit(#[trigger] s[i])
}

pub open spec fn digit_value(c: char) -> nat {
    ((c as u32) - ('0' as u32)) as nat
}

/// The number that the decimal digits `s` spell.
pub open spec fn digits_value(s: Seq<char>) -> nat
    decreases s.len(),
{
    if s.len() == 0 {
        0
    } else {
        digits_value(s.drop_last()) * 10 + digit_value(s.last())
    }
}

/// The integer that `t` spells as an optional sign and at least one decimal
/// digit, where it lies in the range of `i64`.
pub open spec fn int_literal_value(t: Seq<char>) -> Option<i64> {
    let g = sign_len(t);
    let d = t.skip(g as int);
    let v: int = if g == 1 && t[0] == '-' {
        -(digits_value(d) as int)
    } else {
        digits_value(d) as int
    };
    if d.len() > 0 && all_digits(d) && i64::MIN <= v <= i64::MAX {
        Some(v as i64)
    } else {
        None
    }
}

/// A real-number literal is an integer where its text reads as one, and a
/// floating-point value otherwise.
pub open spec fn classify(literal: Seq<char>) -> ValueView {
    match int_literal_value(literal) {
        Some(n) => ValueView::Int(n),
        None => ValueView::Float(literal),
    }
}

pub open spec fn syntax_error(kind: SyntaxErrorKind, position: int) -> SyntaxError {
    SyntaxError { kind, position: position as usize }
}

/// A value at the start of `s`, and what follows it: a string between double
/// quotes, or the longest real-number literal there.
pub open spec fn value_spec(s: Seq<char>) -> Result<(ValueView, Seq<char>), SyntaxError> {
    if s.len() > 0 && s[0] == '"' {
        let q = first_index(s.drop_first(), '"');
        if q < s.len() - 1 {
            Ok((ValueView::Str(s.subrange(1, q + 1int)), s.skip(q + 2int)))
        } else {
            Err(syntax_error(SyntaxErrorKind::UnterminatedString, 0))
        }
    } else {
        match numeric_literal_len(s) {
            Some(n) => Ok((classify(s.take(n as int)), s.skip(n as int))),
            None => Err(syntax_error(SyntaxErrorKind::InvalidNumericLiteral, 0)),
        }
    }
}

pub proof fn lemma_digit_run_bound(s: Seq<char>)
    ensures
        digit_run(s) <= s.len(),
        forall|i: int| 0 <= i < digit_run(s) ==> is_digit(#[trigger] s[i]),
        digit_run(s) < s.len() ==> !is_digit(s[digit_run(s) as int]),
    decreases s.len(),
{
    if s.len() > 0 && is_digit(s[0]) {
        lemma_digit_run_bound(s.drop_first());
        assert forall|i: int| 0 <= i < digit_run(s) implies is_digit(#[trigger] s[i]) by {
            if i > 0 {
                assert(s[i] == s.drop_first()[i - 1]);
            }
        }
    }
}

pub proof fn lemma_digit_run(s: Seq<char>, k: int)
    requires
        0 <= k <= s.len(),
        forall|j: int| 0 <= j < k ==> is_digit(#[trigger] s[j]),
        k == s.len() || !is_digit(s[k]),
    ensures
        digit_run(s) == k,
    decreases k,
{
    if k > 0 {
        assert forall|j: int| 0 <= j < k - 1 implies is_digit(#[trigger] s.drop_first()[j]) by {
            assert(s.drop_first()[j] == s[j + 1]);
        }
        lemma_digit_run(s.drop_first(), k - 1);
    }
}

/// Where `s` starts like a literal of this format, nom's recognizer and this
/// format's grammar agree wherever the recognizer succeeds, and where it
/// fails the literal is the sign and mantissa, if any.
pub proof fn lemma_recognizer_agrees(s: Seq<char>)
    requires
        s.len() > 0,
        starts_literal(s[0]),
    ensures
        real_literal_len(s) is Some ==> numeric_literal_len(s) == real_literal_len(s),
        real_literal_len(s) is None ==> numeric_literal_len(s) == match mantissa_len(s.skip(sign_len(s) as int)) {
            Some(m) => Some(sign_len(s) + m),
            None => None::<nat>,
        },
{
    assert(!starts_with3_no_case(s, 'n', 'a', 'n'));
    assert(!starts_with3_no_case(s, 'i', 'n', 'f'));
}

pub proof fn lemma_real_literal_bound(s: Seq<char>)
    ensures
        real_literal_len(s) matches Some(n) ==> 0 < n <= s.len(),
        numeric_literal_len(s) matches Some(n) ==> 0 < n <= s.len(),
{
    let g = sign_len(s);
    let t = s.skip(g as int);
    lemma_digit_run_bound(t);
    let d = digit_run(t);
    if d < t.len() {
        lemma_digit_run_bound(t.skip(d + 1int));
    }
    if t.len() > 0 {
        lemma_digit_run_bound(t.skip(1));
    }
    if let Some(m) = mantissa_len(t) {
        let u = s.skip((g + m) as int);
        if u.len() > 0 {
            let v = u.skip(1);
            lemma_digit_run_bound(v.skip(sign_len(v) as int));
        }
    }
}

pub proof fn lemma_first_index(s: Seq<char>, c: char, k: int)
    requires
        0 <= k <= s.len(),
        forall|j: int| 0 <= j < k ==> s[j] != c,
        k == s.len() || s[k] == c,
    ensures
        first_index(s, c) == k,
    decreases k,
{
    if k > 0 {
        lemma_first_index(s.drop_first(), c, k - 1);
    }
}

pub proof fn lemma_first_index_bound(s: Seq<char>, c: char)
    ensures
        first_index(s, c) <= s.len(),
    decreases s.len(),
{
    if s.len() > 0 && s[0] != c {
        lemma_first_index_bound(s.drop_first(), c);
    }
}

/// A space or a tab: what separates two items.
pub open spec fn is_blank(c: char) -> bool {
    c == ' ' || c == '\t'
}

/// A blank or a line break: what may trail the last item.
pub open spec fn is_ws(c: char) -> bool {
    is_blank(c) || c == '\r' || c == '\n'
}

/// The number of blanks at the start of `s`.
pub open spec fn blank_run(s: Seq<char>) -> nat
    decreases s.len(),
{
    if s.len() > 0 && is_blank(s[0]) {
        1 + blank_run(s.drop_first())
    } else {
        0
    }
}

/// The number of blanks and line breaks at the start of `s`.
pub open spec fn ws_run(s: Seq<char>) -> nat
    decreases s.len(),
{
    if s.len() > 0 && is_ws(s[0]) {
        1 + ws_run(s.drop_first())
    } else {
        0
    }
}

pub proof fn lemma_blank_run(s: Seq<char>, k: int)
    requires
        0 <= k <= s.len(),
        forall|j: int| 0 <= j < k ==> is_blank(#[trigger] s[j]),
        k == s.len() || !is_blank(s[k]),
    ensures
        blank_run(s) == k,
    decreases k,
{
    if k > 0 {
        assert forall|j: int| 0 <= j < k - 1 implies is_blank(#[trigger] s.drop_first()[j]) by {
            assert(s.drop_first()[j] == s[j + 1]);
        }
        lemma_blank_run(s.drop_first(), k - 1);
    }
}

pub proof fn lemma_ws_run(s: Seq<char>, k: int)
    requires
        0 <= k <= s.len(),
        forall|j: int| 0 <= j < k ==> is_ws(#[trigger] s[j]),
        k == s.len() || !is_ws(s[k]),
    ensures
        ws_run(s) == k,
    decreases k,
{
    if k > 0 {
        assert forall|j: int| 0 <= j < k - 1 implies is_ws(#[trigger] s.drop_first()[j]) by {
            assert(s.drop_first()[j] == s[j + 1]);
        }
        lemma_ws_run(s.drop_first(), k - 1);
    }
}

pub proof fn lemma_blank_run_bound(s: Seq<char>)
    ensures
        blank_run(s) <= s.len(),
    decreases s.len(),
{
    if s.len() > 0 && is_blank(s[0]) {
        lemma_blank_run_bound(s.drop_first());
    }
}

pub proof fn lemma_ws_run_bound(s: Seq<char>)
    ensures
        ws_run(s) <= s.len(),
    decreases s.len(),
{
    if s.len() > 0 && is_ws(s[0]) {
        lemma_ws_run_bound(s.drop_first());
    }
}

/// One item at the start of `s`, and what follows it: a name of at least
/// one character up to the first `=`, then a value.
pub open spec fn item_spec(s: Seq<char>) -> Result<(ItemView, Seq<char>), SyntaxError> {
    let e = first_index(s, '=');
    if e == 0 || e >= s.len() {
        Err(syntax_error(SyntaxErrorKind::MalformedItem, 0))
    } else {
        match value_spec(s.skip(e + 1int)) {
            Ok((v, rest)) => Ok((ItemView { ident: s.take(e as int), value: v }, rest)),
            Err(err) => Err(syntax_error(err.kind, e + 1int)),
        }
    }
}

pub proof fn lemma_item_shrinks(s: Seq<char>)
    ensures
        item_spec(s) matches Ok((_, rest)) ==> rest.len() < s.len(),
{
    let e = first_index(s, '=');
    if 0 < e < s.len() {
        let t = s.skip(e + 1int);
        lemma_real_literal_bound(t);
        if t.len() > 0 {
            lemma_first_index_bound(t.drop_first(), '"');
        }
    }
}

/// The items that follow a first item: each after one or more blanks, for
/// as long as one can be read. Returns them and the text after the last.
pub open spec fn more_items(s: Seq<char>) -> (Seq<ItemView>, Seq<char>)
    decreases s.len(),
{
    let b = blank_run(s);
    if b == 0 {
        (Seq::empty(), s)
    } else {
        match item_spec(s.skip(b as int)) {
            Ok((it, rest)) => {
                proof {
                    lemma_blank_run_bound(s);
                    lemma_item_shrinks(s.skip(b as int));
                }
                let (m, r) = more_items(rest);
                (seq![it] + m, r)
            },
            Err(_) => (Seq::empty(), s),
        }
    }
}

/// The text that every result line starts with.
pub open spec fn marker() -> Seq<char> {
    seq!['R', 'E', 'S', 'U', 'L', 'T', ' ']
}

/// A whole result line: the marker, at least one item, more items each
/// after blanks, then optional blanks and line breaks. Returns the items
/// and the text that is left.
pub open spec fn line_spec(s: Seq<char>) -> Result<(Seq<ItemView>, Seq<char>), SyntaxError> {
    if s.len() < 7 || s.take(7) != marker() {
        Err(syntax_error(SyntaxErrorKind::MalformedMarker, 0))
    } else {
        let body = s.skip(7);
        if body.len() == 0 {
            Err(syntax_error(SyntaxErrorKind::EmptyLine, 7))
        } else {
            match item_spec(body) {
                Err(e) => Err(syntax_error(e.kind, 7 + e.position)),
                Ok((it, rest)) => {
                    let (m, r) = more_items(rest);
                    Ok((seq![it] + m, r.skip(ws_run(r) as int)))
                },
            }
        }
    }
}

} // verus!
