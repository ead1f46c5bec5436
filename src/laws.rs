//! What holds between writing and reading result lines.
use vstd::prelude::*;

use crate::encoding::{
    digit_char, int_text, item_text, items_text, lemma_items_text_concat, line_text, nat_text,
    value_text,
};
use crate::grammar::{
    all_digits, blank_run, digit_run, digit_value, digits_value, exponent_len,
    int_literal_value, is_digit, is_ws, item_spec, lemma_first_index, line_spec, mantissa_len, marker,
    more_items, numeric_literal_len, sign_len, value_spec, ws_run,
};
use crate::names::{is_name_char, name_verdict};
use crate::model::{items_view, ItemView, ResultLineItem, ValueView};

verus! {

/// A name that an item can be written under: at least one character, and
/// no `=`.
pub open spec fn name_ok(name: Seq<char>) -> bool {
    name.len() > 0 && forall|i: int| 0 <= i < name.len() ==> #[trigger] name[i] != '='
}

/// A value that reads back as itself: a string without a double quote, any
/// integer, or a floating-point literal that reads whole as a real-number
/// literal and not as an integer.
pub open spec fn value_ok(v: ValueView) -> bool {
    match v {
        ValueView::Str(s) => forall|i: int| 0 <= i < s.len() ==> #[trigger] s[i] != '"',
        ValueView::Int(_) => true,
        ValueView::Float(t) => numeric_literal_len(t) == Some(t.len()) && int_literal_value(t) is None,
    }
}

proof fn lemma_digit_run_all(s: Seq<char>)
    requires
        all_digits(s),
    ensures
        digit_run(s) == s.len(),
    decreases s.len(),
{
    if s.len() > 0 {
        assert(is_digit(s[0]));
        assert forall|i: int| 0 <= i < s.len() - 1 implies is_digit(#[trigger] s.drop_first()[i]) by {
            assert(s.drop_first()[i] == s[i + 1]);
        }
        lemma_digit_run_all(s.drop_first());
    }
}

proof fn lemma_nat_text(m: nat)
    ensures
        nat_text(m).len() > 0,
        all_digits(nat_text(m)),
        digits_value(nat_text(m)) == m,
    decreases m,
{
    let t = nat_text(m);
    if m < 10 {
        assert(digit_value(digit_char(m)) == m);
        assert(t.drop_last() =~= Seq::<char>::empty());
        assert(digits_value(t) == digits_value(t.drop_last()) * 10 + digit_value(t.last()));
    } else {
        lemma_nat_text(m / 10);
        let p = nat_text(m / 10);
        let d = digit_char(m % 10);
        assert(digit_value(d) == m % 10);
        assert(t.drop_last() =~= p);
        assert(t.last() == d);
        assert(digits_value(t) == digits_value(p) * 10 + digit_value(d));
        assert(m == (m / 10) * 10 + m % 10);
        assert forall|i: int| 0 <= i < t.len() implies is_digit(#[trigger] t[i]) by {
            if i < p.len() {
                assert(t[i] == p[i]);
            }
        }
    }
}

proof fn lemma_digit_run_concat(x: Seq<char>, y: Seq<char>)
    ensures
        digit_run(x + y) == if digit_run(x) < x.len() {
            digit_run(x)
        } else {
            x.len() + digit_run(y)
        },
    decreases x.len(),
{
    crate::grammar::lemma_digit_run_bound(x);
    if x.len() > 0 {
        assert((x + y)[0] == x[0]);
        assert((x + y).drop_first() =~= x.drop_first() + y);
        lemma_digit_run_concat(x.drop_first(), y);
    } else {
        assert(x + y =~= y);
    }
}

/// What follows `x` cannot lengthen its run of digits when it starts with a
/// space.
proof fn lemma_digit_run_before_space(x: Seq<char>, u: Seq<char>)
    requires
        u.len() == 0 || u[0] == ' ',
    ensures
        digit_run(x + u) == digit_run(x),
{
    lemma_digit_run_concat(x, u);
    crate::grammar::lemma_digit_run_bound(x);
    if u.len() > 0 {
        assert(!is_digit(u[0]));
        assert(digit_run(u) == 0);
    }
}

proof fn lemma_skip_concat(x: Seq<char>, u: Seq<char>, k: int)
    requires
        0 <= k <= x.len(),
    ensures
        (x + u).skip(k) == x.skip(k) + u,
{
    assert((x + u).skip(k) =~= x.skip(k) + u);
}

proof fn lemma_mantissa_before_space(x: Seq<char>, u: Seq<char>)
    requires
        u.len() == 0 || u[0] == ' ',
    ensures
        mantissa_len(x + u) == mantissa_len(x),
{
    let w = x + u;
    lemma_digit_run_before_space(x, u);
    crate::grammar::lemma_digit_run_bound(x);
    let d = digit_run(x);
    if d > 0 {
        if d < x.len() {
            assert(w[d as int] == x[d as int]);
            if x[d as int] == '.' {
                lemma_skip_concat(x, u, d + 1int);
                lemma_digit_run_before_space(x.skip(d + 1int), u);
            }
        } else if d < w.len() {
            assert(w[d as int] == u[0]);
        }
    } else if x.len() > 0 {
        assert(w[0] == x[0]);
        lemma_skip_concat(x, u, 1);
        lemma_digit_run_before_space(x.skip(1), u);
    } else if u.len() > 0 {
        assert(w[0] == u[0]);
    }
}

proof fn lemma_exponent_before_space(y: Seq<char>, u: Seq<char>)
    requires
        u.len() == 0 || u[0] == ' ',
    ensures
        exponent_len(y + u) == exponent_len(y),
{
    let w = y + u;
    if y.len() > 0 {
        assert(w[0] == y[0]);
        if y[0] == 'e' || y[0] == 'E' {
            let t = y.skip(1);
            lemma_skip_concat(y, u, 1);
            let g = sign_len(t);
            if t.len() > 0 {
                assert((t + u)[0] == t[0]);
            } else if u.len() > 0 {
                assert((t + u)[0] == u[0]);
            }
            assert(sign_len(t + u) == g);
            lemma_skip_concat(t, u, g as int);
            lemma_digit_run_before_space(t.skip(g as int), u);
        }
    } else if u.len() > 0 {
        assert(w[0] == u[0]);
    }
}

/// A real-number literal that a space follows reads as without it.
proof fn lemma_literal_before_space(t: Seq<char>, u: Seq<char>)
    requires
        numeric_literal_len(t) == Some(t.len()),
        u.len() == 0 || u[0] == ' ',
    ensures
        numeric_literal_len(t + u) == Some(t.len()),
{
    crate::grammar::lemma_real_literal_bound(t);
    let w = t + u;
    assert(w[0] == t[0]);
    let g = sign_len(t);
    assert(sign_len(w) == g);
    lemma_skip_concat(t, u, g as int);
    lemma_mantissa_before_space(t.skip(g as int), u);
    match mantissa_len(t.skip(g as int)) {
        Some(m) => {
            lemma_skip_concat(t, u, (g + m) as int);
            lemma_exponent_before_space(t.skip((g + m) as int), u);
        },
        None => {},
    }
}

/// An integer's decimal text reads whole as a literal, and as that integer.
proof fn lemma_int_text_reads_back(n: i64)
    ensures
        numeric_literal_len(int_text(n as int)) == Some(int_text(n as int).len()),
        int_literal_value(int_text(n as int)) == Some(n),
{
    let t = int_text(n as int);
    let m: nat = if n < 0 { (-n) as nat } else { n as nat };
    lemma_nat_text(m);
    lemma_digit_run_all(nat_text(m));
    let d = nat_text(m);
    assert(!(d[0] == '+' || d[0] == '-'));
    let g = sign_len(t);
    assert(t.skip(g as int) =~= d);
    assert(mantissa_len(d) == Some(d.len()));
    assert(t.skip((g + d.len()) as int) =~= Seq::<char>::empty());
    assert(exponent_len(t.skip((g + d.len()) as int)) == Some(0nat));
}

proof fn lemma_value_reads_back(v: ValueView, u: Seq<char>)
    requires
        value_ok(v),
        u.len() == 0 || u[0] == ' ',
    ensures
        value_spec(value_text(v) + u) == Ok::<_, crate::model::SyntaxError>((v, u)),
{
    let t = value_text(v);
    let w = t + u;
    match v {
        ValueView::Str(s) => {
            let q = s + seq!['"'] + u;
            assert(w.drop_first() =~= q);
            assert forall|j: int| 0 <= j < s.len() implies q[j] != '"' by {
                assert(q[j] == s[j]);
            }
            assert(q[s.len() as int] == '"');
            lemma_first_index(q, '"', s.len() as int);
            assert(w.subrange(1, s.len() + 1int) =~= s);
            assert(w.skip(s.len() + 2int) =~= u);
        },
        ValueView::Int(n) => {
            lemma_int_text_reads_back(n);
            lemma_literal_before_space(t, u);
            lemma_nat_text(if n < 0 { (-n) as nat } else { n as nat });
            assert(w.take(t.len() as int) =~= t);
            assert(w.skip(t.len() as int) =~= u);
            if n < 0 {
                assert(w[0] == '-');
            } else {
                assert(w[0] == t[0]);
                assert(is_digit(t[0]));
            }
        },
        ValueView::Float(f) => {
            lemma_literal_before_space(f, u);
            assert(w.take(f.len() as int) =~= f);
            assert(w.skip(f.len() as int) =~= u);
            assert(f.len() > 0) by {
                crate::grammar::lemma_real_literal_bound(f);
            }
            assert(w[0] == f[0]);
            if f[0] == '"' {
                assert(mantissa_len(f.skip(sign_len(f) as int)) is None);
            }
        },
    }
}

/// A name that an item can be written under in a line of several items:
/// at least one character, no `=`, no blank and no line break.
pub open spec fn field_name_ok(name: Seq<char>) -> bool {
    name_ok(name) && forall|i: int| 0 <= i < name.len() ==> !is_ws(#[trigger] name[i])
}

pub open spec fn item_ok(it: ItemView) -> bool {
    field_name_ok(it.ident) && value_ok(it.value)
}

/// What follows the first item in the text of `items`.
pub open spec fn after_first(items: Seq<ItemView>) -> Seq<char> {
    if items.len() <= 1 {
        Seq::empty()
    } else {
        seq![' '] + items_text(items.drop_first())
    }
}

proof fn lemma_item_reads_back(it: ItemView, u: Seq<char>)
    requires
        name_ok(it.ident),
        value_ok(it.value),
        u.len() == 0 || u[0] == ' ',
    ensures
        item_spec(item_text(it) + u) == Ok::<_, crate::model::SyntaxError>((it, u)),
{
    let name = it.ident;
    let vt = value_text(it.value);
    let w = item_text(it) + u;
    assert forall|j: int| 0 <= j < name.len() implies w[j] != '=' by {
        assert(w[j] == name[j]);
    }
    assert(w[name.len() as int] == '=');
    lemma_first_index(w, '=', name.len() as int);
    assert(w.skip(name.len() + 1int) =~= vt + u);
    assert(w.take(name.len() as int) =~= name);
    lemma_value_reads_back(it.value, u);
}

proof fn lemma_more_items_read_back(items: Seq<ItemView>)
    requires
        items.len() > 0,
        forall|i: int| 0 <= i < items.len() ==> item_ok(#[trigger] items[i]),
    ensures
        items_text(items) == item_text(items[0]) + after_first(items),
        item_spec(items_text(items)) == Ok::<_, crate::model::SyntaxError>((items[0], after_first(items))),
        more_items(after_first(items)) == (items.drop_first(), Seq::<char>::empty()),
    decreases items.len(),
{
    let it = items[0];
    assert(item_ok(it));
    let e = Seq::<char>::empty();
    if items.len() == 1 {
        assert(item_text(it) + e =~= item_text(it));
        assert(blank_run(e) == 0);
        assert(items.drop_first() =~= Seq::<ItemView>::empty());
    } else {
        let rest = items.drop_first();
        assert forall|i: int| 0 <= i < rest.len() implies item_ok(#[trigger] rest[i]) by {
            assert(rest[i] == items[i + 1]);
        }
        lemma_more_items_read_back(rest);
        let a = after_first(items);
        assert(items_text(items) =~= item_text(it) + a);
        let first = rest[0];
        assert(item_ok(first));
        let tt = items_text(rest);
        assert(tt[0] == first.ident[0]);
        assert(!is_ws(first.ident[0]));
        assert(a[1] == tt[0]);
        assert(a.drop_first() =~= tt);
        assert(blank_run(a.drop_first()) == 0);
        assert(blank_run(a) == 1);
        assert(a.skip(1) =~= tt);
        let (m, r) = more_items(after_first(rest));
        assert(seq![first] + rest.drop_first() =~= rest);
    }
    lemma_item_reads_back(it, after_first(items));
}

/// Writing at least one item as a result line and reading the line gives
/// the same items, in the same order, with nothing left over; where each
/// item's name is not empty and holds no `=`, blank or line break, each
/// string holds no double quote, and each floating-point literal reads whole
/// as a real-number literal and not as an integer.
pub proof fn lemma_round_trip(items: Seq<ItemView>)
    requires
        items.len() > 0,
        forall|i: int| 0 <= i < items.len() ==> item_ok(#[trigger] items[i]),
    ensures
        line_spec(line_text(items)) == Ok::<_, crate::model::SyntaxError>((items, Seq::<char>::empty())),
{
    lemma_more_items_read_back(items);
    let line = line_text(items);
    let body = line.skip(7);
    assert(line.take(7) =~= marker());
    assert(body =~= items_text(items));
    assert(items[0].ident.len() > 0) by {
        assert(item_ok(items[0]));
    }
    assert(body.len() > 0);
    let e = Seq::<char>::empty();
    assert(item_spec(body) == Ok::<_, crate::model::SyntaxError>((items[0], after_first(items))));
    assert(more_items(after_first(items)) == (items.drop_first(), e));
    assert(ws_run(e) == 0);
    assert(e.skip(0) =~= e);
    assert(seq![items[0]] + items.drop_first() =~= items);
}

/// One space where both groups of items have some, else nothing.
pub open spec fn joiner(a: Seq<ItemView>, b: Seq<ItemView>) -> Seq<char> {
    if a.len() > 0 && b.len() > 0 {
        seq![' ']
    } else {
        Seq::empty()
    }
}

/// The line of two groups of items is made of their texts alone: an item
/// left out of a sequence leaves no trace in its line, and the line of
/// `a + [x] + b` differs from that of `a + b` only by the text of `x` and
/// one space.
pub proof fn lemma_omitted_item_leaves_no_trace(a: Seq<ItemView>, x: ItemView, b: Seq<ItemView>)
    ensures
        line_text(a + b) == marker() + items_text(a) + joiner(a, b) + items_text(b),
        line_text(a + seq![x] + b) == marker() + items_text(a) + joiner(a, seq![x]) + item_text(x)
            + joiner(seq![x], b) + items_text(b),
{
    lemma_items_concat(a, b);
    lemma_items_concat(a, seq![x]);
    lemma_items_concat(a + seq![x], b);
    assert(items_text(seq![x]) == item_text(x));
    assert(line_text(a + b) =~= marker() + items_text(a) + joiner(a, b) + items_text(b));
    if b.len() > 0 {
        assert(joiner(a + seq![x], b) == joiner(seq![x], b));
    } else {
        assert(joiner(a + seq![x], b) == joiner(seq![x], b));
    }
    assert(line_text(a + seq![x] + b) =~= marker() + items_text(a) + joiner(a, seq![x]) + item_text(x)
        + joiner(seq![x], b) + items_text(b));
}

proof fn lemma_items_concat(a: Seq<ItemView>, b: Seq<ItemView>)
    ensures
        items_text(a + b) == items_text(a) + joiner(a, b) + items_text(b),
{
    if a.len() == 0 {
        assert(a + b =~= b);
        assert(items_text(a) + joiner(a, b) + items_text(b) =~= items_text(b));
    } else if b.len() == 0 {
        assert(a + b =~= a);
        assert(items_text(a) + joiner(a, b) + items_text(b) =~= items_text(a));
    } else {
        lemma_items_text_concat(a, b);
    }
}

/// Writing is a function of the items' views: sequences of items with equal
/// views give equal lines, whatever the call.
pub proof fn lemma_encode_deterministic<'a>(x: Seq<ResultLineItem<'a>>, y: Seq<ResultLineItem<'a>>)
    requires
        items_view(x) == items_view(y),
    ensures
        line_text(items_view(x)) == line_text(items_view(y)),
{
}

/// A name that passes the field-name check can stand in a line of several
/// items, so items under such names read back as they were written.
pub proof fn lemma_checked_name_is_field_name(name: Seq<char>)
    requires
        name_verdict(name) is Ok,
    ensures
        field_name_ok(name),
{
    assert forall|i: int| 0 <= i < name.len() implies #[trigger] name[i] != '=' && !is_ws(name[i]) by {
        assert(is_name_char(name[i]));
    }
}

} // verus!
