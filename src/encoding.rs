//! Writing a result line.
use vstd::prelude::*;

use crate::grammar::marker;
use crate::model::{items_view, ItemView, ResultLineItem, ResultLineItemValue, ValueView};

verus! {

pub open spec fn digit_char(d: nat) -> char {
    ((d + 48) as u32) as char
}

/// The decimal digits of `n`, without leading zeros.
pub open spec fn nat_text(n: nat) -> Seq<char>
    decreases n,
{
    if n < 10 {
        seq![digit_char(n)]
    } else {
        nat_text(n / 10) + seq![digit_char(n % 10)]
    }
}

/// The decimal text of `n`, with a `-` where it is negative.
pub open spec fn int_text(n: int) -> Seq<char> {
    if n < 0 {
        seq!['-'] + nat_text((-n) as nat)
    } else {
        nat_text(n as nat)
    }
}

/// A string between double quotes, a number as its decimal or literal text.
pub open spec fn value_text(v: ValueView) -> Seq<char> {
    match v {
        ValueView::Str(s) => seq!['"'] + s + seq!['"'],
        ValueView::Int(n) => int_text(n as int),
        ValueView::Float(t) => t,
    }
}

pub open spec fn item_text(it: ItemView) -> Seq<char> {
    it.ident + seq!['='] + value_text(it.value)
}

/// The texts of the items, in order, with one space between two of them.
pub open spec fn items_text(items: Seq<ItemView>) -> Seq<char>
    decreases items.len(),
{
    if items.len() == 0 {
        Seq::empty()
    } else if items.len() == 1 {
        item_text(items[0])
    } else {
        item_text(items[0]) + seq![' '] + items_text(items.drop_first())
    }
}

/// The result line of `items`: the marker, then the items.
pub open spec fn line_text(items: Seq<ItemView>) -> Seq<char> {
    marker() + items_text(items)
}

/// Items written one after the other with one space between them read as
/// the text of the first group, a space, and the text of the second.
pub proof fn lemma_items_text_concat(a: Seq<ItemView>, b: Seq<ItemView>)
    requires
        a.len() > 0,
        b.len() > 0,
    ensures
        items_text(a + b) == items_text(a) + seq![' '] + items_text(b),
    decreases a.len(),
{
    if a.len() == 1 {
        assert((a + b)[0] == a[0]);
        assert((a + b).drop_first() =~= b);
    } else {
        lemma_items_text_concat(a.drop_first(), b);
        assert((a + b).drop_first() =~= a.drop_first() + b);
        assert((a + b)[0] == a[0]);
        assert(items_text(a + b) =~= items_text(a) + seq![' '] + items_text(b));
    }
}

fn digit_str(d: u64) -> (r: &'static str)
    requires
        d < 10,
    ensures
        r@ == seq![digit_char(d as nat)],
{
    proof {
        reveal_strlit("0");
        reveal_strlit("1");
        reveal_strlit("2");
        reveal_strlit("3");
        reveal_strlit("4");
        reveal_strlit("5");
        reveal_strlit("6");
        reveal_strlit("7");
        reveal_strlit("8");
        reveal_strlit("9");
    }
    let r = if d == 0 {
        "0"
    } else if d == 1 {
        "1"
    } else if d == 2 {
        "2"
    } else if d == 3 {
        "3"
    } else if d == 4 {
        "4"
    } else if d == 5 {
        "5"
    } else if d == 6 {
        "6"
    } else if d == 7 {
        "7"
    } else if d == 8 {
        "8"
    } else {
        "9"
    };
    assert(r@ =~= seq![digit_char(d as nat)]);
    r
}

fn append_nat(out: &mut String, n: u64)
    ensures
        final(out)@ == old(out)@ + nat_text(n as nat),
    decreases n,
{
    if n >= 10 {
        append_nat(out, n / 10);
    }
    out.append(digit_str(n % 10));
    proof {
        if n >= 10 {
            assert(final(out)@ =~= old(out)@ + nat_text(n as nat));
        }
    }
}

fn append_int(out: &mut String, n: i64)
    ensures
        final(out)@ == old(out)@ + int_text(n as int),
{
    proof {
        reveal_strlit("-");
    }
    if n < 0 {
        out.append("-");
        let m: u64 = if n == i64::MIN {
            9223372036854775808
        } else {
            (-n) as u64
        };
        append_nat(out, m);
        assert(final(out)@ =~= old(out)@ + int_text(n as int));
    } else {
        append_nat(out, n as u64);
    }
}

fn append_item(out: &mut String, item: &ResultLineItem)
    ensures
        final(out)@ == old(out)@ + item_text(item@),
{
    proof {
        reveal_strlit("=");
        reveal_strlit("\"");
    }
    out.append(item.ident);
    out.append("=");
    match item.value {
        ResultLineItemValue::Str(s) => {
            out.append("\"");
            out.append(s);
            out.append("\"");
        },
        ResultLineItemValue::Int(n) => append_int(out, n),
        ResultLineItemValue::Float(t) => out.append(t),
    }
    assert(final(out)@ =~= old(out)@ + item_text(item@));
}

/// Writes `items` as one result line: `RESULT `, then for each item in order
/// its name, `=` and its value, with one space between two items. A string
/// is put between double quotes as it is; an integer is written in decimal;
/// a floating-point value is written as its literal. There is no trailing
/// newline, and an empty sequence gives `RESULT ` alone.
pub fn encode(items: &[ResultLineItem]) -> (r: String)
    ensures
        r@ == line_text(items_view(items@)),
{
    proof {
        reveal_strlit("RESULT ");
    }
    let mut out = String::new();
    out.append("RESULT ");
    assert(out@ =~= marker());
    let mut i: usize = 0;
    while i < items.len()
        invariant
            i <= items@.len(),
            out@ == line_text(items_view(items@).take(i as int)),
        decreases items@.len() - i,
    {
        let ghost before = items_view(items@).take(i as int);
        let ghost one = seq![items@[i as int]@];
        let ghost start = out@;
        if i > 0 {
            out.append(" ");
        }
        let ghost mid = out@;
        append_item(&mut out, &items[i]);
        proof {
            assert(items_view(items@).take(i + 1) =~= before + one);
            assert(items_text(one) == item_text(items@[i as int]@));
            if i > 0 {
                lemma_items_text_concat(before, one);
                reveal_strlit(" ");
                assert(mid =~= start + seq![' ']);
            } else {
                assert(before + one =~= one);
                assert(items_text(before) =~= Seq::<char>::empty());
                assert(mid =~= marker());
            }
            assert(out@ =~= line_text(items_view(items@).take(i + 1)));
        }
        i += 1;
    }
    assert(items_view(items@).take(i as int) =~= items_view(items@));
    out
}

} // verus!
