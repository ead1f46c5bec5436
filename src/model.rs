//! The values that a result line carries, and their mathematical views.
use vstd::prelude::*;

use crate::grammar::float_literal_ok;

verus! {

/// What a value of a result line is, as a mathematical object.
pub enum ValueView {
    Str(Seq<char>),
    Int(i64),
    /// The literal text of a floating-point value.
    Float(Seq<char>),
}

/// One `name=value` item of a result line, as a mathematical object.
pub struct ItemView {
    pub ident: Seq<char>,
    pub value: ValueView,
}

/// A typed value. A floating-point value is held as the literal text that
/// spells it (for instance `12.1`, `-5.5` or `5e2`): the format classifies
/// literals by their shape, and the text is what it reads and writes.
#[derive(Debug, Clone, Copy, PartialEq)]
pub enum ResultLineItemValue<'a> {
    Str(&'a str),
    Int(i64),
    Float(&'a str),
}

impl<'a> View for ResultLineItemValue<'a> {
    type V = ValueView;

    open spec fn view(&self) -> ValueView {
        match *self {
            ResultLineItemValue::Str(s) => ValueView::Str(s@),
            ResultLineItemValue::Int(n) => ValueView::Int(n),
            ResultLineItemValue::Float(t) => ValueView::Float(t@),
        }
    }
}

/// One `name=value` item of a result line.
#[derive(Debug, Clone, Copy, PartialEq)]
pub struct ResultLineItem<'a> {
    pub ident: &'a str,
    pub value: ResultLineItemValue<'a>,
}

impl<'a> View for ResultLineItem<'a> {
    type V = ItemView;

    open spec fn view(&self) -> ItemView {
        ItemView { ident: self.ident@, value: self.value@ }
    }
}

/// The views of a sequence of items, in order.
pub open spec fn items_view<'a>(items: Seq<ResultLineItem<'a>>) -> Seq<ItemView> {
    items.map_values(|it: ResultLineItem<'a>| it@)
}

impl<'a> ResultLineItem<'a> {
    pub fn new(ident: &'a str, value: ResultLineItemValue<'a>) -> (r: Self)
        ensures
            r.ident == ident,
            r.value == value,
    {
        ResultLineItem { ident, value }
    }

    pub fn integer(ident: &'a str, value: i64) -> (r: Self)
        ensures
            r.ident == ident,
            r.value == ResultLineItemValue::Int(value),
    {
        Self::new(ident, ResultLineItemValue::Int(value))
    }

    /// An item whose value is the floating-point literal `literal`.
    pub fn float(ident: &'a str, literal: &'a str) -> (r: Self)
        requires
            float_literal_ok(literal@),
        ensures
            r.ident == ident,
            r.value == ResultLineItemValue::Float(literal),
    {
        Self::new(ident, ResultLineItemValue::Float(literal))
    }

    pub fn string(ident: &'a str, value: &'a str) -> (r: Self)
        ensures
            r.ident == ident,
            r.value == ResultLineItemValue::Str(value),
    {
        Self::new(ident, ResultLineItemValue::Str(value))
    }
}

/// Why a line is not a result line.
#[derive(Debug, Clone, Copy, PartialEq, Eq, Structural)]
pub enum SyntaxErrorKind {
    /// The line does not begin with `RESULT `.
    MalformedMarker,
    /// An item has no `=`, or its name is empty.
    MalformedItem,
    /// A quoted value has no closing quote.
    UnterminatedString,
    /// A value is neither a quoted string nor a real-number literal.
    InvalidNumericLiteral,
    /// Nothing follows the marker.
    EmptyLine,
}

/// A syntax failure and the character position, counted from the start of
/// the parsed text, at which the part that failed to match begins.
#[derive(Debug, Clone, Copy, PartialEq, Eq, Structural)]
pub struct SyntaxError {
    pub kind: SyntaxErrorKind,
    pub position: usize,
}

} // verus!
