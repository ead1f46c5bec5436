//! A line-oriented text format for measurement results: a line starts with
//! the marker `RESULT ` and carries space-separated `name=value` items whose
//! values are quoted strings, integers or floating-point literals.
use vstd::prelude::*;

pub mod model;
pub mod grammar;
pub mod parsing;
pub mod encoding;
pub mod laws;
pub mod names;

pub use model::{ItemView, ResultLineItem, ResultLineItemValue, SyntaxError, SyntaxErrorKind, ValueView};
pub use encoding::encode;
pub use names::{validate_field_name, NameError};
pub use parsing::{parse_item, parse_item_value, parse_result_line};

verus! {

/// A record that reports itself as a result line. An implementation gathers
/// the fields that the record reports, in order and under the names they are
/// reported by, and hands them to [`encode`].
pub trait ResultLine {
    fn to_result_line(&self) -> String;
}

} // verus!
