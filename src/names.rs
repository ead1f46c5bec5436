//! Checking the name that a field is reported under.
use vstd::prelude::*;

verus! {

/// Why a name cannot be given to a field.
#[derive(Debug, Clone, Copy, PartialEq, Eq, Structural)]
pub enum NameError {
    /// The name is empty.
    Empty,
    /// The name starts with neither an ASCII letter nor an underscore.
    BadFirstChar,
    /// The name holds white space.
    Whitespace,
    /// The name holds a character that is neither an ASCII letter or digit
    /// nor an underscore.
    NotAsciiIdentifier,
}

/// The characters that have Unicode's White_Space property.
pub open spec fn is_white_space(c: char) -> bool {
    let u = c as u32;
    (0x09 <= u && u <= 0x0d) || u == 0x20 || u == 0x85 || u == 0xa0 || u == 0x1680 || (0x2000
        <= u && u <= 0x200a) || u == 0x2028 || u == 0x2029 || u == 0x202f || u == 0x205f || u
        == 0x3000
}

pub open spec fn is_ascii_alpha(c: char) -> bool {
    ('a' <= c && c <= 'z') || ('A' <= c && c <= 'Z')
}

pub open spec fn is_name_char(c: char) -> bool {
    is_ascii_alpha(c) || ('0' <= c && c <= '9') || c == '_'
}

/// The verdict on a name: it must not be empty, must start with an ASCII
/// letter or an underscore, must hold no white space, and must hold only
/// ASCII letters, digits and underscores; the first rule broken is reported.
pub open spec fn name_verdict(s: Seq<char>) -> Result<(), NameError> {
    if s.len() == 0 {
        Err(NameError::Empty)
    } else if !(s[0] == '_' || is_ascii_alpha(s[0])) {
        Err(NameError::BadFirstChar)
    } else if exists|i: int| 0 <= i < s.len() && is_white_space(#[trigger] s[i]) {
        Err(NameError::Whitespace)
    } else if exists|i: int| 0 <= i < s.len() && !is_name_char(#[trigger] s[i]) {
        Err(NameError::NotAsciiIdentifier)
    } else {
        Ok(())
    }
}

fn white_space(c: char) -> (b: bool)
    ensures
        b == is_white_space(c),
{
    let u = c as u32;
    (0x09 <= u && u <= 0x0d) || u == 0x20 || u == 0x85 || u == 0xa0 || u == 0x1680 || (0x2000
        <= u && u <= 0x200a) || u == 0x2028 || u == 0x2029 || u == 0x202f || u == 0x205f || u
        == 0x3000
}

/// Checks a name that a field is to be reported under, by the rules of
/// [`name_verdict`].
pub fn validate_field_name(name: &str) -> (r: Result<(), NameError>)
    ensures
        r == name_verdict(name@),
{
    let len = name.unicode_len();
    if len == 0 {
        return Err(NameError::Empty);
    }
    let first = name.get_char(0);
    if !(first == '_' || ('a' <= first && first <= 'z') || ('A' <= first && first <= 'Z')) {
        return Err(NameError::BadFirstChar);
    }
    let mut i: usize = 0;
    while i < len
        invariant
            i <= len,
            len == name@.len(),
            len > 0,
            name@[0] == '_' || is_ascii_alpha(name@[0]),
            forall|j: int| 0 <= j < i ==> !is_white_space(#[trigger] name@[j]),
        decreases len - i,
    {
        if white_space(name.get_char(i)) {
            assert(is_white_space(name@[i as int]));
            return Err(NameError::Whitespace);
        }
        i += 1;
    }
    let mut k: usize = 0;
    while k < len
        invariant
            k <= len,
            len == name@.len(),
            len > 0,
            name@[0] == '_' || is_ascii_alpha(name@[0]),
            forall|j: int| 0 <= j < len ==> !is_white_space(#[trigger] name@[j]),
            forall|j: int| 0 <= j < k ==> is_name_char(#[trigger] name@[j]),
        decreases len - k,
    {
        let c = name.get_char(k);
        if !(('a' <= c && c <= 'z') || ('A' <= c && c <= 'Z') || ('0' <= c && c <= '9') || c
            == '_') {
            assert(!is_name_char(name@[k as int]));
            return Err(NameError::NotAsciiIdentifier);
        }
        k += 1;
    }
    Ok(())
}

} // verus!
