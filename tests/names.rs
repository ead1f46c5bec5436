use sqlplot_rs::{validate_field_name, NameError};

#[test]
fn identifier_like_names_pass() {
    assert_eq!(validate_field_name("a_token"), Ok(()));
    assert_eq!(validate_field_name("_x9"), Ok(()));
    assert_eq!(validate_field_name("my_c_token"), Ok(()));
}

#[test]
fn each_name_error() {
    assert_eq!(validate_field_name(""), Err(NameError::Empty));
    assert_eq!(validate_field_name("1abc"), Err(NameError::BadFirstChar));
    assert_eq!(validate_field_name("äbc"), Err(NameError::BadFirstChar));
    assert_eq!(validate_field_name("a b"), Err(NameError::Whitespace));
    assert_eq!(validate_field_name("a\u{3000}b"), Err(NameError::Whitespace));
    assert_eq!(validate_field_name("a-b"), Err(NameError::NotAsciiIdentifier));
    assert_eq!(validate_field_name("aé"), Err(NameError::NotAsciiIdentifier));
}

#[test]
fn first_broken_rule_is_reported() {
    // white space is reported before a special character that follows it
    assert_eq!(validate_field_name("a -"), Err(NameError::Whitespace));
    assert_eq!(validate_field_name("a- "), Err(NameError::Whitespace));
}
