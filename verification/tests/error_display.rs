use vdf_serde::Error;

#[test]
fn test_display_message() {
    let error = Error::Message("custom error".to_string());
    assert_eq!(error.display_string(), "custom error");
}

#[test]
fn test_display_eof() {
    let error = Error::Eof;
    assert_eq!(error.display_string(), "unexpected end of input");
}

#[test]
fn test_display_syntax() {
    let error = Error::Syntax;
    assert_eq!(error.display_string(), "syntax error");
}

#[test]
fn test_display_expected_boolean() {
    let error = Error::ExpectedBoolean;
    assert_eq!(error.display_string(), "expected boolean");
}

#[test]
fn test_display_expected_integer() {
    let error = Error::ExpectedInteger;
    assert_eq!(error.display_string(), "expected integer");
}

#[test]
fn test_display_expected_string() {
    let error = Error::ExpectedString;
    assert_eq!(error.display_string(), "expected string");
}

#[test]
fn test_display_expected_null() {
    let error = Error::ExpectedNull;
    assert_eq!(error.display_string(), "expected null");
}

#[test]
fn test_display_expected_array() {
    let error = Error::ExpectedArray;
    assert_eq!(error.display_string(), "expected array");
}

#[test]
fn test_display_expected_map() {
    let error = Error::ExpectedMap;
    assert_eq!(error.display_string(), "expected map");
}

#[test]
fn test_display_expected_map_key() {
    let error = Error::ExpectedMapKey;
    assert_eq!(error.display_string(), "expected map key");
}

#[test]
fn test_display_expected_map_end() {
    let error = Error::ExpectedMapEnd;
    assert_eq!(error.display_string(), "expected map end");
}

#[test]
fn test_display_expected_enum() {
    let error = Error::ExpectedEnum;
    assert_eq!(error.display_string(), "expected enum");
}

#[test]
fn test_display_cannot_supported_tuple_type() {
    let error = Error::CannotSupportedTupleType;
    assert_eq!(error.display_string(), "cannot supported tuple type, make a Tuple Struct instead, i.e. enum { Example { x: i32, y: i32 } } or ");
}

#[test]
fn test_display_trailing_characters() {
    let error = Error::TrailingCharacters;
    assert_eq!(error.display_string(), "trailing characters");
}

#[test]
fn test_display_expected_string_or_block() {
    let error = Error::ExpectedStringOrBlock;
    assert_eq!(error.display_string(), "expected string or block");
}

#[test]
fn test_display_unsupported_enums() {
    let error = Error::UnsupportedEnums;
    assert_eq!(error.display_string(), "unsupported enums");
}

#[test]
fn test_display_unsupported_self_discribing() {
    let error = Error::UnsupportedSelfDiscribing;
    assert_eq!(error.display_string(), "unsupported self-discribing [ANY]");
}

#[test]
fn test_display_unknown() {
    let error = Error::Message("unknown error".to_string());
    assert_eq!(error.display_string(), "unknown error");
}

#[test]
fn test_ser_error() {
    let error: Error = Error::custom("serialization error".to_string());
    assert_eq!(error, Error::Message("serialization error".to_string()));
}

#[test]
fn test_de_error() {
    let error: Error = Error::custom("deserialization error".to_string());
    assert_eq!(error, Error::Message("deserialization error".to_string()));
}
