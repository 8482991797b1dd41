use vdf_serde::{Deserializer, Error, Result};

// Each helper reads one value the way the Serde deserializer does for that
// type, then requires that nothing but whitespace is left.

fn read_string(input: &str) -> Result<String> {
    let mut de = Deserializer::from_str(input);
    let v = de.parse_key()?;
    de.finish()?;
    Ok(v)
}

fn read_char(input: &str) -> Result<char> {
    let mut de = Deserializer::from_str(input);
    let v = de.parse_char()?;
    de.finish()?;
    Ok(v)
}

fn read_bool(input: &str) -> Result<bool> {
    let mut de = Deserializer::from_str(input);
    let v = de.parse_bool()?;
    de.finish()?;
    Ok(v)
}

#[test]
fn supported_string() {
    let expected_str = r#""Hello, World!""#;
    let expected = "Hello, World!";
    let result = read_string(expected_str).unwrap();
    assert_eq!(expected, result);
}

#[test]
fn support_char() {
    let expected_str = r#""a""#;
    let expected = 'a';
    let result = read_char(expected_str).unwrap();
    assert_eq!(expected, result);
}

#[test]
fn supported_bool_true() {
    assert_eq!(true, read_bool("1").unwrap());
}

#[test]
fn supported_bool_false() {
    assert_eq!(false, read_bool("0").unwrap());
}

#[test]
fn test_i8() {
    let mut de = Deserializer::from_str("127");
    let input: i8 = de.parse_i8().unwrap();
    de.finish().unwrap();
    assert_eq!(127, input);
}

#[test]
fn test_i16() {
    let mut de = Deserializer::from_str("32767");
    let input: i16 = de.parse_i16().unwrap();
    de.finish().unwrap();
    assert_eq!(32767, input);
}

#[test]
fn test_i32() {
    let mut de = Deserializer::from_str("2147483647");
    let input: i32 = de.parse_i32().unwrap();
    de.finish().unwrap();
    assert_eq!(2147483647, input);
}

#[test]
fn test_i64() {
    let mut de = Deserializer::from_str("9223372036854775807");
    let input: i64 = de.parse_i64().unwrap();
    de.finish().unwrap();
    assert_eq!(9223372036854775807, input);
}

#[test]
fn test_u8() {
    let mut de = Deserializer::from_str("255");
    let input: u8 = de.parse_u8().unwrap();
    de.finish().unwrap();
    assert_eq!(255, input);
}

#[test]
fn test_u16() {
    let mut de = Deserializer::from_str("65535");
    let input: u16 = de.parse_u16().unwrap();
    de.finish().unwrap();
    assert_eq!(65535, input);
}

#[test]
fn test_u32() {
    let mut de = Deserializer::from_str("4294967295");
    let input: u32 = de.parse_u32().unwrap();
    de.finish().unwrap();
    assert_eq!(4294967295, input);
}

#[test]
fn test_u64() {
    let mut de = Deserializer::from_str("18446744073709551615");
    let input: u64 = de.parse_u64().unwrap();
    de.finish().unwrap();
    assert_eq!(18446744073709551615, input);
}

// Edge cases of the primitive readers.

#[test]
fn integer_out_of_range_is_expected_integer() {
    let mut de = Deserializer::from_str("128");
    assert_eq!(de.parse_i8(), Err(Error::ExpectedInteger));
    let mut de = Deserializer::from_str("-129");
    assert_eq!(de.parse_i8(), Err(Error::ExpectedInteger));
    let mut de = Deserializer::from_str("18446744073709551616");
    assert_eq!(de.parse_u64(), Err(Error::ExpectedInteger));
}

#[test]
fn integer_signs() {
    let mut de = Deserializer::from_str("-128");
    assert_eq!(de.parse_i8(), Ok(-128));
    let mut de = Deserializer::from_str("+7");
    assert_eq!(de.parse_u8(), Ok(7));
    let mut de = Deserializer::from_str("-0");
    assert_eq!(de.parse_u8(), Err(Error::ExpectedInteger));
    let mut de = Deserializer::from_str("+");
    assert_eq!(de.parse_i32(), Err(Error::ExpectedInteger));
    let mut de = Deserializer::from_str("-9223372036854775808");
    assert_eq!(de.parse_i64(), Ok(i64::MIN));
}

#[test]
fn quoted_integer() {
    let mut de = Deserializer::from_str(r#""42" "7""#);
    assert_eq!(de.parse_u32(), Ok(42));
    assert_eq!(de.parse_u32(), Ok(7));
    assert_eq!(de.finish(), Ok(()));
}

#[test]
fn integer_with_whitespace_is_rejected_unquoted() {
    let mut de = Deserializer::from_str(" 5");
    assert_eq!(de.parse_u32(), Err(Error::ExpectedInteger));
}

#[test]
fn bool_words() {
    for (text, value) in [("true", true), ("YES", true), ("False", false), ("no", false)] {
        assert_eq!(read_bool(text), Ok(value));
    }
    assert_eq!(read_bool("maybe"), Err(Error::ExpectedBoolean));
    let mut de = Deserializer::from_str(r#""TRUE" "rest""#);
    assert_eq!(de.parse_bool(), Ok(true));
    assert_eq!(de.parse_key(), Ok("rest".to_string()));
}

#[test]
fn quoted_bool_leaves_the_text_after_its_quote() {
    let mut de = Deserializer::from_str(r#""1"x"#);
    assert_eq!(de.parse_bool(), Ok(true));
    assert_eq!(de.rest(), "x".to_string());
    let mut de = Deserializer::from_str(r#" "no""#);
    assert_eq!(de.parse_bool(), Ok(false));
    assert_eq!(de.finish(), Ok(()));
    let mut de = Deserializer::from_str(r#""maybe" "1""#);
    assert_eq!(de.parse_bool(), Err(Error::ExpectedBoolean));
    assert_eq!(de.parse_bool(), Ok(true));
}

#[test]
fn empty_char_is_eof() {
    assert_eq!(read_char(r#""""#), Err(Error::Eof));
}

#[test]
fn trailing_characters() {
    let mut de = Deserializer::from_str("\"a\" x");
    assert_eq!(de.parse_key(), Ok("a".to_string()));
    assert_eq!(de.finish(), Err(Error::TrailingCharacters));
}

#[test]
fn unquoted_text_is_not_a_string() {
    let mut de = Deserializer::from_str("1");
    assert_eq!(de.parse_string(), Err(Error::ExpectedString));
}

#[test]
fn any_kind_and_null() {
    let mut de = Deserializer::from_str("null");
    assert!(matches!(de.any_kind(), Ok(vdf_serde::ValueKind::Unit)));
    assert!(de.take_null());
    assert_eq!(de.finish(), Ok(()));
    let mut de = Deserializer::from_str("?");
    assert!(matches!(de.any_kind(), Err(Error::Syntax)));
}
