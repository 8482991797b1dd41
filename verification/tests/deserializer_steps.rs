use vdf_serde::grouping::compare_chars;
use vdf_serde::number::parse_int;
use vdf_serde::{Deserializer, Error};

#[test]
fn sequence_needs_a_key() {
    let de = Deserializer::from_str("\"x\"");
    assert_eq!(de.seq_key(), Err(Error::ExpectedMapKey));
}

#[test]
fn map_delimiters() {
    let mut de = Deserializer::from_str("x { \"a\" \"1\" y");
    assert_eq!(de.begin_map(), Err(Error::ExpectedMap));
    assert_eq!(de.begin_map(), Ok(()));
    assert_eq!(de.map_has_next(), Ok(true));
    assert_eq!(de.parse_key(), Ok("a".to_string()));
    assert_eq!(de.parse_u8(), Ok(1));
    assert_eq!(de.map_has_next(), Ok(true));
    assert_eq!(de.end_map(), Err(Error::ExpectedMapEnd));
    let mut de = Deserializer::from_str("{ }");
    assert_eq!(de.begin_map(), Ok(()));
    assert_eq!(de.map_has_next(), Ok(false));
    assert_eq!(de.end_map(), Ok(()));
    assert_eq!(de.end_map(), Err(Error::Eof));
}

#[test]
fn sequence_ends_at_another_key() {
    let mut de = Deserializer::from_str("{ \"k\" \"a\" \"k\" \"b\" \"m\" \"c\" }");
    assert_eq!(de.begin_map(), Ok(()));
    assert_eq!(de.parse_key(), Ok("k".to_string()));
    let key = de.seq_key().unwrap();
    assert_eq!(key, "k");
    assert_eq!(de.seq_next(&key, true), Ok(true));
    assert_eq!(de.parse_string(), Ok("a".to_string()));
    assert_eq!(de.seq_next(&key, false), Ok(true));
    assert_eq!(de.parse_string(), Ok("b".to_string()));
    assert_eq!(de.seq_next(&key, false), Ok(false));
    assert_eq!(de.parse_key(), Ok("m".to_string()));
}

#[test]
fn enum_in_a_block_is_unwrapped() {
    let mut de = Deserializer::from_str("\"A\" { \"a\" \"1\" }");
    assert_eq!(de.begin_enum(), Ok(()));
    assert_eq!(de.parse_key(), Ok("A".to_string()));
    assert_eq!(de.begin_map(), Ok(()));
    assert_eq!(de.parse_key(), Ok("a".to_string()));
    assert_eq!(de.parse_u32(), Ok(1));
    assert_eq!(de.end_map(), Ok(()));
    assert_eq!(de.finish(), Ok(()));
}

#[test]
fn peeking_leaves_the_input() {
    let mut de = Deserializer::from_str("  x");
    assert_eq!(de.peek_char(), Ok(' '));
    assert_eq!(de.peek_real_char(), Ok('x'));
    assert_eq!(de.peek_expect_char('x'), Ok(true));
    assert_eq!(de.next_real_char(), Ok('x'));
    assert_eq!(de.next_char(), Err(Error::Eof));
}

#[test]
fn next_expect_char_consumes() {
    let mut de = Deserializer::from_str("  x y");
    assert_eq!(de.next_expect_char('y'), Ok(false));
    assert_eq!(de.next_expect_char('y'), Ok(true));
    assert_eq!(de.rest(), "");
}

#[test]
fn float_tokens_are_left_to_the_caller() {
    let mut de = Deserializer::from_str("127.24");
    assert!(!de.has_quote());
    assert_eq!(de.rest(), "127.24");
    de.take_rest();
    assert_eq!(de.finish(), Ok(()));
}

#[test]
fn decimal_parsing() {
    let digits: Vec<char> = "x-42y".chars().collect();
    assert_eq!(parse_int(&digits, 1, 4, -128, 127), Some(-42));
    assert_eq!(parse_int(&digits, 1, 4, 0, 255), None);
    assert_eq!(parse_int(&digits, 2, 4, 0, 255), Some(42));
    assert_eq!(parse_int(&digits, 2, 4, 0, 41), None);
    assert_eq!(parse_int(&digits, 2, 2, 0, 255), None);
    assert_eq!(parse_int(&digits, 0, 4, -128, 127), None);
}

#[test]
fn key_order() {
    let a: Vec<char> = "ab".chars().collect();
    let b: Vec<char> = "b".chars().collect();
    let c: Vec<char> = "abc".chars().collect();
    assert!(compare_chars(&a, &b) < 0);
    assert!(compare_chars(&b, &a) > 0);
    assert!(compare_chars(&a, &c) < 0);
    assert_eq!(compare_chars(&a, &a.clone()), 0);
}
