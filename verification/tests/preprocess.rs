use vdf_serde::{parse_string, peek_expect_char, peek_real_char, preprocess, Deserializer, Error};

#[test]
fn groups_repeated_keys_in_key_order() {
    let out = preprocess(r#"{ "b" "2" "a" "1" "b" "3" }"#, false, true).unwrap();
    assert_eq!(out, "{\t\n\t\"a\"\t\t\"1\"\t\n\t\"b\"\t\t\"2\"\t\n\t\"b\"\t\t\"3\"\n}");
}

#[test]
fn reordering_entries_of_different_keys_changes_nothing() {
    let a = preprocess(r#"{ "b" "2" "a" "1" "b" "3" }"#, false, true).unwrap();
    let b = preprocess(r#"{ "a" "1" "b" "2" "b" "3" }"#, false, true).unwrap();
    let c = preprocess(r#"{ "b" "2" "b" "3" "a" "1" }"#, false, true).unwrap();
    assert_eq!(a, b);
    assert_eq!(a, c);
    let d = preprocess(r#"{ "b" "3" "b" "2" "a" "1" }"#, false, true).unwrap();
    assert_ne!(a, d);
}

#[test]
fn nested_block_is_processed_and_indented() {
    let out = preprocess(r#"{ "k" { "x" "1" } }"#, false, true).unwrap();
    assert_eq!(out, "{\t\n\t\"k\"\n\t{\t\t\n\t\"x\"\t\t\"1\"\n}\n}");
}

#[test]
fn header_is_kept() {
    let out = preprocess(r#""h" { "a" "1" }"#, true, true).unwrap();
    assert_eq!(out, "\"h\"\n{\t\n\t\"a\"\t\t\"1\"\n}");
    let out = preprocess(r#""h" { "a" "1" }"#, true, false).unwrap();
    assert_eq!(out, "{\t\n\t\"a\"\t\t\"1\"\n}");
}

#[test]
fn plain_string_document() {
    assert_eq!(preprocess(r#"  "str" "#, false, true), Ok("str".to_string()));
}

#[test]
fn preprocess_errors() {
    assert_eq!(preprocess("x", false, true), Err(Error::ExpectedStringOrBlock));
    assert_eq!(preprocess("   ", false, true), Err(Error::Eof));
    assert_eq!(preprocess("{ } x", false, true), Err(Error::TrailingCharacters));
    assert_eq!(preprocess("{ { } }", false, true), Err(Error::ExpectedMap));
    assert_eq!(preprocess(r#"{ "a" "#, false, true), Err(Error::Eof));
    assert_eq!(preprocess(r#"{ "a" x }"#, false, true), Err(Error::ExpectedStringOrBlock));
    assert_eq!(preprocess(r#""h" "x""#, true, true), Err(Error::ExpectedMap));
    assert_eq!(preprocess("{", false, true), Err(Error::Eof));
    assert_eq!(preprocess(r#"{ "k" { "x" "1" }"#, false, true), Err(Error::Eof));
}

#[test]
fn key_without_value_is_dropped() {
    assert_eq!(preprocess(r#"{ "a" }"#, false, true), Ok("{\n}".to_string()));
}

#[test]
fn peek_real_char_reports_offsets() {
    let tok = peek_real_char("  x", 0).unwrap();
    assert_eq!((tok.index, tok.char), (2, 'x'));
    let tok = peek_real_char("x  ", 0).unwrap();
    assert_eq!((tok.index, tok.char), (0, 'x'));
    let tok = peek_real_char("\u{a0}{", 0).unwrap();
    assert_eq!((tok.index, tok.char), (1, '{'));
    assert!(matches!(peek_real_char("", 0), Err(Error::Eof)));
    assert!(matches!(peek_real_char(" \t\n", 0), Err(Error::Eof)));
}

#[test]
fn peek_expect_char_compares() {
    assert_eq!(peek_expect_char("  {", 0, '{'), Ok(true));
    assert_eq!(peek_expect_char("  {", 0, '"'), Ok(false));
    assert_eq!(peek_expect_char("", 0, 'x'), Err(Error::Eof));
}

#[test]
fn parse_string_splits_off_the_string() {
    let (s, rest) = parse_string("  \"ab\" rest").unwrap();
    assert_eq!(s, "ab");
    assert_eq!(rest, " rest");
    assert_eq!(parse_string("x").map(|_| ()), Err(Error::ExpectedString));
    assert_eq!(parse_string("\"ab").map(|_| ()), Err(Error::Eof));
}

#[test]
fn documents_that_differ_in_entry_order_are_read_from_the_same_text() {
    let a = Deserializer::from_str("\"test\"\n{\n\"seq\" \"a\"\n\"int\" \"1\"\n\"seq\" \"b\"\n}");
    let b = Deserializer::from_str("\"test\"\n{\n\"int\" \"1\"\n\"seq\" \"a\"\n\"seq\" \"b\"\n}");
    assert_eq!(a.rest(), b.rest());
    assert_eq!(
        a.rest(),
        "{\n\t\"test\"\n\t{\t\n\t\t\"int\"\t\t\"1\"\t\n\t\t\"seq\"\t\t\"a\"\t\n\t\t\"seq\"\t\t\"b\"\n\t}\n\n}"
    );
}

#[test]
fn peeking_a_string_does_not_consume_it() {
    let mut de = Deserializer::from_str("\"k\" \"v\"");
    assert_eq!(de.peek_str(), Ok("k".to_string()));
    assert_eq!(de.peek_expect_str("k"), Ok(true));
    assert_eq!(de.parse_string(), Ok("k".to_string()));
    assert_eq!(de.next_expect_string("v"), Ok(true));
    assert_eq!(de.peek_char(), Err(Error::Eof));
}

#[test]
fn module_doc_example_groups_sequences() {
    let input = r#""test"
{
    "name"      "Better VDF"
    "list"      "a"
    "int"       "1"
    "list"      "b"
    "list_struct"
    {
        "name"      "a"
        "int"       "1"
    }
    "map_to_list"
    {
        "list"      "a"
        "struct"
        {
            "name"       "a"
            "int"       "1"
        }
        "bool"      "1"
        "struct"
        {
            "name"       "b"
            "int"       "1"
        }
        "list"      "b"
    }
    "list_struct"
    {
        "name"      "b"
        "int"       "1"
    }
}"#;
    let out = preprocess(input, true, true).unwrap();
    let keys: Vec<&str> = out
        .lines()
        .map(|l| l.trim())
        .filter(|l| l.starts_with('"'))
        .map(|l| l.split('"').nth(1).unwrap())
        .collect();
    assert_eq!(
        keys,
        vec![
            "test", "int", "list", "list", "list_struct", "int", "name", "list_struct", "int",
            "name", "map_to_list", "bool", "list", "list", "struct", "int", "name", "struct",
            "int", "name", "name"
        ]
    );
    assert!(out.contains("\"list\"\t\t\"a\"\t\n\t\"list\"\t\t\"b\""));
}

#[test]
fn empty_and_blank_string_values_are_kept() {
    let out = preprocess(r#"{"a" ""}"#, false, true).unwrap();
    assert_eq!(out, "{\t\n\t\"a\"\t\t\"\"\n}");
    let out = preprocess(r#"{ "a" " " "a" "" "b" "1" }"#, false, true).unwrap();
    assert_eq!(out, "{\t\n\t\"a\"\t\t\" \"\t\n\t\"a\"\t\t\"\"\t\n\t\"b\"\t\t\"1\"\n}");
}

#[test]
fn processing_twice_changes_nothing() {
    let once = preprocess(r#"{ "b" "2" "a" "1" "b" "3" "c" "x y" }"#, false, true).unwrap();
    let twice = preprocess(&once, false, true).unwrap();
    assert_eq!(once, twice);
    let once = preprocess(r#"{ "k" { "y" "2" "x" "1" } "a" "0" }"#, false, true).unwrap();
    let twice = preprocess(&once, false, true).unwrap();
    assert_eq!(once, twice);
}

#[test]
fn header_then_block_is_processed_as_the_block() {
    let rest = r#" { "b" "2" "a" "1" }"#;
    let with_header = format!("\"h\"{}", rest);
    let alone = preprocess(rest, false, false).unwrap();
    assert_eq!(preprocess(&with_header, true, false).unwrap(), alone);
    assert_eq!(preprocess(&with_header, true, true).unwrap(), format!("\"h\"\n{}", alone));
}

#[test]
fn block_document_ignores_keep_header() {
    let doc = r#"  { "b" "2" "a" "1" }  "#;
    assert_eq!(preprocess(doc, false, true), preprocess(doc, false, false));
}

#[test]
fn processing_twice_keeps_line_breaks_and_braces_in_outer_strings() {
    let once = preprocess("{ \"b\" \"x\ny\" \"a\n\" \"}{\" \"a\n\" \"p q\" }", false, true).unwrap();
    let twice = preprocess(&once, false, true).unwrap();
    assert_eq!(once, twice);
}

#[test]
fn processing_twice_reindents_line_breaks_in_nested_strings() {
    // A nested block under a repeated key is indented once more on each pass,
    // and so are the line breaks inside its strings.
    let once = preprocess("{\"k\" {\"v\" \"a\nb\"} \"k\" {\"v\" \"c\"}}", false, true).unwrap();
    let twice = preprocess(&once, false, true).unwrap();
    assert_ne!(once, twice);
}
