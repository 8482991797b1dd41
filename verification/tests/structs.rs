// Each reader below walks the deserializer in the order in which Serde's
// derived `Deserialize` of the types below asks for values: a struct
// is a map whose keys are read until `}`, a `Vec` field is a sequence named
// by its key.
use vdf_serde::{Deserializer, Error, Result};

#[derive(PartialEq, Debug)]
struct TestItem {
    name: String,
    value: u32,
}

#[derive(PartialEq, Debug)]
struct TestNestedData {
    int: u32,
    seq: Vec<TestItem>,
}

#[derive(PartialEq, Debug)]
struct TestData {
    int: u32,
    seq: Vec<String>,
}

#[derive(PartialEq, Debug)]
struct NestedContainer {
    test: TestNestedData,
}

#[derive(PartialEq, Debug)]
struct Container {
    test: TestData,
}

fn read_seq<T>(de: &mut Deserializer, mut element: impl FnMut(&mut Deserializer) -> Result<T>) -> Result<Vec<T>> {
    let key = de.seq_key()?;
    let mut out = Vec::new();
    let mut first = true;
    while de.seq_next(&key, first)? {
        first = false;
        out.push(element(de)?);
    }
    Ok(out)
}

fn read_item(de: &mut Deserializer) -> Result<TestItem> {
    de.begin_map()?;
    let mut name = None;
    let mut value = None;
    while de.map_has_next()? {
        let key = de.parse_key()?;
        match key.as_str() {
            "name" => name = Some(de.parse_key()?),
            "value" => value = Some(de.parse_u32()?),
            _ => return Err(Error::Message(format!("unknown field `{}`", key))),
        }
    }
    de.end_map()?;
    Ok(TestItem { name: name.unwrap(), value: value.unwrap() })
}

fn read_data(de: &mut Deserializer) -> Result<TestData> {
    de.begin_map()?;
    let mut int = None;
    let mut seq = None;
    while de.map_has_next()? {
        let key = de.parse_key()?;
        match key.as_str() {
            "int" => int = Some(de.parse_u32()?),
            "seq" => seq = Some(read_seq(de, |d| d.parse_key())?),
            _ => return Err(Error::Message(format!("unknown field `{}`", key))),
        }
    }
    de.end_map()?;
    Ok(TestData { int: int.unwrap(), seq: seq.unwrap() })
}

fn read_nested_data(de: &mut Deserializer) -> Result<TestNestedData> {
    de.begin_map()?;
    let mut int = None;
    let mut seq = None;
    while de.map_has_next()? {
        let key = de.parse_key()?;
        match key.as_str() {
            "int" => int = Some(de.parse_u32()?),
            "seq" => seq = Some(read_seq(de, read_item)?),
            _ => return Err(Error::Message(format!("unknown field `{}`", key))),
        }
    }
    de.end_map()?;
    Ok(TestNestedData { int: int.unwrap(), seq: seq.unwrap() })
}

fn read_container(input: &str) -> Result<Container> {
    let mut de = Deserializer::from_str(input);
    de.begin_map()?;
    let mut test = None;
    while de.map_has_next()? {
        let key = de.parse_key()?;
        match key.as_str() {
            "test" => test = Some(read_data(&mut de)?),
            _ => return Err(Error::Message(format!("unknown field `{}`", key))),
        }
    }
    de.end_map()?;
    de.finish()?;
    Ok(Container { test: test.unwrap() })
}

fn read_nested_container(input: &str) -> Result<NestedContainer> {
    let mut de = Deserializer::from_str(input);
    de.begin_map()?;
    let mut test = None;
    while de.map_has_next()? {
        let key = de.parse_key()?;
        match key.as_str() {
            "test" => test = Some(read_nested_data(&mut de)?),
            _ => return Err(Error::Message(format!("unknown field `{}`", key))),
        }
    }
    de.end_map()?;
    de.finish()?;
    Ok(NestedContainer { test: test.unwrap() })
}

#[test]
fn test_struct_perfect_order() {
    let expected_str = r#"
            "test"
            {
                "int"       "1"
                "seq"       "a"
                "seq"       "b"
            }"#;
    let expected = Container {
        test: TestData {
            int: 1,
            seq: vec!["a".to_owned(), "b".to_owned()],
        },
    };
    let result = read_container(expected_str).unwrap();
    assert_eq!(expected, result);
}

#[test]
fn test_struct_unordered() {
    let expected_str = r#"
            "test"
            {
                "seq"    "a"
                "seq"    "b"
                "int"    "1"
            }"#;
    let expected = Container {
        test: TestData {
            int: 1,
            seq: vec!["a".to_owned(), "b".to_owned()],
        },
    };
    let result = read_container(expected_str).unwrap();
    assert_eq!(expected, result);
}

#[test]
fn test_struct_mixed() {
    let expected_str = r#"
            "test"
            {
                "seq"    "a"
                "int"    "1"
                "seq"    "b"
            }"#;
    let expected = Container {
        test: TestData {
            int: 1,
            seq: vec!["a".to_owned(), "b".to_owned()],
        },
    };
    let result = read_container(expected_str).unwrap();
    assert_eq!(expected, result);
}

#[test]
fn test_nested_struct_perfect_order() {
    let expected_str = r#"
            "test"
            {
                "int"    "1"
                "seq"
                {
                    "name"    "a"
                    "value"    "1"
                }
                "seq"
                {
                    "name"    "b"
                    "value"    "2"
                }
            }"#;
    let expected = NestedContainer {
        test: TestNestedData {
            int: 1,
            seq: vec![
                TestItem { name: "a".to_owned(), value: 1 },
                TestItem { name: "b".to_owned(), value: 2 },
            ],
        },
    };
    let result = read_nested_container(expected_str).unwrap();
    assert_eq!(expected, result);
}

#[test]
fn test_nested_struct_unordered() {
    let expected_str = r#"
            "test"
            {
                "seq"
                {
                    "name"    "a"
                    "value"    "1"
                }
                "seq"
                {
                    "name"    "b"
                    "value"    "2"
                }
                "int"    "1"
            }"#;
    let expected = NestedContainer {
        test: TestNestedData {
            int: 1,
            seq: vec![
                TestItem { name: "a".to_owned(), value: 1 },
                TestItem { name: "b".to_owned(), value: 2 },
            ],
        },
    };
    let result = read_nested_container(expected_str).unwrap();
    assert_eq!(expected, result);
}
