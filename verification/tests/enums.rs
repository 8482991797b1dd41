// Each reader below walks the deserializer in the order in which Serde's
// derived `Deserialize` of the enums below asks for values: the
// variant is read as a key, then its content as a newtype, a tuple (a
// sequence named by the variant) or a struct (a map).
use vdf_serde::{Deserializer, Error, Result};

#[derive(PartialEq, Debug)]
enum UnitEnum {
    A,
    B,
}

#[derive(PartialEq, Debug)]
enum NewtypeEnum {
    A(u32),
    B(u32),
}

#[derive(PartialEq, Debug)]
enum TupleEnum {
    A(u32, u32),
    B(u32, u32),
}

#[derive(PartialEq, Debug)]
enum StructEnum {
    A { a: u32, b: u32 },
    B { a: u32, b: u32 },
}

fn read_unit_enum(input: &str) -> Result<UnitEnum> {
    let mut de = Deserializer::from_str(input);
    de.begin_enum()?;
    let variant = de.parse_key()?;
    de.unit_variant()?;
    match variant.as_str() {
        "A" => Ok(UnitEnum::A),
        "B" => Ok(UnitEnum::B),
        _ => Err(Error::Message(format!("unknown variant `{}`", variant))),
    }
}

fn read_newtype_enum(input: &str) -> Result<NewtypeEnum> {
    let mut de = Deserializer::from_str(input);
    de.begin_enum()?;
    let variant = de.parse_key()?;
    let value = de.parse_u32()?;
    de.finish()?;
    match variant.as_str() {
        "A" => Ok(NewtypeEnum::A(value)),
        "B" => Ok(NewtypeEnum::B(value)),
        _ => Err(Error::Message(format!("unknown variant `{}`", variant))),
    }
}

fn read_tuple_enum(input: &str) -> Result<TupleEnum> {
    let mut de = Deserializer::from_str(input);
    de.begin_enum()?;
    let variant = de.parse_key()?;
    let key = de.seq_key()?;
    let mut fields = Vec::new();
    let mut first = true;
    while fields.len() < 2 && de.seq_next(&key, first)? {
        first = false;
        fields.push(de.parse_u32()?);
    }
    de.finish()?;
    if fields.len() < 2 {
        return Err(Error::Message("invalid length".to_string()));
    }
    match variant.as_str() {
        "A" => Ok(TupleEnum::A(fields[0], fields[1])),
        "B" => Ok(TupleEnum::B(fields[0], fields[1])),
        _ => Err(Error::Message(format!("unknown variant `{}`", variant))),
    }
}

fn read_struct_enum(input: &str) -> Result<StructEnum> {
    let mut de = Deserializer::from_str(input);
    de.begin_enum()?;
    let variant = de.parse_key()?;
    de.begin_map()?;
    let mut a = None;
    let mut b = None;
    while de.map_has_next()? {
        let key = de.parse_key()?;
        match key.as_str() {
            "a" => a = Some(de.parse_u32()?),
            "b" => b = Some(de.parse_u32()?),
            _ => return Err(Error::Message(format!("unknown field `{}`", key))),
        }
    }
    de.end_map()?;
    de.finish()?;
    let (a, b) = (a.unwrap(), b.unwrap());
    match variant.as_str() {
        "A" => Ok(StructEnum::A { a, b }),
        "B" => Ok(StructEnum::B { a, b }),
        _ => Err(Error::Message(format!("unknown variant `{}`", variant))),
    }
}

#[test]
fn unsupported_unit_enum() {
    let expected_str = r#""A""#;
    let result = read_unit_enum(expected_str).is_err();
    assert!(result);
    assert_eq!(read_unit_enum(expected_str), Err(Error::UnsupportedEnums));
    // The variant itself is read, and nothing is left after it: the error
    // comes from the unit variant alone.
    let mut de = Deserializer::from_str(expected_str);
    de.begin_enum().unwrap();
    assert_eq!(de.parse_key(), Ok("A".to_string()));
    assert_eq!(de.rest(), "".to_string());
}

#[test]
fn supported_newtype_enum() {
    let expected_str = r#""A" "1""#;
    let expected = NewtypeEnum::A(1);
    let result = read_newtype_enum(expected_str).unwrap();
    assert_eq!(expected, result);
}

#[test]
fn supported_tuple_enum() {
    let expected_str = r#""A" "1" "A" "2""#;
    let expected = TupleEnum::A(1, 2);
    let result = read_tuple_enum(expected_str).unwrap();
    assert_eq!(expected, result);
}

#[test]
fn supported_struct_enum() {
    let expected_str = r#""A" { "a" "1" "b" "2" }"#;
    let expected = StructEnum::A { a: 1, b: 2 };
    let result = read_struct_enum(expected_str).unwrap();
    assert_eq!(expected, result);
}

#[test]
fn enum_without_variant_string() {
    let mut de = Deserializer::from_str("12");
    assert_eq!(de.begin_enum(), Err(Error::ExpectedEnum));
    let _ = (UnitEnum::B, NewtypeEnum::B(0), TupleEnum::B(0, 0), StructEnum::B { a: 0, b: 0 });
}
