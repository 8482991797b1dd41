//! The error type of the library and the text that describes each error.
use vstd::prelude::*;

verus! {

/// The errors that pre-processing and deserializing report.
#[derive(Debug, PartialEq)]
pub enum Error {
    /// A message from a data structure (`ser::Error::custom`, `de::Error::custom`).
    Message(String),
    Eof,
    Syntax,
    ExpectedBoolean,
    ExpectedInteger,
    ExpectedString,
    ExpectedNull,
    ExpectedArray,
    ExpectedMap,
    ExpectedMapKey,
    ExpectedMapEnd,
    ExpectedEnum,
    CannotSupportedTupleType,
    TrailingCharacters,
    ExpectedStringOrBlock,
    UnsupportedEnums,
    UnsupportedSelfDiscribing,
}

pub type Result<T> = std::result::Result<T, Error>;

/// The text that describes `e`.
pub open spec fn error_text(e: Error) -> Seq<char> {
    match e {
        Error::Message(msg) => msg@,
        Error::Eof => "unexpected end of input"@,
        Error::Syntax => "syntax error"@,
        Error::ExpectedBoolean => "expected boolean"@,
        Error::ExpectedInteger => "expected integer"@,
        Error::ExpectedString => "expected string"@,
        Error::ExpectedNull => "expected null"@,
        Error::ExpectedArray => "expected array"@,
        Error::ExpectedMap => "expected map"@,
        Error::ExpectedMapKey => "expected map key"@,
        Error::ExpectedMapEnd => "expected map end"@,
        Error::ExpectedEnum => "expected enum"@,
        Error::CannotSupportedTupleType =>
            "cannot supported tuple type, make a Tuple Struct instead, i.e. enum { Example { x: i32, y: i32 } } or "@,
        Error::TrailingCharacters => "trailing characters"@,
        Error::ExpectedStringOrBlock => "expected string or block"@,
        Error::UnsupportedEnums => "unsupported enums"@,
        Error::UnsupportedSelfDiscribing => "unsupported self-discribing [ANY]"@,
    }
}

impl Error {
    /// The text that describes this error, as it is displayed.
    pub fn display_string(&self) -> (s: String)
        ensures
            s@ == error_text(*self),
    {
        match self {
            Error::Message(msg) => msg.clone(),
            Error::Eof => "unexpected end of input".to_owned(),
            Error::Syntax => "syntax error".to_owned(),
            Error::ExpectedBoolean => "expected boolean".to_owned(),
            Error::ExpectedInteger => "expected integer".to_owned(),
            Error::ExpectedString => "expected string".to_owned(),
            Error::ExpectedNull => "expected null".to_owned(),
            Error::ExpectedArray => "expected array".to_owned(),
            Error::ExpectedMap => "expected map".to_owned(),
            Error::ExpectedMapKey => "expected map key".to_owned(),
            Error::ExpectedMapEnd => "expected map end".to_owned(),
            Error::ExpectedEnum => "expected enum".to_owned(),
            Error::CannotSupportedTupleType =>
                "cannot supported tuple type, make a Tuple Struct instead, i.e. enum { Example { x: i32, y: i32 } } or ".to_owned(),
            Error::TrailingCharacters => "trailing characters".to_owned(),
            Error::ExpectedStringOrBlock => "expected string or block".to_owned(),
            Error::UnsupportedEnums => "unsupported enums".to_owned(),
            Error::UnsupportedSelfDiscribing => "unsupported self-discribing [ANY]".to_owned(),
        }
    }

    /// An error that carries a message (`ser::Error::custom`, `de::Error::custom`).
    pub fn custom(msg: String) -> (e: Error)
        ensures
            e == Error::Message(msg),
    {
        Error::Message(msg)
    }
}

} // verus!
