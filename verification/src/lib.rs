//! A reader for the Valve Data Format (VDF): a pre-processor that groups the
//! entries of each block by key, and a deserializer that reads the grouped
//! text value by value, as the Serde data model asks for it.
use vstd::prelude::*;

pub mod deserializer;
pub mod error;
pub mod grouping;
pub mod number;
pub mod preprocessor;
pub mod reprocess;
pub mod text;

pub use deserializer::{Deserializer, ValueKind};
pub use error::{Error, Result};
pub use preprocessor::{parse_string, peek_expect_char, peek_real_char, preprocess, TokenCharacter};

verus! {

} // verus!
