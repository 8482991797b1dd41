# vdf_serde

A reader for the Valve Data Format (VDF), written in Verus.

VDF blocks may repeat a key, and give its values anywhere in the block. The
pre-processor writes each block again with its entries grouped by key, the keys
in ascending order and the values of each key in the order in which they came;
the deserializer then reads the grouped text value by value, as the Serde data
model asks for it, and a repeated key becomes a sequence.

## Layout

- `src/` — the verified library.
  - `text.rs`: whitespace (`char::is_whitespace`), UTF-8 byte lengths and
    character boundaries, trimming, and scanning helpers over `Vec<char>`.
  - `number.rs`: decimal integers as `FromStr` reads them for the integer types.
  - `grouping.rs`: the key order, grouping entries by key, and the laws of
    grouping (sorted unique keys, the values of each key kept in order, and
    independence from the order of the entries).
  - `preprocessor.rs`: `peek_real_char`, `peek_expect_char`, `parse_string`,
    the block processor and `preprocess`, each specified over `Seq<char>`.
  - `reprocess.rs`: processing a processed block gives it back unchanged,
    where the block's own string values do not start with `{` and the strings
    of its nested blocks hold no quote, brace or line break.
  - `deserializer.rs`: the `Deserializer`, its reading steps and their state
    transitions.
  - `error.rs`: the error type and the text of each error.
- `app/` — Serde around the library: `from_str` for any `Deserialize` type, the
  trait impls that Serde asks for, floating point, and an error type with
  `Display` and Serde's error traits.
- `tests/` — scenarios of reading VDF documents, and tests of the library's steps and laws.
