//! The deserializer: it holds the (pre-processed) text that is left to read and
//! reads the VDF values that the Serde data model asks for, one at a time.
use vstd::prelude::*;

use crate::error::{Error, Result};
use crate::grouping::{compare_chars, values_of};
use crate::number::{all_digits, digits_value, is_digit, parse_int, parse_int_spec};
use crate::preprocessor::{
    block_entries, law_process_groups_keys, law_process_order_insensitive, parse_string_at,
    preprocess_chars, spec_parse_string, spec_preprocess,
};
use crate::text::{
    boundary, boundary_index, byte_len, bytes_between, chars_to_string, find_char, first_real,
    index_of, is_ws, leading_ws, lemma_index_of_props, lemma_trim_empty, push_range, skip_ws,
    skip_ws_back, str_to_chars, trailing_ws, trim,
};

verus! {

/// What a deserializer holds: the text that is left to read, the last string
/// read as a key (it names the entries of a sequence), and whether nothing
/// has been read as a map or an enum yet.
pub struct DeserializerState {
    pub input: Seq<char>,
    pub array_key: Option<Seq<char>>,
    pub beginning: bool,
}

/// Reads VDF text value by value; its view is a `DeserializerState`.
pub struct Deserializer {
    text: Vec<char>,
    pos: usize,
    array_key: Option<String>,
    beginning: bool,
}

pub open spec fn opt_string_view(k: Option<String>) -> Option<Seq<char>> {
    match k {
        Some(s) => Some(s@),
        None => None,
    }
}

pub open spec fn result_view(r: Result<String>) -> Result<Seq<char>> {
    match r {
        Ok(s) => Ok(s@),
        Err(e) => Err(e),
    }
}

pub open spec fn chars_result_view(r: Result<Vec<char>>) -> Result<Seq<char>> {
    match r {
        Ok(s) => Ok(s@),
        Err(e) => Err(e),
    }
}

/// What reading an integer of the type whose values are `lo..=hi` from `r`
/// gives, and the text left: where `r` holds a `"`, the next quoted string is
/// read and parsed; otherwise all of `r` is parsed, and consumed where it is a
/// number.
pub open spec fn spec_parse_integer(r: Seq<char>, lo: int, hi: int) -> (Result<int>, Seq<char>) {
    if index_of(r, '"') is Some {
        let (res, rest) = spec_read_string(r);
        match res {
            Err(e) => (Err(e), rest),
            Ok(s) => match parse_int_spec(s, lo, hi) {
                Some(v) => (Ok(v), rest),
                None => (Err(Error::ExpectedInteger), rest),
            },
        }
    } else {
        match parse_int_spec(r, lo, hi) {
            Some(v) => (Ok(v), seq![]),
            None => (Err(Error::ExpectedInteger), r),
        }
    }
}

/// `c` in lower case where it is an ASCII capital letter, as a code point.
pub open spec fn lower_code(c: char) -> int {
    if 'A' <= c <= 'Z' {
        (c as u32) as int + 32
    } else {
        (c as u32) as int
    }
}

/// `s` equals the lower-case ASCII word `w` ignoring ASCII case. For the words
/// that read as booleans this is what `s.to_lowercase() == w` tests: no other
/// character has a lower case among their letters and digits.
pub open spec fn ci_eq(s: Seq<char>, w: Seq<char>) -> bool {
    s.len() == w.len() && forall|i: int| 0 <= i < s.len() ==> lower_code(#[trigger] s[i]) == (w[i] as u32) as int
}

/// The word that `s` spells (ignoring ASCII case) among those that read as a
/// boolean, and that boolean.
pub open spec fn bool_word(s: Seq<char>) -> Option<(Seq<char>, bool)> {
    if ci_eq(s, seq!['f', 'a', 'l', 's', 'e']) {
        Some((seq!['f', 'a', 'l', 's', 'e'], false))
    } else if ci_eq(s, seq!['n', 'o']) {
        Some((seq!['n', 'o'], false))
    } else if ci_eq(s, seq!['0']) {
        Some((seq!['0'], false))
    } else if ci_eq(s, seq!['t', 'r', 'u', 'e']) {
        Some((seq!['t', 'r', 'u', 'e'], true))
    } else if ci_eq(s, seq!['y', 'e', 's']) {
        Some((seq!['y', 'e', 's'], true))
    } else if ci_eq(s, seq!['1']) {
        Some((seq!['1'], true))
    } else {
        None
    }
}

/// What reading a boolean from `r` gives, and the text left: where the next
/// character that is not whitespace is `"`, the quoted string is read and must
/// spell a boolean word, and the text after its closing quote is left;
/// otherwise all of `r` must spell one, and all of it is consumed.
pub open spec fn spec_parse_bool(r: Seq<char>) -> (Result<bool>, Seq<char>) {
    match first_real(r) {
        None => (Err(Error::Eof), r),
        Some(c) => if c == '"' {
            let (res, rest) = spec_read_string(r);
            match res {
                Err(e) => (Err(e), rest),
                Ok(s) => match bool_word(s) {
                    Some((_, b)) => (Ok(b), rest),
                    None => (Err(Error::ExpectedBoolean), rest),
                },
            }
        } else {
            match bool_word(r) {
                Some((_, b)) => (Ok(b), seq![]),
                None => (Err(Error::ExpectedBoolean), r),
            }
        },
    }
}

/// The length of the boolean word that `v[a..b]` spells, and its value.
fn bool_word_at(v: &Vec<char>, a: usize, b: usize) -> (r: Option<(usize, bool)>)
    requires
        a <= b <= v@.len(),
    ensures
        match bool_word(v@.subrange(a as int, b as int)) {
            Some((w, x)) => r == Some((w.len() as usize, x)),
            None => r is None,
        },
{
    let words: Vec<Vec<char>> = vec![
        vec!['f', 'a', 'l', 's', 'e'],
        vec!['n', 'o'],
        vec!['0'],
        vec!['t', 'r', 'u', 'e'],
        vec!['y', 'e', 's'],
        vec!['1'],
    ];
    let ghost s = v@.subrange(a as int, b as int);
    let mut i: usize = 0;
    while i < 6
        invariant
            i <= 6,
            a <= b <= v@.len(),
            s == v@.subrange(a as int, b as int),
            words@.len() == 6,
            words@[0]@ == seq!['f', 'a', 'l', 's', 'e'],
            words@[1]@ == seq!['n', 'o'],
            words@[2]@ == seq!['0'],
            words@[3]@ == seq!['t', 'r', 'u', 'e'],
            words@[4]@ == seq!['y', 'e', 's'],
            words@[5]@ == seq!['1'],
            forall|j: int| 0 <= j < i ==> !ci_eq(s, #[trigger] words@[j]@),
        decreases 6 - i,
    {
        if ci_eq_at(v, a, b, &words[i]) {
            return Some((words[i].len(), i >= 3));
        }
        i = i + 1;
    }
    None
}

/// Whether `v[a..b]` equals `w` ignoring ASCII case.
fn ci_eq_at(v: &Vec<char>, a: usize, b: usize, w: &Vec<char>) -> (r: bool)
    requires
        a <= b <= v@.len(),
    ensures
        r == ci_eq(v@.subrange(a as int, b as int), w@),
{
    let ghost s = v@.subrange(a as int, b as int);
    if b - a != w.len() {
        return false;
    }
    let mut i: usize = 0;
    while i < w.len()
        invariant
            i <= w@.len(),
            b - a == w@.len(),
            a <= b <= v@.len(),
            s == v@.subrange(a as int, b as int),
            forall|j: int| 0 <= j < i ==> lower_code(#[trigger] s[j]) == (w@[j] as u32) as int,
        decreases w@.len() - i,
    {
        let c = v[a + i];
        let code: u32 = if 'A' <= c && c <= 'Z' {
            c as u32 + 32
        } else {
            c as u32
        };
        proof {
            assert(s[i as int] == c);
            assert(lower_code(c) == code as int);
        }
        if code != w[i] as u32 {
            return false;
        }
        i = i + 1;
    }
    true
}

/// The kinds of value that the first character of a value announces.
pub enum ValueKind {
    Unit,
    Bool,
    Str,
    U64,
    I64,
    Sequence,
    Mapping,
}

pub open spec fn spec_value_kind(c: char) -> Result<ValueKind> {
    if c == 'n' {
        Ok(ValueKind::Unit)
    } else if c == 't' || c == 'f' {
        Ok(ValueKind::Bool)
    } else if c == '"' {
        Ok(ValueKind::Str)
    } else if '0' <= c <= '9' {
        Ok(ValueKind::U64)
    } else if c == '-' {
        Ok(ValueKind::I64)
    } else if c == '[' {
        Ok(ValueKind::Sequence)
    } else if c == '{' {
        Ok(ValueKind::Mapping)
    } else {
        Err(Error::Syntax)
    }
}

/// Whether a sequence whose entries are named `key` has another element, and
/// the text left: not at a `}`; the first element has no key of its own, and
/// each later one must come after the key `key`, which is consumed.
pub open spec fn spec_seq_next(r: Seq<char>, key: Seq<char>, first: bool) -> (Result<bool>, Seq<char>) {
    match first_real(r) {
        None => (Err(Error::Eof), r),
        Some(c) => if c == '}' {
            (Ok(false), r)
        } else if first {
            (Ok(true), r)
        } else {
            match spec_peek_str(r) {
                Err(e) => (Err(e), r),
                Ok(s) => if s != key {
                    (Ok(false), r)
                } else {
                    (Ok(true), spec_read_string(r).1)
                },
            }
        },
    }
}

/// The text that an enum is read from: at the beginning, where it starts with
/// `{`, the text without its first byte and its last two bytes. `None` where
/// this slicing panics.
pub open spec fn enum_input(st: DeserializerState) -> Option<Seq<char>> {
    let r = st.input;
    if st.beginning && first_real(r) == Some('{') {
        let b = byte_len(r) as int;
        if b < 3 {
            None
        } else {
            match (boundary(r, 1), boundary(r, b - 2)) {
                (Some(i), Some(j)) => if i <= j {
                    Some(r.subrange(i as int, j as int))
                } else {
                    None
                },
                _ => None,
            }
        }
    } else {
        Some(r)
    }
}

/// Preparing to read an enum: the text that it is read from (`enum_input`)
/// must start with a quoted string, its variant; otherwise the error is
/// `ExpectedEnum`.
pub open spec fn spec_begin_enum(st: DeserializerState) -> Option<(Result<()>, Seq<char>)> {
    match enum_input(st) {
        None => None,
        Some(r) => match spec_parse_string(r) {
            None => None,
            Some(Ok(_)) => Some((Ok(()), r)),
            Some(Err(_)) => Some((Err(Error::ExpectedEnum), r)),
        },
    }
}

/// A line of text without the `\r` of a `\r\n` line ending.
pub open spec fn strip_cr(l: Seq<char>) -> Seq<char> {
    if l.len() > 0 && l.last() == '\r' {
        l.drop_last()
    } else {
        l
    }
}

/// Each line of `s` (as `str::lines` splits it) after a tab and before a line
/// break.
pub open spec fn tab_lines(s: Seq<char>) -> Seq<char>
    decreases s.len(),
{
    if s.len() == 0 {
        seq![]
    } else {
        match index_of(s, '\n') {
            None => seq!['\t'] + s + seq!['\n'],
            Some(i) => {
                proof {
                    lemma_index_of_props(s, '\n');
                }
                seq!['\t'] + strip_cr(s.take(i as int)) + seq!['\n'] + tab_lines(s.skip(i + 1int))
            },
        }
    }
}

/// The text that a deserializer for `s` reads: where `s` starts (after
/// whitespace) with neither `{` nor `"`, `s` itself; where it starts with a
/// header string that no block follows, `s` itself; otherwise `s`
/// pre-processed (keeping the header), and with a header each of its lines
/// indented by a tab and the whole wrapped in braces. `Err` where reading the
/// header or pre-processing fails; the outer `None` where they panic.
pub open spec fn spec_prepare(s: Seq<char>) -> Option<Result<Seq<char>>> {
    let blocked = first_real(s) == Some('{');
    let header = first_real(s) == Some('"');
    if !blocked && !header {
        Some(Ok(s))
    } else if header {
        match spec_parse_string(s) {
            None => None,
            Some(Err(e)) => Some(Err(e)),
            Some(Ok((h, k))) => if first_real(s.skip(k as int)) != Some('{') {
                Some(Ok(s))
            } else {
                match spec_preprocess(s, true, true) {
                    None => None,
                    Some(Err(e)) => Some(Err(e)),
                    Some(Ok(p)) => Some(Ok(seq!['{', '\n'] + tab_lines(p) + seq!['\n', '}'])),
                }
            },
        }
    } else {
        spec_preprocess(s, false, true)
    }
}

/// Each line of `v` after a tab and before a line break (`tab_lines`).
fn tab_lines_of(v: &Vec<char>) -> (out: Vec<char>)
    ensures
        out@ == tab_lines(v@),
{
    let len = v.len();
    let mut out: Vec<char> = Vec::new();
    let mut start: usize = 0;
    proof {
        assert(v@.skip(0) =~= v@);
        assert(out@ + tab_lines(v@) =~= tab_lines(v@));
    }
    while start < len
        invariant
            start <= len == v@.len(),
            tab_lines(v@) == out@ + tab_lines(v@.skip(start as int)),
        decreases len - start,
    {
        let ghost s = v@.skip(start as int);
        match find_char(v, start, '\n') {
            None => {
                out.push('\t');
                push_range(&mut out, v, start, len);
                out.push('\n');
                proof {
                    assert(v@.subrange(start as int, len as int) =~= s);
                    assert(v@.skip(len as int).len() == 0);
                    assert(out@ + tab_lines(v@.skip(len as int)) =~= out@);
                }
                start = len;
            },
            Some(i) => {
                out.push('\t');
                let end = if i > start && v[i - 1] == '\r' {
                    i - 1
                } else {
                    i
                };
                push_range(&mut out, v, start, end);
                out.push('\n');
                proof {
                    assert(strip_cr(s.take(i - start)) =~= v@.subrange(start as int, end as int));
                    assert(s.skip(i - start + 1) =~= v@.skip(i + 1));
                }
                start = i + 1;
            },
        }
    }
    proof {
        assert(v@.skip(start as int).len() == 0);
        assert(out@ + tab_lines(v@.skip(start as int)) =~= out@);
    }
    out
}

impl View for Deserializer {
    type V = DeserializerState;

    closed spec fn view(&self) -> DeserializerState {
        DeserializerState {
            input: self.text@.skip(self.pos as int),
            array_key: opt_string_view(self.array_key),
            beginning: self.beginning,
        }
    }
}

/// The text left after consuming the first character of `r` that is not
/// whitespace, as `next_real_char` does; all of it where there is none.
pub open spec fn after_real(r: Seq<char>) -> Seq<char> {
    if leading_ws(r) < r.len() {
        r.skip(leading_ws(r) + 1int)
    } else {
        seq![]
    }
}

/// What reading a quoted string from the text `r` gives, and the text left.
pub open spec fn spec_read_string(r: Seq<char>) -> (Result<Seq<char>>, Seq<char>) {
    match first_real(r) {
        None => (Err(Error::Eof), seq![]),
        Some(c) => if c != '"' {
            (Err(Error::ExpectedString), after_real(r))
        } else {
            let t = after_real(r);
            match index_of(t, '"') {
                None => (Err(Error::Eof), t),
                Some(j) => (Ok(t.take(j as int)), t.skip(j + 1int)),
            }
        },
    }
}

/// What looking at the next quoted string of `r` (without consuming it) gives.
pub open spec fn spec_peek_str(r: Seq<char>) -> Result<Seq<char>> {
    match first_real(r) {
        None => Err(Error::Eof),
        Some(c) => if c != '"' {
            Err(Error::ExpectedString)
        } else {
            let t = after_real(r);
            match index_of(t, '"') {
                None => Err(Error::Eof),
                Some(j) => Ok(t.take(j as int)),
            }
        },
    }
}

impl Deserializer {
    #[verifier::type_invariant]
    spec fn inv(self) -> bool {
        self.pos <= self.text@.len()
    }

    /// The next character, not consumed.
    pub fn peek_char(&mut self) -> (r: Result<char>)
        ensures
            final(self)@ == old(self)@,
            r == (if old(self)@.input.len() > 0 {
                Ok::<char, Error>(old(self)@.input[0])
            } else {
                Err(Error::Eof)
            }),
    {
        proof {
            use_type_invariant(&*self);
        }
        if self.pos < self.text.len() {
            Ok(self.text[self.pos])
        } else {
            Err(Error::Eof)
        }
    }

    /// The next character that is not whitespace, not consumed.
    pub fn peek_real_char(&mut self) -> (r: Result<char>)
        ensures
            final(self)@ == old(self)@,
            r == match first_real(old(self)@.input) {
                Some(c) => Ok::<char, Error>(c),
                None => Err(Error::Eof),
            },
    {
        proof {
            use_type_invariant(&*self);
        }
        let p = skip_ws(&self.text, self.pos);
        if p < self.text.len() {
            proof {
                assert(self@.input[p - self.pos] == self.text@[p as int]);
            }
            Ok(self.text[p])
        } else {
            Err(Error::Eof)
        }
    }

    /// Consumes the next character.
    pub fn next_char(&mut self) -> (r: Result<char>)
        ensures
            final(self)@.array_key == old(self)@.array_key,
            final(self)@.beginning == old(self)@.beginning,
            old(self)@.input.len() > 0 ==> r == Ok::<char, Error>(old(self)@.input[0])
                && final(self)@.input == old(self)@.input.drop_first(),
            old(self)@.input.len() == 0 ==> r == Err::<char, Error>(Error::Eof) && final(self)@
                == old(self)@,
    {
        proof {
            use_type_invariant(&*self);
        }
        if self.pos < self.text.len() {
            let c = self.text[self.pos];
            self.pos = self.pos + 1;
            proof {
                assert(self@.input =~= old(self)@.input.drop_first());
            }
            Ok(c)
        } else {
            Err(Error::Eof)
        }
    }

    /// Consumes characters up to and including the next one that is not
    /// whitespace, and gives that one.
    pub fn next_real_char(&mut self) -> (r: Result<char>)
        ensures
            final(self)@.array_key == old(self)@.array_key,
            final(self)@.beginning == old(self)@.beginning,
            final(self)@.input == after_real(old(self)@.input),
            r == match first_real(old(self)@.input) {
                Some(c) => Ok::<char, Error>(c),
                None => Err(Error::Eof),
            },
    {
        proof {
            use_type_invariant(&*self);
        }
        let ghost r0 = self@.input;
        let p = skip_ws(&self.text, self.pos);
        if p < self.text.len() {
            proof {
                assert(r0[p - self.pos] == self.text@[p as int]);
            }
            let c = self.text[p];
            self.pos = p + 1;
            proof {
                assert(self@.input =~= r0.skip(p - old(self).pos + 1));
            }
            Ok(c)
        } else {
            self.pos = p;
            proof {
                assert(self@.input =~= Seq::<char>::empty());
            }
            Err(Error::Eof)
        }
    }

    /// Whether the next character that is not whitespace is `expected`
    /// (nothing is consumed).
    pub fn peek_expect_char(&mut self, expected: char) -> (r: Result<bool>)
        ensures
            final(self)@ == old(self)@,
            r == match first_real(old(self)@.input) {
                Some(c) => Ok::<bool, Error>(c == expected),
                None => Err(Error::Eof),
            },
    {
        let ch = self.peek_real_char()?;
        if ch != expected {
            return Ok(false);
        }
        Ok(true)
    }

    /// Consumes characters up to and including the next one that is not
    /// whitespace, and tells whether it is `expected`.
    pub fn next_expect_char(&mut self, expected: char) -> (r: Result<bool>)
        ensures
            final(self)@.array_key == old(self)@.array_key,
            final(self)@.beginning == old(self)@.beginning,
            final(self)@.input == after_real(old(self)@.input),
            r == match first_real(old(self)@.input) {
                Some(c) => Ok::<bool, Error>(c == expected),
                None => Err(Error::Eof),
            },
    {
        let ch = self.next_real_char()?;
        if ch != expected {
            return Ok(false);
        }
        Ok(true)
    }

    /// Reads a quoted string: the text up to the next `"` (see
    /// `spec_read_string`).
    pub fn parse_string(&mut self) -> (r: Result<String>)
        ensures
            final(self)@.array_key == old(self)@.array_key,
            final(self)@.beginning == old(self)@.beginning,
            (result_view(r), final(self)@.input) == spec_read_string(old(self)@.input),
    {
        let v = self.read_chars()?;
        proof {
            assert(v@.skip(0) =~= v@);
        }
        Ok(chars_to_string(&v, 0))
    }

    fn read_chars(&mut self) -> (r: Result<Vec<char>>)
        ensures
            final(self)@.array_key == old(self)@.array_key,
            final(self)@.beginning == old(self)@.beginning,
            (chars_result_view(r), final(self)@.input) == spec_read_string(old(self)@.input),
    {
        let ghost r0 = self@.input;
        if !self.next_expect_char('"')? {
            return Err(Error::ExpectedString);
        }
        proof {
            use_type_invariant(&*self);
        }
        let start = self.pos;
        match find_char(&self.text, start, '"') {
            Some(j) => {
                let s = self.slice_chars(start, j);
                self.pos = j + 1;
                proof {
                    let t = after_real(r0);
                    assert(self.text@.skip(start as int) == t);
                    assert(s@ =~= t.take(j - start));
                    assert(self@.input =~= t.skip(j - start + 1));
                }
                Ok(s)
            },
            None => Err(Error::Eof),
        }
    }

    fn slice_chars(&self, a: usize, b: usize) -> (v: Vec<char>)
        requires
            a <= b <= self.text@.len(),
        ensures
            v@ == self.text@.subrange(a as int, b as int),
    {
        let mut v: Vec<char> = Vec::new();
        let mut i = a;
        while i < b
            invariant
                a <= i <= b <= self.text@.len(),
                v@ == self.text@.subrange(a as int, i as int),
            decreases b - i,
        {
            v.push(self.text[i]);
            i = i + 1;
            proof {
                assert(v@ =~= self.text@.subrange(a as int, i as int));
            }
        }
        v
    }

    /// The next quoted string, not consumed (see `spec_peek_str`).
    pub fn peek_str(&mut self) -> (r: Result<String>)
        ensures
            final(self)@ == old(self)@,
            result_view(r) == spec_peek_str(old(self)@.input),
    {
        let v = self.peek_chars()?;
        proof {
            assert(v@.skip(0) =~= v@);
        }
        Ok(chars_to_string(&v, 0))
    }

    fn peek_chars(&mut self) -> (r: Result<Vec<char>>)
        ensures
            final(self)@ == old(self)@,
            chars_result_view(r) == spec_peek_str(old(self)@.input),
    {
        if !self.peek_expect_char('"')? {
            return Err(Error::ExpectedString);
        }
        proof {
            use_type_invariant(&*self);
        }
        let p = skip_ws(&self.text, self.pos);
        let start = p + 1;
        proof {
            assert(self@.input[p - self.pos] == self.text@[p as int]);
            assert(after_real(self@.input) =~= self.text@.skip(start as int));
        }
        match find_char(&self.text, start, '"') {
            Some(j) => {
                let s = self.slice_chars(start, j);
                proof {
                    assert(s@ =~= after_real(self@.input).take(j - start));
                }
                Ok(s)
            },
            None => Err(Error::Eof),
        }
    }

    /// Whether the next quoted string (not consumed) is `expected`.
    pub fn peek_expect_str(&mut self, expected: &str) -> (r: Result<bool>)
        ensures
            final(self)@ == old(self)@,
            r == match spec_peek_str(old(self)@.input) {
                Ok(s) => Ok::<bool, Error>(s == expected@),
                Err(e) => Err(e),
            },
    {
        let parsed = self.peek_chars()?;
        let e = str_to_chars(expected);
        if compare_chars(&parsed, &e) != 0 {
            return Ok(false);
        }
        Ok(true)
    }

    /// Reads a quoted string and tells whether it is `expected`.
    pub fn next_expect_string(&mut self, expected: &str) -> (r: Result<bool>)
        ensures
            final(self)@.array_key == old(self)@.array_key,
            final(self)@.beginning == old(self)@.beginning,
            final(self)@.input == spec_read_string(old(self)@.input).1,
            r == match spec_read_string(old(self)@.input).0 {
                Ok(s) => Ok::<bool, Error>(s == expected@),
                Err(e) => Err(e),
            },
    {
        let parsed = self.read_chars()?;
        let e = str_to_chars(expected);
        if compare_chars(&parsed, &e) != 0 {
            return Ok(false);
        }
        Ok(true)
    }

    /// Reads an integer of the type whose values are `lo..=hi` (see
    /// `spec_parse_integer`).
    pub fn parse_integer(&mut self, lo: i128, hi: i128) -> (r: Result<i128>)
        requires
            -0x8000_0000_0000_0000 <= lo <= 0 <= hi <= u64::MAX,
        ensures
            final(self)@.array_key == old(self)@.array_key,
            final(self)@.beginning == old(self)@.beginning,
            final(self)@.input == spec_parse_integer(old(self)@.input, lo as int, hi as int).1,
            match spec_parse_integer(old(self)@.input, lo as int, hi as int).0 {
                Ok(v) => r == Ok::<i128, Error>(v as i128),
                Err(e) => r == Err::<i128, Error>(e),
            },
    {
        proof {
            use_type_invariant(&*self);
        }
        let len = self.text.len();
        match find_char(&self.text, self.pos, '"') {
            Some(_) => {
                let s = self.read_chars()?;
                let n = s.len();
                proof {
                    assert(s@.subrange(0, n as int) =~= s@);
                }
                match parse_int(&s, 0, n, lo, hi) {
                    Some(v) => Ok(v),
                    None => Err(Error::ExpectedInteger),
                }
            },
            None => {
                proof {
                    assert(self.text@.subrange(self.pos as int, len as int) =~= self@.input);
                }
                match parse_int(&self.text, self.pos, len, lo, hi) {
                    None => Err(Error::ExpectedInteger),
                    Some(v) => {
                        self.pos = len;
                        proof {
                            assert(self@.input =~= Seq::<char>::empty());
                        }
                        Ok(v)
                    },
                }
            },
        }
    }

    pub fn parse_i8(&mut self) -> (r: Result<i8>)
        ensures
            final(self)@.array_key == old(self)@.array_key,
            final(self)@.beginning == old(self)@.beginning,
            final(self)@.input == spec_parse_integer(old(self)@.input, -128, 127).1,
            match spec_parse_integer(old(self)@.input, -128, 127).0 {
                Ok(v) => r == Ok::<i8, Error>(v as i8),
                Err(e) => r == Err::<i8, Error>(e),
            },
    {
        let v = self.parse_integer(-128, 127)?;
        Ok(v as i8)
    }

    pub fn parse_i16(&mut self) -> (r: Result<i16>)
        ensures
            final(self)@.array_key == old(self)@.array_key,
            final(self)@.beginning == old(self)@.beginning,
            final(self)@.input == spec_parse_integer(old(self)@.input, -0x8000, 0x7fff).1,
            match spec_parse_integer(old(self)@.input, -0x8000, 0x7fff).0 {
                Ok(v) => r == Ok::<i16, Error>(v as i16),
                Err(e) => r == Err::<i16, Error>(e),
            },
    {
        let v = self.parse_integer(-0x8000, 0x7fff)?;
        Ok(v as i16)
    }

    pub fn parse_i32(&mut self) -> (r: Result<i32>)
        ensures
            final(self)@.array_key == old(self)@.array_key,
            final(self)@.beginning == old(self)@.beginning,
            final(self)@.input == spec_parse_integer(old(self)@.input, -0x8000_0000, 0x7fff_ffff).1,
            match spec_parse_integer(old(self)@.input, -0x8000_0000, 0x7fff_ffff).0 {
                Ok(v) => r == Ok::<i32, Error>(v as i32),
                Err(e) => r == Err::<i32, Error>(e),
            },
    {
        let v = self.parse_integer(-0x8000_0000, 0x7fff_ffff)?;
        Ok(v as i32)
    }

    pub fn parse_i64(&mut self) -> (r: Result<i64>)
        ensures
            final(self)@.array_key == old(self)@.array_key,
            final(self)@.beginning == old(self)@.beginning,
            final(self)@.input == spec_parse_integer(
                old(self)@.input,
                -0x8000_0000_0000_0000,
                0x7fff_ffff_ffff_ffff,
            ).1,
            match spec_parse_integer(
                old(self)@.input,
                -0x8000_0000_0000_0000,
                0x7fff_ffff_ffff_ffff,
            ).0 {
                Ok(v) => r == Ok::<i64, Error>(v as i64),
                Err(e) => r == Err::<i64, Error>(e),
            },
    {
        let v = self.parse_integer(-0x8000_0000_0000_0000, 0x7fff_ffff_ffff_ffff)?;
        Ok(v as i64)
    }

    pub fn parse_u8(&mut self) -> (r: Result<u8>)
        ensures
            final(self)@.array_key == old(self)@.array_key,
            final(self)@.beginning == old(self)@.beginning,
            final(self)@.input == spec_parse_integer(old(self)@.input, 0, 0xff).1,
            match spec_parse_integer(old(self)@.input, 0, 0xff).0 {
                Ok(v) => r == Ok::<u8, Error>(v as u8),
                Err(e) => r == Err::<u8, Error>(e),
            },
    {
        let v = self.parse_integer(0, 0xff)?;
        Ok(v as u8)
    }

    pub fn parse_u16(&mut self) -> (r: Result<u16>)
        ensures
            final(self)@.array_key == old(self)@.array_key,
            final(self)@.beginning == old(self)@.beginning,
            final(self)@.input == spec_parse_integer(old(self)@.input, 0, 0xffff).1,
            match spec_parse_integer(old(self)@.input, 0, 0xffff).0 {
                Ok(v) => r == Ok::<u16, Error>(v as u16),
                Err(e) => r == Err::<u16, Error>(e),
            },
    {
        let v = self.parse_integer(0, 0xffff)?;
        Ok(v as u16)
    }

    pub fn parse_u32(&mut self) -> (r: Result<u32>)
        ensures
            final(self)@.array_key == old(self)@.array_key,
            final(self)@.beginning == old(self)@.beginning,
            final(self)@.input == spec_parse_integer(old(self)@.input, 0, 0xffff_ffff).1,
            match spec_parse_integer(old(self)@.input, 0, 0xffff_ffff).0 {
                Ok(v) => r == Ok::<u32, Error>(v as u32),
                Err(e) => r == Err::<u32, Error>(e),
            },
    {
        let v = self.parse_integer(0, 0xffff_ffff)?;
        Ok(v as u32)
    }

    pub fn parse_u64(&mut self) -> (r: Result<u64>)
        ensures
            final(self)@.array_key == old(self)@.array_key,
            final(self)@.beginning == old(self)@.beginning,
            final(self)@.input == spec_parse_integer(old(self)@.input, 0, 0xffff_ffff_ffff_ffff).1,
            match spec_parse_integer(old(self)@.input, 0, 0xffff_ffff_ffff_ffff).0 {
                Ok(v) => r == Ok::<u64, Error>(v as u64),
                Err(e) => r == Err::<u64, Error>(e),
            },
    {
        let v = self.parse_integer(0, 0xffff_ffff_ffff_ffff)?;
        Ok(v as u64)
    }

    /// Reads a quoted string and gives its first character.
    pub fn parse_char(&mut self) -> (r: Result<char>)
        ensures
            final(self)@.array_key == old(self)@.array_key,
            final(self)@.beginning == old(self)@.beginning,
            final(self)@.input == spec_read_string(old(self)@.input).1,
            r == match spec_read_string(old(self)@.input).0 {
                Ok(s) => if s.len() > 0 {
                    Ok::<char, Error>(s[0])
                } else {
                    Err(Error::Eof)
                },
                Err(e) => Err(e),
            },
    {
        let s = self.read_chars()?;
        if s.len() == 0 {
            return Err(Error::Eof);
        }
        Ok(s[0])
    }

    /// Reads a quoted string; it becomes the key that names the entries of a
    /// sequence.
    pub fn parse_key(&mut self) -> (r: Result<String>)
        ensures
            final(self)@.beginning == old(self)@.beginning,
            (result_view(r), final(self)@.input) == spec_read_string(old(self)@.input),
            final(self)@.array_key == match r {
                Ok(s) => Some(s@),
                Err(_) => old(self)@.array_key,
            },
    {
        let s = self.parse_string()?;
        proof {
            use_type_invariant(&*self);
        }
        self.array_key = Some(s.clone());
        Ok(s)
    }

    /// Reads a boolean (see `spec_parse_bool`).
    pub fn parse_bool(&mut self) -> (r: Result<bool>)
        ensures
            final(self)@.array_key == old(self)@.array_key,
            final(self)@.beginning == old(self)@.beginning,
            spec_parse_bool(old(self)@.input) == (r, final(self)@.input),
    {
        let ghost r0 = self@.input;
        let c = self.peek_real_char()?;
        if c == '"' {
            let s = self.read_chars()?;
            let n = s.len();
            proof {
                assert(s@.subrange(0, n as int) =~= s@);
            }
            match bool_word_at(&s, 0, n) {
                Some((_, value)) => Ok(value),
                None => Err(Error::ExpectedBoolean),
            }
        } else {
            proof {
                use_type_invariant(&*self);
            }
            let len = self.text.len();
            proof {
                assert(self.text@.subrange(self.pos as int, len as int) =~= r0);
            }
            match bool_word_at(&self.text, self.pos, len) {
                Some((_, value)) => {
                    self.pos = len;
                    proof {
                        assert(self.text@.skip(len as int) =~= Seq::<char>::empty());
                    }
                    Ok(value)
                },
                None => Err(Error::ExpectedBoolean),
            }
        }
    }

    /// Classifies the next value by its first character that is not
    /// whitespace (nothing is consumed).
    pub fn any_kind(&mut self) -> (r: Result<ValueKind>)
        ensures
            final(self)@ == old(self)@,
            r == match first_real(old(self)@.input) {
                Some(c) => spec_value_kind(c),
                None => Err(Error::Eof),
            },
    {
        let c = self.peek_real_char()?;
        if c == 'n' {
            Ok(ValueKind::Unit)
        } else if c == 't' || c == 'f' {
            Ok(ValueKind::Bool)
        } else if c == '"' {
            Ok(ValueKind::Str)
        } else if '0' <= c && c <= '9' {
            Ok(ValueKind::U64)
        } else if c == '-' {
            Ok(ValueKind::I64)
        } else if c == '[' {
            Ok(ValueKind::Sequence)
        } else if c == '{' {
            Ok(ValueKind::Mapping)
        } else {
            Err(Error::Syntax)
        }
    }

    /// Consumes `null` where the text starts with it, and tells whether it did.
    pub fn take_null(&mut self) -> (b: bool)
        ensures
            final(self)@.array_key == old(self)@.array_key,
            final(self)@.beginning == old(self)@.beginning,
            b == (old(self)@.input.len() >= 4 && old(self)@.input.take(4) == seq!['n', 'u', 'l', 'l']),
            final(self)@.input == if b {
                old(self)@.input.skip(4)
            } else {
                old(self)@.input
            },
    {
        proof {
            use_type_invariant(&*self);
        }
        let ghost r0 = self@.input;
        let len = self.text.len();
        let p = self.pos;
        if len - p >= 4 && self.text[p] == 'n' && self.text[p + 1] == 'u' && self.text[p + 2]
            == 'l' && self.text[p + 3] == 'l' {
            self.pos = p + 4;
            proof {
                assert(r0.take(4) =~= seq!['n', 'u', 'l', 'l']);
                assert(self@.input =~= r0.skip(4));
            }
            true
        } else {
            proof {
                if r0.len() >= 4 && r0.take(4) == seq!['n', 'u', 'l', 'l'] {
                    assert(r0.take(4)[0] == self.text@[p as int]);
                    assert(r0.take(4)[1] == self.text@[p + 1]);
                    assert(r0.take(4)[2] == self.text@[p + 2]);
                    assert(r0.take(4)[3] == self.text@[p + 3]);
                }
            }
            false
        }
    }

    /// The key that names the entries of a sequence: the last string read as
    /// a key.
    pub fn seq_key(&self) -> (r: Result<String>)
        ensures
            match self@.array_key {
                Some(k) => r matches Ok(s) && s@ == k,
                None => r matches Err(e) && e == Error::ExpectedMapKey,
            },
    {
        match &self.array_key {
            Some(k) => Ok(k.clone()),
            None => Err(Error::ExpectedMapKey),
        }
    }

    /// Consumes the `{` that opens a map.
    pub fn begin_map(&mut self) -> (r: Result<()>)
        ensures
            final(self)@.array_key == old(self)@.array_key,
            !final(self)@.beginning,
            final(self)@.input == after_real(old(self)@.input),
            r == match first_real(old(self)@.input) {
                Some(c) => if c == '{' {
                    Ok::<(), Error>(())
                } else {
                    Err(Error::ExpectedMap)
                },
                None => Err(Error::Eof),
            },
    {
        proof {
            use_type_invariant(&*self);
        }
        self.beginning = false;
        if self.next_expect_char('{')? {
            Ok(())
        } else {
            Err(Error::ExpectedMap)
        }
    }

    /// Consumes the `}` that closes a map.
    pub fn end_map(&mut self) -> (r: Result<()>)
        ensures
            final(self)@.array_key == old(self)@.array_key,
            final(self)@.beginning == old(self)@.beginning,
            final(self)@.input == after_real(old(self)@.input),
            r == match first_real(old(self)@.input) {
                Some(c) => if c == '}' {
                    Ok::<(), Error>(())
                } else {
                    Err(Error::ExpectedMapEnd)
                },
                None => Err(Error::Eof),
            },
    {
        if self.next_expect_char('}')? {
            Ok(())
        } else {
            Err(Error::ExpectedMapEnd)
        }
    }

    /// Whether a map has another entry: the next character that is not
    /// whitespace is not `}` (nothing is consumed).
    pub fn map_has_next(&mut self) -> (r: Result<bool>)
        ensures
            final(self)@ == old(self)@,
            r == match first_real(old(self)@.input) {
                Some(c) => Ok::<bool, Error>(c != '}'),
                None => Err(Error::Eof),
            },
    {
        let c = self.peek_real_char()?;
        Ok(c != '}')
    }

    /// Whether a sequence whose entries are named `key` has another element
    /// (see `spec_seq_next`); after the first element, the next entry's key is
    /// consumed.
    pub fn seq_next(&mut self, key: &str, first: bool) -> (r: Result<bool>)
        ensures
            final(self)@.array_key == old(self)@.array_key,
            final(self)@.beginning == old(self)@.beginning,
            (r, final(self)@.input) == spec_seq_next(old(self)@.input, key@, first),
    {
        if self.peek_real_char()? == '}' {
            return Ok(false);
        }
        if !first && !self.peek_expect_str(key)? {
            return Ok(false);
        }
        if !first && !self.next_expect_string(key)? {
            return Err(Error::ExpectedString);
        }
        Ok(true)
    }

    /// Reads the content of a unit variant of an enum: unit variants are not
    /// supported, and nothing is read.
    pub fn unit_variant(&mut self) -> (r: Result<()>)
        ensures
            final(self)@ == old(self)@,
            r == Err::<(), Error>(Error::UnsupportedEnums),
    {
        Err(Error::UnsupportedEnums)
    }

    /// Prepares to read an enum (see `spec_begin_enum`).
    pub fn begin_enum(&mut self) -> (r: Result<()>)
        requires
            spec_begin_enum(old(self)@) is Some,
        ensures
            final(self)@.array_key == old(self)@.array_key,
            !final(self)@.beginning,
            spec_begin_enum(old(self)@) == Some((r, final(self)@.input)),
    {
        match self.try_begin_enum() {
            Some(r) => r,
            None => Err(Error::ExpectedEnum),
        }
    }

    /// Prepares to read an enum (see `spec_begin_enum`); `None` where this
    /// panics.
    pub fn try_begin_enum(&mut self) -> (r: Option<Result<()>>)
        ensures
            final(self)@.array_key == old(self)@.array_key,
            r is Some ==> !final(self)@.beginning,
            match r {
                Some(res) => spec_begin_enum(old(self)@) == Some((res, final(self)@.input)),
                None => spec_begin_enum(old(self)@) is None,
            },
    {
        proof {
            use_type_invariant(&*self);
        }
        let ghost r0 = self@.input;
        let len = self.text.len();
        if self.beginning {
            let p = skip_ws(&self.text, self.pos);
            if p < len && self.text[p] == '{' {
                proof {
                    assert(r0[p - self.pos] == self.text@[p as int]);
                    assert(self.text@.subrange(self.pos as int, len as int) =~= r0);
                }
                let b = bytes_between(&self.text, self.pos, len);
                if b < 3 {
                    return None;
                }
                let i = match boundary_index(&self.text, self.pos, 1) {
                    Some(i) => i,
                    None => {
                        return None;
                    },
                };
                let j = match boundary_index(&self.text, self.pos, b - 2) {
                    Some(j) => j,
                    None => {
                        return None;
                    },
                };
                if i > j {
                    return None;
                }
                let start = self.pos;
                let kept = self.slice_chars(0, start + j);
                self.text = kept;
                self.pos = start + i;
                proof {
                    assert(self@.input =~= r0.subrange(i as int, j as int));
                }
            }
        }
        proof {
            use_type_invariant(&*self);
        }
        self.beginning = false;
        match parse_string_at(&self.text, self.pos) {
            Some(Ok(_)) => Some(Ok(())),
            Some(Err(_)) => Some(Err(Error::ExpectedEnum)),
            None => None,
        }
    }

    /// Trims whitespace from both ends of the text that is left and tells
    /// whether anything else is left.
    pub fn finish(&mut self) -> (r: Result<()>)
        ensures
            final(self)@.array_key == old(self)@.array_key,
            final(self)@.beginning == old(self)@.beginning,
            final(self)@.input == trim(old(self)@.input),
            r == if trim(old(self)@.input).len() == 0 {
                Ok::<(), Error>(())
            } else {
                Err(Error::TrailingCharacters)
            },
    {
        proof {
            use_type_invariant(&*self);
        }
        let ghost r0 = self@.input;
        let p = skip_ws(&self.text, self.pos);
        let e = skip_ws_back(&self.text, p);
        let kept = self.slice_chars(0, e);
        self.text = kept;
        self.pos = p;
        proof {
            let t = r0.skip(leading_ws(r0) as int);
            assert(t =~= old(self).text@.skip(p as int));
            assert(self@.input =~= t.take(t.len() - trailing_ws(t)));
            lemma_trim_empty(r0);
        }
        if p < e {
            Err(Error::TrailingCharacters)
        } else {
            Ok(())
        }
    }

    /// The text that is left to read.
    pub fn rest(&self) -> (s: String)
        ensures
            s@ == self@.input,
    {
        proof {
            use_type_invariant(self);
        }
        chars_to_string(&self.text, self.pos)
    }

    /// Whether the text that is left holds a `"`.
    pub fn has_quote(&self) -> (b: bool)
        ensures
            b == (index_of(self@.input, '"') is Some),
    {
        proof {
            use_type_invariant(self);
        }
        find_char(&self.text, self.pos, '"').is_some()
    }

    /// Consumes all of the text that is left.
    pub fn take_rest(&mut self)
        ensures
            final(self)@.input == Seq::<char>::empty(),
            final(self)@.array_key == old(self)@.array_key,
            final(self)@.beginning == old(self)@.beginning,
    {
        self.pos = self.text.len();
        proof {
            assert(self@.input =~= Seq::<char>::empty());
        }
    }

    /// A deserializer for `input` (see `spec_prepare`): `Some(Err(e))` where
    /// reading the header or pre-processing fails with `e`, `None` where it
    /// panics.
    #[verifier::rlimit(40)]
    pub fn prepare(input: &str) -> (r: Option<Result<Deserializer>>)
        ensures
            match r {
                Some(Ok(d)) => spec_prepare(input@) == Some(Ok::<Seq<char>, Error>(d@.input))
                    && d@.array_key is None && d@.beginning,
                Some(Err(e)) => spec_prepare(input@) == Some(Err::<Seq<char>, Error>(e)),
                None => spec_prepare(input@) is None,
            },
    {
        let v = str_to_chars(input);
        let len = v.len();
        proof {
            assert(v@.skip(0) =~= v@);
        }
        let p = skip_ws(&v, 0);
        let blocked = p < len && v[p] == '{';
        let header = p < len && v[p] == '"';
        proof {
            if p < len {
                assert(v@.skip(0)[p as int] == v@[p as int]);
            }
        }
        if !blocked && !header {
            return Some(Ok(Deserializer { text: v, pos: 0, array_key: None, beginning: true }));
        }
        let mut block_preprocessor = false;
        if header {
            let e = match parse_string_at(&v, 0) {
                Some(Ok((_, e))) => e,
                Some(Err(err)) => {
                    return Some(Err(err));
                },
                None => {
                    return None;
                },
            };
            let q = skip_ws(&v, e);
            proof {
                if q < len {
                    assert(v@.skip(e as int)[q - e] == v@[q as int]);
                }
            }
            if !(q < len && v[q] == '{') {
                block_preprocessor = true;
            }
        }
        if block_preprocessor {
            return Some(Ok(Deserializer { text: v, pos: 0, array_key: None, beginning: true }));
        }
        let pre = match preprocess_chars(&v, header, true) {
            Some(Ok(o)) => o,
            Some(Err(err)) => {
                return Some(Err(err));
            },
            None => {
                return None;
            },
        };
        let text = if header {
            let mut t: Vec<char> = Vec::new();
            t.push('{');
            t.push('\n');
            let lines = tab_lines_of(&pre);
            let n = lines.len();
            push_range(&mut t, &lines, 0, n);
            t.push('\n');
            t.push('}');
            proof {
                assert(lines@.subrange(0, n as int) =~= lines@);
                assert(t@ =~= seq!['{', '\n'] + tab_lines(pre@) + seq!['\n', '}']);
            }
            t
        } else {
            pre
        };
        let d = Deserializer { text, pos: 0, array_key: None, beginning: true };
        proof {
            assert(d@.input =~= d.text@);
        }
        Some(Ok(d))
    }

    /// A deserializer for `input`: the text is pre-processed where it starts
    /// with a block, or with a header followed by a block (see `spec_prepare`).
    pub fn from_str(input: &str) -> (d: Deserializer)
        requires
            spec_prepare(input@) matches Some(Ok(_)),
        ensures
            spec_prepare(input@) == Some(Ok::<Seq<char>, Error>(d@.input)),
            d@.array_key is None,
            d@.beginning,
    {
        match Deserializer::prepare(input) {
            Some(Ok(d)) => d,
            _ => Deserializer { text: Vec::new(), pos: 0, array_key: None, beginning: true },
        }
    }
}

/// Reading a quoted string gives back the text between the quotes, where the
/// text holds no `"`, and leaves what follows the closing quote.
pub proof fn law_read_string_roundtrip(ws: Seq<char>, t: Seq<char>, rest: Seq<char>)
    requires
        forall|i: int| 0 <= i < ws.len() ==> is_ws(#[trigger] ws[i]),
        forall|i: int| 0 <= i < t.len() ==> #[trigger] t[i] != '"',
    ensures
        spec_read_string(ws + seq!['"'] + t + seq!['"'] + rest) == (Ok::<Seq<char>, Error>(t), rest),
{
    let r = ws + seq!['"'] + t + seq!['"'] + rest;
    crate::text::lemma_leading_ws(r, ws.len() as int);
    let after = r.skip(ws.len() + 1int);
    assert(after =~= t + seq!['"'] + rest);
    crate::text::lemma_index_of(after, '"', t.len() as int);
    assert(after.take(t.len() as int) =~= t);
    assert(after.skip(t.len() + 1int) =~= rest);
}

/// Two documents with the same header, whose blocks give each key the same
/// values in the same order, are read from the same text, whatever the order
/// of their entries.
pub proof fn law_prepare_order_insensitive(
    s1: Seq<char>,
    s2: Seq<char>,
    h: Seq<char>,
    k1: nat,
    k2: nat,
    es1: Seq<(Seq<char>, Seq<char>)>,
    es2: Seq<(Seq<char>, Seq<char>)>,
)
    requires
        spec_parse_string(s1) == Some(Ok::<(Seq<char>, nat), Error>((h, k1))),
        spec_parse_string(s2) == Some(Ok::<(Seq<char>, nat), Error>((h, k2))),
        block_entries(s1.skip(k1 as int), 0) == Some(es1),
        block_entries(s2.skip(k2 as int), 0) == Some(es2),
        forall|k: Seq<char>| #[trigger] values_of(es1, k) == values_of(es2, k),
    ensures
        spec_prepare(s1) == spec_prepare(s2),
{
    law_process_order_insensitive(s1.skip(k1 as int), s2.skip(k2 as int), 0, es1, es2);
    law_process_groups_keys(s1.skip(k1 as int), 0, es1);
    law_process_groups_keys(s2.skip(k2 as int), 0, es2);
}

/// Two documents without a header, each a block whose entries give each key
/// the same values in the same order, are read from the same text, whatever
/// the order of their entries.
pub proof fn law_prepare_block_order_insensitive(
    s1: Seq<char>,
    s2: Seq<char>,
    es1: Seq<(Seq<char>, Seq<char>)>,
    es2: Seq<(Seq<char>, Seq<char>)>,
)
    requires
        block_entries(s1, 0) == Some(es1),
        block_entries(s2, 0) == Some(es2),
        forall|k: Seq<char>| #[trigger] values_of(es1, k) == values_of(es2, k),
    ensures
        spec_prepare(s1) == spec_prepare(s2),
{
    law_process_order_insensitive(s1, s2, 0, es1, es2);
    law_process_groups_keys(s1, 0, es1);
    law_process_groups_keys(s2, 0, es2);
}

/// Looking at the next quoted string gives what reading it gives.
pub proof fn law_peek_then_read(r: Seq<char>)
    ensures
        spec_peek_str(r) == spec_read_string(r).0,
{
}

/// Reading an integer from a quoted string gives what reading the bare text
/// between the quotes gives, and leaves the text after the closing quote.
pub proof fn law_parse_integer_quoted_as_bare(
    ws: Seq<char>,
    t: Seq<char>,
    rest: Seq<char>,
    lo: int,
    hi: int,
)
    requires
        forall|i: int| 0 <= i < ws.len() ==> is_ws(#[trigger] ws[i]),
        forall|i: int| 0 <= i < t.len() ==> #[trigger] t[i] != '"',
    ensures
        spec_parse_integer(ws + seq!['"'] + t + seq!['"'] + rest, lo, hi).0 == spec_parse_integer(
            t,
            lo,
            hi,
        ).0,
        spec_parse_integer(ws + seq!['"'] + t + seq!['"'] + rest, lo, hi).1 == rest,
{
    let r = ws + seq!['"'] + t + seq!['"'] + rest;
    law_read_string_roundtrip(ws, t, rest);
    assert(r[ws.len() as int] == '"');
    lemma_index_of_props(r, '"');
    lemma_index_of_props(t, '"');
}

/// Reading a number written in decimal digits `d` gives its value, and, for a
/// signed type (`lo < 0`), reading `-` followed by `d` gives the negated value,
/// wherever the value lies in `lo..=hi`; all of the text is consumed.
pub proof fn law_parse_integer_value(d: Seq<char>, lo: int, hi: int)
    requires
        d.len() > 0,
        all_digits(d),
    ensures
        lo <= digits_value(d) <= hi ==> spec_parse_integer(d, lo, hi) == (
            Ok::<int, Error>(digits_value(d) as int),
            Seq::<char>::empty(),
        ),
        lo < 0 && lo <= -(digits_value(d) as int) <= hi ==> spec_parse_integer(
            seq!['-'] + d,
            lo,
            hi,
        ) == (Ok::<int, Error>(-(digits_value(d) as int)), Seq::<char>::empty()),
{
    let m = seq!['-'] + d;
    assert(is_digit(d[0]));
    lemma_index_of_props(d, '"');
    if index_of(d, '"') is Some {
        assert(is_digit(d[index_of(d, '"').unwrap() as int]));
    }
    lemma_index_of_props(m, '"');
    if index_of(m, '"') is Some {
        let i = index_of(m, '"').unwrap() as int;
        if i > 0 {
            assert(m[i] == d[i - 1]);
            assert(is_digit(d[i - 1]));
        }
    }
    assert(m.drop_first() =~= d);
}

/// Reading a boolean from a quoted word gives what reading the bare word gives,
/// and leaves the text after the closing quote.
pub proof fn law_parse_bool_quoted_as_bare(ws: Seq<char>, t: Seq<char>, rest: Seq<char>)
    requires
        forall|i: int| 0 <= i < ws.len() ==> is_ws(#[trigger] ws[i]),
        forall|i: int| 0 <= i < t.len() ==> #[trigger] t[i] != '"',
        first_real(t) is Some,
    ensures
        spec_parse_bool(ws + seq!['"'] + t + seq!['"'] + rest).0 == spec_parse_bool(t).0,
        spec_parse_bool(ws + seq!['"'] + t + seq!['"'] + rest).1 == rest,
{
    let r = ws + seq!['"'] + t + seq!['"'] + rest;
    law_read_string_roundtrip(ws, t, rest);
    crate::text::lemma_leading_ws(r, ws.len() as int);
    crate::text::lemma_leading_ws_props(t);
    assert(t[leading_ws(t) as int] != '"');
}

/// A word that is not blank reads as `false` where it is `0`, `false` or `no`,
/// and as `true` where it is `1`, `true` or `yes`, ignoring ASCII case; any
/// other word is not a boolean.
pub proof fn law_parse_bool_words(t: Seq<char>)
    requires
        forall|i: int| 0 <= i < t.len() ==> #[trigger] t[i] != '"',
        first_real(t) is Some,
    ensures
        spec_parse_bool(t).0 == if ci_eq(t, seq!['0']) || ci_eq(t, seq!['f', 'a', 'l', 's', 'e'])
            || ci_eq(t, seq!['n', 'o']) {
            Ok::<bool, Error>(false)
        } else if ci_eq(t, seq!['1']) || ci_eq(t, seq!['t', 'r', 'u', 'e']) || ci_eq(
            t,
            seq!['y', 'e', 's'],
        ) {
            Ok::<bool, Error>(true)
        } else {
            Err(Error::ExpectedBoolean)
        },
{
    crate::text::lemma_leading_ws_props(t);
    assert(t[leading_ws(t) as int] != '"');
    if ci_eq(t, seq!['0']) && ci_eq(t, seq!['1']) {
        assert(lower_code(t[0]) == ('0' as u32) as int);
    }
}

/// After the first element, a sequence whose entries are named `key` goes on
/// exactly when the next quoted key equals `key`, which is then consumed; any
/// other key, even one that begins with `key`, ends the sequence and is left to
/// read.
pub proof fn law_seq_next_same_key(ws: Seq<char>, t: Seq<char>, rest: Seq<char>, key: Seq<char>)
    requires
        forall|i: int| 0 <= i < ws.len() ==> is_ws(#[trigger] ws[i]),
        forall|i: int| 0 <= i < t.len() ==> #[trigger] t[i] != '"',
    ensures
        spec_seq_next(ws + seq!['"'] + t + seq!['"'] + rest, key, false) == if t == key {
            (Ok::<bool, Error>(true), rest)
        } else {
            (Ok::<bool, Error>(false), ws + seq!['"'] + t + seq!['"'] + rest)
        },
{
    let r = ws + seq!['"'] + t + seq!['"'] + rest;
    law_read_string_roundtrip(ws, t, rest);
    crate::text::lemma_leading_ws(r, ws.len() as int);
    law_peek_then_read(r);
}

/// A value is read as a map exactly where it starts with `{`, as a sequence
/// exactly where it starts with `[`, and as a string exactly where it starts
/// with `"`.
pub proof fn law_value_kind(c: char)
    ensures
        (spec_value_kind(c) == Ok::<ValueKind, Error>(ValueKind::Mapping)) == (c == '{'),
        (spec_value_kind(c) == Ok::<ValueKind, Error>(ValueKind::Sequence)) == (c == '['),
        (spec_value_kind(c) == Ok::<ValueKind, Error>(ValueKind::Str)) == (c == '"'),
{
}

/// A sequence ends at the `}` that closes its block, which is left to read;
/// otherwise its first element is there, and nothing is consumed for it.
pub proof fn law_seq_next_bounds(r: Seq<char>, key: Seq<char>, first: bool)
    requires
        first_real(r) is Some,
    ensures
        first_real(r) == Some('}') ==> spec_seq_next(r, key, first) == (Ok::<bool, Error>(false), r),
        first_real(r) != Some('}') && first ==> spec_seq_next(r, key, first) == (
            Ok::<bool, Error>(true),
            r,
        ),
{
}

} // verus!
