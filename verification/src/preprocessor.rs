//! The pre-processor: it reads a VDF document whose blocks may repeat a key in
//! any order, and writes each block again with its entries grouped by key, the
//! keys in ascending order and the values of each key in the order they came.
//!
//! The reading functions work on a `Seq<char>`; a byte offset that the reader
//! slices at is turned into a character index by `boundary`, which is `None`
//! where slicing the text there would panic.
use vstd::prelude::*;

use crate::error::{Error, Result};
use crate::grouping::{
    add_to_groups, group_entries, group_of, groups_nonempty, groups_view, group_view, keys_ascending,
    law_grouping_order_insensitive, lemma_group_entries, values_of, Group, KeyGroup,
};
use crate::reprocess::lemma_token_end_at;
use crate::text::{
    boundary, boundary_index, byte_len, bytes_between, char_len, chars_to_string, find_char,
    first_real, index_of, is_whitespace, is_ws, leading_ws, lemma_byte_len_split,
    lemma_boundary_at, lemma_byte_len_take_succ, lemma_char_len_bounds, lemma_index_of, lemma_index_of_props,
    lemma_leading_ws, lemma_trim_empty, skip_ws,
    str_to_chars, tabs, trim, utf8_len,
};

verus! {

/// A character that was found, and the byte offset that the search reports for it.
#[derive(Debug)]
pub struct TokenCharacter {
    pub index: usize,
    pub char: char,
}

/// The byte offset that `peek_real_char(s, 0)` reports for the first character
/// of `s` that is not whitespace: 0 where `s` starts with it, otherwise the
/// number of bytes of `s[1..=m]`, where `m` is its index.
pub open spec fn peek_offset(s: Seq<char>) -> int {
    let m = leading_ws(s) as int;
    if m == 0 {
        0
    } else {
        byte_len(s.subrange(1, m + 1)) as int
    }
}

/// Where the reader continues after the first character of `s` that is not
/// whitespace: the text is sliced at that character's reported offset plus its
/// length in bytes. `None` where that offset is not a character boundary.
pub open spec fn token_end(s: Seq<char>) -> Option<nat> {
    boundary(s, peek_offset(s) + char_len(s[leading_ws(s) as int]))
}

/// What reading a quoted string at the start of `s` gives: the text up to the
/// next `"`, and the index in `s` just after that quote. The outer `None` means
/// that the reader panics.
pub open spec fn spec_parse_string(s: Seq<char>) -> Option<Result<(Seq<char>, nat)>> {
    match first_real(s) {
        None => Some(Err(Error::Eof)),
        Some(c) => if c != '"' {
            Some(Err(Error::ExpectedString))
        } else {
            match token_end(s) {
                None => None,
                Some(k) => match index_of(s.skip(k as int), '"') {
                    None => Some(Err(Error::Eof)),
                    Some(j) => Some(Ok((s.skip(k as int).take(j as int), k + j + 1))),
                },
            }
        },
    }
}

/// The number of characters of `t` that are read until the braces balance,
/// starting at nesting depth `depth`; the outer `None` means that the depth
/// counter (an `i32`) overflows.
pub open spec fn block_close(t: Seq<char>, depth: int) -> Option<Result<nat>>
    decreases t.len(),
{
    if t.len() == 0 {
        Some(Err(Error::Eof))
    } else {
        let d = if t[0] == '{' {
            depth + 1
        } else if t[0] == '}' {
            depth - 1
        } else {
            depth
        };
        if d > 0x7fff_ffff {
            None
        } else if d <= 0 {
            Some(Ok(1))
        } else {
            match block_close(t.drop_first(), d) {
                Some(Ok(n)) => Some(Ok(n + 1)),
                other => other,
            }
        }
    }
}

/// What reading a braced block at the start of `s` gives: the block's text from
/// its `{` to the matching `}`, and the index in `s` just after it.
pub open spec fn spec_parse_block(s: Seq<char>) -> Option<Result<(Seq<char>, nat)>> {
    match first_real(s) {
        None => Some(Err(Error::Eof)),
        Some(c) => if c != '{' {
            Some(Err(Error::ExpectedMap))
        } else {
            match token_end(s) {
                None => None,
                Some(k) => match block_close(s.skip(k as int), 1) {
                    None => None,
                    Some(Err(e)) => Some(Err(e)),
                    Some(Ok(n)) => Some(Ok((seq!['{'] + s.skip(k as int).take(n as int), k + n))),
                },
            }
        },
    }
}

/// The index just after the first character at or after `pos` that is not
/// whitespace, as the reader slices it.
fn token_end_at(v: &Vec<char>, pos: usize) -> (r: Option<usize>)
    requires
        pos <= v@.len(),
        first_real(v@.skip(pos as int)) is Some,
    ensures
        r matches Some(e) ==> token_end(v@.skip(pos as int)) == Some((e - pos) as nat) && pos < e
            <= v@.len(),
        r is None ==> token_end(v@.skip(pos as int)) is None,
{
    let ghost s = v@.skip(pos as int);
    let p = skip_ws(v, pos);
    let index: u128 = if p == pos {
        0
    } else {
        bytes_between(v, pos + 1, p + 1)
    };
    proof {
        assert(s.subrange(1, p - pos + 1) =~= v@.subrange(pos + 1, p + 1));
        assert(s[p - pos] == v@[p as int]);
    }
    let target = index + utf8_len(v[p]);
    match boundary_index(v, pos, target) {
        Some(k) => {
            proof {
                assert(s.take(0) =~= Seq::<char>::empty());
                let c = choose|c: nat| c <= s.len() && byte_len(s.take(c as int)) == target;
                assert(c == k);
                lemma_char_len_bounds(v@[p as int]);
            }
            Some(pos + k)
        },
        None => None,
    }
}

/// Reads a quoted string at or after `v[pos]`: its text and the index just
/// after its closing quote.
pub(crate) fn parse_string_at(v: &Vec<char>, pos: usize) -> (r: Option<Result<(Vec<char>, usize)>>)
    requires
        pos <= v@.len(),
    ensures
        match spec_parse_string(v@.skip(pos as int)) {
            Some(Ok((text, n))) => r matches Some(Ok((o, e))) && o@ == text && e == pos + n && pos
                < e <= v@.len(),
            Some(Err(err)) => r == Some(Err::<(Vec<char>, usize), Error>(err)),
            None => r is None,
        },
{
    let ghost s = v@.skip(pos as int);
    let p = skip_ws(v, pos);
    if p == v.len() {
        return Some(Err(Error::Eof));
    }
    if v[p] != '"' {
        return Some(Err(Error::ExpectedString));
    }
    let k = match token_end_at(v, pos) {
        Some(k) => k,
        None => {
            return None;
        },
    };
    proof {
        assert(v@.skip(k as int) =~= s.skip(k - pos));
    }
    match find_char(v, k, '"') {
        None => Some(Err(Error::Eof)),
        Some(j) => {
            let mut out: Vec<char> = Vec::new();
            let mut i = k;
            while i < j
                invariant
                    k <= i <= j < v@.len(),
                    out@ == v@.subrange(k as int, i as int),
                decreases j - i,
            {
                out.push(v[i]);
                i = i + 1;
                proof {
                    assert(out@ =~= v@.subrange(k as int, i as int));
                }
            }
            proof {
                assert(out@ =~= s.skip(k - pos).take(j - k));
            }
            Some(Ok((out, j + 1)))
        },
    }
}

/// Reads a braced block at or after `v[pos]`: its text from `{` to the
/// matching `}`, and the index just after it.
fn parse_block(v: &Vec<char>, pos: usize) -> (r: Option<Result<(Vec<char>, usize)>>)
    requires
        pos <= v@.len(),
    ensures
        match spec_parse_block(v@.skip(pos as int)) {
            Some(Ok((text, n))) => r matches Some(Ok((o, e))) && o@ == text && e == pos + n && pos
                < e <= v@.len(),
            Some(Err(err)) => r == Some(Err::<(Vec<char>, usize), Error>(err)),
            None => r is None,
        },
{
    let ghost s = v@.skip(pos as int);
    let p = skip_ws(v, pos);
    if p == v.len() {
        return Some(Err(Error::Eof));
    }
    if v[p] != '{' {
        return Some(Err(Error::ExpectedMap));
    }
    let k = match token_end_at(v, pos) {
        Some(k) => k,
        None => {
            return None;
        },
    };
    let ghost t = v@.skip(k as int);
    proof {
        assert(t =~= s.skip(k - pos));
    }
    let ghost whole = spec_parse_block(s);
    assert(whole == match block_close(t, 1) {
        None => None,
        Some(Err(e)) => Some(Err(e)),
        Some(Ok(n)) => Some(Ok((seq!['{'] + t.take(n as int), ((k - pos) + n) as nat))),
    });
    let mut out: Vec<char> = Vec::new();
    out.push('{');
    let mut depth: i64 = 1;
    let mut i = k;
    while depth > 0
        invariant
            pos < k <= i <= v@.len(),
            t == v@.skip(k as int),
            s == v@.skip(pos as int),
            whole == spec_parse_block(s),
            whole == match block_close(t, 1) {
                None => None,
                Some(Err(e)) => Some(Err(e)),
                Some(Ok(n)) => Some(Ok((seq!['{'] + t.take(n as int), ((k - pos) + n) as nat))),
            },
            depth <= 0x7fff_ffff,
            depth > 0 ==> block_close(t, 1) == match block_close(v@.skip(i as int), depth as int) {
                Some(Ok(n)) => Some(Ok::<nat, Error>(n + (i - k) as nat)),
                other => other,
            },
            depth <= 0 ==> block_close(t, 1) == Some(Ok::<nat, Error>((i - k) as nat)),
            out@ == seq!['{'] + v@.subrange(k as int, i as int),
        decreases v@.len() - i,
    {
        if i == v.len() {
            proof {
                assert(v@.skip(i as int).len() == 0);
                assert(block_close(v@.skip(i as int), depth as int) == Some(Err::<nat, Error>(Error::Eof)));
            }
            return Some(Err(Error::Eof));
        }
        let c = v[i];
        proof {
            let u = v@.skip(i as int);
            assert(u[0] == c);
            assert(u.drop_first() =~= v@.skip(i + 1));
        }
        if c == '{' {
            if depth == 0x7fff_ffff {
                return None;
            }
            depth = depth + 1;
        } else if c == '}' {
            depth = depth - 1;
        }
        out.push(c);
        i = i + 1;
        proof {
            assert(out@ =~= seq!['{'] + v@.subrange(k as int, i as int));
        }
    }
    proof {
        assert(v@.subrange(k as int, i as int) =~= t.take(i - k));
    }
    Some(Ok((out, i)))
}

/// `v` with a copy of `t` after each line break.
pub open spec fn indent_newlines(v: Seq<char>, t: Seq<char>) -> Seq<char>
    decreases v.len(),
{
    if v.len() == 0 {
        seq![]
    } else {
        indent_newlines(v.drop_last(), t) + if v.last() == '\n' {
            seq!['\n'] + t
        } else {
            seq![v.last()]
        }
    }
}

/// How a value is written after its key: a block (a value whose first
/// character that is not whitespace is `{`) on the lines that follow, each
/// line indented by `t`; any other value quoted on the key's line.
pub open spec fn render_value(v: Seq<char>, t: Seq<char>) -> Seq<char> {
    if first_real(v) == Some('{') {
        seq!['\n'] + t + indent_newlines(v, t)
    } else {
        seq!['\t', '\t', '"'] + v + seq!['"']
    }
}

/// How a key is written in a block at indentation `n`.
pub open spec fn render_key(n: nat, k: Seq<char>) -> Seq<char> {
    tabs(n + 1) + seq!['\n', '\t', '"'] + k + seq!['"']
}

/// The entries of a key that has several values, one entry per value.
pub open spec fn render_values(n: nat, k: Seq<char>, vals: Seq<Seq<char>>) -> Seq<char>
    decreases vals.len(),
{
    if vals.len() == 0 {
        seq![]
    } else {
        render_values(n, k, vals.drop_last()) + render_key(n, k) + render_value(
            vals.last(),
            tabs(n + 1),
        )
    }
}

/// The entries of one key in a block at indentation `n`.
pub open spec fn render_group(n: nat, g: Group) -> Seq<char> {
    if g.1.len() > 1 {
        render_values(n, g.0, g.1)
    } else {
        render_key(n, g.0) + render_value(g.1[0], tabs(n))
    }
}

pub open spec fn render_groups(n: nat, gs: Seq<Group>) -> Seq<char>
    decreases gs.len(),
{
    if gs.len() == 0 {
        seq![]
    } else {
        render_groups(n, gs.drop_last()) + render_group(n, gs.last())
    }
}

/// The block at indentation `n` whose entries are `gs`.
pub open spec fn spec_render(gs: Seq<Group>, n: nat) -> Seq<char> {
    tabs(n) + seq!['{'] + render_groups(n, gs) + seq!['\n', '}']
}

fn push_tabs(out: &mut Vec<char>, n: usize)
    ensures
        final(out)@ == old(out)@ + tabs(n as nat),
{
    let mut i: usize = 0;
    while i < n
        invariant
            i <= n,
            out@ == old(out)@ + tabs(i as nat),
        decreases n - i,
    {
        out.push('\t');
        i = i + 1;
        proof {
            assert(out@ =~= old(out)@ + tabs(i as nat));
        }
    }
}

fn push_all(out: &mut Vec<char>, s: &Vec<char>)
    ensures
        final(out)@ == old(out)@ + s@,
{
    let mut i: usize = 0;
    while i < s.len()
        invariant
            i <= s@.len(),
            out@ == old(out)@ + s@.take(i as int),
        decreases s@.len() - i,
    {
        out.push(s[i]);
        i = i + 1;
        proof {
            assert(out@ =~= old(out)@ + s@.take(i as int));
        }
    }
    proof {
        assert(s@.take(s@.len() as int) =~= s@);
    }
}

fn push_indented(out: &mut Vec<char>, v: &Vec<char>, n: usize)
    ensures
        final(out)@ == old(out)@ + indent_newlines(v@, tabs(n as nat)),
{
    let mut i: usize = 0;
    while i < v.len()
        invariant
            i <= v@.len(),
            out@ == old(out)@ + indent_newlines(v@.take(i as int), tabs(n as nat)),
        decreases v@.len() - i,
    {
        proof {
            assert(v@.take(i + 1).drop_last() =~= v@.take(i as int));
        }
        if v[i] == '\n' {
            out.push('\n');
            push_tabs(out, n);
        } else {
            out.push(v[i]);
        }
        i = i + 1;
        proof {
            assert(out@ =~= old(out)@ + indent_newlines(v@.take(i as int), tabs(n as nat)));
        }
    }
    proof {
        assert(v@.take(v@.len() as int) =~= v@);
    }
}

fn push_key(out: &mut Vec<char>, n: usize, k: &Vec<char>)
    requires
        n < usize::MAX,
    ensures
        final(out)@ == old(out)@ + render_key(n as nat, k@),
{
    push_tabs(out, n + 1);
    out.push('\n');
    out.push('\t');
    out.push('"');
    push_all(out, k);
    out.push('"');
    proof {
        assert(out@ =~= old(out)@ + render_key(n as nat, k@));
    }
}

/// Writes `v` as the value of a key, indenting block lines by `n` tabs.
fn push_value(out: &mut Vec<char>, v: &Vec<char>, n: usize)
    ensures
        final(out)@ == old(out)@ + render_value(v@, tabs(n as nat)),
{
    let p = skip_ws(v, 0);
    proof {
        assert(v@.skip(0) =~= v@);
    }
    if p < v.len() && v[p] == '{' {
        out.push('\n');
        push_tabs(out, n);
        push_indented(out, v, n);
    } else {
        out.push('\t');
        out.push('\t');
        out.push('"');
        push_all(out, v);
        out.push('"');
    }
    proof {
        assert(out@ =~= old(out)@ + render_value(v@, tabs(n as nat)));
    }
}

/// Writes the block at indentation `n` whose entries are `groups`.
fn render(groups: &Vec<KeyGroup>, n: usize) -> (r: Vec<char>)
    requires
        n < usize::MAX,
        forall|i: int| 0 <= i < groups@.len() ==> (#[trigger] groups@[i]).values@.len() > 0,
    ensures
        r@ == spec_render(groups_view(groups@), n as nat),
{
    let ghost gs = groups_view(groups@);
    let mut out: Vec<char> = Vec::new();
    push_tabs(&mut out, n);
    out.push('{');
    let mut i: usize = 0;
    while i < groups.len()
        invariant
            i <= groups@.len(),
            n < usize::MAX,
            gs == groups_view(groups@),
            forall|i: int| 0 <= i < groups@.len() ==> (#[trigger] groups@[i]).values@.len() > 0,
            out@ == tabs(n as nat) + seq!['{'] + render_groups(n as nat, gs.take(i as int)),
        decreases groups@.len() - i,
    {
        let g = &groups[i];
        let ghost before = out@;
        let ghost gi = gs[i as int];
        proof {
            assert(gi == group_view(groups@[i as int]));
            assert(gi.1.len() == g.values@.len());
        }
        if g.values.len() > 1 {
            let mut j: usize = 0;
            while j < g.values.len()
                invariant
                    j <= g.values@.len(),
                    n < usize::MAX,
                    i < groups@.len(),
                    gs == groups_view(groups@),
                    gi == gs[i as int],
                    *g == groups@[i as int],
                    gi == group_view(*g),
                    out@ == before + render_values(n as nat, gi.0, gi.1.take(j as int)),
                decreases g.values@.len() - j,
            {
                proof {
                    assert(gi.1.take(j + 1).drop_last() =~= gi.1.take(j as int));
                    assert(gi.1[j as int] == g.values@[j as int]@);
                }
                push_key(&mut out, n, &g.key);
                push_value(&mut out, &g.values[j], n + 1);
                j = j + 1;
                proof {
                    assert(out@ =~= before + render_values(n as nat, gi.0, gi.1.take(j as int)));
                }
            }
            proof {
                assert(gi.1.take(j as int) =~= gi.1);
            }
        } else {
            proof {
                assert(gi.1[0] == g.values@[0]@);
            }
            push_key(&mut out, n, &g.key);
            push_value(&mut out, &g.values[0], n);
        }
        proof {
            assert(gs.take(i + 1).drop_last() =~= gs.take(i as int));
            assert(gs.take(i + 1).last() == gi);
            assert(out@ =~= tabs(n as nat) + seq!['{'] + render_groups(n as nat, gs.take(i + 1)));
        }
        i = i + 1;
    }
    out.push('\n');
    out.push('}');
    proof {
        assert(gs.take(i as int) =~= gs);
        assert(out@ =~= tabs(n as nat) + seq!['{'] + render_groups(n as nat, gs) + seq!['\n', '}']);
    }
    out
}

pub proof fn lemma_token_end_bounds(s: Seq<char>)
    requires
        first_real(s) is Some,
    ensures
        token_end(s) matches Some(k) ==> 1 <= k <= s.len(),
{
    lemma_char_len_bounds(s[leading_ws(s) as int]);
    if let Some(k) = token_end(s) {
        assert(s.take(0) =~= Seq::<char>::empty());
        assert(byte_len(s.take(k as int)) == peek_offset(s) + char_len(s[leading_ws(s) as int]));
    }
}

pub proof fn lemma_parse_string_bounds(s: Seq<char>)
    ensures
        spec_parse_string(s) matches Some(Ok((t, n))) ==> 1 <= n <= s.len() && t.len() < n,
{
    if let Some(c) = first_real(s) {
        lemma_token_end_bounds(s);
        if let Some(k) = token_end(s) {
            lemma_index_of_props(s.skip(k as int), '"');
        }
    }
}

proof fn lemma_block_close_bounds(t: Seq<char>, d: int)
    ensures
        block_close(t, d) matches Some(Ok(n)) ==> 1 <= n <= t.len(),
    decreases t.len(),
{
    if t.len() > 0 {
        let d2 = if t[0] == '{' {
            d + 1
        } else if t[0] == '}' {
            d - 1
        } else {
            d
        };
        lemma_block_close_bounds(t.drop_first(), d2);
    }
}

pub proof fn lemma_parse_block_bounds(s: Seq<char>)
    ensures
        spec_parse_block(s) matches Some(Ok((leaf, n))) ==> 1 <= n <= s.len() && leaf.len()
            <= s.len(),
{
    if let Some(c) = first_real(s) {
        lemma_token_end_bounds(s);
        if let Some(k) = token_end(s) {
            lemma_block_close_bounds(s.skip(k as int), 1);
        }
    }
}

/// The entries read before a result of reading the rest of a block, `k`
/// characters further on.
pub open spec fn prepend_entries(
    es: Seq<(Seq<char>, Seq<char>)>,
    k: nat,
    r: Option<Result<(Seq<(Seq<char>, Seq<char>)>, nat)>>,
) -> Option<Result<(Seq<(Seq<char>, Seq<char>)>, nat)>> {
    match r {
        Some(Ok((es2, m))) => Some(Ok((es + es2, k + m))),
        Some(Err(e)) => Some(Err(e)),
        None => None,
    }
}

/// Reads the entries of a block from `s` up to its closing `}`, at indentation
/// `n`, where `key` is a key that was read and waits for its value: the entries
/// (key and value, a nested block's value being its processed text) and the
/// index in `s` just after the `}`.
pub open spec fn spec_scan(s: Seq<char>, key: Option<Seq<char>>, n: nat) -> Option<
    Result<(Seq<(Seq<char>, Seq<char>)>, nat)>,
>
    decreases s.len(), 2nat,
{
    match first_real(s) {
        None => Some(Err(Error::Eof)),
        Some(c) => if c == '"' {
            match spec_parse_string(s) {
                None => None,
                Some(Err(e)) => Some(Err(e)),
                Some(Ok((text, k))) => {
                    proof {
                        lemma_parse_string_bounds(s);
                    }
                    match key {
                        None => prepend_entries(seq![], k, spec_scan(s.skip(k as int), Some(text), n)),
                        Some(kk) => prepend_entries(
                            seq![(kk, text)],
                            k,
                            spec_scan(s.skip(k as int), None, n),
                        ),
                    }
                },
            }
        } else if c == '{' {
            match key {
                None => Some(Err(Error::ExpectedMap)),
                Some(kk) => match spec_parse_block(s) {
                    None => None,
                    Some(Err(e)) => Some(Err(e)),
                    Some(Ok((leaf, k))) => {
                        proof {
                            lemma_parse_block_bounds(s);
                        }
                        match spec_process(leaf, n + 1) {
                            None => None,
                            Some(Err(e)) => Some(Err(e)),
                            Some(Ok(out)) => prepend_entries(
                                seq![(kk, out)],
                                k,
                                spec_scan(s.skip(k as int), None, n),
                            ),
                        }
                    },
                },
            }
        } else if c == '}' {
            match token_end(s) {
                None => None,
                Some(k) => Some(Ok((seq![], k))),
            }
        } else {
            Some(Err(Error::ExpectedStringOrBlock))
        },
    }
}

/// Processes the block `c` at indentation `n`: its entries grouped by key and
/// written again (`spec_render`); nothing but whitespace may follow the block.
/// The outer `None` means that processing panics.
pub open spec fn spec_process(c: Seq<char>, n: nat) -> Option<Result<Seq<char>>>
    decreases c.len(), 1nat,
{
    match first_real(c) {
        None => Some(Err(Error::Eof)),
        Some(ch) => if ch != '{' {
            Some(Err(Error::ExpectedMap))
        } else {
            match token_end(c) {
                None => None,
                Some(k) => {
                    proof {
                        lemma_token_end_bounds(c);
                    }
                    match spec_scan(c.skip(k as int), None, n) {
                        None => None,
                        Some(Err(e)) => Some(Err(e)),
                        Some(Ok((es, m))) => if trim(c.skip(k as int).skip(m as int)).len() > 0 {
                            Some(Err(Error::TrailingCharacters))
                        } else {
                            Some(Ok(spec_render(group_entries(es), n)))
                        },
                    }
                },
            }
        },
    }
}

pub proof fn lemma_prepend_assoc(
    es1: Seq<(Seq<char>, Seq<char>)>,
    es2: Seq<(Seq<char>, Seq<char>)>,
    a: nat,
    k: nat,
    r: Option<Result<(Seq<(Seq<char>, Seq<char>)>, nat)>>,
)
    ensures
        prepend_entries(es1, a, prepend_entries(es2, k, r)) == prepend_entries(es1 + es2, a + k, r),
{
    if let Some(Ok((es3, m))) = r {
        assert(es1 + (es2 + es3) =~= (es1 + es2) + es3);
    }
}

pub open spec fn opt_view(k: Option<Vec<char>>) -> Option<Seq<char>> {
    match k {
        Some(v) => Some(v@),
        None => None,
    }
}

/// A block of VDF text, from its `{`, and the indentation at which it is
/// written again.
struct ProcessingBlock {
    content: Vec<char>,
    block_indent: usize,
}

impl ProcessingBlock {
    fn new(content: Vec<char>, block_indent: usize) -> (b: Self)
        ensures
            b.content == content,
            b.block_indent == block_indent,
    {
        ProcessingBlock { content, block_indent }
    }

    /// The block with its entries grouped by key (see `spec_process`).
    #[verifier::rlimit(60)]
    fn process(&self) -> (r: Option<Result<Vec<char>>>)
        requires
            self.block_indent + self.content@.len() <= usize::MAX,
        ensures
            match r {
                Some(Ok(o)) => spec_process(self.content@, self.block_indent as nat) == Some(
                    Ok::<Seq<char>, Error>(o@),
                ),
                Some(Err(e)) => spec_process(self.content@, self.block_indent as nat) == Some(
                    Err::<Seq<char>, Error>(e),
                ),
                None => spec_process(self.content@, self.block_indent as nat) is None,
            },
        decreases self.content@.len(),
    {
        let c = &self.content;
        let n = self.block_indent;
        let len = c.len();
        proof {
            assert(c@.skip(0) =~= c@);
        }
        let p = skip_ws(c, 0);
        if p == len {
            return Some(Err(Error::Eof));
        }
        if c[p] != '{' {
            return Some(Err(Error::ExpectedMap));
        }
        let k0 = match token_end_at(c, 0) {
            Some(k) => k,
            None => {
                return None;
            },
        };
        let ghost whole = spec_scan(c@.skip(k0 as int), None, n as nat);
        proof {
            assert(c@.skip(k0 as int) =~= c@.skip(0).skip(k0 as int));
        }
        let mut pos = k0;
        let mut key: Option<Vec<char>> = None;
        let mut groups: Vec<KeyGroup> = Vec::new();
        let ghost mut entries: Seq<(Seq<char>, Seq<char>)> = seq![];
        let mut end: usize = k0;
        proof {
            assert(seq![] + entries =~= entries);
            assert(prepend_entries(seq![], 0, whole) == whole);
        }
        loop
            invariant
                0 < k0 <= pos <= c@.len(),
                len == c@.len(),
                *c == self.content,
                n == self.block_indent,
                n + c@.len() <= usize::MAX,
                whole == spec_scan(c@.skip(k0 as int), None, n as nat),
                spec_process(c@, n as nat) == match whole {
                    None => None,
                    Some(Err(e)) => Some(Err(e)),
                    Some(Ok((es, m))) => if trim(c@.skip(k0 as int).skip(m as int)).len() > 0 {
                        Some(Err(Error::TrailingCharacters))
                    } else {
                        Some(Ok(spec_render(group_entries(es), n as nat)))
                    },
                },
                whole == prepend_entries(
                    entries,
                    (pos - k0) as nat,
                    spec_scan(c@.skip(pos as int), opt_view(key), n as nat),
                ),
                groups_view(groups@) == group_entries(entries),
                forall|i: int| 0 <= i < groups@.len() ==> (#[trigger] groups@[i]).values@.len() > 0,
            ensures
                k0 <= end <= c@.len(),
                *c == self.content,
                spec_process(c@, n as nat) == match whole {
                    None => None,
                    Some(Err(e)) => Some(Err(e)),
                    Some(Ok((es, m))) => if trim(c@.skip(k0 as int).skip(m as int)).len() > 0 {
                        Some(Err(Error::TrailingCharacters))
                    } else {
                        Some(Ok(spec_render(group_entries(es), n as nat)))
                    },
                },
                whole == Some(Ok::<(Seq<(Seq<char>, Seq<char>)>, nat), Error>((entries, (end - k0) as nat))),
                groups_view(groups@) == group_entries(entries),
                forall|i: int| 0 <= i < groups@.len() ==> (#[trigger] groups@[i]).values@.len() > 0,
            decreases c@.len() - pos,
        {
            let ghost s = c@.skip(pos as int);
            let q = skip_ws(c, pos);
            proof {
                assert(s.len() == len - pos);
            }
            if q == len {
                assert(first_real(s) is None);
                assert(spec_scan(s, opt_view(key), n as nat) == Some(Err::<(Seq<(Seq<char>, Seq<char>)>, nat), Error>(Error::Eof)));
                return Some(Err(Error::Eof));
            }
            proof {
                assert(s[q - pos] == c@[q as int]);
            }
            let ch = c[q];
            if ch == '"' {
                let (text, e) = match parse_string_at(c, pos) {
                    Some(Ok(x)) => x,
                    Some(Err(err)) => {
                        return Some(Err(err));
                    },
                    None => {
                        return None;
                    },
                };
                proof {
                    lemma_parse_string_bounds(s);
                    assert(s.skip(e - pos) =~= c@.skip(e as int));
                }
                match key {
                    None => {
                        proof {
                            lemma_prepend_assoc(
                                entries,
                                seq![],
                                (pos - k0) as nat,
                                (e - pos) as nat,
                                spec_scan(c@.skip(e as int), Some(text@), n as nat),
                            );
                            assert(entries + seq![] =~= entries);
                        }
                        key = Some(text);
                    },
                    Some(kk) => {
                        proof {
                            lemma_prepend_assoc(
                                entries,
                                seq![(kk@, text@)],
                                (pos - k0) as nat,
                                (e - pos) as nat,
                                spec_scan(c@.skip(e as int), None, n as nat),
                            );
                            assert(entries + seq![(kk@, text@)] =~= entries.push((kk@, text@)));
                            assert(entries.push((kk@, text@)).drop_last() =~= entries);
                            entries = entries.push((kk@, text@));
                        }
                        add_to_groups(&mut groups, kk, text);
                        key = None;
                    },
                }
                pos = e;
            } else if ch == '{' {
                match key {
                    None => {
                        return Some(Err(Error::ExpectedMap));
                    },
                    Some(kk) => {
                        let (leaf, e) = match parse_block(c, pos) {
                            Some(Ok(x)) => x,
                            Some(Err(err)) => {
                                return Some(Err(err));
                            },
                            None => {
                                return None;
                            },
                        };
                        proof {
                            lemma_parse_block_bounds(s);
                            assert(s.skip(e - pos) =~= c@.skip(e as int));
                        }
                        let block = ProcessingBlock::new(leaf, n + 1);
                        let out = match block.process() {
                            Some(Ok(o)) => o,
                            Some(Err(err)) => {
                                return Some(Err(err));
                            },
                            None => {
                                return None;
                            },
                        };
                        proof {
                            lemma_prepend_assoc(
                                entries,
                                seq![(kk@, out@)],
                                (pos - k0) as nat,
                                (e - pos) as nat,
                                spec_scan(c@.skip(e as int), None, n as nat),
                            );
                            assert(entries + seq![(kk@, out@)] =~= entries.push((kk@, out@)));
                            assert(entries.push((kk@, out@)).drop_last() =~= entries);
                            entries = entries.push((kk@, out@));
                        }
                        add_to_groups(&mut groups, kk, out);
                        key = None;
                        pos = e;
                    },
                }
            } else if ch == '}' {
                match token_end_at(c, pos) {
                    Some(e) => {
                        proof {
                            assert(entries + seq![] =~= entries);
                        }
                        end = e;
                        break ;
                    },
                    None => {
                        return None;
                    },
                }
            } else {
                return Some(Err(Error::ExpectedStringOrBlock));
            }
        }
        let q = skip_ws(c, end);
        proof {
            assert(c@.skip(k0 as int).skip(end - k0) =~= c@.skip(end as int));
            lemma_trim_empty(c@.skip(end as int));
        }
        if q < len {
            return Some(Err(Error::TrailingCharacters));
        }
        Some(Ok(render(&groups, n)))
    }
}

/// What `peek_real_char(s, pointer)` gives: the first character of `s` if it
/// is not whitespace, reported at offset `pointer`; otherwise the first
/// character that is not whitespace in the text that follows byte offset
/// `pointer` plus the first character's length, reported at `pointer` plus the
/// bytes up to and including it. The outer `None` means that the search panics.
pub open spec fn spec_peek_real_char(s: Seq<char>, pointer: int) -> Option<Result<(int, char)>> {
    if s.len() == 0 {
        Some(Err(Error::Eof))
    } else {
        match boundary(s, pointer + char_len(s[0])) {
            None => None,
            Some(k) => if !is_ws(s[0]) {
                Some(Ok((pointer, s[0])))
            } else {
                let t = s.skip(k as int);
                let m = leading_ws(t) as int;
                if m == t.len() {
                    Some(Err(Error::Eof))
                } else {
                    Some(Ok((pointer + byte_len(t.take(m + 1)), t[m])))
                }
            },
        }
    }
}

/// Looks for the first character of `input` that is not whitespace (see
/// `spec_peek_real_char`).
pub fn peek_real_char(input: &str, pointer: usize) -> (r: Result<TokenCharacter>)
    requires
        byte_len(input@) <= usize::MAX,
        spec_peek_real_char(input@, pointer as int) is Some,
    ensures
        match spec_peek_real_char(input@, pointer as int) {
            Some(Ok((index, c))) => r matches Ok(tok) && tok.index == index && tok.char == c,
            Some(Err(e)) => r matches Err(e2) && e2 == e,
            None => false,
        },
{
    let v = str_to_chars(input);
    if v.len() == 0 {
        return Err(Error::Eof);
    }
    let first = v[0];
    let target = pointer as u128 + utf8_len(first);
    proof {
        assert(v@.skip(0) =~= v@);
    }
    let k = match boundary_index(&v, 0, target) {
        Some(k) => k,
        None => {
            return Err(Error::Eof);
        },
    };
    if !is_whitespace(first) {
        return Ok(TokenCharacter { index: pointer, char: first });
    }
    let q = skip_ws(&v, k);
    if q == v.len() {
        return Err(Error::Eof);
    }
    let ghost t = v@.skip(k as int);
    let bytes = bytes_between(&v, k, q + 1);
    proof {
        assert(t.take(q - k + 1) =~= v@.subrange(k as int, q + 1));
        assert(t[q - k] == v@[q as int]);
        let c = choose|c: nat| c <= v@.len() && byte_len(v@.take(c as int)) == target;
        assert(c == k);
        lemma_byte_len_split(v@, k as int, q + 1);
        lemma_byte_len_take_succ(v@, 0);
        assert(v@.take(0) =~= Seq::<char>::empty());
        if k == 0 {
            lemma_char_len_bounds(first);
        }
        lemma_byte_len_split(v@, 1, k as int);
    }
    Ok(TokenCharacter { index: (pointer as u128 + bytes) as usize, char: v[q] })
}

/// Whether the first character of `input` that is not whitespace (see
/// `peek_real_char`) is `expect`.
pub fn peek_expect_char(input: &str, pointer: usize, expect: char) -> (r: Result<bool>)
    requires
        byte_len(input@) <= usize::MAX,
        spec_peek_real_char(input@, pointer as int) is Some,
    ensures
        match spec_peek_real_char(input@, pointer as int) {
            Some(Ok((index, c))) => r == Ok::<bool, Error>(c == expect),
            Some(Err(e)) => r matches Err(e2) && e2 == e,
            None => false,
        },
{
    let tok = peek_real_char(input, pointer)?;
    if tok.char != expect {
        return Ok(false);
    }
    Ok(true)
}

/// Reads a quoted string at the start of `input` (after whitespace): its text
/// up to the next `"`, and the input after that quote (see `spec_parse_string`).
pub fn parse_string(input: &str) -> (r: Result<(String, &str)>)
    requires
        spec_parse_string(input@) is Some,
    ensures
        match spec_parse_string(input@) {
            Some(Ok((text, n))) => r matches Ok((o, rest)) && o@ == text && rest@ == input@.skip(
                n as int,
            ),
            Some(Err(e)) => r matches Err(e2) && e2 == e,
            None => false,
        },
{
    let v = str_to_chars(input);
    proof {
        assert(v@.skip(0) =~= v@);
    }
    let (text, e) = match parse_string_at(&v, 0) {
        Some(Ok(x)) => x,
        Some(Err(err)) => {
            return Err(err);
        },
        None => {
            return Err(Error::Eof);
        },
    };
    let rest = input.substring_char(e, v.len());
    proof {
        assert(input@.subrange(e as int, v@.len() as int) =~= input@.skip(e as int));
    }
    Ok((chars_to_string(&text, 0), rest))
}

/// What `preprocess` gives after the header: the processed block, after
/// `prefix`, where the text starts with `{`; the quoted string where it starts
/// with `"` and there was no header.
pub open spec fn spec_preprocess_body(input: Seq<char>, has_header: bool, prefix: Seq<char>) -> Option<
    Result<Seq<char>>,
> {
    match first_real(input) {
        None => Some(Err(Error::Eof)),
        Some(c) => if c == '{' {
            match spec_process(input, 0) {
                None => None,
                Some(Err(e)) => Some(Err(e)),
                Some(Ok(out)) => Some(Ok(prefix + out)),
            }
        } else if c == '"' {
            if has_header {
                Some(Err(Error::ExpectedMap))
            } else {
                match spec_parse_string(input) {
                    None => None,
                    Some(Err(e)) => Some(Err(e)),
                    Some(Ok((text, k))) => Some(Ok(text)),
                }
            }
        } else {
            Some(Err(Error::ExpectedStringOrBlock))
        },
    }
}

/// What `preprocess` gives: with a header (a quoted string before the block),
/// the header is read first and, where `keep_header`, written again as
/// `"header"` and a line break before the processed block. The outer `None`
/// means that pre-processing panics.
pub open spec fn spec_preprocess(input: Seq<char>, has_header: bool, keep_header: bool) -> Option<
    Result<Seq<char>>,
> {
    if has_header {
        match spec_parse_string(input) {
            None => None,
            Some(Err(e)) => Some(Err(e)),
            Some(Ok((h, k))) => spec_preprocess_body(
                input.skip(k as int),
                true,
                if keep_header {
                    seq!['"'] + h + seq!['"', '\n']
                } else {
                    seq![]
                },
            ),
        }
    } else {
        spec_preprocess_body(input, false, seq![])
    }
}

pub(crate) fn preprocess_chars(v: &Vec<char>, has_header: bool, keep_header: bool) -> (r: Option<Result<Vec<char>>>)
    ensures
        match r {
            Some(Ok(o)) => spec_preprocess(v@, has_header, keep_header) == Some(
                Ok::<Seq<char>, Error>(o@),
            ),
            Some(Err(e)) => spec_preprocess(v@, has_header, keep_header) == Some(
                Err::<Seq<char>, Error>(e),
            ),
            None => spec_preprocess(v@, has_header, keep_header) is None,
        },
{
    let mut start: usize = 0;
    let mut output: Vec<char> = Vec::new();
    proof {
        assert(v@.skip(0) =~= v@);
    }
    if has_header {
        let (header, e) = match parse_string_at(v, 0) {
            Some(Ok(x)) => x,
            Some(Err(err)) => {
                return Some(Err(err));
            },
            None => {
                return None;
            },
        };
        start = e;
        if keep_header {
            output.push('"');
            push_all(&mut output, &header);
            output.push('"');
            output.push('\n');
        }
        proof {
            assert(output@ =~= if keep_header {
                seq!['"'] + header@ + seq!['"', '\n']
            } else {
                seq![]
            });
        }
    }
    let ghost input = v@.skip(start as int);
    let q = skip_ws(v, start);
    if q == v.len() {
        return Some(Err(Error::Eof));
    }
    proof {
        assert(input[q - start] == v@[q as int]);
    }
    if v[q] == '{' {
        let mut content: Vec<char> = Vec::new();
        let mut i = start;
        while i < v.len()
            invariant
                start <= i <= v@.len(),
                content@ == v@.subrange(start as int, i as int),
            decreases v@.len() - i,
        {
            content.push(v[i]);
            i = i + 1;
            proof {
                assert(content@ =~= v@.subrange(start as int, i as int));
            }
        }
        proof {
            assert(content@ =~= input);
        }
        let block = ProcessingBlock::new(content, 0);
        let out = match block.process() {
            Some(Ok(o)) => o,
            Some(Err(err)) => {
                return Some(Err(err));
            },
            None => {
                return None;
            },
        };
        push_all(&mut output, &out);
        Some(Ok(output))
    } else if v[q] == '"' {
        if has_header {
            return Some(Err(Error::ExpectedMap));
        }
        match parse_string_at(v, start) {
            Some(Ok((text, _))) => Some(Ok(text)),
            Some(Err(err)) => Some(Err(err)),
            None => None,
        }
    } else {
        Some(Err(Error::ExpectedStringOrBlock))
    }
}

/// Pre-processes a VDF document (see `spec_preprocess`): each block is written
/// again with its entries grouped by key, the keys in ascending order, and the
/// values of a key in the order in which they came.
pub fn preprocess(vdf_contents: &str, has_header: bool, keep_header: bool) -> (r: Result<String>)
    requires
        spec_preprocess(vdf_contents@, has_header, keep_header) is Some,
    ensures
        match r {
            Ok(o) => spec_preprocess(vdf_contents@, has_header, keep_header) == Some(
                Ok::<Seq<char>, Error>(o@),
            ),
            Err(e) => spec_preprocess(vdf_contents@, has_header, keep_header) == Some(
                Err::<Seq<char>, Error>(e),
            ),
        },
{
    let v = str_to_chars(vdf_contents);
    let out = match preprocess_chars(&v, has_header, keep_header) {
        Some(Ok(o)) => o,
        Some(Err(err)) => {
            return Err(err);
        },
        None => {
            return Err(Error::Eof);
        },
    };
    let s = chars_to_string(&out, 0);
    proof {
        assert(out@.skip(0) =~= out@);
    }
    Ok(s)
}

/// The entries of the block `c` at indentation `n`, where reading it (up to
/// its closing brace, with nothing but whitespace after it) succeeds.
pub open spec fn block_entries(c: Seq<char>, n: nat) -> Option<Seq<(Seq<char>, Seq<char>)>> {
    if first_real(c) == Some('{') {
        match token_end(c) {
            Some(k) => match spec_scan(c.skip(k as int), None, n) {
                Some(Ok((es, m))) => if trim(c.skip(k as int).skip(m as int)).len() == 0 {
                    Some(es)
                } else {
                    None
                },
                _ => None,
            },
            None => None,
        }
    } else {
        None
    }
}

/// Processing a block writes each of its keys once, in ascending order, with
/// all the values given for it in the order in which they came.
pub proof fn law_process_groups_keys(c: Seq<char>, n: nat, es: Seq<(Seq<char>, Seq<char>)>)
    requires
        block_entries(c, n) == Some(es),
    ensures
        spec_process(c, n) == Some(Ok::<Seq<char>, Error>(spec_render(group_entries(es), n))),
        keys_ascending(group_entries(es)),
        groups_nonempty(group_entries(es)),
        forall|k: Seq<char>| #[trigger] group_of(group_entries(es), k) == values_of(es, k),
{
    lemma_group_entries(es);
}

/// Two blocks whose entries give each key the same values, in the same
/// order, are processed to the same text, whatever the order of the entries.
pub proof fn law_process_order_insensitive(
    c1: Seq<char>,
    c2: Seq<char>,
    n: nat,
    es1: Seq<(Seq<char>, Seq<char>)>,
    es2: Seq<(Seq<char>, Seq<char>)>,
)
    requires
        block_entries(c1, n) == Some(es1),
        block_entries(c2, n) == Some(es2),
        forall|k: Seq<char>| #[trigger] values_of(es1, k) == values_of(es2, k),
    ensures
        spec_process(c1, n) == spec_process(c2, n),
{
    law_grouping_order_insensitive(es1, es2);
}

/// A pre-processing result with the quoted header `h` on a line of its own
/// before the text.
pub open spec fn with_header(h: Seq<char>, r: Option<Result<Seq<char>>>) -> Option<Result<Seq<char>>> {
    match r {
        Some(Ok(o)) => Some(Ok(seq!['"'] + h + seq!['"', '\n'] + o)),
        other => other,
    }
}

/// A document that starts with a block is pre-processed to that block processed
/// at indentation 0, whether or not a header would be kept.
pub proof fn law_preprocess_block(s: Seq<char>)
    requires
        first_real(s) == Some('{'),
    ensures
        spec_preprocess(s, false, true) == spec_process(s, 0),
        spec_preprocess(s, false, false) == spec_process(s, 0),
{
    if let Some(Ok(out)) = spec_process(s, 0) {
        assert(seq![] + out =~= out);
    }
}

/// A document made of a quoted header and a block is pre-processed as the block
/// alone; where the header is kept, it comes first, on a line of its own.
pub proof fn law_preprocess_header_then_block(h: Seq<char>, rest: Seq<char>)
    requires
        !h.contains('"'),
        first_real(rest) == Some('{'),
    ensures
        spec_preprocess(seq!['"'] + h + seq!['"'] + rest, true, false) == spec_preprocess(
            rest,
            false,
            false,
        ),
        spec_preprocess(seq!['"'] + h + seq!['"'] + rest, true, true) == with_header(
            h,
            spec_preprocess(rest, false, false),
        ),
{
    let s = seq!['"'] + h + seq!['"'] + rest;
    assert(s[0] == '"');
    lemma_leading_ws(s, 0);
    assert(peek_offset(s) == 0);
    lemma_byte_len_take_succ(s, 0);
    assert(s.take(0) =~= Seq::<char>::empty());
    lemma_boundary_at(s, 1);
    assert(token_end(s) == Some(1nat));
    let t = s.skip(1);
    assert forall|j: int| 0 <= j < h.len() implies #[trigger] t[j] != '"' by {
        assert(t[j] == h[j]);
        if h[j] == '"' {
            assert(h.contains('"'));
        }
    }
    assert(t[h.len() as int] == '"');
    lemma_index_of(t, '"', h.len() as int);
    assert(t.take(h.len() as int) =~= h);
    assert(s.skip(h.len() + 2int) =~= rest);
    assert(spec_parse_string(s) == Some(Ok::<(Seq<char>, nat), Error>((h, h.len() + 2))));
    law_preprocess_block(rest);
    if let Some(Ok(out)) = spec_process(rest, 0) {
        assert(seq![] + out =~= out);
    }
}

/// `c` is one of the ASCII characters that `char::is_whitespace` accepts: tab,
/// line feed, vertical tab, form feed, carriage return and space.
pub open spec fn ascii_whitespace(c: char) -> bool {
    c == '\t' || c == '\n' || c == '\x0B' || c == '\x0C' || c == '\r' || c == ' '
}

/// ASCII whitespace before a document, such as line breaks written `\r\n`,
/// changes nothing: the first character that is not whitespace is the same,
/// and the document is pre-processed to the same result.
pub proof fn law_leading_whitespace(ws: Seq<char>, s: Seq<char>, keep_header: bool)
    requires
        forall|i: int| 0 <= i < ws.len() ==> ascii_whitespace(#[trigger] ws[i]),
        s.len() > 0 ==> !is_ws(s[0]),
    ensures
        first_real(ws + s) == first_real(s),
        spec_preprocess(ws + s, false, keep_header) == spec_preprocess(s, false, keep_header),
{
    let x = ws + s;
    let w = ws.len() as int;
    assert forall|j: int| 0 <= j < w implies is_ws(#[trigger] x[j]) && char_len(x[j]) == 1 by {
        assert(x[j] == ws[j]);
        assert(ascii_whitespace(ws[j]));
    }
    lemma_leading_ws(x, w);
    lemma_leading_ws(s, 0);
    if s.len() > 0 {
        assert(x[w] == s[0]);
        let c = s[0];
        if c == '{' || c == '"' {
            lemma_token_end_at(x, w);
            assert forall|j: int| 0 <= j < 0 implies is_ws(#[trigger] s[j]) && char_len(s[j]) == 1 by {
            }
            lemma_token_end_at(s, 0);
            assert(x.skip(w + 1) =~= s.skip(1));
            if c == '{' {
                assert(spec_process(x, 0) == spec_process(s, 0));
            }
        }
    }
    if let Some(Ok(out)) = spec_process(s, 0) {
        assert(Seq::<char>::empty() + out =~= out);
    }
}

} // verus!
