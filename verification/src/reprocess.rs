//! Processing a block that was already processed gives it back unchanged: the
//! processed text is read back as the same entries, grouped the same way.
use vstd::prelude::*;

use crate::error::{Error, Result};
use crate::grouping::{
    add_entry, group_entries, group_of, groups_nonempty, keys_ascending, lemma_group_entries,
    lemma_groups_unique, lemma_lex_irreflexive, values_of, Group,
};
use crate::preprocessor::{
    block_close, indent_newlines, spec_parse_block, lemma_prepend_assoc, prepend_entries, render_group,
    render_groups, render_key, render_value, render_values, spec_parse_string, spec_process,
    spec_render, spec_scan, token_end, lemma_token_end_bounds, lemma_parse_string_bounds,
    lemma_parse_block_bounds,
};
use crate::text::{
    byte_len, char_len, first_real, index_of, is_ws, leading_ws, lemma_boundary_at, lemma_index_of,
    lemma_leading_ws, lemma_leading_ws_props, lemma_trim_empty, tabs,
};

verus! {

/// A character that may stand in a string that is written back as it was read:
/// no quote, brace or line break.
pub open spec fn plain_char(c: char) -> bool {
    c != '"' && c != '{' && c != '}' && c != '\n'
}

/// Every character of `s` is plain.
pub open spec fn plain(s: Seq<char>) -> bool {
    forall|i: int| 0 <= i < s.len() ==> plain_char(#[trigger] s[i])
}

/// The entries of one group: its key with each of its values, in order.
pub open spec fn group_pairs(g: Group) -> Seq<(Seq<char>, Seq<char>)> {
    g.1.map_values(|v: Seq<char>| (g.0, v))
}

/// The entries of `gs`, group after group.
pub open spec fn flat_entries(gs: Seq<Group>) -> Seq<(Seq<char>, Seq<char>)>
    decreases gs.len(),
{
    if gs.len() == 0 {
        seq![]
    } else {
        flat_entries(gs.drop_last()) + group_pairs(gs.last())
    }
}

proof fn lemma_one_byte_len(x: Seq<char>)
    requires
        forall|j: int| 0 <= j < x.len() ==> char_len(#[trigger] x[j]) == 1,
    ensures
        byte_len(x) == x.len(),
    decreases x.len(),
{
    if x.len() > 0 {
        let y = x.drop_last();
        assert forall|j: int| 0 <= j < y.len() implies char_len(#[trigger] y[j]) == 1 by {
            assert(y[j] == x[j]);
        }
        lemma_one_byte_len(y);
    }
}

/// Where the first `m` characters of `s` are one-byte whitespace and the next
/// is a one-byte character that is not, the reader continues just after it.
pub proof fn lemma_token_end_at(s: Seq<char>, m: int)
    requires
        0 <= m < s.len(),
        forall|j: int| 0 <= j < m ==> is_ws(#[trigger] s[j]) && char_len(s[j]) == 1,
        !is_ws(s[m]),
        char_len(s[m]) == 1,
    ensures
        leading_ws(s) == m,
        first_real(s) == Some(s[m]),
        token_end(s) == Some((m + 1) as nat),
{
    lemma_leading_ws(s, m);
    if m > 0 {
        let x = s.subrange(1, m + 1);
        assert forall|j: int| 0 <= j < x.len() implies char_len(#[trigger] x[j]) == 1 by {
            assert(x[j] == s[j + 1]);
        }
        lemma_one_byte_len(x);
    }
    let y = s.take(m + 1);
    assert forall|j: int| 0 <= j < y.len() implies char_len(#[trigger] y[j]) == 1 by {
        assert(y[j] == s[j]);
    }
    lemma_one_byte_len(y);
    lemma_boundary_at(s, (m + 1) as nat);
}

/// `s` holds no quote: it can be read back as a quoted string.
pub open spec fn quoted(s: Seq<char>) -> bool {
    forall|i: int| 0 <= i < s.len() ==> #[trigger] s[i] != '"'
}

/// A string value of the outer block that is written back as it was read: it
/// holds no quote, and its first character that is not whitespace is not `{`.
pub open spec fn outer_value(v: Seq<char>) -> bool {
    quoted(v) && first_real(v) != Some('{')
}

proof fn lemma_plain_outer(v: Seq<char>)
    requires
        plain(v),
    ensures
        quoted(v),
        outer_value(v),
{
    assert forall|i: int| 0 <= i < v.len() implies #[trigger] v[i] != '"' by {
        assert(plain_char(v[i]));
    }
    if first_real(v) == Some('{') {
        lemma_leading_ws_props(v);
        assert(plain_char(v[leading_ws(v) as int]));
    }
}

/// A string `v` without quotes followed by a quote and then `y`: the quote is
/// the first one.
proof fn lemma_index_after_plain(v: Seq<char>, y: Seq<char>)
    requires
        quoted(v),
    ensures
        index_of(v + seq!['"'] + y, '"') == Some(v.len()),
{
    let t = v + seq!['"'] + y;
    assert forall|j: int| 0 <= j < v.len() implies #[trigger] t[j] != '"' by {
        assert(t[j] == v[j]);
    }
    assert(t[v.len() as int] == '"');
    lemma_index_of(t, '"', v.len() as int);
}

proof fn lemma_prepend_empty(r: Option<Result<(Seq<(Seq<char>, Seq<char>)>, nat)>>)
    ensures
        prepend_entries(seq![], 0, r) == r,
{
    if let Some(Ok((es, m))) = r {
        assert(Seq::<(Seq<char>, Seq<char>)>::empty() + es =~= es);
    }
}

proof fn lemma_values_of_concat(a: Seq<(Seq<char>, Seq<char>)>, b: Seq<(Seq<char>, Seq<char>)>, k: Seq<char>)
    ensures
        values_of(a + b, k) == values_of(a, k) + values_of(b, k),
    decreases b.len(),
{
    if b.len() == 0 {
        assert(a + b =~= a);
        assert(values_of(a, k) + values_of(b, k) =~= values_of(a, k));
    } else {
        lemma_values_of_concat(a, b.drop_last(), k);
        assert((a + b).drop_last() =~= a + b.drop_last());
        assert((a + b).last() == b.last());
        if b.last().0 == k {
            assert(values_of(a, k) + values_of(b.drop_last(), k).push(b.last().1) =~= (values_of(
                a,
                k,
            ) + values_of(b.drop_last(), k)).push(b.last().1));
        }
    }
}

proof fn lemma_values_of_pairs(g: Group, k: Seq<char>)
    ensures
        values_of(group_pairs(g), k) == if g.0 == k {
            g.1
        } else {
            Seq::<Seq<char>>::empty()
        },
    decreases g.1.len(),
{
    if g.1.len() == 0 {
        assert(group_pairs(g) =~= seq![]);
    } else {
        let h = (g.0, g.1.drop_last());
        lemma_values_of_pairs(h, k);
        assert(group_pairs(g).drop_last() =~= group_pairs(h));
        if g.0 == k {
            assert(g.1.drop_last().push(g.1.last()) =~= g.1);
        }
    }
}

proof fn lemma_absent(gs: Seq<Group>, k: Seq<char>)
    requires
        forall|i: int| 0 <= i < gs.len() ==> (#[trigger] gs[i]).0 != k,
    ensures
        group_of(gs, k) == Seq::<Seq<char>>::empty(),
    decreases gs.len(),
{
    if gs.len() > 0 {
        let t = gs.drop_first();
        assert forall|i: int| 0 <= i < t.len() implies (#[trigger] t[i]).0 != k by {
            assert(t[i] == gs[i + 1]);
        }
        lemma_absent(t, k);
    }
}

/// With ascending keys, the values of a key are those of the last group where
/// it is the last group's key, and otherwise those found before it.
proof fn lemma_group_of_last(gs: Seq<Group>, k: Seq<char>)
    requires
        keys_ascending(gs),
        gs.len() > 0,
    ensures
        group_of(gs, k) == if k == gs.last().0 {
            gs.last().1
        } else {
            group_of(gs.drop_last(), k)
        },
    decreases gs.len(),
{
    let last = gs.last();
    if gs.len() == 1 {
        assert(gs.drop_first().len() == 0);
        assert(gs.drop_last().len() == 0);
        assert(last == gs[0]);
        assert(group_of(gs.drop_first(), k) == Seq::<Seq<char>>::empty());
        assert(group_of(gs.drop_last(), k) == Seq::<Seq<char>>::empty());
    } else if gs[0].0 == k {
        assert(crate::grouping::lex_lt(gs[0].0, gs[gs.len() - 1].0));
        lemma_lex_irreflexive(k);
        assert(k != last.0);
        assert(gs.drop_last()[0] == gs[0]);
        assert(group_of(gs.drop_last(), k) == gs[0].1);
    } else {
        let t = gs.drop_first();
        assert forall|i: int, j: int| 0 <= i < j < t.len() implies crate::grouping::lex_lt(
            #[trigger] t[i].0,
            #[trigger] t[j].0,
        ) by {
            assert(t[i] == gs[i + 1] && t[j] == gs[j + 1]);
        }
        lemma_group_of_last(t, k);
        assert(t.last() == last);
        assert(group_of(gs, k) == group_of(t, k));
        assert(gs.drop_last()[0] == gs[0]);
        assert(gs.drop_last().drop_first() =~= t.drop_last());
        assert(group_of(gs.drop_last(), k) == group_of(gs.drop_last().drop_first(), k));
    }
}

proof fn lemma_values_of_flat(gs: Seq<Group>, k: Seq<char>)
    requires
        keys_ascending(gs),
    ensures
        values_of(flat_entries(gs), k) == group_of(gs, k),
    decreases gs.len(),
{
    if gs.len() == 0 {
    } else {
        let init = gs.drop_last();
        assert forall|i: int, j: int| 0 <= i < j < init.len() implies crate::grouping::lex_lt(
            #[trigger] init[i].0,
            #[trigger] init[j].0,
        ) by {
            assert(init[i] == gs[i] && init[j] == gs[j]);
        }
        lemma_values_of_flat(init, k);
        lemma_values_of_concat(flat_entries(init), group_pairs(gs.last()), k);
        lemma_values_of_pairs(gs.last(), k);
        lemma_group_of_last(gs, k);
        if k == gs.last().0 {
            lemma_absent_last(gs);
            assert(Seq::<Seq<char>>::empty() + gs.last().1 =~= gs.last().1);
        } else {
            assert(group_of(init, k) + Seq::<Seq<char>>::empty() =~= group_of(init, k));
        }
    }
}

proof fn lemma_absent_last(gs: Seq<Group>)
    requires
        keys_ascending(gs),
        gs.len() > 0,
    ensures
        group_of(gs.drop_last(), gs.last().0) == Seq::<Seq<char>>::empty(),
{
    let init = gs.drop_last();
    let k = gs.last().0;
    assert forall|i: int| 0 <= i < init.len() implies (#[trigger] init[i]).0 != k by {
        assert(init[i] == gs[i]);
        assert(crate::grouping::lex_lt(gs[i].0, gs[gs.len() - 1].0));
        lemma_lex_irreflexive(k);
    }
    lemma_absent(init, k);
}

/// Grouping the entries of groups with ascending keys gives those groups back.
proof fn lemma_regroup(gs: Seq<Group>)
    requires
        keys_ascending(gs),
        groups_nonempty(gs),
    ensures
        group_entries(flat_entries(gs)) == gs,
{
    let es = flat_entries(gs);
    lemma_group_entries(es);
    assert forall|k: Seq<char>| #[trigger] group_of(group_entries(es), k) == group_of(gs, k) by {
        lemma_values_of_flat(gs, k);
    }
    lemma_groups_unique(group_entries(es), gs);
}

/// Every key of `gs` satisfies `kp` and every value satisfies `vp`.
pub open spec fn groups_hold(
    gs: Seq<Group>,
    kp: spec_fn(Seq<char>) -> bool,
    vp: spec_fn(Seq<char>) -> bool,
) -> bool {
    &&& forall|i: int| 0 <= i < gs.len() ==> kp((#[trigger] gs[i]).0)
    &&& forall|i: int, j: int| 0 <= i < gs.len() && 0 <= j < gs[i].1.len() ==> vp(#[trigger] gs[i].1[j])
}

proof fn lemma_add_entry_hold(
    gs: Seq<Group>,
    key: Seq<char>,
    val: Seq<char>,
    kp: spec_fn(Seq<char>) -> bool,
    vp: spec_fn(Seq<char>) -> bool,
)
    requires
        groups_hold(gs, kp, vp),
        kp(key),
        vp(val),
    ensures
        groups_hold(add_entry(gs, key, val), kp, vp),
    decreases gs.len(),
{
    let r = add_entry(gs, key, val);
    if gs.len() == 0 {
        assert(r[0] == (key, seq![val]));
    } else if gs[0].0 == key {
        assert forall|i: int, j: int| 0 <= i < r.len() && 0 <= j < r[i].1.len() implies vp(#[trigger] r[i].1[j]) by {
            if i == 0 {
                if j < gs[0].1.len() {
                    assert(r[0].1[j] == gs[0].1[j]);
                }
            } else {
                assert(r[i] == gs[i]);
            }
        }
        assert forall|i: int| 0 <= i < r.len() implies kp((#[trigger] r[i]).0) by {
            if i > 0 {
                assert(r[i] == gs[i]);
            }
        }
    } else if crate::grouping::lex_lt(key, gs[0].0) {
        assert forall|i: int, j: int| 0 <= i < r.len() && 0 <= j < r[i].1.len() implies vp(#[trigger] r[i].1[j]) by {
            if i > 0 {
                assert(r[i] == gs[i - 1]);
            }
        }
        assert forall|i: int| 0 <= i < r.len() implies kp((#[trigger] r[i]).0) by {
            if i > 0 {
                assert(r[i] == gs[i - 1]);
            }
        }
    } else {
        let t = gs.drop_first();
        assert forall|i: int, j: int| 0 <= i < t.len() && 0 <= j < t[i].1.len() implies vp(#[trigger] t[i].1[j]) by {
            assert(t[i] == gs[i + 1]);
        }
        assert forall|i: int| 0 <= i < t.len() implies kp((#[trigger] t[i]).0) by {
            assert(t[i] == gs[i + 1]);
        }
        lemma_add_entry_hold(t, key, val, kp, vp);
        let rt = add_entry(t, key, val);
        assert forall|i: int, j: int| 0 <= i < r.len() && 0 <= j < r[i].1.len() implies vp(#[trigger] r[i].1[j]) by {
            if i > 0 {
                assert(r[i] == rt[i - 1]);
            }
        }
        assert forall|i: int| 0 <= i < r.len() implies kp((#[trigger] r[i]).0) by {
            if i > 0 {
                assert(r[i] == rt[i - 1]);
            }
        }
    }
}

/// Grouping entries whose keys satisfy `kp` and whose values satisfy `vp`
/// gives groups of which the same holds.
proof fn lemma_group_entries_hold(
    es: Seq<(Seq<char>, Seq<char>)>,
    kp: spec_fn(Seq<char>) -> bool,
    vp: spec_fn(Seq<char>) -> bool,
)
    requires
        forall|i: int| 0 <= i < es.len() ==> kp((#[trigger] es[i]).0) && vp(es[i].1),
    ensures
        groups_hold(group_entries(es), kp, vp),
    decreases es.len(),
{
    if es.len() > 0 {
        let init = es.drop_last();
        assert forall|i: int| 0 <= i < init.len() implies kp((#[trigger] init[i]).0) && vp(init[i].1) by {
            assert(init[i] == es[i]);
        }
        lemma_group_entries_hold(init, kp, vp);
        assert(kp(es[es.len() - 1].0) && vp(es[es.len() - 1].1));
        lemma_add_entry_hold(group_entries(init), es.last().0, es.last().1, kp, vp);
    }
}

/// The deepest nesting that the reader's brace counter (an `i32`) holds.
pub open spec fn max_depth() -> int {
    0x7fff_ffff
}

/// `v` is a block as processing writes it at indentation `n`, nested at most
/// `d` levels deep: `spec_render` of groups whose keys ascend, each with at
/// least one value, where every key is plain and every value is plain or such a
/// block at the next indentation.
pub open spec fn rendered_block(v: Seq<char>, n: nat, d: nat) -> bool
    decreases d, 2nat,
{
    exists|gs: Seq<Group>| #[trigger] spec_render(gs, n) == v && rendered_groups(gs, n, d)
}

/// The groups of a block as processing writes it (see `rendered_block`).
pub open spec fn rendered_groups(gs: Seq<Group>, n: nat, d: nat) -> bool
    decreases d, 1nat,
{
    &&& keys_ascending(gs)
    &&& groups_nonempty(gs)
    &&& forall|i: int| 0 <= i < gs.len() ==> plain((#[trigger] gs[i]).0)
    &&& forall|i: int, j: int|
        0 <= i < gs.len() && 0 <= j < gs[i].1.len() ==> good_value(#[trigger] gs[i].1[j], n, d)
}

/// A value of a block at indentation `n` as processing writes it: a plain
/// string, or a nested block (see `rendered_block`).
pub open spec fn good_value(v: Seq<char>, n: nat, d: nat) -> bool
    decreases d, 0nat,
{
    plain(v) || (d > 0 && rendered_block(v, n + 1, (d - 1) as nat))
}

/// What the brace counter gives after `k` more characters were read.
pub open spec fn shift(k: nat, r: Option<Result<nat>>) -> Option<Result<nat>> {
    match r {
        Some(Ok(m)) => Some(Ok(k + m)),
        other => other,
    }
}

/// `s` holds no line break.
pub open spec fn no_newline(s: Seq<char>) -> bool {
    forall|i: int| 0 <= i < s.len() ==> #[trigger] s[i] != '\n'
}

/// `s` holds no brace.
pub open spec fn no_brace(s: Seq<char>) -> bool {
    forall|i: int| 0 <= i < s.len() ==> #[trigger] s[i] != '{' && s[i] != '}'
}

proof fn lemma_indent_concat(a: Seq<char>, b: Seq<char>, t: Seq<char>)
    ensures
        indent_newlines(a + b, t) == indent_newlines(a, t) + indent_newlines(b, t),
    decreases b.len(),
{
    if b.len() == 0 {
        assert(a + b =~= a);
        assert(indent_newlines(a, t) + indent_newlines(b, t) =~= indent_newlines(a, t));
    } else {
        lemma_indent_concat(a, b.drop_last(), t);
        assert((a + b).drop_last() =~= a + b.drop_last());
        assert((a + b).last() == b.last());
        let piece = if b.last() == '\n' {
            seq!['\n'] + t
        } else {
            seq![b.last()]
        };
        assert(indent_newlines(a, t) + indent_newlines(b.drop_last(), t) + piece =~= indent_newlines(
            a,
            t,
        ) + (indent_newlines(b.drop_last(), t) + piece));
    }
}

proof fn lemma_indent_no_newline(s: Seq<char>, t: Seq<char>)
    requires
        no_newline(s),
    ensures
        indent_newlines(s, t) == s,
    decreases s.len(),
{
    if s.len() > 0 {
        let init = s.drop_last();
        assert forall|i: int| 0 <= i < init.len() implies #[trigger] init[i] != '\n' by {
            assert(init[i] == s[i]);
        }
        lemma_indent_no_newline(init, t);
        assert(s.last() == s[s.len() - 1]);
        assert(init + seq![s.last()] =~= s);
    }
}

proof fn lemma_indent_empty(s: Seq<char>)
    ensures
        indent_newlines(s, seq![]) == s,
    decreases s.len(),
{
    if s.len() > 0 {
        lemma_indent_empty(s.drop_last());
        if s.last() == '\n' {
            assert(seq!['\n'] + Seq::<char>::empty() =~= seq![s.last()]);
        }
        assert(s.drop_last() + seq![s.last()] =~= s);
    }
}

proof fn lemma_indent_compose(v: Seq<char>, a: Seq<char>, b: Seq<char>)
    requires
        no_newline(a),
    ensures
        indent_newlines(indent_newlines(v, a), b) == indent_newlines(v, b + a),
    decreases v.len(),
{
    if v.len() > 0 {
        let init = v.drop_last();
        lemma_indent_compose(init, a, b);
        if v.last() == '\n' {
            lemma_indent_concat(indent_newlines(init, a), seq!['\n'] + a, b);
            lemma_indent_concat(seq!['\n'], a, b);
            lemma_indent_no_newline(a, b);
            assert(indent_newlines(seq!['\n'], b) == indent_newlines(Seq::<char>::empty(), b) + (seq!['\n'] + b)) by {
                assert(seq!['\n'].drop_last() =~= Seq::<char>::empty());
            }
            assert(Seq::<char>::empty() + (seq!['\n'] + b) =~= seq!['\n'] + b);
            assert(indent_newlines(init, b + a) + (seq!['\n'] + b + a) =~= indent_newlines(init, b + a)
                + (seq!['\n'] + (b + a)));
        } else {
            lemma_indent_concat(indent_newlines(init, a), seq![v.last()], b);
            let c = seq![v.last()];
            assert(no_newline(c));
            lemma_indent_no_newline(c, b);
        }
    }
}

proof fn lemma_bc_no_brace(p: Seq<char>, y: Seq<char>, dd: int)
    requires
        no_brace(p),
        1 <= dd <= max_depth(),
    ensures
        block_close(p + y, dd) == shift(p.len(), block_close(y, dd)),
    decreases p.len(),
{
    if p.len() == 0 {
        assert(p + y =~= y);
    } else {
        let rest = p.drop_first();
        assert forall|i: int| 0 <= i < rest.len() implies #[trigger] rest[i] != '{' && rest[i] != '}' by {
            assert(rest[i] == p[i + 1]);
        }
        lemma_bc_no_brace(rest, y, dd);
        assert((p + y).drop_first() =~= rest + y);
        assert((p + y)[0] == p[0]);
        assert(p[0] != '{' && p[0] != '}');
    }
}

proof fn lemma_bc_open(y: Seq<char>, dd: int)
    requires
        1 <= dd < max_depth(),
    ensures
        block_close(seq!['{'] + y, dd) == shift(1, block_close(y, dd + 1)),
{
    assert((seq!['{'] + y).drop_first() =~= y);
}

proof fn lemma_bc_close(y: Seq<char>, dd: int)
    requires
        1 <= dd <= max_depth(),
    ensures
        block_close(seq!['}'] + y, dd) == if dd == 1 {
            Some(Ok::<nat, Error>(1))
        } else {
            shift(1, block_close(y, dd - 1))
        },
{
    assert((seq!['}'] + y).drop_first() =~= y);
}

proof fn lemma_tabs_add(a: nat, b: nat)
    ensures
        tabs(a) + tabs(b) == tabs(a + b),
{
    assert(tabs(a) + tabs(b) =~= tabs(a + b));
}

proof fn lemma_tabs_plain(a: nat)
    ensures
        no_newline(tabs(a)),
        no_brace(tabs(a)),
        forall|i: int| 0 <= i < a ==> is_ws(#[trigger] tabs(a)[i]) && char_len(tabs(a)[i]) == 1,
{
}

/// A key written at indentation `n`, with `t` after its line break.
proof fn lemma_indent_key(n: nat, k: Seq<char>, t: Seq<char>)
    requires
        plain(k),
    ensures
        indent_newlines(render_key(n, k), t) == tabs(n + 1) + seq!['\n'] + t + seq!['\t', '"'] + k
            + seq!['"'],
{
    let tail = seq!['\t', '"'] + k + seq!['"'];
    assert(no_newline(tail)) by {
        assert forall|i: int| 0 <= i < tail.len() implies #[trigger] tail[i] != '\n' by {
            if 2 <= i < 2 + k.len() {
                assert(tail[i] == k[i - 2]);
                assert(plain_char(k[i - 2]));
            }
        }
    }
    assert(render_key(n, k) =~= tabs(n + 1) + (seq!['\n'] + tail));
    lemma_indent_concat(tabs(n + 1), seq!['\n'] + tail, t);
    lemma_indent_concat(seq!['\n'], tail, t);
    lemma_tabs_plain(n + 1);
    lemma_indent_no_newline(tabs(n + 1), t);
    lemma_indent_no_newline(tail, t);
    lemma_indent_newline(t);
    assert(tabs(n + 1) + (seq!['\n'] + t + tail) =~= tabs(n + 1) + seq!['\n'] + t + seq!['\t', '"'] + k
        + seq!['"']);
}

/// A plain value is written as a quoted string, on the key's line.
proof fn lemma_string_value(v: Seq<char>, t1: Seq<char>, t: Seq<char>)
    requires
        plain(v),
    ensures
        render_value(v, t1) == seq!['\t', '\t', '"'] + v + seq!['"'],
        indent_newlines(render_value(v, t1), t) == render_value(v, t1),
        no_brace(render_value(v, t1)),
{
    if first_real(v) == Some('{') {
        lemma_leading_ws_props(v);
        assert(plain_char(v[leading_ws(v) as int]));
    }
    let r = seq!['\t', '\t', '"'] + v + seq!['"'];
    assert forall|i: int| 0 <= i < r.len() implies #[trigger] r[i] != '\n' && r[i] != '{' && r[i]
        != '}' by {
        if 3 <= i < 3 + v.len() {
            assert(r[i] == v[i - 3]);
            assert(plain_char(v[i - 3]));
        }
    }
    lemma_indent_no_newline(r, t);
}

/// The parts of a block written at indentation `n`.
proof fn lemma_block_text(gs: Seq<Group>, n: nat, t: Seq<char>)
    ensures
        first_real(spec_render(gs, n)) == Some('{'),
        indent_newlines(spec_render(gs, n), t) == tabs(n) + seq!['{'] + indent_newlines(
            render_groups(n, gs),
            t,
        ) + seq!['\n'] + t + seq!['}'],
{
    let v = spec_render(gs, n);
    lemma_tabs_plain(n);
    assert forall|j: int| 0 <= j < n implies is_ws(#[trigger] v[j]) && char_len(v[j]) == 1 by {
        assert(v[j] == tabs(n)[j]);
    }
    assert(v[n as int] == '{');
    lemma_token_end_at(v, n as int);
    let rg = render_groups(n, gs);
    assert(v =~= tabs(n) + seq!['{'] + (rg + (seq!['\n'] + seq!['}'])));
    lemma_indent_concat(tabs(n) + seq!['{'], rg + (seq!['\n'] + seq!['}']), t);
    lemma_indent_concat(rg, seq!['\n'] + seq!['}'], t);
    lemma_indent_concat(seq!['\n'], seq!['}'], t);
    let head = tabs(n) + seq!['{'];
    assert(no_newline(head)) by {
        assert forall|i: int| 0 <= i < head.len() implies #[trigger] head[i] != '\n' by {
            if i < n {
                assert(head[i] == tabs(n)[i]);
            }
        }
    }
    lemma_indent_no_newline(head, t);
    assert(no_newline(seq!['}']));
    lemma_indent_no_newline(seq!['}'], t);
    lemma_indent_newline(t);
    assert(head + (indent_newlines(rg, t) + (seq!['\n'] + t + seq!['}'])) =~= tabs(n) + seq!['{']
        + indent_newlines(rg, t) + seq!['\n'] + t + seq!['}']);
}

/// A nested block value: the line break, both indentations, the block's own
/// indentation, its `{`, its entries and its closing line.
proof fn lemma_block_value(gs: Seq<Group>, n: nat, j1: nat, j: nat)
    ensures
        indent_newlines(render_value(spec_render(gs, n + 1), tabs(j1)), tabs(j)) == seq!['\n']
            + tabs(j + j1) + tabs(n + 1) + seq!['{'] + indent_newlines(
            render_groups(n + 1, gs),
            tabs(j + j1),
        ) + seq!['\n'] + tabs(j + j1) + seq!['}'],
{
    let v = spec_render(gs, n + 1);
    lemma_block_text(gs, n + 1, tabs(j1));
    assert(render_value(v, tabs(j1)) == seq!['\n'] + tabs(j1) + indent_newlines(v, tabs(j1)));
    let head = seq!['\n'] + tabs(j1);
    lemma_indent_concat(head, indent_newlines(v, tabs(j1)), tabs(j));
    lemma_indent_concat(seq!['\n'], tabs(j1), tabs(j));
    lemma_tabs_plain(j1);
    lemma_indent_no_newline(tabs(j1), tabs(j));
    lemma_indent_newline(tabs(j));
    lemma_indent_compose(v, tabs(j1), tabs(j));
    lemma_tabs_add(j, j1);
    lemma_block_text(gs, n + 1, tabs(j + j1));
    assert(seq!['\n'] + tabs(j) + tabs(j1) =~= seq!['\n'] + tabs(j + j1));
}

proof fn lemma_indent_newline(t: Seq<char>)
    ensures
        indent_newlines(seq!['\n'], t) == seq!['\n'] + t,
{
    let s = seq!['\n'];
    assert(s.last() == '\n');
    assert(s.drop_last() =~= Seq::<char>::empty());
    assert(indent_newlines(s.drop_last(), t) == Seq::<char>::empty());
    assert(Seq::<char>::empty() + (seq!['\n'] + t) =~= seq!['\n'] + t);
}

/// One entry written at indentation `n` (its value indented by `j1` tabs where
/// it is a block), inside a value indented by `j` tabs.
pub open spec fn entry_text(n: nat, k: Seq<char>, v: Seq<char>, j1: nat, j: nat) -> Seq<char> {
    indent_newlines(render_key(n, k) + render_value(v, tabs(j1)), tabs(j))
}

/// The written key, which holds no brace.
proof fn lemma_key_text(n: nat, k: Seq<char>, j: nat)
    requires
        plain(k),
    ensures
        indent_newlines(render_key(n, k), tabs(j)) == tabs(n + 1) + seq!['\n'] + tabs(j) + seq![
            '\t',
            '"',
        ] + k + seq!['"'],
        no_brace(indent_newlines(render_key(n, k), tabs(j))),
{
    lemma_indent_key(n, k, tabs(j));
    let ik = indent_newlines(render_key(n, k), tabs(j));
    assert forall|i: int| 0 <= i < ik.len() implies #[trigger] ik[i] != '{' && ik[i] != '}' by {
        let a = n + 1 + 1 + j + 2;
        if i < n + 1 {
            assert(ik[i] == tabs(n + 1)[i]);
        } else if n + 1 < i < n + 2 + j {
            assert(ik[i] == tabs(j)[i - n - 2]);
        } else if a <= i < a + k.len() {
            assert(ik[i] == k[i - a]);
            assert(plain_char(k[i - a]));
        }
    }
}

/// A nested value that is not a plain string is a rendered block.
proof fn lemma_pick_block(v: Seq<char>, n: nat, d: nat) -> (gs: Seq<Group>)
    requires
        good_value(v, n, d),
        !plain(v),
    ensures
        d > 0,
        spec_render(gs, n + 1) == v,
        rendered_groups(gs, n + 1, (d - 1) as nat),
{
    assert(rendered_block(v, n + 1, (d - 1) as nat));
    choose|gs: Seq<Group>| #[trigger] spec_render(gs, n + 1) == v && rendered_groups(gs, n + 1, (d - 1) as nat)
}

proof fn lemma_no_brace_concat(a: Seq<char>, b: Seq<char>)
    requires
        no_brace(a),
        no_brace(b),
    ensures
        no_brace(a + b),
{
    assert forall|i: int| 0 <= i < (a + b).len() implies #[trigger] (a + b)[i] != '{' && (a + b)[i] != '}' by {
        if i < a.len() {
            assert((a + b)[i] == a[i]);
        } else {
            assert((a + b)[i] == b[i - a.len()]);
        }
    }
}

/// The brace counter passes over a nested block value written after the key
/// text `ik`.
proof fn lemma_bc_nested(
    gs: Seq<Group>,
    n: nat,
    ik: Seq<char>,
    j1: nat,
    j: nat,
    y: Seq<char>,
    dd: int,
    d: nat,
)
    requires
        no_brace(ik),
        rendered_groups(gs, n + 1, d),
        1 <= dd,
        dd + d + 1 <= max_depth(),
    ensures
        block_close(
            ik + indent_newlines(render_value(spec_render(gs, n + 1), tabs(j1)), tabs(j)) + y,
            dd,
        ) == shift(
            (ik + indent_newlines(render_value(spec_render(gs, n + 1), tabs(j1)), tabs(j))).len(),
            block_close(y, dd),
        ),
    decreases d + 1, 0nat, 0nat,
{
    let iv = indent_newlines(render_value(spec_render(gs, n + 1), tabs(j1)), tabs(j));
    lemma_block_value(gs, n, j1, j);
    let t2 = tabs(j + j1);
    let x = indent_newlines(render_groups(n + 1, gs), t2);
    let nb1 = ik + (seq!['\n'] + t2 + tabs(n + 1));
    let nb2 = seq!['\n'] + t2;
    lemma_tabs_plain(j + j1);
    lemma_tabs_plain(n + 1);
    lemma_no_brace_concat(seq!['\n'], t2);
    lemma_no_brace_concat(seq!['\n'] + t2, tabs(n + 1));
    lemma_no_brace_concat(ik, seq!['\n'] + t2 + tabs(n + 1));
    let r4 = seq!['}'] + y;
    let r3 = nb2 + r4;
    let r2 = x + r3;
    let r1 = seq!['{'] + r2;
    assert(ik + iv + y =~= nb1 + r1);
    lemma_bc_no_brace(nb1, r1, dd);
    lemma_bc_open(r2, dd);
    lemma_bc_groups(n + 1, gs, j + j1, r3, dd + 1, d);
    lemma_bc_no_brace(nb2, r4, dd + 1);
    lemma_bc_close(y, dd + 1);
    assert((ik + iv).len() == nb1.len() + 1 + x.len() + nb2.len() + 1);
}

proof fn lemma_bc_entry(n: nat, k: Seq<char>, v: Seq<char>, j1: nat, j: nat, y: Seq<char>, dd: int, d: nat)
    requires
        plain(k),
        good_value(v, n, d),
        1 <= dd,
        dd + d <= max_depth(),
    ensures
        block_close(entry_text(n, k, v, j1, j) + y, dd) == shift(
            entry_text(n, k, v, j1, j).len(),
            block_close(y, dd),
        ),
    decreases d, 0nat, 1nat,
{
    let e = entry_text(n, k, v, j1, j);
    lemma_indent_concat(render_key(n, k), render_value(v, tabs(j1)), tabs(j));
    lemma_key_text(n, k, j);
    let ik = indent_newlines(render_key(n, k), tabs(j));
    if plain(v) {
        lemma_string_value(v, tabs(j1), tabs(j));
        lemma_no_brace_concat(ik, render_value(v, tabs(j1)));
        lemma_bc_no_brace(e, y, dd);
    } else {
        let gs2 = lemma_pick_block(v, n, d);
        lemma_bc_nested(gs2, n, ik, j1, j, y, dd, (d - 1) as nat);
    }
}

proof fn lemma_bc_values(n: nat, k: Seq<char>, vals: Seq<Seq<char>>, j: nat, y: Seq<char>, dd: int, d: nat)
    requires
        plain(k),
        forall|i: int| 0 <= i < vals.len() ==> good_value(#[trigger] vals[i], n, d),
        1 <= dd,
        dd + d <= max_depth(),
    ensures
        block_close(indent_newlines(render_values(n, k, vals), tabs(j)) + y, dd) == shift(
            indent_newlines(render_values(n, k, vals), tabs(j)).len(),
            block_close(y, dd),
        ),
    decreases d, 1nat, vals.len(),
{
    if vals.len() == 0 {
        assert(indent_newlines(render_values(n, k, vals), tabs(j)) =~= Seq::<char>::empty());
        assert(Seq::<char>::empty() + y =~= y);
    } else {
        let init = vals.drop_last();
        let v = vals.last();
        assert forall|i: int| 0 <= i < init.len() implies good_value(#[trigger] init[i], n, d) by {
            assert(init[i] == vals[i]);
        }
        assert(good_value(vals[vals.len() - 1], n, d));
        let e = entry_text(n, k, v, n + 1, j);
        let a = indent_newlines(render_values(n, k, init), tabs(j));
        lemma_indent_concat(render_values(n, k, init), render_key(n, k) + render_value(v, tabs(n + 1)), tabs(j));
        assert(render_values(n, k, vals) == render_values(n, k, init) + (render_key(n, k) + render_value(v, tabs(n + 1)))) by {
            assert(render_values(n, k, init) + render_key(n, k) + render_value(v, tabs(n + 1)) =~= render_values(n, k, init) + (render_key(n, k) + render_value(v, tabs(n + 1))));
        }
        assert(a + e + y =~= a + (e + y));
        lemma_bc_values(n, k, init, j, e + y, dd, d);
        lemma_bc_entry(n, k, v, n + 1, j, y, dd, d);
    }
}

proof fn lemma_bc_group(n: nat, g: Group, j: nat, y: Seq<char>, dd: int, d: nat)
    requires
        plain(g.0),
        g.1.len() > 0,
        forall|i: int| 0 <= i < g.1.len() ==> good_value(#[trigger] g.1[i], n, d),
        1 <= dd,
        dd + d <= max_depth(),
    ensures
        block_close(indent_newlines(render_group(n, g), tabs(j)) + y, dd) == shift(
            indent_newlines(render_group(n, g), tabs(j)).len(),
            block_close(y, dd),
        ),
    decreases d, 2nat, 0nat,
{
    if g.1.len() > 1 {
        lemma_bc_values(n, g.0, g.1, j, y, dd, d);
    } else {
        assert(good_value(g.1[0], n, d));
        lemma_bc_entry(n, g.0, g.1[0], n, j, y, dd, d);
    }
}

proof fn lemma_bc_groups(n: nat, gs: Seq<Group>, j: nat, y: Seq<char>, dd: int, d: nat)
    requires
        rendered_groups(gs, n, d),
        1 <= dd,
        dd + d <= max_depth(),
    ensures
        block_close(indent_newlines(render_groups(n, gs), tabs(j)) + y, dd) == shift(
            indent_newlines(render_groups(n, gs), tabs(j)).len(),
            block_close(y, dd),
        ),
    decreases d, 3nat, gs.len(),
{
    if gs.len() == 0 {
        assert(indent_newlines(render_groups(n, gs), tabs(j)) =~= Seq::<char>::empty());
        assert(Seq::<char>::empty() + y =~= y);
    } else {
        let init = gs.drop_last();
        let g = gs.last();
        lemma_rendered_init(gs, n, d);
        assert(plain(gs[gs.len() - 1].0));
        assert forall|i: int| 0 <= i < g.1.len() implies good_value(#[trigger] g.1[i], n, d) by {
            assert(g.1[i] == gs[gs.len() - 1].1[i]);
        }
        assert(gs[gs.len() - 1].1.len() > 0);
        let e = indent_newlines(render_group(n, g), tabs(j));
        let a = indent_newlines(render_groups(n, init), tabs(j));
        lemma_indent_concat(render_groups(n, init), render_group(n, g), tabs(j));
        assert(a + e + y =~= a + (e + y));
        lemma_bc_groups(n, init, j, e + y, dd, d);
        lemma_bc_group(n, g, j, y, dd, d);
    }
}

/// The groups before the last of rendered groups are rendered groups too.
proof fn lemma_rendered_init(gs: Seq<Group>, n: nat, d: nat)
    requires
        rendered_groups(gs, n, d),
        gs.len() > 0,
    ensures
        rendered_groups(gs.drop_last(), n, d),
{
    let init = gs.drop_last();
    assert forall|i: int, j: int| 0 <= i < j < init.len() implies crate::grouping::lex_lt(
        #[trigger] init[i].0,
        #[trigger] init[j].0,
    ) by {
        assert(init[i] == gs[i] && init[j] == gs[j]);
    }
    assert forall|i: int| 0 <= i < init.len() implies (#[trigger] init[i]).1.len() > 0 && plain(init[i].0) by {
        assert(init[i] == gs[i]);
    }
    assert forall|i: int, j: int| 0 <= i < init.len() && 0 <= j < init[i].1.len() implies good_value(
        #[trigger] init[i].1[j],
        n,
        d,
    ) by {
        assert(init[i] == gs[i]);
    }
}

/// A key of the outer block, which is not indented.
proof fn lemma_key_text_outer(n: nat, k: Seq<char>)
    ensures
        indent_newlines(render_key(n, k), tabs(0)) == tabs(n + 1) + seq!['\n'] + tabs(0) + seq![
            '\t',
            '"',
        ] + k + seq!['"'],
{
    assert(tabs(0) =~= Seq::<char>::empty());
    lemma_indent_empty(render_key(n, k));
    assert(render_key(n, k) =~= tabs(n + 1) + seq!['\n'] + tabs(0) + seq!['\t', '"'] + k + seq![
        '"',
    ]);
}

/// Reading back a key inside a value indented by `j` tabs (none for the outer
/// block).
proof fn lemma_scan_key_at(n: nat, k: Seq<char>, j: nat, z: Seq<char>)
    requires
        quoted(k),
        j == 0 || plain(k),
    ensures
        spec_scan(indent_newlines(render_key(n, k), tabs(j)) + z, None, n) == prepend_entries(
            seq![],
            indent_newlines(render_key(n, k), tabs(j)).len(),
            spec_scan(z, Some(k), n),
        ),
{
    if j == 0 {
        lemma_key_text_outer(n, k);
    } else {
        lemma_key_text(n, k, j);
    }
    let ik = indent_newlines(render_key(n, k), tabs(j));
    let s = ik + z;
    let m = (n + j + 3) as int;
    lemma_tabs_plain(n + 1);
    lemma_tabs_plain(j);
    assert forall|i: int| 0 <= i < m implies is_ws(#[trigger] s[i]) && char_len(s[i]) == 1 by {
        if i < n + 1 {
            assert(s[i] == tabs(n + 1)[i]);
        } else if i == n + 1 {
            assert(s[i] == '\n');
        } else if i < n + 2 + j {
            assert(s[i] == tabs(j)[i - n - 2]);
        } else {
            assert(s[i] == '\t');
        }
    }
    assert(s[m] == '"');
    lemma_token_end_at(s, m);
    let sk = s.skip(m + 1);
    assert(sk =~= k + seq!['"'] + z);
    lemma_index_after_plain(k, z);
    assert(sk.take(k.len() as int) =~= k);
    let kk = (m + 1 + k.len() + 1) as nat;
    assert(kk == ik.len());
    assert(spec_parse_string(s) == Some(Ok::<(Seq<char>, nat), Error>((k, kk))));
    assert(s.skip(kk as int) =~= z);
}

/// Reading back a string value after its key `k`, inside a value indented by
/// `j` tabs (none for the outer block).
proof fn lemma_scan_string_at(n: nat, k: Seq<char>, v: Seq<char>, j1: nat, j: nat, y: Seq<char>)
    requires
        outer_value(v),
        j == 0 || plain(v),
    ensures
        spec_scan(indent_newlines(render_value(v, tabs(j1)), tabs(j)) + y, Some(k), n)
            == prepend_entries(
            seq![(k, v)],
            indent_newlines(render_value(v, tabs(j1)), tabs(j)).len(),
            spec_scan(y, None, n),
        ),
{
    if j == 0 {
        assert(tabs(0) =~= Seq::<char>::empty());
        lemma_indent_empty(render_value(v, tabs(j1)));
    } else {
        lemma_string_value(v, tabs(j1), tabs(j));
    }
    let iv = indent_newlines(render_value(v, tabs(j1)), tabs(j));
    let s2 = iv + y;
    assert forall|i: int| 0 <= i < 2 implies is_ws(#[trigger] s2[i]) && char_len(s2[i]) == 1 by {
        assert(s2[i] == '\t');
    }
    assert(s2[2] == '"');
    lemma_token_end_at(s2, 2);
    let sv = s2.skip(3);
    assert(sv =~= v + seq!['"'] + y);
    lemma_index_after_plain(v, y);
    assert(sv.take(v.len() as int) =~= v);
    let kv = iv.len();
    assert(kv == 3 + v.len() + 1);
    assert(spec_parse_string(s2) == Some(Ok::<(Seq<char>, nat), Error>((v, kv))));
    assert(s2.skip(kv as int) =~= y);
}

/// The text of a nested block as its reader takes it out: from its `{` to its
/// closing brace, indented by `j` tabs after each line break.
pub open spec fn nested_leaf(gs: Seq<Group>, n: nat, j: nat) -> Seq<char> {
    tabs(0) + seq!['{'] + indent_newlines(render_groups(n, gs), tabs(j)) + seq!['\n'] + tabs(j)
        + seq!['}']
}

/// The brace counter, started inside a nested block, stops at its closing
/// brace.
proof fn lemma_close_nested(gs: Seq<Group>, n: nat, jj: nat, y: Seq<char>, d: nat)
    requires
        rendered_groups(gs, n, d),
        d + 1 <= max_depth(),
    ensures
        block_close(
            indent_newlines(render_groups(n, gs), tabs(jj)) + (seq!['\n'] + tabs(jj) + (seq!['}']
                + y)),
            1,
        ) == Some(
            Ok::<nat, Error>((indent_newlines(render_groups(n, gs), tabs(jj)).len() + jj + 2) as nat),
        ),
{
    let nb2 = seq!['\n'] + tabs(jj);
    let r4 = seq!['}'] + y;
    lemma_bc_groups(n, gs, jj, nb2 + r4, 1, d);
    lemma_tabs_plain(jj);
    lemma_no_brace_concat(seq!['\n'], tabs(jj));
    lemma_bc_no_brace(nb2, r4, 1);
    lemma_bc_close(y, 1);
}

/// Reading a nested block value as a block gives its text from `{` to the
/// closing brace, and continues after it.
proof fn lemma_parse_nested(gs: Seq<Group>, n: nat, j1: nat, j: nat, y: Seq<char>, d: nat)
    requires
        rendered_groups(gs, n + 1, d),
        d + 1 <= max_depth(),
    ensures
        first_real(indent_newlines(render_value(spec_render(gs, n + 1), tabs(j1)), tabs(j)) + y)
            == Some('{'),
        spec_parse_block(indent_newlines(render_value(spec_render(gs, n + 1), tabs(j1)), tabs(j)) + y)
            == Some(
            Ok::<(Seq<char>, nat), Error>(
                (
                    nested_leaf(gs, n + 1, j + j1),
                    indent_newlines(render_value(spec_render(gs, n + 1), tabs(j1)), tabs(j)).len(),
                ),
            ),
        ),
{
    let iv = indent_newlines(render_value(spec_render(gs, n + 1), tabs(j1)), tabs(j));
    let s2 = iv + y;
    lemma_block_value(gs, n, j1, j);
    let t2 = tabs(j + j1);
    let x = indent_newlines(render_groups(n + 1, gs), t2);
    let m2 = (1 + (j + j1) + (n + 1)) as int;
    lemma_tabs_plain(j + j1);
    lemma_tabs_plain(n + 1);
    assert forall|i: int| 0 <= i < m2 implies is_ws(#[trigger] s2[i]) && char_len(s2[i]) == 1 by {
        if i == 0 {
            assert(s2[i] == '\n');
        } else if i < 1 + j + j1 {
            assert(s2[i] == t2[i - 1]);
        } else {
            assert(s2[i] == tabs(n + 1)[i - 1 - j - j1]);
        }
    }
    assert(s2[m2] == '{');
    lemma_token_end_at(s2, m2);
    let rest = seq!['\n'] + t2 + (seq!['}'] + y);
    assert(s2.skip(m2 + 1) =~= x + rest);
    lemma_close_nested(gs, n + 1, j + j1, y, d);
    let nc = (x.len() + (j + j1) + 2) as nat;
    assert(s2.skip(m2 + 1).take(nc as int) =~= x + seq!['\n'] + t2 + seq!['}']);
    assert(seq!['{'] + s2.skip(m2 + 1).take(nc as int) =~= nested_leaf(gs, n + 1, j + j1));
    assert(iv.len() == m2 + 1 + nc);
}

/// Reading back a nested block value after its key `k`: the block is read up
/// to its closing brace and processed again to the same text.
proof fn lemma_scan_block_at(n: nat, k: Seq<char>, v: Seq<char>, j1: nat, j: nat, y: Seq<char>, d: nat)
    requires
        good_value(v, n, d),
        !plain(v),
        d < max_depth(),
    ensures
        spec_scan(indent_newlines(render_value(v, tabs(j1)), tabs(j)) + y, Some(k), n)
            == prepend_entries(
            seq![(k, v)],
            indent_newlines(render_value(v, tabs(j1)), tabs(j)).len(),
            spec_scan(y, None, n),
        ),
    decreases d, 0nat, 0nat,
{
    let iv = indent_newlines(render_value(v, tabs(j1)), tabs(j));
    let s2 = iv + y;
    let gs2 = lemma_pick_block(v, n, d);
    lemma_parse_nested(gs2, n, j1, j, y, (d - 1) as nat);
    lemma_process_rendered(gs2, n + 1, (d - 1) as nat, j + j1, 0);
    assert(s2.skip(iv.len() as int) =~= y);
}

/// Reading back one entry inside a value indented by `j` tabs: the key, then
/// its value, a plain string or a nested block.
proof fn lemma_scan_entry_at(n: nat, k: Seq<char>, v: Seq<char>, j1: nat, j: nat, y: Seq<char>, d: nat)
    requires
        plain(k),
        good_value(v, n, d),
        d < max_depth(),
    ensures
        spec_scan(entry_text(n, k, v, j1, j) + y, None, n) == prepend_entries(
            seq![(k, v)],
            entry_text(n, k, v, j1, j).len(),
            spec_scan(y, None, n),
        ),
    decreases d, 0nat, 1nat,
{
    let e = entry_text(n, k, v, j1, j);
    lemma_indent_concat(render_key(n, k), render_value(v, tabs(j1)), tabs(j));
    let ik = indent_newlines(render_key(n, k), tabs(j));
    let iv = indent_newlines(render_value(v, tabs(j1)), tabs(j));
    assert(e + y =~= ik + (iv + y));
    lemma_plain_outer(k);
    lemma_scan_key_at(n, k, j, iv + y);
    if plain(v) {
        lemma_plain_outer(v);
        lemma_scan_string_at(n, k, v, j1, j, y);
    } else {
        lemma_scan_block_at(n, k, v, j1, j, y, d);
    }
    lemma_prepend_assoc(seq![], seq![(k, v)], ik.len(), iv.len(), spec_scan(y, None, n));
    assert(Seq::<(Seq<char>, Seq<char>)>::empty() + seq![(k, v)] =~= seq![(k, v)]);
}

proof fn lemma_scan_values_at(n: nat, k: Seq<char>, vals: Seq<Seq<char>>, j: nat, y: Seq<char>, d: nat)
    requires
        plain(k),
        forall|i: int| 0 <= i < vals.len() ==> good_value(#[trigger] vals[i], n, d),
        d < max_depth(),
    ensures
        spec_scan(indent_newlines(render_values(n, k, vals), tabs(j)) + y, None, n) == prepend_entries(
            group_pairs((k, vals)),
            indent_newlines(render_values(n, k, vals), tabs(j)).len(),
            spec_scan(y, None, n),
        ),
    decreases d, 1nat, vals.len(),
{
    if vals.len() == 0 {
        assert(indent_newlines(render_values(n, k, vals), tabs(j)) =~= Seq::<char>::empty());
        assert(Seq::<char>::empty() + y =~= y);
        assert(group_pairs((k, vals)) =~= seq![]);
        lemma_prepend_empty(spec_scan(y, None, n));
    } else {
        let init = vals.drop_last();
        let v = vals.last();
        assert forall|i: int| 0 <= i < init.len() implies good_value(#[trigger] init[i], n, d) by {
            assert(init[i] == vals[i]);
        }
        assert(good_value(vals[vals.len() - 1], n, d));
        let e = entry_text(n, k, v, n + 1, j);
        let a = indent_newlines(render_values(n, k, init), tabs(j));
        lemma_indent_concat(render_values(n, k, init), render_key(n, k) + render_value(v, tabs(n + 1)), tabs(j));
        assert(render_values(n, k, vals) == render_values(n, k, init) + (render_key(n, k) + render_value(v, tabs(n + 1)))) by {
            assert(render_values(n, k, init) + render_key(n, k) + render_value(v, tabs(n + 1)) =~= render_values(n, k, init) + (render_key(n, k) + render_value(v, tabs(n + 1))));
        }
        assert(a + e + y =~= a + (e + y));
        lemma_scan_values_at(n, k, init, j, e + y, d);
        lemma_scan_entry_at(n, k, v, n + 1, j, y, d);
        lemma_prepend_assoc(group_pairs((k, init)), seq![(k, v)], a.len(), e.len(), spec_scan(y, None, n));
        assert(group_pairs((k, init)) + seq![(k, v)] =~= group_pairs((k, vals)));
    }
}

proof fn lemma_scan_group_at(n: nat, g: Group, j: nat, y: Seq<char>, d: nat)
    requires
        plain(g.0),
        g.1.len() > 0,
        forall|i: int| 0 <= i < g.1.len() ==> good_value(#[trigger] g.1[i], n, d),
        d < max_depth(),
    ensures
        spec_scan(indent_newlines(render_group(n, g), tabs(j)) + y, None, n) == prepend_entries(
            group_pairs(g),
            indent_newlines(render_group(n, g), tabs(j)).len(),
            spec_scan(y, None, n),
        ),
    decreases d, 2nat, 0nat,
{
    if g.1.len() > 1 {
        lemma_scan_values_at(n, g.0, g.1, j, y, d);
        assert(g == (g.0, g.1));
    } else {
        assert(good_value(g.1[0], n, d));
        lemma_scan_entry_at(n, g.0, g.1[0], n, j, y, d);
        assert(group_pairs(g) =~= seq![(g.0, g.1[0])]);
    }
}

proof fn lemma_scan_groups_at(n: nat, gs: Seq<Group>, j: nat, y: Seq<char>, d: nat)
    requires
        rendered_groups(gs, n, d),
        d < max_depth(),
    ensures
        spec_scan(indent_newlines(render_groups(n, gs), tabs(j)) + y, None, n) == prepend_entries(
            flat_entries(gs),
            indent_newlines(render_groups(n, gs), tabs(j)).len(),
            spec_scan(y, None, n),
        ),
    decreases d, 3nat, gs.len(),
{
    if gs.len() == 0 {
        assert(indent_newlines(render_groups(n, gs), tabs(j)) =~= Seq::<char>::empty());
        assert(Seq::<char>::empty() + y =~= y);
        lemma_prepend_empty(spec_scan(y, None, n));
    } else {
        let init = gs.drop_last();
        let g = gs.last();
        lemma_rendered_init(gs, n, d);
        assert(plain(gs[gs.len() - 1].0));
        assert forall|i: int| 0 <= i < g.1.len() implies good_value(#[trigger] g.1[i], n, d) by {
            assert(g.1[i] == gs[gs.len() - 1].1[i]);
        }
        assert(gs[gs.len() - 1].1.len() > 0);
        let e = indent_newlines(render_group(n, g), tabs(j));
        let a = indent_newlines(render_groups(n, init), tabs(j));
        lemma_indent_concat(render_groups(n, init), render_group(n, g), tabs(j));
        assert(a + e + y =~= a + (e + y));
        lemma_scan_groups_at(n, init, j, e + y, d);
        lemma_scan_group_at(n, g, j, y, d);
        lemma_prepend_assoc(flat_entries(init), group_pairs(g), a.len(), e.len(), spec_scan(y, None, n));
    }
}

/// The closing line of a block indented by `j` tabs is read as no entry.
proof fn lemma_scan_close_at(n: nat, j: nat)
    ensures
        spec_scan(seq!['\n'] + tabs(j) + seq!['}'], None, n) == Some(
            Ok::<(Seq<(Seq<char>, Seq<char>)>, nat), Error>((seq![], j + 2)),
        ),
{
    let s = seq!['\n'] + tabs(j) + seq!['}'];
    lemma_tabs_plain(j);
    assert forall|i: int| 0 <= i < j + 1 implies is_ws(#[trigger] s[i]) && char_len(s[i]) == 1 by {
        if i == 0 {
            assert(s[i] == '\n');
        } else {
            assert(s[i] == tabs(j)[i - 1]);
        }
    }
    assert(s[j + 1int] == '}');
    lemma_token_end_at(s, j + 1int);
}

/// A rendered block, with `p` tabs before its `{` and `j` tabs after each of its
/// line breaks, is processed to the block as written at indentation `n`.
proof fn lemma_process_rendered(gs: Seq<Group>, n: nat, d: nat, j: nat, p: nat)
    requires
        rendered_groups(gs, n, d),
        d < max_depth(),
    ensures
        spec_process(
            tabs(p) + seq!['{'] + indent_newlines(render_groups(n, gs), tabs(j)) + seq!['\n'] + tabs(j)
                + seq!['}'],
            n,
        ) == Some(Ok::<Seq<char>, Error>(spec_render(gs, n))),
    decreases d, 4nat, 0nat,
{
    let x = indent_newlines(render_groups(n, gs), tabs(j));
    let close = seq!['\n'] + tabs(j) + seq!['}'];
    let o = tabs(p) + seq!['{'] + x + seq!['\n'] + tabs(j) + seq!['}'];
    lemma_tabs_plain(p);
    assert forall|i: int| 0 <= i < p implies is_ws(#[trigger] o[i]) && char_len(o[i]) == 1 by {
        assert(o[i] == tabs(p)[i]);
    }
    assert(o[p as int] == '{');
    lemma_token_end_at(o, p as int);
    let body = o.skip(p + 1int);
    assert(body =~= x + close);
    lemma_scan_groups_at(n, gs, j, close, d);
    lemma_scan_close_at(n, j);
    let es2 = flat_entries(gs) + Seq::<(Seq<char>, Seq<char>)>::empty();
    assert(es2 =~= flat_entries(gs));
    let m = (x.len() + j + 2) as nat;
    assert(spec_scan(body, None, n) == Some(Ok::<(Seq<(Seq<char>, Seq<char>)>, nat), Error>((es2, m))));
    assert(body.skip(m as int) =~= Seq::<char>::empty());
    lemma_trim_empty(body.skip(m as int));
    lemma_regroup(gs);
}

/// A block as processing writes it (keys ascending, each with its values, keys
/// and string values plain, nested blocks written the same way) is processed
/// to itself: processing it again changes nothing.
pub proof fn law_rendered_block_is_fixed(v: Seq<char>, n: nat, d: nat)
    requires
        rendered_block(v, n, d),
        d < max_depth(),
    ensures
        spec_process(v, n) == Some(Ok::<Seq<char>, Error>(v)),
{
    let gs = choose|gs: Seq<Group>| #[trigger] spec_render(gs, n) == v && rendered_groups(gs, n, d);
    lemma_process_rendered(gs, n, d, 0, n);
    lemma_indent_empty(render_groups(n, gs));
    assert(tabs(0) =~= Seq::<char>::empty());
    assert(tabs(n) + seq!['{'] + render_groups(n, gs) + seq!['\n'] + tabs(0) + seq!['}'] =~= v);
}

/// Every string that processing the block `c` at indentation `n` reads (keys
/// and string values, in nested blocks too) is plain. Reading stops being
/// checked where it fails.
pub open spec fn plain_process(c: Seq<char>, n: nat) -> bool
    decreases c.len(), 1nat,
{
    match first_real(c) {
        Some(ch) => if ch == '{' {
            match token_end(c) {
                Some(k) => {
                    proof {
                        lemma_token_end_bounds(c);
                    }
                    plain_scan(c.skip(k as int), None, n)
                },
                None => true,
            }
        } else {
            true
        },
        None => true,
    }
}

/// Every string read while reading the entries of a block from `s` (see
/// `spec_scan`) is plain.
pub open spec fn plain_scan(s: Seq<char>, key: Option<Seq<char>>, n: nat) -> bool
    decreases s.len(), 2nat,
{
    match first_real(s) {
        None => true,
        Some(c) => if c == '"' {
            match spec_parse_string(s) {
                Some(Ok((text, k))) => {
                    proof {
                        lemma_parse_string_bounds(s);
                    }
                    plain(text) && match key {
                        None => plain_scan(s.skip(k as int), Some(text), n),
                        Some(_) => plain_scan(s.skip(k as int), None, n),
                    }
                },
                _ => true,
            }
        } else if c == '{' {
            match key {
                None => true,
                Some(_) => match spec_parse_block(s) {
                    Some(Ok((leaf, k))) => {
                        proof {
                            lemma_parse_block_bounds(s);
                        }
                        plain_process(leaf, n + 1) && plain_scan(s.skip(k as int), None, n)
                    },
                    _ => true,
                },
            }
        } else {
            true
        },
    }
}

/// A rendered block stays one when more nesting is allowed.
proof fn lemma_rendered_block_mono(v: Seq<char>, n: nat, d: nat, e: nat)
    requires
        rendered_block(v, n, d),
        d <= e,
    ensures
        rendered_block(v, n, e),
    decreases d, 2nat,
{
    let gs = choose|gs: Seq<Group>| #[trigger] spec_render(gs, n) == v && rendered_groups(gs, n, d);
    lemma_rendered_groups_mono(gs, n, d, e);
}

proof fn lemma_rendered_groups_mono(gs: Seq<Group>, n: nat, d: nat, e: nat)
    requires
        rendered_groups(gs, n, d),
        d <= e,
    ensures
        rendered_groups(gs, n, e),
    decreases d, 1nat,
{
    assert forall|i: int, j: int| 0 <= i < gs.len() && 0 <= j < gs[i].1.len() implies good_value(
        #[trigger] gs[i].1[j],
        n,
        e,
    ) by {
        lemma_good_value_mono(gs[i].1[j], n, d, e);
    }
}

proof fn lemma_good_value_mono(v: Seq<char>, n: nat, d: nat, e: nat)
    requires
        good_value(v, n, d),
        d <= e,
    ensures
        good_value(v, n, e),
    decreases d, 0nat,
{
    if !plain(v) {
        lemma_rendered_block_mono(v, n + 1, (d - 1) as nat, (e - 1) as nat);
    }
}

/// The entries read from `s` where all strings read are plain: plain keys, and
/// values that are plain strings or rendered blocks.
proof fn lemma_scan_plain(s: Seq<char>, key: Option<Seq<char>>, n: nat)
    requires
        plain_scan(s, key, n),
        key matches Some(kk) ==> plain(kk),
    ensures
        spec_scan(s, key, n) matches Some(Ok((es, m))) ==> forall|i: int|
            0 <= i < es.len() ==> plain((#[trigger] es[i]).0) && good_value(es[i].1, n, s.len() + 1),
    decreases s.len(), 2nat,
{
    if let Some(Ok((es, m))) = spec_scan(s, key, n) {
        let c = first_real(s).unwrap();
        if c == '"' {
            let (text, k) = spec_parse_string(s).unwrap().unwrap();
            lemma_parse_string_bounds(s);
            let rest = s.skip(k as int);
            match key {
                None => {
                    lemma_scan_plain(rest, Some(text), n);
                    let (es2, m2) = spec_scan(rest, Some(text), n).unwrap().unwrap();
                    assert(es =~= Seq::<(Seq<char>, Seq<char>)>::empty() + es2);
                    assert forall|i: int| 0 <= i < es.len() implies plain((#[trigger] es[i]).0)
                        && good_value(es[i].1, n, s.len() + 1) by {
                        assert(es[i] == es2[i]);
                        lemma_good_value_mono(es2[i].1, n, rest.len() + 1, s.len() + 1);
                    }
                },
                Some(kk) => {
                    lemma_scan_plain(rest, None, n);
                    let (es2, m2) = spec_scan(rest, None, n).unwrap().unwrap();
                    assert(es =~= seq![(kk, text)] + es2);
                    assert forall|i: int| 0 <= i < es.len() implies plain((#[trigger] es[i]).0)
                        && good_value(es[i].1, n, s.len() + 1) by {
                        if i > 0 {
                            assert(es[i] == es2[i - 1]);
                            lemma_good_value_mono(es2[i - 1].1, n, rest.len() + 1, s.len() + 1);
                        }
                    }
                },
            }
        } else if c == '{' {
            let kk = key.unwrap();
            let (leaf, k) = spec_parse_block(s).unwrap().unwrap();
            lemma_parse_block_bounds(s);
            let out = spec_process(leaf, n + 1).unwrap().unwrap();
            lemma_process_plain(leaf, n + 1);
            lemma_rendered_block_mono(out, n + 1, leaf.len(), s.len());
            let rest = s.skip(k as int);
            lemma_scan_plain(rest, None, n);
            let (es2, m2) = spec_scan(rest, None, n).unwrap().unwrap();
            assert(es =~= seq![(kk, out)] + es2);
            assert forall|i: int| 0 <= i < es.len() implies plain((#[trigger] es[i]).0) && good_value(
                es[i].1,
                n,
                s.len() + 1,
            ) by {
                if i > 0 {
                    assert(es[i] == es2[i - 1]);
                    lemma_good_value_mono(es2[i - 1].1, n, rest.len() + 1, s.len() + 1);
                }
            }
        } else {
            assert(es.len() == 0);
        }
    }
}

/// What processing a block whose strings are all plain writes is a rendered
/// block, nested no deeper than the block's length.
proof fn lemma_process_plain(c: Seq<char>, n: nat)
    requires
        plain_process(c, n),
    ensures
        spec_process(c, n) matches Some(Ok(o)) ==> rendered_block(o, n, c.len()),
    decreases c.len(), 1nat,
{
    if let Some(Ok(o)) = spec_process(c, n) {
        let k = token_end(c).unwrap();
        lemma_token_end_bounds(c);
        let body = c.skip(k as int);
        lemma_scan_plain(body, None, n);
        let (es, m) = spec_scan(body, None, n).unwrap().unwrap();
        assert forall|i: int| 0 <= i < es.len() implies plain((#[trigger] es[i]).0) && good_value(
            es[i].1,
            n,
            c.len(),
        ) by {
            lemma_good_value_mono(es[i].1, n, body.len() + 1, c.len());
        }
        let gs = group_entries(es);
        lemma_group_entries(es);
        let kp = |k: Seq<char>| plain(k);
        let vp = |v: Seq<char>| good_value(v, n, c.len());
        lemma_group_entries_hold(es, kp, vp);
        assert(o == spec_render(gs, n));
        assert(rendered_groups(gs, n, c.len()));
    }
}

/// A value of the outer block at indentation `n` as processing writes it: a
/// string that is written back as it was read (see `outer_value`), or a
/// nested block as processing writes it, at most `d` levels deep.
pub open spec fn top_value(v: Seq<char>, n: nat, d: nat) -> bool {
    outer_value(v) || (d > 0 && rendered_block(v, n + 1, (d - 1) as nat))
}

/// The groups of the outer block as processing writes them: keys ascending
/// and without quotes, each with at least one value, each value a `top_value`.
pub open spec fn top_groups(gs: Seq<Group>, n: nat, d: nat) -> bool {
    &&& keys_ascending(gs)
    &&& groups_nonempty(gs)
    &&& forall|i: int| 0 <= i < gs.len() ==> quoted((#[trigger] gs[i]).0)
    &&& forall|i: int, j: int|
        0 <= i < gs.len() && 0 <= j < gs[i].1.len() ==> top_value(#[trigger] gs[i].1[j], n, d)
}

/// Reading back one entry of the outer block.
proof fn lemma_scan_entry_outer(n: nat, k: Seq<char>, v: Seq<char>, j1: nat, y: Seq<char>, d: nat)
    requires
        quoted(k),
        top_value(v, n, d),
        d < max_depth(),
    ensures
        spec_scan(entry_text(n, k, v, j1, 0) + y, None, n) == prepend_entries(
            seq![(k, v)],
            entry_text(n, k, v, j1, 0).len(),
            spec_scan(y, None, n),
        ),
{
    let e = entry_text(n, k, v, j1, 0);
    lemma_indent_concat(render_key(n, k), render_value(v, tabs(j1)), tabs(0));
    let ik = indent_newlines(render_key(n, k), tabs(0));
    let iv = indent_newlines(render_value(v, tabs(j1)), tabs(0));
    assert(e + y =~= ik + (iv + y));
    lemma_scan_key_at(n, k, 0, iv + y);
    if outer_value(v) {
        lemma_scan_string_at(n, k, v, j1, 0, y);
    } else {
        if plain(v) {
            lemma_plain_outer(v);
        }
        lemma_scan_block_at(n, k, v, j1, 0, y, d);
    }
    lemma_prepend_assoc(seq![], seq![(k, v)], ik.len(), iv.len(), spec_scan(y, None, n));
    assert(Seq::<(Seq<char>, Seq<char>)>::empty() + seq![(k, v)] =~= seq![(k, v)]);
}

proof fn lemma_scan_values_outer(n: nat, k: Seq<char>, vals: Seq<Seq<char>>, y: Seq<char>, d: nat)
    requires
        quoted(k),
        forall|i: int| 0 <= i < vals.len() ==> top_value(#[trigger] vals[i], n, d),
        d < max_depth(),
    ensures
        spec_scan(indent_newlines(render_values(n, k, vals), tabs(0)) + y, None, n) == prepend_entries(
            group_pairs((k, vals)),
            indent_newlines(render_values(n, k, vals), tabs(0)).len(),
            spec_scan(y, None, n),
        ),
    decreases vals.len(),
{
    if vals.len() == 0 {
        assert(indent_newlines(render_values(n, k, vals), tabs(0)) =~= Seq::<char>::empty());
        assert(Seq::<char>::empty() + y =~= y);
        assert(group_pairs((k, vals)) =~= seq![]);
        lemma_prepend_empty(spec_scan(y, None, n));
    } else {
        let init = vals.drop_last();
        let v = vals.last();
        assert forall|i: int| 0 <= i < init.len() implies top_value(#[trigger] init[i], n, d) by {
            assert(init[i] == vals[i]);
        }
        assert(top_value(vals[vals.len() - 1], n, d));
        let e = entry_text(n, k, v, n + 1, 0);
        let a = indent_newlines(render_values(n, k, init), tabs(0));
        lemma_indent_concat(render_values(n, k, init), render_key(n, k) + render_value(v, tabs(n + 1)), tabs(0));
        assert(render_values(n, k, vals) == render_values(n, k, init) + (render_key(n, k) + render_value(v, tabs(n + 1)))) by {
            assert(render_values(n, k, init) + render_key(n, k) + render_value(v, tabs(n + 1)) =~= render_values(n, k, init) + (render_key(n, k) + render_value(v, tabs(n + 1))));
        }
        assert(a + e + y =~= a + (e + y));
        lemma_scan_values_outer(n, k, init, e + y, d);
        lemma_scan_entry_outer(n, k, v, n + 1, y, d);
        lemma_prepend_assoc(group_pairs((k, init)), seq![(k, v)], a.len(), e.len(), spec_scan(y, None, n));
        assert(group_pairs((k, init)) + seq![(k, v)] =~= group_pairs((k, vals)));
    }
}

proof fn lemma_scan_group_outer(n: nat, g: Group, y: Seq<char>, d: nat)
    requires
        quoted(g.0),
        g.1.len() > 0,
        forall|i: int| 0 <= i < g.1.len() ==> top_value(#[trigger] g.1[i], n, d),
        d < max_depth(),
    ensures
        spec_scan(indent_newlines(render_group(n, g), tabs(0)) + y, None, n) == prepend_entries(
            group_pairs(g),
            indent_newlines(render_group(n, g), tabs(0)).len(),
            spec_scan(y, None, n),
        ),
{
    if g.1.len() > 1 {
        lemma_scan_values_outer(n, g.0, g.1, y, d);
        assert(g == (g.0, g.1));
    } else {
        assert(top_value(g.1[0], n, d));
        lemma_scan_entry_outer(n, g.0, g.1[0], n, y, d);
        assert(group_pairs(g) =~= seq![(g.0, g.1[0])]);
    }
}

proof fn lemma_top_init(gs: Seq<Group>, n: nat, d: nat)
    requires
        top_groups(gs, n, d),
        gs.len() > 0,
    ensures
        top_groups(gs.drop_last(), n, d),
{
    let init = gs.drop_last();
    assert forall|i: int, j: int| 0 <= i < j < init.len() implies crate::grouping::lex_lt(
        #[trigger] init[i].0,
        #[trigger] init[j].0,
    ) by {
        assert(init[i] == gs[i] && init[j] == gs[j]);
    }
    assert forall|i: int| 0 <= i < init.len() implies (#[trigger] init[i]).1.len() > 0 && quoted(init[i].0) by {
        assert(init[i] == gs[i]);
    }
    assert forall|i: int, j: int| 0 <= i < init.len() && 0 <= j < init[i].1.len() implies top_value(
        #[trigger] init[i].1[j],
        n,
        d,
    ) by {
        assert(init[i] == gs[i]);
    }
}

proof fn lemma_scan_groups_outer(n: nat, gs: Seq<Group>, y: Seq<char>, d: nat)
    requires
        top_groups(gs, n, d),
        d < max_depth(),
    ensures
        spec_scan(indent_newlines(render_groups(n, gs), tabs(0)) + y, None, n) == prepend_entries(
            flat_entries(gs),
            indent_newlines(render_groups(n, gs), tabs(0)).len(),
            spec_scan(y, None, n),
        ),
    decreases gs.len(),
{
    if gs.len() == 0 {
        assert(indent_newlines(render_groups(n, gs), tabs(0)) =~= Seq::<char>::empty());
        assert(Seq::<char>::empty() + y =~= y);
        lemma_prepend_empty(spec_scan(y, None, n));
    } else {
        let init = gs.drop_last();
        let g = gs.last();
        lemma_top_init(gs, n, d);
        assert(quoted(gs[gs.len() - 1].0));
        assert forall|i: int| 0 <= i < g.1.len() implies top_value(#[trigger] g.1[i], n, d) by {
            assert(g.1[i] == gs[gs.len() - 1].1[i]);
        }
        assert(gs[gs.len() - 1].1.len() > 0);
        let e = indent_newlines(render_group(n, g), tabs(0));
        let a = indent_newlines(render_groups(n, init), tabs(0));
        lemma_indent_concat(render_groups(n, init), render_group(n, g), tabs(0));
        assert(a + e + y =~= a + (e + y));
        lemma_scan_groups_outer(n, init, e + y, d);
        lemma_scan_group_outer(n, g, y, d);
        lemma_prepend_assoc(flat_entries(init), group_pairs(g), a.len(), e.len(), spec_scan(y, None, n));
    }
}

/// A block written as processing writes it, whose own string values may hold
/// any character but a quote (and do not start with `{`), is processed to
/// itself.
proof fn lemma_process_outer(gs: Seq<Group>, n: nat, d: nat)
    requires
        top_groups(gs, n, d),
        d < max_depth(),
    ensures
        spec_process(spec_render(gs, n), n) == Some(Ok::<Seq<char>, Error>(spec_render(gs, n))),
{
    let rg = render_groups(n, gs);
    let x = indent_newlines(rg, tabs(0));
    lemma_indent_empty(rg);
    assert(tabs(0) =~= Seq::<char>::empty());
    assert(x == rg);
    let close = seq!['\n'] + tabs(0) + seq!['}'];
    let o = spec_render(gs, n);
    assert(o =~= tabs(n) + seq!['{'] + x + close);
    lemma_tabs_plain(n);
    assert forall|i: int| 0 <= i < n implies is_ws(#[trigger] o[i]) && char_len(o[i]) == 1 by {
        assert(o[i] == tabs(n)[i]);
    }
    assert(o[n as int] == '{');
    lemma_token_end_at(o, n as int);
    let body = o.skip(n + 1int);
    assert(body =~= x + close);
    lemma_scan_groups_outer(n, gs, close, d);
    lemma_scan_close_at(n, 0);
    let es2 = flat_entries(gs) + Seq::<(Seq<char>, Seq<char>)>::empty();
    assert(es2 =~= flat_entries(gs));
    let m = (x.len() + 2) as nat;
    assert(spec_scan(body, None, n) == Some(Ok::<(Seq<(Seq<char>, Seq<char>)>, nat), Error>((es2, m))));
    assert(body.skip(m as int) =~= Seq::<char>::empty());
    lemma_trim_empty(body.skip(m as int));
    lemma_regroup(gs);
}

/// What processing the block `c` at indentation `n` reads is written back as
/// it was read: its own string values do not start with `{` (keys and values
/// of the block itself may hold any other character but a quote), and every
/// string read in its nested blocks is plain (see `plain_process`). Reading
/// stops being checked where it fails.
pub open spec fn outer_process(c: Seq<char>, n: nat) -> bool {
    match first_real(c) {
        Some(ch) => if ch == '{' {
            match token_end(c) {
                Some(k) => outer_scan(c.skip(k as int), None, n),
                None => true,
            }
        } else {
            true
        },
        None => true,
    }
}

/// `outer_process` for the entries read from `s`, where `key` is a key that
/// was read and waits for its value.
pub open spec fn outer_scan(s: Seq<char>, key: Option<Seq<char>>, n: nat) -> bool
    decreases s.len(),
{
    match first_real(s) {
        None => true,
        Some(c) => if c == '"' {
            match spec_parse_string(s) {
                Some(Ok((text, k))) => {
                    proof {
                        lemma_parse_string_bounds(s);
                    }
                    match key {
                        None => outer_scan(s.skip(k as int), Some(text), n),
                        Some(_) => first_real(text) != Some('{') && outer_scan(
                            s.skip(k as int),
                            None,
                            n,
                        ),
                    }
                },
                _ => true,
            }
        } else if c == '{' {
            match key {
                None => true,
                Some(_) => match spec_parse_block(s) {
                    Some(Ok((leaf, k))) => {
                        proof {
                            lemma_parse_block_bounds(s);
                        }
                        plain_process(leaf, n + 1) && outer_scan(s.skip(k as int), None, n)
                    },
                    _ => true,
                },
            }
        } else {
            true
        },
    }
}

proof fn lemma_top_value_mono(v: Seq<char>, n: nat, d: nat, e: nat)
    requires
        top_value(v, n, d),
        d <= e,
    ensures
        top_value(v, n, e),
{
    if !outer_value(v) {
        lemma_rendered_block_mono(v, n + 1, (d - 1) as nat, (e - 1) as nat);
    }
}

/// The text that reading a quoted string gives holds no quote.
proof fn lemma_parse_string_quoted(s: Seq<char>)
    ensures
        spec_parse_string(s) matches Some(Ok((text, k))) ==> quoted(text),
{
    if let Some(Ok((text, k))) = spec_parse_string(s) {
        let kk = token_end(s).unwrap();
        let t = s.skip(kk as int);
        crate::text::lemma_index_of_props(t, '"');
        assert forall|i: int| 0 <= i < text.len() implies #[trigger] text[i] != '"' by {
            assert(text[i] == t[i]);
        }
    }
}

/// The entries read from `s` under `outer_scan`: keys without quotes, and
/// values that are written back as they were read.
proof fn lemma_outer_scan(s: Seq<char>, key: Option<Seq<char>>, n: nat)
    requires
        outer_scan(s, key, n),
        key matches Some(kk) ==> quoted(kk),
    ensures
        spec_scan(s, key, n) matches Some(Ok((es, m))) ==> forall|i: int|
            0 <= i < es.len() ==> quoted((#[trigger] es[i]).0) && top_value(es[i].1, n, s.len() + 1),
    decreases s.len(),
{
    if let Some(Ok((es, m))) = spec_scan(s, key, n) {
        let c = first_real(s).unwrap();
        if c == '"' {
            let (text, k) = spec_parse_string(s).unwrap().unwrap();
            lemma_parse_string_bounds(s);
            lemma_parse_string_quoted(s);
            let rest = s.skip(k as int);
            match key {
                None => {
                    lemma_outer_scan(rest, Some(text), n);
                    let (es2, m2) = spec_scan(rest, Some(text), n).unwrap().unwrap();
                    assert(es =~= Seq::<(Seq<char>, Seq<char>)>::empty() + es2);
                    assert forall|i: int| 0 <= i < es.len() implies quoted((#[trigger] es[i]).0)
                        && top_value(es[i].1, n, s.len() + 1) by {
                        assert(es[i] == es2[i]);
                        lemma_top_value_mono(es2[i].1, n, rest.len() + 1, s.len() + 1);
                    }
                },
                Some(kk) => {
                    lemma_outer_scan(rest, None, n);
                    let (es2, m2) = spec_scan(rest, None, n).unwrap().unwrap();
                    assert(es =~= seq![(kk, text)] + es2);
                    assert(outer_value(text));
                    assert forall|i: int| 0 <= i < es.len() implies quoted((#[trigger] es[i]).0)
                        && top_value(es[i].1, n, s.len() + 1) by {
                        if i > 0 {
                            assert(es[i] == es2[i - 1]);
                            lemma_top_value_mono(es2[i - 1].1, n, rest.len() + 1, s.len() + 1);
                        }
                    }
                },
            }
        } else if c == '{' {
            let kk = key.unwrap();
            let (leaf, k) = spec_parse_block(s).unwrap().unwrap();
            lemma_parse_block_bounds(s);
            let out = spec_process(leaf, n + 1).unwrap().unwrap();
            lemma_process_plain(leaf, n + 1);
            lemma_rendered_block_mono(out, n + 1, leaf.len(), s.len());
            let rest = s.skip(k as int);
            lemma_outer_scan(rest, None, n);
            let (es2, m2) = spec_scan(rest, None, n).unwrap().unwrap();
            assert(es =~= seq![(kk, out)] + es2);
            assert forall|i: int| 0 <= i < es.len() implies quoted((#[trigger] es[i]).0) && top_value(
                es[i].1,
                n,
                s.len() + 1,
            ) by {
                if i > 0 {
                    assert(es[i] == es2[i - 1]);
                    lemma_top_value_mono(es2[i - 1].1, n, rest.len() + 1, s.len() + 1);
                }
            }
        } else {
            assert(es.len() == 0);
        }
    }
}

/// What processing a block under `outer_process` writes is processed to
/// itself.
proof fn lemma_outer_process(c: Seq<char>, n: nat)
    requires
        outer_process(c, n),
        c.len() < max_depth(),
    ensures
        spec_process(c, n) matches Some(Ok(o)) ==> spec_process(o, n) == Some(Ok::<Seq<char>, Error>(o)),
{
    if let Some(Ok(o)) = spec_process(c, n) {
        let k = token_end(c).unwrap();
        lemma_token_end_bounds(c);
        let body = c.skip(k as int);
        lemma_outer_scan(body, None, n);
        let (es, m) = spec_scan(body, None, n).unwrap().unwrap();
        assert forall|i: int| 0 <= i < es.len() implies quoted((#[trigger] es[i]).0) && top_value(
            es[i].1,
            n,
            c.len(),
        ) by {
            lemma_top_value_mono(es[i].1, n, body.len() + 1, c.len());
        }
        let gs = group_entries(es);
        lemma_group_entries(es);
        let kp = |k: Seq<char>| quoted(k);
        let vp = |v: Seq<char>| top_value(v, n, c.len());
        lemma_group_entries_hold(es, kp, vp);
        assert(o == spec_render(gs, n));
        assert(top_groups(gs, n, c.len()));
        lemma_process_outer(gs, n, c.len());
    }
}

/// Processing a block and then processing the result again gives that result
/// back unchanged, where what the block holds is written back as it was read
/// (`outer_process`): its own string values do not start with `{`, and the
/// strings of its nested blocks hold no quote, brace or line break.
pub proof fn law_process_twice(c: Seq<char>, n: nat)
    requires
        outer_process(c, n),
        c.len() < max_depth(),
    ensures
        spec_process(c, n) matches Some(Ok(o)) ==> spec_process(o, n) == Some(Ok::<Seq<char>, Error>(o)),
{
    lemma_outer_process(c, n);
}

} // verus!
