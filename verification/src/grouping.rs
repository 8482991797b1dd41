//! Grouping the entries of a block by key: the keys in ascending order (the
//! order of `String`'s `Ord`, which is the order of code points), and the
//! values of each key in the order in which they came.
use vstd::prelude::*;

verus! {

/// `a` comes before `b` in lexicographic order of code points (the order of
/// `String`'s `Ord`: UTF-8 keeps the order of code points).
pub open spec fn lex_lt(a: Seq<char>, b: Seq<char>) -> bool
    decreases a.len(),
{
    if a.len() == 0 {
        b.len() > 0
    } else if b.len() == 0 {
        false
    } else if a[0] < b[0] {
        true
    } else if a[0] == b[0] {
        lex_lt(a.drop_first(), b.drop_first())
    } else {
        false
    }
}

/// A key with the values that were given for it.
pub type Group = (Seq<char>, Seq<Seq<char>>);

/// Adds the entry `key`-`val` to groups that are sorted by key.
pub open spec fn add_entry(gs: Seq<Group>, key: Seq<char>, val: Seq<char>) -> Seq<Group>
    decreases gs.len(),
{
    if gs.len() == 0 {
        seq![(key, seq![val])]
    } else if gs[0].0 == key {
        gs.update(0, (key, gs[0].1.push(val)))
    } else if lex_lt(key, gs[0].0) {
        seq![(key, seq![val])] + gs
    } else {
        seq![gs[0]] + add_entry(gs.drop_first(), key, val)
    }
}

/// The entries grouped by key, the keys in ascending order.
pub open spec fn group_entries(es: Seq<(Seq<char>, Seq<char>)>) -> Seq<Group>
    decreases es.len(),
{
    if es.len() == 0 {
        seq![]
    } else {
        add_entry(group_entries(es.drop_last()), es.last().0, es.last().1)
    }
}

/// The values given for `key`, in the order in which they came.
pub open spec fn values_of(es: Seq<(Seq<char>, Seq<char>)>, key: Seq<char>) -> Seq<Seq<char>>
    decreases es.len(),
{
    if es.len() == 0 {
        seq![]
    } else if es.last().0 == key {
        values_of(es.drop_last(), key).push(es.last().1)
    } else {
        values_of(es.drop_last(), key)
    }
}

/// The keys of `gs` are in strictly ascending order.
pub open spec fn keys_ascending(gs: Seq<Group>) -> bool {
    forall|i: int, j: int| 0 <= i < j < gs.len() ==> lex_lt(#[trigger] gs[i].0, #[trigger] gs[j].0)
}

pub proof fn lemma_lex_irreflexive(a: Seq<char>)
    ensures
        !lex_lt(a, a),
    decreases a.len(),
{
    if a.len() > 0 {
        lemma_lex_irreflexive(a.drop_first());
    }
}

pub proof fn lemma_lex_asymmetric(a: Seq<char>, b: Seq<char>)
    ensures
        lex_lt(a, b) ==> !lex_lt(b, a),
    decreases a.len(),
{
    if a.len() > 0 && b.len() > 0 && a[0] == b[0] {
        lemma_lex_asymmetric(a.drop_first(), b.drop_first());
    }
}

pub proof fn lemma_lex_total(a: Seq<char>, b: Seq<char>)
    ensures
        a != b ==> lex_lt(a, b) || lex_lt(b, a),
    decreases a.len(),
{
    if a.len() == 0 {
        if b.len() == 0 {
            assert(a =~= b);
        }
    } else if b.len() > 0 && a[0] == b[0] {
        lemma_lex_total(a.drop_first(), b.drop_first());
        if a.drop_first() == b.drop_first() {
            assert(a.drop_first().len() == a.len() - 1);
            assert(b.drop_first().len() == b.len() - 1);
            assert(a.len() == b.len());
            assert(a =~= b) by {
                assert forall|i: int| 0 <= i < a.len() implies a[i] == b[i] by {
                    if i > 0 {
                        assert(a[i] == a.drop_first()[i - 1]);
                        assert(b[i] == b.drop_first()[i - 1]);
                    }
                }
            }
        }
    }
}

pub proof fn lemma_lex_transitive(a: Seq<char>, b: Seq<char>, c: Seq<char>)
    requires
        lex_lt(a, b),
        lex_lt(b, c),
    ensures
        lex_lt(a, c),
    decreases a.len(),
{
    if a.len() > 0 && b.len() > 0 && c.len() > 0 && a[0] == b[0] && b[0] == c[0] {
        lemma_lex_transitive(a.drop_first(), b.drop_first(), c.drop_first());
    }
}

/// Compares `a` and `b`: negative where `a` comes first, zero where they are
/// equal, positive where `b` comes first.
pub fn compare_chars(a: &Vec<char>, b: &Vec<char>) -> (r: i8)
    ensures
        (r == 0) == (a@ == b@),
        (r < 0) == lex_lt(a@, b@),
        (r > 0) == lex_lt(b@, a@),
{
    let mut i: usize = 0;
    proof {
        assert(a@.skip(0) =~= a@);
        assert(b@.skip(0) =~= b@);
    }
    while i < a.len() && i < b.len() && a[i] == b[i]
        invariant
            i <= a@.len(),
            i <= b@.len(),
            forall|j: int| 0 <= j < i ==> a@[j] == b@[j],
            lex_lt(a@, b@) == lex_lt(a@.skip(i as int), b@.skip(i as int)),
            lex_lt(b@, a@) == lex_lt(b@.skip(i as int), a@.skip(i as int)),
        decreases a@.len() - i,
    {
        proof {
            assert(a@.skip(i as int).drop_first() =~= a@.skip(i + 1));
            assert(b@.skip(i as int).drop_first() =~= b@.skip(i + 1));
        }
        i = i + 1;
    }
    proof {
        let sa = a@.skip(i as int);
        let sb = b@.skip(i as int);
        assert(sa.len() == a@.len() - i);
        assert(sb.len() == b@.len() - i);
        if i < a@.len() {
            assert(sa[0] == a@[i as int]);
        }
        if i < b@.len() {
            assert(sb[0] == b@[i as int]);
        }
        lemma_lex_irreflexive(a@);
        lemma_lex_asymmetric(a@, b@);
        lemma_lex_total(a@, b@);
        if i == a@.len() && i == b@.len() {
            assert(a@ =~= b@);
        }
    }
    if i == a.len() && i == b.len() {
        0
    } else if i == a.len() {
        -1
    } else if i == b.len() {
        1
    } else if a[i] < b[i] {
        -1
    } else {
        proof {
            assert(a@[i as int] != b@[i as int]);
        }
        1
    }
}

/// A key and the values given for it.
pub struct KeyGroup {
    pub key: Vec<char>,
    pub values: Vec<Vec<char>>,
}

pub open spec fn group_view(g: KeyGroup) -> Group {
    (g.key@, g.values@.map_values(|v: Vec<char>| v@))
}

pub open spec fn groups_view(gs: Seq<KeyGroup>) -> Seq<Group> {
    gs.map_values(|g: KeyGroup| group_view(g))
}

/// `add_entry` where the first `i` groups come before `key` and group `i`
/// (if any) does not.
proof fn lemma_add_entry_at(gs: Seq<Group>, key: Seq<char>, val: Seq<char>, i: int)
    requires
        0 <= i <= gs.len(),
        forall|j: int| 0 <= j < i ==> lex_lt(#[trigger] gs[j].0, key),
        i < gs.len() ==> !lex_lt(gs[i].0, key),
    ensures
        add_entry(gs, key, val) == (if i < gs.len() && gs[i].0 == key {
            gs.update(i, (key, gs[i].1.push(val)))
        } else {
            gs.insert(i, (key, seq![val]))
        }),
    decreases i,
{
    if i == 0 {
        if gs.len() > 0 && gs[0].0 != key {
            lemma_lex_total(gs[0].0, key);
        }
        if gs.len() == 0 {
            assert(gs.insert(0, (key, seq![val])) =~= seq![(key, seq![val])]);
        } else if gs[0].0 != key {
            assert(gs.insert(0, (key, seq![val])) =~= seq![(key, seq![val])] + gs);
        }
    } else {
        let t = gs.drop_first();
        assert forall|j: int| 0 <= j < i - 1 implies lex_lt(#[trigger] t[j].0, key) by {
            assert(t[j] == gs[j + 1]);
        }
        lemma_add_entry_at(t, key, val, i - 1);
        lemma_lex_asymmetric(gs[0].0, key);
        lemma_lex_irreflexive(key);
        assert(gs[0].0 != key);
        if i < gs.len() && gs[i].0 == key {
            assert(add_entry(gs, key, val) =~= gs.update(i, (key, gs[i].1.push(val))));
        } else {
            assert(add_entry(gs, key, val) =~= gs.insert(i, (key, seq![val])));
        }
    }
}

/// Adds the entry `key`-`val` to `groups`.
pub fn add_to_groups(groups: &mut Vec<KeyGroup>, key: Vec<char>, val: Vec<char>)
    requires
        forall|i: int| 0 <= i < old(groups)@.len() ==> (#[trigger] old(groups)@[i]).values@.len() > 0,
    ensures
        groups_view(final(groups)@) == add_entry(groups_view(old(groups)@), key@, val@),
        forall|i: int| 0 <= i < final(groups)@.len() ==> (#[trigger] final(groups)@[i]).values@.len() > 0,
{
    let ghost gs = groups_view(groups@);
    let mut i: usize = 0;
    let mut found = false;
    while i < groups.len()
        invariant_except_break
            !found,
            i <= groups@.len(),
            groups@ == old(groups)@,
            gs == groups_view(groups@),
            forall|j: int| 0 <= j < i ==> lex_lt(#[trigger] gs[j].0, key@),
        ensures
            i <= groups@.len(),
            groups@ == old(groups)@,
            gs == groups_view(groups@),
            forall|j: int| 0 <= j < i ==> lex_lt(#[trigger] gs[j].0, key@),
            i < groups@.len() ==> !lex_lt(gs[i as int].0, key@),
            found == (i < groups@.len() && gs[i as int].0 == key@),
        decreases groups@.len() - i,
    {
        let c = compare_chars(&groups[i].key, &key);
        proof {
            assert(gs[i as int] == group_view(groups@[i as int]));
        }
        if c >= 0 {
            found = c == 0;
            break;
        }
        i = i + 1;
    }
    proof {
        lemma_add_entry_at(gs, key@, val@, i as int);
    }
    if found {
        let mut g = groups.remove(i);
        let ghost gv = val@;
        g.values.push(val);
        let ghost gn = g;
        groups.insert(i, g);
        proof {
            assert(groups@ =~= old(groups)@.update(i as int, gn));
            assert(forall|j: int| 0 <= j < groups@.len() ==> (#[trigger] groups@[j]).values@.len() > 0);
            assert(gn.values@.map_values(|v: Vec<char>| v@) =~= gs[i as int].1.push(gv));
            assert(groups_view(groups@) =~= gs.update(i as int, (key@, gs[i as int].1.push(gv))));
        }
    } else {
        let ghost k = key@;
        let ghost gv = val@;
        let mut values: Vec<Vec<char>> = Vec::new();
        values.push(val);
        let g = KeyGroup { key, values };
        let ghost gn = g;
        groups.insert(i, g);
        proof {
            assert(groups@ =~= old(groups)@.insert(i as int, gn));
            assert forall|j: int| 0 <= j < groups@.len() implies (#[trigger] groups@[j]).values@.len() > 0 by {
                if j > i {
                    assert(groups@[j] == old(groups)@[j - 1]);
                }
            }
            assert(gn.values@.map_values(|v: Vec<char>| v@) =~= seq![gv]);
            assert(groups_view(groups@) =~= gs.insert(i as int, (k, seq![gv])));
        }
    }
}

/// The values of the group whose key is `k`, or none.
pub open spec fn group_of(gs: Seq<Group>, k: Seq<char>) -> Seq<Seq<char>>
    decreases gs.len(),
{
    if gs.len() == 0 {
        seq![]
    } else if gs[0].0 == k {
        gs[0].1
    } else {
        group_of(gs.drop_first(), k)
    }
}

/// Every group has at least one value.
pub open spec fn groups_nonempty(gs: Seq<Group>) -> bool {
    forall|i: int| 0 <= i < gs.len() ==> (#[trigger] gs[i]).1.len() > 0
}

proof fn lemma_below_all_absent(gs: Seq<Group>, k: Seq<char>)
    requires
        keys_ascending(gs),
        gs.len() > 0 ==> lex_lt(k, gs[0].0),
    ensures
        group_of(gs, k) == Seq::<Seq<char>>::empty(),
    decreases gs.len(),
{
    if gs.len() > 0 {
        lemma_lex_irreflexive(k);
        let t = gs.drop_first();
        assert forall|i: int, j: int| 0 <= i < j < t.len() implies lex_lt(
            #[trigger] t[i].0,
            #[trigger] t[j].0,
        ) by {
            assert(t[i] == gs[i + 1] && t[j] == gs[j + 1]);
        }
        if t.len() > 0 {
            assert(t[0] == gs[1]);
            lemma_lex_transitive(k, gs[0].0, gs[1].0);
        }
        lemma_below_all_absent(t, k);
    }
}

proof fn lemma_add_entry_bound(gs: Seq<Group>, key: Seq<char>, val: Seq<char>, lo: Seq<char>)
    requires
        lex_lt(lo, key),
        forall|i: int| 0 <= i < gs.len() ==> lex_lt(lo, #[trigger] gs[i].0),
    ensures
        forall|i: int| 0 <= i < add_entry(gs, key, val).len() ==> lex_lt(lo, #[trigger] add_entry(gs, key, val)[i].0),
    decreases gs.len(),
{
    if gs.len() > 0 && gs[0].0 != key && !lex_lt(key, gs[0].0) {
        let t = gs.drop_first();
        assert forall|i: int| 0 <= i < t.len() implies lex_lt(lo, #[trigger] t[i].0) by {
            assert(t[i] == gs[i + 1]);
        }
        lemma_add_entry_bound(t, key, val, lo);
        let a = add_entry(gs, key, val);
        assert forall|i: int| 0 <= i < a.len() implies lex_lt(lo, #[trigger] a[i].0) by {
            if i > 0 {
                assert(a[i] == add_entry(t, key, val)[i - 1]);
            }
        }
    }
}

/// Adding an entry keeps the groups sorted, each with a value, and adds the
/// value to its key's values only.
pub proof fn lemma_add_entry(gs: Seq<Group>, key: Seq<char>, val: Seq<char>)
    requires
        keys_ascending(gs),
        groups_nonempty(gs),
    ensures
        keys_ascending(add_entry(gs, key, val)),
        groups_nonempty(add_entry(gs, key, val)),
        forall|k: Seq<char>|
            #[trigger] group_of(add_entry(gs, key, val), k) == if k == key {
                group_of(gs, k).push(val)
            } else {
                group_of(gs, k)
            },
    decreases gs.len(),
{
    let a = add_entry(gs, key, val);
    if gs.len() == 0 {
        assert forall|k: Seq<char>| #[trigger] group_of(a, k) == if k == key {
            group_of(gs, k).push(val)
        } else {
            group_of(gs, k)
        } by {
            assert(a == seq![(key, seq![val])]);
            assert(a[0] == (key, seq![val]));
            assert(a.drop_first() =~= Seq::<Group>::empty());
            assert(seq![val] =~= Seq::<Seq<char>>::empty().push(val));
            if k != key {
                assert(group_of(a, k) == group_of(a.drop_first(), k));
            }
        }
    } else if gs[0].0 == key {
        assert(a.drop_first() =~= gs.drop_first());
        assert forall|i: int, j: int| 0 <= i < j < a.len() implies lex_lt(
            #[trigger] a[i].0,
            #[trigger] a[j].0,
        ) by {
            assert(a[i].0 == gs[i].0 && a[j].0 == gs[j].0);
        }
    } else if lex_lt(key, gs[0].0) {
        lemma_below_all_absent(gs, key);
        assert(a.drop_first() =~= gs);
        assert forall|i: int, j: int| 0 <= i < j < a.len() implies lex_lt(
            #[trigger] a[i].0,
            #[trigger] a[j].0,
        ) by {
            if i == 0 {
                if j > 1 {
                    lemma_lex_transitive(key, gs[0].0, gs[j - 1].0);
                }
            } else {
                assert(a[i] == gs[i - 1] && a[j] == gs[j - 1]);
            }
        }
        assert forall|k: Seq<char>| #[trigger] group_of(a, k) == if k == key {
            group_of(gs, k).push(val)
        } else {
            group_of(gs, k)
        } by {
            assert(seq![val] =~= Seq::<Seq<char>>::empty().push(val));
        }
        assert forall|i: int| 0 <= i < a.len() implies (#[trigger] a[i]).1.len() > 0 by {
            if i > 0 {
                assert(a[i] == gs[i - 1]);
            }
        }
    } else {
        let t = gs.drop_first();
        assert forall|i: int, j: int| 0 <= i < j < t.len() implies lex_lt(
            #[trigger] t[i].0,
            #[trigger] t[j].0,
        ) by {
            assert(t[i] == gs[i + 1] && t[j] == gs[j + 1]);
        }
        assert forall|i: int| 0 <= i < t.len() implies (#[trigger] t[i]).1.len() > 0 by {
            assert(t[i] == gs[i + 1]);
        }
        lemma_add_entry(t, key, val);
        let at = add_entry(t, key, val);
        assert(a == seq![gs[0]] + at);
        assert(a.drop_first() =~= at);
        lemma_lex_total(gs[0].0, key);
        assert forall|i: int| 0 <= i < t.len() implies lex_lt(gs[0].0, #[trigger] t[i].0) by {
            assert(t[i] == gs[i + 1]);
        }
        lemma_add_entry_bound(t, key, val, gs[0].0);
        assert forall|i: int, j: int| 0 <= i < j < a.len() implies lex_lt(
            #[trigger] a[i].0,
            #[trigger] a[j].0,
        ) by {
            if i == 0 {
                assert(a[j] == at[j - 1]);
            } else {
                assert(a[i] == at[i - 1] && a[j] == at[j - 1]);
            }
        }
        assert forall|i: int| 0 <= i < a.len() implies (#[trigger] a[i]).1.len() > 0 by {
            if i > 0 {
                assert(a[i] == at[i - 1]);
            }
        }
        assert forall|k: Seq<char>| #[trigger] group_of(a, k) == if k == key {
            group_of(gs, k).push(val)
        } else {
            group_of(gs, k)
        } by {
            assert(group_of(at, k) == if k == key {
                group_of(t, k).push(val)
            } else {
                group_of(t, k)
            });
        }
    }
}

/// Grouping gives the keys in strictly ascending order, each key once with
/// at least one value, and for every key exactly the values given for it, in
/// the order in which they came.
pub proof fn lemma_group_entries(es: Seq<(Seq<char>, Seq<char>)>)
    ensures
        keys_ascending(group_entries(es)),
        groups_nonempty(group_entries(es)),
        forall|k: Seq<char>| #[trigger] group_of(group_entries(es), k) == values_of(es, k),
    decreases es.len(),
{
    if es.len() > 0 {
        lemma_group_entries(es.drop_last());
        lemma_add_entry(group_entries(es.drop_last()), es.last().0, es.last().1);
        assert forall|k: Seq<char>| #[trigger] group_of(group_entries(es), k) == values_of(es, k) by {
            assert(group_of(group_entries(es.drop_last()), k) == values_of(es.drop_last(), k));
        }
    }
}

proof fn lemma_group_of_tail(gs: Seq<Group>, k: Seq<char>)
    requires
        keys_ascending(gs),
        gs.len() > 0,
    ensures
        group_of(gs.drop_first(), k) == if k == gs[0].0 {
            Seq::<Seq<char>>::empty()
        } else {
            group_of(gs, k)
        },
{
    let t = gs.drop_first();
    assert forall|i: int, j: int| 0 <= i < j < t.len() implies lex_lt(
        #[trigger] t[i].0,
        #[trigger] t[j].0,
    ) by {
        assert(t[i] == gs[i + 1] && t[j] == gs[j + 1]);
    }
    if k == gs[0].0 && t.len() > 0 {
        assert(t[0] == gs[1]);
        lemma_below_all_absent(t, k);
    }
}

/// Sorted groups, each with a value, are determined by the values of each key.
pub proof fn lemma_groups_unique(gs1: Seq<Group>, gs2: Seq<Group>)
    requires
        keys_ascending(gs1),
        keys_ascending(gs2),
        groups_nonempty(gs1),
        groups_nonempty(gs2),
        forall|k: Seq<char>| #[trigger] group_of(gs1, k) == group_of(gs2, k),
    ensures
        gs1 == gs2,
    decreases gs1.len() + gs2.len(),
{
    if gs1.len() == 0 && gs2.len() == 0 {
        assert(gs1 =~= gs2);
    } else if gs1.len() == 0 {
        assert(group_of(gs2, gs2[0].0) == gs2[0].1);
        assert(group_of(gs1, gs2[0].0).len() == 0);
        assert(gs2[0].1.len() > 0);
    } else if gs2.len() == 0 {
        assert(group_of(gs1, gs1[0].0) == gs1[0].1);
        assert(group_of(gs2, gs1[0].0).len() == 0);
        assert(gs1[0].1.len() > 0);
    } else {
        let k1 = gs1[0].0;
        let k2 = gs2[0].0;
        if k1 != k2 {
            lemma_lex_total(k1, k2);
            if lex_lt(k1, k2) {
                lemma_below_all_absent(gs2, k1);
                assert(group_of(gs1, k1) == gs1[0].1);
                assert(gs1[0].1.len() > 0);
            } else {
                lemma_below_all_absent(gs1, k2);
                assert(group_of(gs2, k2) == gs2[0].1);
                assert(gs2[0].1.len() > 0);
            }
        } else {
            assert(gs1[0].1 == group_of(gs1, k1));
            assert(gs2[0].1 == group_of(gs2, k1));
            let t1 = gs1.drop_first();
            let t2 = gs2.drop_first();
            assert forall|k: Seq<char>| #[trigger] group_of(t1, k) == group_of(t2, k) by {
                lemma_group_of_tail(gs1, k);
                lemma_group_of_tail(gs2, k);
            }
            assert forall|i: int, j: int| 0 <= i < j < t1.len() implies lex_lt(
                #[trigger] t1[i].0,
                #[trigger] t1[j].0,
            ) by {
                assert(t1[i] == gs1[i + 1] && t1[j] == gs1[j + 1]);
            }
            assert forall|i: int, j: int| 0 <= i < j < t2.len() implies lex_lt(
                #[trigger] t2[i].0,
                #[trigger] t2[j].0,
            ) by {
                assert(t2[i] == gs2[i + 1] && t2[j] == gs2[j + 1]);
            }
            assert forall|i: int| 0 <= i < t1.len() implies (#[trigger] t1[i]).1.len() > 0 by {
                assert(t1[i] == gs1[i + 1]);
            }
            assert forall|i: int| 0 <= i < t2.len() implies (#[trigger] t2[i]).1.len() > 0 by {
                assert(t2[i] == gs2[i + 1]);
            }
            lemma_groups_unique(t1, t2);
            assert(gs1 =~= seq![gs1[0]] + t1);
            assert(gs2 =~= seq![gs2[0]] + t2);
        }
    }
}

/// Grouping depends only on the values given for each key, in their order:
/// entries may be reordered freely as long as the values of each key keep
/// their relative order.
pub proof fn law_grouping_order_insensitive(
    es1: Seq<(Seq<char>, Seq<char>)>,
    es2: Seq<(Seq<char>, Seq<char>)>,
)
    requires
        forall|k: Seq<char>| #[trigger] values_of(es1, k) == values_of(es2, k),
    ensures
        group_entries(es1) == group_entries(es2),
{
    lemma_group_entries(es1);
    lemma_group_entries(es2);
    assert forall|k: Seq<char>| #[trigger] group_of(group_entries(es1), k) == group_of(
        group_entries(es2),
        k,
    ) by {
        assert(values_of(es1, k) == values_of(es2, k));
    }
    lemma_groups_unique(group_entries(es1), group_entries(es2));
}

} // verus!
