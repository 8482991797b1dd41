//! Characters, whitespace and UTF-8 byte arithmetic over `Seq<char>`, with the
//! executable helpers that scan a `Vec<char>`.
use vstd::prelude::*;

verus! {

/// Unicode `White_Space`, which is what `char::is_whitespace` tests.
pub open spec fn is_ws(c: char) -> bool {
    let u = c as u32;
    ||| 0x09 <= u <= 0x0d
    ||| u == 0x20
    ||| u == 0x85
    ||| u == 0xa0
    ||| u == 0x1680
    ||| 0x2000 <= u <= 0x200a
    ||| u == 0x2028
    ||| u == 0x2029
    ||| u == 0x202f
    ||| u == 0x205f
    ||| u == 0x3000
}

/// Whether `c` is whitespace in the sense of `char::is_whitespace`.
pub fn is_whitespace(c: char) -> (b: bool)
    ensures
        b == is_ws(c),
{
    let u = c as u32;
    (0x09 <= u && u <= 0x0d) || u == 0x20 || u == 0x85 || u == 0xa0 || u == 0x1680 || (0x2000
        <= u && u <= 0x200a) || u == 0x2028 || u == 0x2029 || u == 0x202f || u == 0x205f || u
        == 0x3000
}

/// The number of bytes of `c` in UTF-8 (`char::len_utf8`).
pub open spec fn char_len(c: char) -> nat {
    let u = c as u32;
    if u < 0x80 {
        1
    } else if u < 0x800 {
        2
    } else if u < 0x10000 {
        3
    } else {
        4
    }
}

/// The number of bytes of `s` in UTF-8.
pub open spec fn byte_len(s: Seq<char>) -> nat
    decreases s.len(),
{
    if s.len() == 0 {
        0
    } else {
        byte_len(s.drop_last()) + char_len(s.last())
    }
}

/// The number of characters of `s` that start at byte offset `b`, if `b` is a
/// character boundary of `s`; `None` where slicing `s` at `b` would panic.
pub open spec fn boundary(s: Seq<char>, b: int) -> Option<nat> {
    if exists|k: nat| k <= s.len() && byte_len(s.take(k as int)) == b {
        Some(choose|k: nat| k <= s.len() && byte_len(s.take(k as int)) == b)
    } else {
        None
    }
}

/// The number of whitespace characters at the start of `s`.
pub open spec fn leading_ws(s: Seq<char>) -> nat
    decreases s.len(),
{
    if s.len() == 0 {
        0
    } else if is_ws(s[0]) {
        1 + leading_ws(s.drop_first())
    } else {
        0
    }
}

/// The first character of `s` that is not whitespace.
pub open spec fn first_real(s: Seq<char>) -> Option<char> {
    if leading_ws(s) < s.len() {
        Some(s[leading_ws(s) as int])
    } else {
        None
    }
}

/// The index of the first `c` in `s`.
pub open spec fn index_of(s: Seq<char>, c: char) -> Option<nat>
    decreases s.len(),
{
    if s.len() == 0 {
        None
    } else if s[0] == c {
        Some(0)
    } else {
        match index_of(s.drop_first(), c) {
            Some(i) => Some(i + 1),
            None => None,
        }
    }
}

/// The number of whitespace characters at the end of `s`.
pub open spec fn trailing_ws(s: Seq<char>) -> nat
    decreases s.len(),
{
    if s.len() == 0 {
        0
    } else if is_ws(s.last()) {
        1 + trailing_ws(s.drop_last())
    } else {
        0
    }
}

/// `s` without whitespace at either end (`str::trim`).
pub open spec fn trim(s: Seq<char>) -> Seq<char> {
    let t = s.skip(leading_ws(s) as int);
    t.take(t.len() - trailing_ws(t))
}

/// A sequence of `n` tab characters.
pub open spec fn tabs(n: nat) -> Seq<char> {
    Seq::new(n, |i: int| '\t')
}

pub proof fn lemma_char_len_bounds(c: char)
    ensures
        1 <= char_len(c) <= 4,
{
}

pub proof fn lemma_byte_len_take_succ(s: Seq<char>, k: int)
    requires
        0 <= k < s.len(),
    ensures
        byte_len(s.take(k + 1)) == byte_len(s.take(k)) + char_len(s[k]),
{
    assert(s.take(k + 1).drop_last() =~= s.take(k));
}

/// `byte_len(s.take(k))` grows strictly with `k`.
pub proof fn lemma_byte_len_take_strict(s: Seq<char>, i: int, j: int)
    requires
        0 <= i < j <= s.len(),
    ensures
        byte_len(s.take(i)) < byte_len(s.take(j)),
    decreases j - i,
{
    lemma_byte_len_take_succ(s, j - 1);
    if i < j - 1 {
        lemma_byte_len_take_strict(s, i, j - 1);
    }
}

/// A byte offset that some prefix of `s` has is the boundary of that prefix.
pub proof fn lemma_boundary_at(s: Seq<char>, k: nat)
    requires
        k <= s.len(),
    ensures
        boundary(s, byte_len(s.take(k as int)) as int) == Some(k),
{
    let b = byte_len(s.take(k as int)) as int;
    assert(k <= s.len() && byte_len(s.take(k as int)) == b);
    let c = choose|c: nat| c <= s.len() && byte_len(s.take(c as int)) == b;
    if c < k {
        lemma_byte_len_take_strict(s, c as int, k as int);
    } else if k < c {
        lemma_byte_len_take_strict(s, k as int, c as int);
    }
}

/// No boundary lies strictly between two consecutive prefixes.
pub proof fn lemma_no_boundary_between(s: Seq<char>, k: nat, b: int)
    requires
        k < s.len(),
        byte_len(s.take(k as int)) < b < byte_len(s.take(k as int + 1)),
    ensures
        boundary(s, b) is None,
{
    if exists|c: nat| c <= s.len() && byte_len(s.take(c as int)) == b {
        let c = choose|c: nat| c <= s.len() && byte_len(s.take(c as int)) == b;
        if c <= k {
            if c < k {
                lemma_byte_len_take_strict(s, c as int, k as int);
            }
        } else {
            if c > k + 1 {
                lemma_byte_len_take_strict(s, k as int + 1, c as int);
            }
        }
    }
}

pub proof fn lemma_leading_ws(s: Seq<char>, i: int)
    requires
        0 <= i <= s.len(),
        forall|j: int| 0 <= j < i ==> is_ws(#[trigger] s[j]),
        i == s.len() || !is_ws(s[i]),
    ensures
        leading_ws(s) == i,
    decreases i,
{
    if i > 0 {
        let t = s.drop_first();
        assert forall|j: int| 0 <= j < i - 1 implies is_ws(#[trigger] t[j]) by {
            assert(t[j] == s[j + 1]);
        }
        lemma_leading_ws(t, i - 1);
    }
}

pub proof fn lemma_leading_ws_props(s: Seq<char>)
    ensures
        leading_ws(s) <= s.len(),
        forall|j: int| 0 <= j < leading_ws(s) ==> is_ws(#[trigger] s[j]),
        leading_ws(s) < s.len() ==> !is_ws(s[leading_ws(s) as int]),
    decreases s.len(),
{
    if s.len() > 0 && is_ws(s[0]) {
        let t = s.drop_first();
        lemma_leading_ws_props(t);
        assert forall|j: int| 0 <= j < leading_ws(s) implies is_ws(#[trigger] s[j]) by {
            if j > 0 {
                assert(s[j] == t[j - 1]);
            }
        }
    }
}

pub proof fn lemma_index_of(s: Seq<char>, c: char, i: int)
    requires
        0 <= i <= s.len(),
        forall|j: int| 0 <= j < i ==> #[trigger] s[j] != c,
        i == s.len() || s[i] == c,
    ensures
        index_of(s, c) == (if i == s.len() {
            None::<nat>
        } else {
            Some(i as nat)
        }),
    decreases i,
{
    if i > 0 {
        let t = s.drop_first();
        assert forall|j: int| 0 <= j < i - 1 implies #[trigger] t[j] != c by {
            assert(t[j] == s[j + 1]);
        }
        lemma_index_of(t, c, i - 1);
    }
}

pub proof fn lemma_index_of_props(s: Seq<char>, c: char)
    ensures
        index_of(s, c) matches Some(i) ==> i < s.len() && s[i as int] == c && forall|j: int|
            0 <= j < i ==> #[trigger] s[j] != c,
        index_of(s, c) is None ==> forall|j: int| 0 <= j < s.len() ==> #[trigger] s[j] != c,
    decreases s.len(),
{
    if s.len() > 0 && s[0] != c {
        let t = s.drop_first();
        lemma_index_of_props(t, c);
        assert forall|j: int| 0 <= j < s.len() && index_of(t, c) is None implies #[trigger] s[j]
            != c by {
            if j > 0 {
                assert(s[j] == t[j - 1]);
            }
        }
        if let Some(i) = index_of(t, c) {
            assert forall|j: int| 0 <= j < i + 1 implies #[trigger] s[j] != c by {
                if j > 0 {
                    assert(s[j] == t[j - 1]);
                }
            }
        }
    }
}

/// The index of the first character at or after `start` that is not whitespace,
/// or the length of `s` if there is none.
pub fn skip_ws(s: &Vec<char>, start: usize) -> (r: usize)
    requires
        start <= s@.len(),
    ensures
        start <= r <= s@.len() <= usize::MAX,
        r - start == leading_ws(s@.skip(start as int)),
        forall|j: int| start <= j < r ==> is_ws(#[trigger] s@[j]),
        r < s@.len() ==> !is_ws(s@[r as int]),
{
    let mut i = start;
    while i < s.len() && is_whitespace(s[i])
        invariant
            start <= i <= s@.len(),
            forall|j: int| start <= j < i ==> is_ws(#[trigger] s@[j]),
        decreases s@.len() - i,
    {
        i = i + 1;
    }
    proof {
        let t = s@.skip(start as int);
        assert forall|j: int| 0 <= j < i - start implies is_ws(#[trigger] t[j]) by {
            assert(t[j] == s@[start + j]);
        }
        lemma_leading_ws(t, i - start);
    }
    i
}

/// The index of the first `c` at or after `start`, if any.
pub fn find_char(s: &Vec<char>, start: usize, c: char) -> (r: Option<usize>)
    requires
        start <= s@.len(),
    ensures
        s@.len() <= usize::MAX,
        r matches Some(i) ==> index_of(s@.skip(start as int), c) == Some((i - start) as nat)
            && start <= i < s@.len(),
        r is None ==> index_of(s@.skip(start as int), c) is None,
{
    let mut i = start;
    while i < s.len() && s[i] != c
        invariant
            start <= i <= s@.len(),
            forall|j: int| start <= j < i ==> #[trigger] s@[j] != c,
        decreases s@.len() - i,
    {
        i = i + 1;
    }
    proof {
        let t = s@.skip(start as int);
        assert forall|j: int| 0 <= j < i - start implies #[trigger] t[j] != c by {
            assert(t[j] == s@[start + j]);
        }
        lemma_index_of(t, c, i - start);
    }
    if i < s.len() {
        Some(i)
    } else {
        None
    }
}

/// The number of bytes of `c` in UTF-8.
pub fn utf8_len(c: char) -> (n: u128)
    ensures
        n == char_len(c),
{
    let u = c as u32;
    if u < 0x80 {
        1
    } else if u < 0x800 {
        2
    } else if u < 0x10000 {
        3
    } else {
        4
    }
}

/// The number of bytes of `s[a..b]` in UTF-8.
pub fn bytes_between(s: &Vec<char>, a: usize, b: usize) -> (n: u128)
    requires
        a <= b <= s@.len(),
    ensures
        n == byte_len(s@.subrange(a as int, b as int)),
        n <= 4 * (b - a),
{
    let mut acc: u128 = 0;
    let mut i = a;
    while i < b
        invariant
            a <= i <= b <= s@.len(),
            acc == byte_len(s@.subrange(a as int, i as int)),
            acc <= 4 * (i - a),
        decreases b - i,
    {
        proof {
            assert(s@.subrange(a as int, i + 1).drop_last() =~= s@.subrange(a as int, i as int));
        }
        acc = acc + utf8_len(s[i]);
        i = i + 1;
    }
    acc
}

/// The character index, counted from `start`, at which byte offset `b` of
/// `s[start..]` falls, if `b` is a character boundary there.
pub fn boundary_index(s: &Vec<char>, start: usize, b: u128) -> (r: Option<usize>)
    requires
        start <= s@.len(),
    ensures
        s@.len() <= usize::MAX,
        r matches Some(k) ==> boundary(s@.skip(start as int), b as int) == Some(k as nat) && start
            + k <= s@.len(),
        r is None ==> boundary(s@.skip(start as int), b as int) is None,
{
    let ghost t = s@.skip(start as int);
    let mut k: usize = 0;
    let mut acc: u128 = 0;
    while k < s.len() - start && acc < b
        invariant
            start + k <= s@.len(),
            t == s@.skip(start as int),
            acc == byte_len(t.take(k as int)),
            acc <= 4 * k,
            k > 0 ==> byte_len(t.take(k - 1)) < b,
        decreases s@.len() - start - k,
    {
        proof {
            lemma_byte_len_take_succ(t, k as int);
        }
        acc = acc + utf8_len(s[start + k]);
        k = k + 1;
    }
    proof {
        lemma_boundary_at(t, k as nat);
    }
    if acc == b {
        Some(k)
    } else {
        proof {
            if acc < b {
                assert(k == t.len());
                if exists|c: nat| c <= t.len() && byte_len(t.take(c as int)) == b {
                    let c = choose|c: nat| c <= t.len() && byte_len(t.take(c as int)) == b;
                    if c < k {
                        lemma_byte_len_take_strict(t, c as int, k as int);
                    }
                }
            } else {
                lemma_byte_len_take_succ(t, k - 1);
                lemma_no_boundary_between(t, (k - 1) as nat, b as int);
            }
        }
        None
    }
}

/// Appends `c` to `s` (`String::push`).
#[verifier::external_body]
fn push_char(s: &mut String, c: char)
    ensures
        final(s)@ == old(s)@.push(c),
{
    s.push(c);
}

/// The characters of `s`, in order.
pub fn str_to_chars(s: &str) -> (v: Vec<char>)
    ensures
        v@ == s@,
{
    let mut v: Vec<char> = Vec::new();
    for c in it: s.chars()
        invariant
            v@ == it.seq().take(it.index() as int),
            it.seq() == s@,
    {
        v.push(c);
    }
    v
}

/// The string made of the characters `v[start..]`.
pub fn chars_to_string(v: &Vec<char>, start: usize) -> (s: String)
    requires
        start <= v@.len(),
    ensures
        s@ == v@.skip(start as int),
{
    let mut s = String::new();
    let mut i = start;
    while i < v.len()
        invariant
            start <= i <= v@.len(),
            s@ == v@.subrange(start as int, i as int),
        decreases v@.len() - i,
    {
        push_char(&mut s, v[i]);
        i = i + 1;
        assert(s@ =~= v@.subrange(start as int, i as int));
    }
    assert(s@ =~= v@.skip(start as int));
    s
}

proof fn lemma_trailing_ws_props(s: Seq<char>)
    ensures
        trailing_ws(s) <= s.len(),
        forall|j: int| s.len() - trailing_ws(s) <= j < s.len() ==> is_ws(#[trigger] s[j]),
    decreases s.len(),
{
    if s.len() > 0 && is_ws(s.last()) {
        let t = s.drop_last();
        lemma_trailing_ws_props(t);
        assert forall|j: int| s.len() - trailing_ws(s) <= j < s.len() implies is_ws(
            #[trigger] s[j],
        ) by {
            if j < s.len() - 1 {
                assert(s[j] == t[j]);
            }
        }
    }
}

/// `trim(s)` is empty exactly where `s` is all whitespace.
pub proof fn lemma_trim_empty(s: Seq<char>)
    ensures
        (trim(s).len() == 0) == (leading_ws(s) == s.len()),
{
    lemma_leading_ws_props(s);
    let t = s.skip(leading_ws(s) as int);
    lemma_trailing_ws_props(t);
    if leading_ws(s) < s.len() {
        assert(t[0] == s[leading_ws(s) as int]);
        if trailing_ws(t) == t.len() {
            assert(is_ws(t[0]));
        }
    }
}

/// The bytes of `s[..j]` are those of `s[..k]` and of `s[k..j]`.
pub proof fn lemma_byte_len_split(s: Seq<char>, k: int, j: int)
    requires
        0 <= k <= j <= s.len(),
    ensures
        byte_len(s.take(j)) == byte_len(s.take(k)) + byte_len(s.subrange(k, j)),
        byte_len(s.take(j)) <= byte_len(s),
    decreases j - k,
{
    if k < j {
        lemma_byte_len_split(s, k, j - 1);
        lemma_byte_len_take_succ(s, j - 1);
        assert(s.subrange(k, j).drop_last() =~= s.subrange(k, j - 1));
    } else {
        assert(s.subrange(k, j).len() == 0);
    }
    if j < s.len() {
        lemma_byte_len_take_strict(s, j, s.len() as int);
    }
    assert(s.take(s.len() as int) =~= s);
}

pub proof fn lemma_trailing_ws(s: Seq<char>, e: int)
    requires
        0 <= e <= s.len(),
        forall|j: int| e <= j < s.len() ==> is_ws(#[trigger] s[j]),
        e == 0 || !is_ws(s[e - 1]),
    ensures
        trailing_ws(s) == s.len() - e,
    decreases s.len() - e,
{
    if e < s.len() {
        let t = s.drop_last();
        assert forall|j: int| e <= j < t.len() implies is_ws(#[trigger] t[j]) by {
            assert(t[j] == s[j]);
        }
        if e > 0 {
            assert(t[e - 1] == s[e - 1]);
        }
        lemma_trailing_ws(t, e);
    }
}

/// The index just after the last character of `s[start..]` that is not
/// whitespace, or `start` if there is none.
pub fn skip_ws_back(s: &Vec<char>, start: usize) -> (e: usize)
    requires
        start <= s@.len(),
    ensures
        start <= e <= s@.len(),
        s@.len() - e == trailing_ws(s@.skip(start as int)),
{
    let mut e = s.len();
    while e > start && is_whitespace(s[e - 1])
        invariant
            start <= e <= s@.len(),
            forall|j: int| e <= j < s@.len() ==> is_ws(#[trigger] s@[j]),
        decreases e,
    {
        e = e - 1;
    }
    proof {
        let t = s@.skip(start as int);
        assert forall|j: int| e - start <= j < t.len() implies is_ws(#[trigger] t[j]) by {
            assert(t[j] == s@[start + j]);
        }
        if e > start {
            assert(t[e - start - 1] == s@[e - 1]);
        }
        lemma_trailing_ws(t, e - start);
    }
    e
}

/// Appends `v[a..b]` to `out`.
pub fn push_range(out: &mut Vec<char>, v: &Vec<char>, a: usize, b: usize)
    requires
        a <= b <= v@.len(),
    ensures
        final(out)@ == old(out)@ + v@.subrange(a as int, b as int),
{
    let mut i = a;
    while i < b
        invariant
            a <= i <= b <= v@.len(),
            out@ == old(out)@ + v@.subrange(a as int, i as int),
        decreases b - i,
    {
        out.push(v[i]);
        i = i + 1;
        proof {
            assert(out@ =~= old(out)@ + v@.subrange(a as int, i as int));
        }
    }
}

} // verus!
