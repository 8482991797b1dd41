//! Decimal integers, read as Rust's `FromStr` reads them for the integer types.
use vstd::prelude::*;

verus! {

pub open spec fn is_digit(c: char) -> bool {
    '0' <= c <= '9'
}

pub open spec fn all_digits(s: Seq<char>) -> bool {
    forall|i: int| 0 <= i < s.len() ==> is_digit(#[trigger] s[i])
}

/// The number that a sequence of decimal digits denotes.
pub open spec fn digits_value(s: Seq<char>) -> nat
    decreases s.len(),
{
    if s.len() == 0 {
        0
    } else {
        digits_value(s.drop_last()) * 10 + ((s.last() as u32) - ('0' as u32)) as nat
    }
}

/// The integer that `s` denotes: an optional `+` (or `-` where `signed`)
/// followed by at least one decimal digit, and nothing else.
pub open spec fn decimal_value(s: Seq<char>, signed: bool) -> Option<int> {
    if s.len() > 1 && s[0] == '+' && all_digits(s.drop_first()) {
        Some(digits_value(s.drop_first()) as int)
    } else if signed && s.len() > 1 && s[0] == '-' && all_digits(s.drop_first()) {
        Some(-(digits_value(s.drop_first()) as int))
    } else if s.len() > 0 && all_digits(s) {
        Some(digits_value(s) as int)
    } else {
        None
    }
}

/// What `s.parse::<T>()` gives for an integer type `T` whose values are `lo..=hi`
/// (`lo < 0` exactly for the signed types): `None` for an error.
pub open spec fn parse_int_spec(s: Seq<char>, lo: int, hi: int) -> Option<int> {
    match decimal_value(s, lo < 0) {
        Some(v) => if lo <= v <= hi {
            Some(v)
        } else {
            None
        },
        None => None,
    }
}

proof fn lemma_digits_value_take_succ(s: Seq<char>, i: int)
    requires
        0 <= i < s.len(),
    ensures
        digits_value(s.take(i + 1)) == digits_value(s.take(i)) * 10 + ((s[i] as u32) - ('0'
            as u32)) as nat,
{
    assert(s.take(i + 1).drop_last() =~= s.take(i));
}

/// Reading more digits never makes the number smaller.
proof fn lemma_digits_value_grows(s: Seq<char>, i: int)
    requires
        0 <= i <= s.len(),
        all_digits(s),
    ensures
        digits_value(s.take(i)) <= digits_value(s),
    decreases s.len() - i,
{
    if i < s.len() {
        lemma_digits_value_take_succ(s, i);
        assert(is_digit(s[i]));
        lemma_digits_value_grows(s, i + 1);
        assert(s.take(s.len() as int) =~= s);
    } else {
        assert(s.take(i) =~= s);
    }
}

/// Reads the decimal digits `s[start..end]` as a number, or `None` where one of
/// them is not a digit or the number is larger than `limit`.
fn read_digits(s: &Vec<char>, start: usize, end: usize, limit: u128) -> (r: Option<u128>)
    requires
        start <= end <= s@.len(),
        limit <= u64::MAX + 1,
    ensures
        r matches Some(v) ==> all_digits(s@.subrange(start as int, end as int)) && v
            == digits_value(s@.subrange(start as int, end as int)) && v <= limit,
        r is None ==> !all_digits(s@.subrange(start as int, end as int)) || digits_value(
            s@.subrange(start as int, end as int),
        ) > limit,
{
    let ghost t = s@.subrange(start as int, end as int);
    let mut acc: u128 = 0;
    let mut i = start;
    while i < end
        invariant
            start <= i <= end <= s@.len(),
            limit <= u64::MAX + 1,
            t == s@.subrange(start as int, end as int),
            all_digits(t.take(i - start)),
            acc == digits_value(t.take(i - start)),
            acc <= limit,
        decreases end - i,
    {
        let c = s[i];
        if c < '0' || c > '9' {
            proof {
                assert(t[i - start] == c);
            }
            return None;
        }
        proof {
            lemma_digits_value_take_succ(t, i - start);
            assert(t[i - start] == c);
            assert forall|j: int| 0 <= j < i + 1 - start implies is_digit(
                #[trigger] t.take(i + 1 - start)[j],
            ) by {
                if j < i - start {
                    assert(t.take(i + 1 - start)[j] == t.take(i - start)[j]);
                }
            }
        }
        let d = (c as u32 - '0' as u32) as u128;
        acc = acc * 10 + d;
        i = i + 1;
        if acc > limit {
            proof {
                if all_digits(t) {
                    lemma_digits_value_grows(t, i - start);
                }
            }
            return None;
        }
    }
    proof {
        assert(t.take(i - start) =~= t);
    }
    Some(acc)
}

/// `s[start..end].parse::<T>()` for the integer type `T` whose values are
/// `lo..=hi`.
pub fn parse_int(s: &Vec<char>, start: usize, end: usize, lo: i128, hi: i128) -> (r: Option<i128>)
    requires
        start <= end <= s@.len(),
        -0x8000_0000_0000_0000 <= lo <= 0 <= hi <= u64::MAX,
    ensures
        r matches Some(v) ==> parse_int_spec(s@.subrange(start as int, end as int), lo as int, hi as int) == Some(v as int),
        r is None ==> parse_int_spec(s@.subrange(start as int, end as int), lo as int, hi as int) is None,
{
    let ghost t = s@.subrange(start as int, end as int);
    if end - start > 1 && s[start] == '+' {
        proof {
            assert(t.drop_first() =~= s@.subrange(start + 1, end as int));
        }
        match read_digits(s, start + 1, end, hi as u128) {
            Some(v) => Some(v as i128),
            None => None,
        }
    } else if lo < 0 && end - start > 1 && s[start] == '-' {
        proof {
            assert(t.drop_first() =~= s@.subrange(start + 1, end as int));
        }
        match read_digits(s, start + 1, end, (0 - lo) as u128) {
            Some(v) => Some(0 - (v as i128)),
            None => None,
        }
    } else if end - start > 0 {
        proof {
            if t[0] == '+' || t[0] == '-' {
                assert(!is_digit(t[0]));
            }
        }
        match read_digits(s, start, end, hi as u128) {
            Some(v) => Some(v as i128),
            None => None,
        }
    } else {
        None
    }
}

} // verus!
