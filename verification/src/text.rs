//! Character-level helpers: turning a `&str` into its characters and reading
//! a small decimal number out of a character sequence.
use vstd::prelude::*;
use vstd::string::StrSliceExecFns;

verus! {

/// Whether `c` is an ASCII decimal digit.
pub open spec fn is_digit(c: char) -> bool {
    48 <= c as u32 <= 57
}

/// The numeric value of a digit character.
pub open spec fn digit_value(c: char) -> nat
    recommends
        is_digit(c),
{
    (c as u32 - 48) as nat
}

/// Whether every character of `s` is a decimal digit.
pub open spec fn all_digits(s: Seq<char>) -> bool {
    forall|i: int| 0 <= i < s.len() ==> is_digit(#[trigger] s[i])
}

/// The value of `s` read as a decimal numeral, most significant digit first.
pub open spec fn decimal_value(s: Seq<char>) -> nat
    recommends
        all_digits(s),
    decreases s.len(),
{
    if s.len() == 0 {
        0
    } else {
        decimal_value(s.drop_last()) * 10 + digit_value(s.last())
    }
}

/// The `u8` that `s` denotes in decimal: an optional leading `+`, then one or
/// more digits, with a value of at most 255; anything else denotes nothing.
pub open spec fn parse_u8_spec(s: Seq<char>) -> Option<u8> {
    let t = if s.len() > 0 && s[0] == '+' {
        s.drop_first()
    } else {
        s
    };
    if t.len() > 0 && all_digits(t) && decimal_value(t) <= 255 {
        Some(decimal_value(t) as u8)
    } else {
        None
    }
}

/// A numeral's value never falls when more digits are appended on the right.
proof fn lemma_decimal_value_prefix_bound(s: Seq<char>, j: int)
    requires
        0 <= j <= s.len(),
    ensures
        decimal_value(s) >= decimal_value(s.subrange(0, j)),
    decreases s.len() - j,
{
    if j == s.len() {
        assert(s.subrange(0, j) =~= s);
    } else {
        let p = s.subrange(0, j);
        let q = s.subrange(0, j + 1);
        assert(q.drop_last() =~= p);
        assert(q.last() == s[j]);
        assert(decimal_value(q) == decimal_value(p) * 10 + digit_value(s[j]));
        lemma_decimal_value_prefix_bound(s, j + 1);
    }
}

/// The characters of `s`, in order.
pub fn chars_of(s: &str) -> (v: Vec<char>)
    ensures
        v@ == s@,
{
    let n = s.unicode_len();
    let mut v: Vec<char> = Vec::new();
    let mut i: usize = 0;
    while i < n
        invariant
            n == s@.len(),
            i <= n,
            v@.len() == i,
            forall|k: int| 0 <= k < i ==> v@[k] == s@[k],
        decreases n - i,
    {
        v.push(s.get_char(i));
        i += 1;
    }
    proof {
        assert(v@ =~= s@);
    }
    v
}

/// Reads `v` as a decimal `u8`, accepting exactly the strings that
/// `parse_u8_spec` accepts.
pub fn parse_u8(v: &Vec<char>) -> (r: Option<u8>)
    ensures
        r == parse_u8_spec(v@),
{
    let start: usize = if v.len() > 0 && v[0] == '+' {
        1
    } else {
        0
    };
    let ghost t = v@.subrange(start as int, v@.len() as int);
    proof {
        if start == 1 {
            assert(t =~= v@.drop_first());
        } else {
            assert(t =~= v@);
        }
    }
    if start >= v.len() {
        return None;
    }
    let mut acc: u32 = 0;
    let mut i: usize = start;
    while i < v.len()
        invariant
            start <= i <= v@.len(),
            v@.len() > 0 && v@[0] == '+' ==> start == 1 && t == v@.drop_first(),
            !(v@.len() > 0 && v@[0] == '+') ==> start == 0 && t == v@,
            t == v@.subrange(start as int, v@.len() as int),
            t.len() == v@.len() - start,
            forall|k: int| 0 <= k < t.len() ==> t[k] == v@[start + k],
            acc <= 255,
            acc == decimal_value(t.subrange(0, i - start)),
            all_digits(t.subrange(0, i - start)),
        decreases v@.len() - i,
    {
        let c = v[i];
        let u = c as u32;
        let ghost j = i - start;
        proof {
            assert(t[j] == c);
        }
        if u < 48 || u > 57 {
            proof {
                assert(!is_digit(t[j]));
                assert(!all_digits(t));
            }
            return None;
        }
        let ghost p = t.subrange(0, j);
        let ghost q = t.subrange(0, j + 1);
        proof {
            assert(q.drop_last() =~= p);
            assert(q.last() == t[j]);
        }
        acc = acc * 10 + (u - 48);
        if acc > 255 {
            proof {
                assert(decimal_value(q) == acc);
                lemma_decimal_value_prefix_bound(t, j + 1);
                assert(decimal_value(t) > 255);
            }
            return None;
        }
        i += 1;
    }
    proof {
        assert(t.subrange(0, v@.len() - start) =~= t);
        assert(parse_u8_spec(v@) == Some(decimal_value(t) as u8));
    }
    Some(acc as u8)
}

} // verus!
