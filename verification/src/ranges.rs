//! Inclusive key ranges and the permissive `"min,max"` range parser: a string
//! that is not exactly two comma-separated decimal numbers denotes no range
//! at all, so a malformed filter degrades to "no filter".
use vstd::prelude::*;
use crate::text::{chars_of, parse_u8, parse_u8_spec};

verus! {

/// Whether key `k` passes an optional inclusive range filter; no range
/// means every key passes.
pub open spec fn in_range(k: u8, r: Option<(u8, u8)>) -> bool {
    match r {
        None => true,
        Some((lo, hi)) => lo <= k && k <= hi,
    }
}

/// Whether `i` indexes the only comma of `s`.
pub open spec fn comma_only_at(s: Seq<char>, i: int) -> bool {
    &&& 0 <= i < s.len()
    &&& s[i] == ','
    &&& forall|j: int| 0 <= j < s.len() && j != i ==> s[j] != ','
}

/// The range that `s` denotes: the text left of its only comma and the text
/// right of it, each read as a decimal `u8`. A string without exactly one
/// comma, or with a side that is not a `u8` numeral, denotes no range.
pub open spec fn parse_range_spec(s: Seq<char>) -> Option<(u8, u8)> {
    if exists|i: int| comma_only_at(s, i) {
        let i = choose|i: int| comma_only_at(s, i);
        match (parse_u8_spec(s.subrange(0, i)), parse_u8_spec(s.subrange(i + 1, s.len() as int))) {
            (Some(lo), Some(hi)) => Some((lo, hi)),
            _ => None,
        }
    } else {
        None
    }
}

/// Copies `v[from..to]` into a fresh vector.
fn copy_part(v: &Vec<char>, from: usize, to: usize) -> (part: Vec<char>)
    requires
        from <= to <= v@.len(),
    ensures
        part@ == v@.subrange(from as int, to as int),
{
    let mut part: Vec<char> = Vec::new();
    let mut i: usize = from;
    while i < to
        invariant
            from <= i <= to <= v@.len(),
            part@.len() == i - from,
            forall|k: int| 0 <= k < part@.len() ==> part@[k] == v@[from + k],
        decreases to - i,
    {
        part.push(v[i]);
        i += 1;
    }
    proof {
        assert(part@ =~= v@.subrange(from as int, to as int));
    }
    part
}

/// Parses an optional `"min,max"` range string, returning `None` for any
/// malformed input rather than an error.
pub fn parse_range(s: &str) -> (r: Option<(u8, u8)>)
    ensures
        r == parse_range_spec(s@),
{
    let v = chars_of(s);
    let n = v.len();
    let mut ci: usize = 0;
    while ci < n && v[ci as usize] != ','
        invariant
            n == v@.len(),
            ci <= n,
            forall|j: int| 0 <= j < ci ==> v@[j] != ',',
        decreases n - ci,
    {
        ci += 1;
    }
    if ci == n {
        proof {
            assert(forall|i: int| !comma_only_at(v@, i));
        }
        return None;
    }
    let mut k: usize = ci + 1;
    while k < n
        invariant
            v@ == s@,
            n == v@.len(),
            ci < n,
            v@[ci as int] == ',',
            ci < k <= n,
            forall|j: int| ci < j < k ==> v@[j] != ',',
        decreases n - k,
    {
        if v[k] == ',' {
            proof {
                assert forall|i: int| !comma_only_at(v@, i) by {
                    if comma_only_at(v@, i) {
                        if i == ci {
                            assert(v@[k as int] == ',');
                        } else {
                            assert(v@[ci as int] == ',');
                        }
                    }
                }
            }
            return None;
        }
        k += 1;
    }
    proof {
        assert(comma_only_at(v@, ci as int));
        let w = choose|i: int| comma_only_at(v@, i);
        assert(w == ci as int);
    }
    let left = copy_part(&v, 0, ci);
    let right = copy_part(&v, ci + 1, n);
    match (parse_u8(&left), parse_u8(&right)) {
        (Some(lo), Some(hi)) => Some((lo, hi)),
        _ => None,
    }
}

} // verus!
