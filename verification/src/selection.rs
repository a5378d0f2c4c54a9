//! The filter-and-sample core: build the candidate pool from the two tables,
//! shuffle it, and draw the requested number of characters, with or without
//! repetition.
use vstd::prelude::*;
use vstd::seq_lib::group_to_multiset_ensures;
use rand::Rng;
use rand::seq::SliceRandom;
use crate::data::{Data, entries_view, level_entries, stroke_entries};
use crate::ranges::in_range;
use crate::laws::lemma_candidates_no_duplicates;

verus! {

/// Options for the `random_zh` function: how many characters, which level
/// band, which stroke-count band, and whether repeats are allowed. An absent
/// count asks for one character; an absent range filters nothing.
pub struct RandomZhOptions {
    pub count: Option<usize>,
    pub level_range: Option<(u8, u8)>,
    pub stroke_count_range: Option<(u8, u8)>,
    pub allow_duplicates: bool,
}

impl Default for RandomZhOptions {
    fn default() -> (r: Self)
        ensures
            r.count is None,
            r.level_range is None,
            r.stroke_count_range is None,
            !r.allow_duplicates,
    {
        Self { count: None, level_range: None, stroke_count_range: None, allow_duplicates: false }
    }
}

/// The characters of every entry whose key passes the range filter, flattened
/// in table order.
pub open spec fn flatten_matching(entries: Seq<(u8, Seq<char>)>, r: Option<(u8, u8)>) -> Seq<char>
    decreases entries.len(),
{
    if entries.len() == 0 {
        Seq::empty()
    } else {
        flatten_matching(entries.drop_last(), r) + (if in_range(entries.last().0, r) {
            entries.last().1
        } else {
            Seq::empty()
        })
    }
}

/// Whether `c` is filed in `entries` under some key within `[lo, hi]`.
pub open spec fn char_in_table(c: char, entries: Seq<(u8, Seq<char>)>, lo: u8, hi: u8) -> bool {
    exists|i: int|
        0 <= i < entries.len() && in_range(entries[i].0, Some((lo, hi))) && #[trigger] entries[
            i].1.contains(c)
}

/// The members of `pool` that are filed in `entries` under some key within
/// `[lo, hi]`, in pool order: a membership test, indifferent to how often a
/// character is filed there.
pub open spec fn retain_in_strokes(
    pool: Seq<char>,
    entries: Seq<(u8, Seq<char>)>,
    lo: u8,
    hi: u8,
) -> Seq<char>
    decreases pool.len(),
{
    if pool.len() == 0 {
        Seq::empty()
    } else {
        let rest = retain_in_strokes(pool.drop_last(), entries, lo, hi);
        if char_in_table(pool.last(), entries, lo, hi) {
            rest.push(pool.last())
        } else {
            rest
        }
    }
}

/// The candidate pool: the level filter flattens the matching level entries,
/// then the stroke-count filter, if present, keeps the characters that appear
/// in a matching stroke-count entry.
pub open spec fn pool_spec(
    levels: Seq<(u8, Seq<char>)>,
    strokes: Seq<(u8, Seq<char>)>,
    level_range: Option<(u8, u8)>,
    stroke_count_range: Option<(u8, u8)>,
) -> Seq<char> {
    let base = flatten_matching(levels, level_range);
    match stroke_count_range {
        None => base,
        Some((lo, hi)) => retain_in_strokes(base, strokes, lo, hi),
    }
}

/// The candidate pool that `options` selects out of the embedded tables.
pub open spec fn candidates_spec(options: RandomZhOptions) -> Seq<char> {
    pool_spec(level_entries(), stroke_entries(), options.level_range, options.stroke_count_range)
}

/// The number of characters asked for; one when unspecified.
pub open spec fn requested_count(options: RandomZhOptions) -> nat {
    match options.count {
        None => 1nat,
        Some(c) => c as nat,
    }
}

/// How many characters a call with `options` returns: with duplicates, the
/// requested count unless the pool is empty; without, the requested count
/// capped at the pool size.
pub open spec fn result_len_spec(options: RandomZhOptions) -> nat {
    let n = candidates_spec(options).len();
    if options.allow_duplicates {
        if n == 0 {
            0
        } else {
            requested_count(options)
        }
    } else {
        vstd::math::min(requested_count(options) as int, n as int) as nat
    }
}

fn key_in_range(k: u8, r: Option<(u8, u8)>) -> (b: bool)
    ensures
        b == in_range(k, r),
{
    match r {
        None => true,
        Some((lo, hi)) => lo <= k && k <= hi,
    }
}

fn vec_contains_char(v: &Vec<char>, c: char) -> (b: bool)
    ensures
        b == v@.contains(c),
{
    let mut i: usize = 0;
    while i < v.len()
        invariant
            i <= v@.len(),
            forall|k: int| 0 <= k < i ==> v@[k] != c,
        decreases v@.len() - i,
    {
        if v[i] == c {
            return true;
        }
        i += 1;
    }
    false
}

fn stroke_match(c: char, strokes: &Vec<(u8, Vec<char>)>, lo: u8, hi: u8) -> (b: bool)
    ensures
        b == char_in_table(c, entries_view(strokes@), lo, hi),
{
    let ghost sv = entries_view(strokes@);
    let mut i: usize = 0;
    while i < strokes.len()
        invariant
            sv == entries_view(strokes@),
            i <= strokes@.len(),
            forall|k: int|
                0 <= k < i ==> !(in_range(sv[k].0, Some((lo, hi))) && #[trigger] sv[k].1.contains(
                    c,
                )),
        decreases strokes@.len() - i,
    {
        let key = strokes[i].0;
        if lo <= key && key <= hi {
            if vec_contains_char(&strokes[i].1, c) {
                proof {
                    assert(sv[i as int].1.contains(c));
                }
                return true;
            }
        }
        i += 1;
    }
    false
}

/// Applies both filters against the two tables and returns the candidate
/// pool.
fn build_candidates(
    levels: &Vec<(u8, Vec<char>)>,
    strokes: &Vec<(u8, Vec<char>)>,
    level_range: Option<(u8, u8)>,
    stroke_count_range: Option<(u8, u8)>,
) -> (pool: Vec<char>)
    ensures
        pool@ == pool_spec(
            entries_view(levels@),
            entries_view(strokes@),
            level_range,
            stroke_count_range,
        ),
{
    let ghost lv = entries_view(levels@);
    let mut base: Vec<char> = Vec::new();
    let mut i: usize = 0;
    while i < levels.len()
        invariant
            lv == entries_view(levels@),
            i <= levels@.len(),
            base@ == flatten_matching(lv.take(i as int), level_range),
        decreases levels@.len() - i,
    {
        let ghost prefix = flatten_matching(lv.take(i as int), level_range);
        proof {
            assert(lv.take(i + 1).drop_last() =~= lv.take(i as int));
            assert(lv.take(i + 1).last() == lv[i as int]);
        }
        let key = levels[i].0;
        if key_in_range(key, level_range) {
            let cs: &Vec<char> = &levels[i].1;
            let mut j: usize = 0;
            proof {
                assert(base@ =~= prefix + cs@.take(0));
            }
            while j < cs.len()
                invariant
                    j <= cs@.len(),
                    base@ == prefix + cs@.take(j as int),
                decreases cs@.len() - j,
            {
                base.push(cs[j]);
                proof {
                    assert(base@ =~= prefix + cs@.take(j + 1));
                }
                j += 1;
            }
            proof {
                assert(cs@.take(cs@.len() as int) =~= cs@);
                assert(base@ == flatten_matching(lv.take(i + 1), level_range));
            }
        } else {
            proof {
                assert(base@ =~= prefix + Seq::<char>::empty());
                assert(base@ == flatten_matching(lv.take(i + 1), level_range));
            }
        }
        i += 1;
    }
    proof {
        assert(lv.take(levels@.len() as int) =~= lv);
    }
    let (lo, hi) = match stroke_count_range {
        None => {
            return base;
        },
        Some((lo, hi)) => (lo, hi),
    };
    let ghost sv = entries_view(strokes@);
    let ghost basev = base@;
    let mut pool: Vec<char> = Vec::new();
    let mut k: usize = 0;
    while k < base.len()
        invariant
            sv == entries_view(strokes@),
            basev == base@,
            k <= base@.len(),
            pool@ == retain_in_strokes(basev.take(k as int), sv, lo, hi),
        decreases base@.len() - k,
    {
        proof {
            assert(basev.take(k + 1).drop_last() =~= basev.take(k as int));
            assert(basev.take(k + 1).last() == basev[k as int]);
        }
        let c = base[k];
        if stroke_match(c, strokes, lo, hi) {
            pool.push(c);
        }
        k += 1;
    }
    proof {
        assert(basev.take(base@.len() as int) =~= basev);
    }
    pool
}

/// Relies on rand's `SliceRandom::shuffle`, a Fisher-Yates shuffle: it
/// permutes the slice in place, so the elements as a multiset are unchanged.
/// Relies on `rand::rng` only for a handle to the thread's generator.
#[verifier::external_body]
fn shuffle_chars(pool: &mut Vec<char>)
    ensures
        final(pool)@.to_multiset() == old(pool)@.to_multiset(),
{
    let mut generator = rand::rng();
    pool.as_mut_slice().shuffle(&mut generator);
}

/// Relies on rand's `Rng::random_range`: on the non-empty range `0..n` it
/// returns a value of that range; the precondition rules out the empty range,
/// on which it panics. Relies on `rand::rng` only for a handle to the
/// thread's generator.
#[verifier::external_body]
fn random_index(n: usize) -> (i: usize)
    requires
        n > 0,
    ensures
        i < n,
{
    let mut generator = rand::rng();
    generator.random_range(0..n)
}

/// Draws from an already shuffled pool: with duplicates, `count` independent
/// picks (none when the pool is empty); without, the first characters of the
/// pool, capped at its size.
fn draw(pool: &Vec<char>, count: usize, allow_duplicates: bool) -> (r: Vec<char>)
    ensures
        !allow_duplicates ==> r@ == pool@.take(
            vstd::math::min(count as int, pool@.len() as int),
        ),
        allow_duplicates && pool@.len() == 0 ==> r@.len() == 0,
        allow_duplicates && pool@.len() > 0 ==> r@.len() == count,
        allow_duplicates ==> forall|k: int| 0 <= k < r@.len() ==> pool@.contains(#[trigger] r@[k]),
{
    let mut r: Vec<char> = Vec::new();
    if allow_duplicates {
        if pool.len() == 0 {
            return r;
        }
        let mut i: usize = 0;
        while i < count
            invariant
                pool@.len() > 0,
                i <= count,
                r@.len() == i,
                forall|k: int| 0 <= k < r@.len() ==> pool@.contains(#[trigger] r@[k]),
            decreases count - i,
        {
            let idx = random_index(pool.len());
            let c = pool[idx];
            proof {
                assert(pool@.contains(pool@[idx as int]));
            }
            r.push(c);
            i += 1;
        }
        r
    } else {
        let limit = if count < pool.len() {
            count
        } else {
            pool.len()
        };
        let mut i: usize = 0;
        while i < limit
            invariant
                i <= limit <= pool@.len(),
                r@ == pool@.take(i as int),
            decreases limit - i,
        {
            r.push(pool[i]);
            proof {
                assert(r@ =~= pool@.take(i + 1));
            }
            i += 1;
        }
        r
    }
}

/// Generates random characters from the embedded tables as `options` asks:
/// filter by the level band and the stroke-count band, shuffle, then draw.
/// Every returned character comes from the candidate pool; the length is
/// exactly `result_len_spec`, never above the requested count; and without
/// duplicates the characters are pairwise distinct.
pub fn random_zh(options: RandomZhOptions) -> (r: Vec<char>)
    ensures
        r@.len() == result_len_spec(options),
        r@.len() <= requested_count(options),
        forall|k: int| 0 <= k < r@.len() ==> candidates_spec(options).contains(#[trigger] r@[k]),
        !options.allow_duplicates ==> r@.no_duplicates(),
{
    broadcast use group_to_multiset_ensures;

    let data = Data::new();
    let mut candidates = build_candidates(
        &data.levels,
        &data.stroke_counts,
        options.level_range,
        options.stroke_count_range,
    );
    let ghost orig = candidates@;
    proof {
        assert(orig == candidates_spec(options));
    }
    shuffle_chars(&mut candidates);
    proof {
        assert(candidates@.to_multiset().len() == orig.to_multiset().len());
        assert(candidates@.len() == candidates@.to_multiset().len());
        assert(orig.len() == orig.to_multiset().len());
        assert(candidates@.len() == orig.len());
        assert forall|c: char| candidates@.contains(c) implies orig.contains(c) by {
            assert(candidates@.to_multiset().count(c) > 0);
        }
        lemma_candidates_no_duplicates(options);
        orig.lemma_multiset_has_no_duplicates();
        assert forall|x: char| candidates@.to_multiset().contains(x) implies candidates@
            .to_multiset().count(x) == 1 by {
            assert(orig.to_multiset().count(x) > 0);
        }
        candidates@.lemma_multiset_has_no_duplicates_conv();
    }
    let count = match options.count {
        Some(c) => c,
        None => 1,
    };
    let result = draw(&candidates, count, options.allow_duplicates);
    proof {
        if !options.allow_duplicates {
            let m = vstd::math::min(count as int, candidates@.len() as int);
            assert(result@ == candidates@.take(m));
            assert forall|k: int| 0 <= k < result@.len() implies candidates_spec(
                options,
            ).contains(#[trigger] result@[k]) by {
                assert(result@[k] == candidates@[k]);
                assert(candidates@.contains(candidates@[k]));
            }
            assert(result@.no_duplicates()) by {
                assert forall|a: int, b: int|
                    0 <= a < result@.len() && 0 <= b < result@.len() && a != b implies result@[a]
                    != result@[b] by {
                    assert(result@[a] == candidates@[a]);
                    assert(result@[b] == candidates@[b]);
                }
            }
        } else {
            assert forall|k: int| 0 <= k < result@.len() implies candidates_spec(
                options,
            ).contains(#[trigger] result@[k]) by {
                assert(candidates@.contains(result@[k]));
            }
        }
    }
    result
}

} // verus!
