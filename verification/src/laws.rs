//! Proofs about the candidate pool: the pool never repeats a character, a
//! range that matches nothing empties it, and omitting the ranges is the
//! same as ranges that cover the whole tables.
use vstd::prelude::*;
use crate::data::{level_entries, stroke_entries};
use crate::ranges::in_range;
use crate::selection::{
    candidates_spec, char_in_table, flatten_matching, pool_spec, result_len_spec,
    retain_in_strokes, RandomZhOptions,
};

verus! {

/// Whether `c` is filed somewhere in `entries`, under any key.
pub open spec fn char_in_any(c: char, entries: Seq<(u8, Seq<char>)>) -> bool {
    exists|k: int| 0 <= k < entries.len() && #[trigger] entries[k].1.contains(c)
}

/// Every character of the embedded level table, flattened in table order.
spec fn all_level_chars() -> Seq<char> {
    seq![
        '一', '二', '三', '十', '人', '大',
        '小', '山', '口', '日', '月',
        '乙', '水', '火', '心', '石',
    ]
}

proof fn lemma_concat_contains(a: Seq<char>, b: Seq<char>, c: char)
    ensures
        (a + b).contains(c) <==> a.contains(c) || b.contains(c),
{
    if (a + b).contains(c) {
        let k = choose|k: int| 0 <= k < (a + b).len() && (a + b)[k] == c;
        if k < a.len() {
            assert(a[k] == c);
        } else {
            assert(b[k - a.len()] == c);
        }
    }
    if a.contains(c) {
        let k = choose|k: int| 0 <= k < a.len() && a[k] == c;
        assert((a + b)[k] == c);
    }
    if b.contains(c) {
        let k = choose|k: int| 0 <= k < b.len() && b[k] == c;
        assert((a + b)[k + a.len()] == c);
    }
}

proof fn lemma_no_dup_concat_parts(a: Seq<char>, b: Seq<char>)
    requires
        (a + b).no_duplicates(),
    ensures
        a.no_duplicates(),
        b.no_duplicates(),
        forall|c: char| a.contains(c) ==> !b.contains(c),
{
    assert forall|i: int, j: int|
        0 <= i < a.len() && 0 <= j < a.len() && i != j implies a[i] != a[j] by {
        assert((a + b)[i] == a[i]);
        assert((a + b)[j] == a[j]);
    }
    assert forall|i: int, j: int|
        0 <= i < b.len() && 0 <= j < b.len() && i != j implies b[i] != b[j] by {
        assert((a + b)[i + a.len()] == b[i]);
        assert((a + b)[j + a.len()] == b[j]);
    }
    assert forall|c: char| a.contains(c) implies !b.contains(c) by {
        if b.contains(c) {
            let i = choose|i: int| 0 <= i < a.len() && a[i] == c;
            let j = choose|j: int| 0 <= j < b.len() && b[j] == c;
            assert((a + b)[i] == c);
            assert((a + b)[j + a.len()] == c);
        }
    }
}

proof fn lemma_concat_no_duplicates(a: Seq<char>, b: Seq<char>)
    requires
        a.no_duplicates(),
        b.no_duplicates(),
        forall|c: char| a.contains(c) ==> !b.contains(c),
    ensures
        (a + b).no_duplicates(),
{
    assert forall|i: int, j: int|
        0 <= i < (a + b).len() && 0 <= j < (a + b).len() && i != j implies (a + b)[i] != (a
        + b)[j] by {
        if i < a.len() && j < a.len() {
        } else if i < a.len() && j >= a.len() {
            assert(a.contains(a[i]));
            if (a + b)[i] == (a + b)[j] {
                assert(b[j - a.len()] == a[i]);
                assert(b.contains(a[i]));
            }
        } else if i >= a.len() && j < a.len() {
            assert(a.contains(a[j]));
            if (a + b)[i] == (a + b)[j] {
                assert(b[i - a.len()] == a[j]);
                assert(b.contains(a[j]));
            }
        } else {
        }
    }
}

proof fn lemma_push_no_dup(s: Seq<char>, e: char)
    requires
        s.no_duplicates(),
        !s.contains(e),
    ensures
        s.push(e).no_duplicates(),
{
    assert forall|i: int, j: int|
        0 <= i < s.push(e).len() && 0 <= j < s.push(e).len() && i != j implies s.push(e)[i]
        != s.push(e)[j] by {
        if i < s.len() && j < s.len() {
        } else if i < s.len() && j == s.len() {
            assert(s.contains(s[i]));
        } else if j < s.len() && i == s.len() {
            assert(s.contains(s[j]));
        }
    }
}

/// Whatever range filters the level table, the result holds only characters
/// of the unfiltered flattening.
proof fn lemma_flatten_subset(entries: Seq<(u8, Seq<char>)>, r: Option<(u8, u8)>)
    ensures
        forall|c: char|
            flatten_matching(entries, r).contains(c) ==> flatten_matching(
                entries,
                None,
            ).contains(c),
    decreases entries.len(),
{
    if entries.len() > 0 {
        let rest = entries.drop_last();
        lemma_flatten_subset(rest, r);
        let seg = if in_range(entries.last().0, r) {
            entries.last().1
        } else {
            Seq::<char>::empty()
        };
        assert forall|c: char| flatten_matching(entries, r).contains(c) implies flatten_matching(
            entries,
            None,
        ).contains(c) by {
            lemma_concat_contains(flatten_matching(rest, r), seg, c);
            lemma_concat_contains(flatten_matching(rest, None), entries.last().1, c);
        }
    }
}

/// A range filter never introduces a repetition that the unfiltered
/// flattening does not have.
proof fn lemma_flatten_no_dup(entries: Seq<(u8, Seq<char>)>, r: Option<(u8, u8)>)
    requires
        flatten_matching(entries, None).no_duplicates(),
    ensures
        flatten_matching(entries, r).no_duplicates(),
    decreases entries.len(),
{
    if entries.len() > 0 {
        let rest = entries.drop_last();
        let full_rest = flatten_matching(rest, None);
        let seg_full = entries.last().1;
        lemma_no_dup_concat_parts(full_rest, seg_full);
        lemma_flatten_no_dup(rest, r);
        lemma_flatten_subset(rest, r);
        let filt_rest = flatten_matching(rest, r);
        let seg = if in_range(entries.last().0, r) {
            seg_full
        } else {
            Seq::<char>::empty()
        };
        assert forall|c: char| filt_rest.contains(c) implies !seg.contains(c) by {
            assert(full_rest.contains(c));
        }
        lemma_concat_no_duplicates(filt_rest, seg);
    }
}

proof fn lemma_contains_drop_last(pool: Seq<char>, c: char)
    requires
        pool.len() > 0,
        pool.drop_last().contains(c),
    ensures
        pool.contains(c),
{
    let j = choose|j: int| 0 <= j < pool.drop_last().len() && pool.drop_last()[j] == c;
    assert(pool[j] == c);
}

/// The stroke-count filter keeps only characters of the pool it is given.
proof fn lemma_retain_subset(pool: Seq<char>, entries: Seq<(u8, Seq<char>)>, lo: u8, hi: u8)
    ensures
        forall|c: char| retain_in_strokes(pool, entries, lo, hi).contains(c) ==> pool.contains(c),
    decreases pool.len(),
{
    if pool.len() > 0 {
        lemma_retain_subset(pool.drop_last(), entries, lo, hi);
        let rest = retain_in_strokes(pool.drop_last(), entries, lo, hi);
        assert forall|c: char| retain_in_strokes(pool, entries, lo, hi).contains(
            c,
        ) implies pool.contains(c) by {
            if char_in_table(pool.last(), entries, lo, hi) {
                let k = choose|k: int|
                    0 <= k < rest.push(pool.last()).len() && rest.push(pool.last())[k] == c;
                if k < rest.len() {
                    assert(rest[k] == c);
                    assert(rest.contains(c));
                    lemma_contains_drop_last(pool, c);
                } else {
                    assert(pool[pool.len() - 1] == c);
                }
            } else {
                assert(rest.contains(c));
                lemma_contains_drop_last(pool, c);
            }
        }
    }
}

/// The stroke-count filter keeps a duplicate-free pool duplicate-free.
proof fn lemma_retain_no_dup(pool: Seq<char>, entries: Seq<(u8, Seq<char>)>, lo: u8, hi: u8)
    requires
        pool.no_duplicates(),
    ensures
        retain_in_strokes(pool, entries, lo, hi).no_duplicates(),
    decreases pool.len(),
{
    if pool.len() > 0 {
        assert forall|i: int, j: int|
            0 <= i < pool.drop_last().len() && 0 <= j < pool.drop_last().len() && i
            != j implies pool.drop_last()[i] != pool.drop_last()[j] by {
            assert(pool[i] == pool.drop_last()[i]);
            assert(pool[j] == pool.drop_last()[j]);
        }
        lemma_retain_no_dup(pool.drop_last(), entries, lo, hi);
        lemma_retain_subset(pool.drop_last(), entries, lo, hi);
        let rest = retain_in_strokes(pool.drop_last(), entries, lo, hi);
        if char_in_table(pool.last(), entries, lo, hi) {
            assert(!rest.contains(pool.last())) by {
                if rest.contains(pool.last()) {
                    assert(retain_in_strokes(pool.drop_last(), entries, lo, hi).contains(
                        pool.last(),
                    ));
                    assert(pool.drop_last().contains(pool.last()));
                    let j = choose|j: int|
                        0 <= j < pool.drop_last().len() && pool.drop_last()[j] == pool.last();
                    assert(pool.drop_last()[j] == pool[j]);
                    assert(pool[j] == pool[pool.len() - 1]);
                    assert(false);
                }
            }
            lemma_push_no_dup(rest, pool.last());
        }
    }
}

proof fn lemma_flatten_all_levels()
    ensures
        flatten_matching(level_entries(), None) == all_level_chars(),
{
    reveal_with_fuel(flatten_matching, 4);
    let e = level_entries();
    assert(e.drop_last().drop_last().drop_last() =~= Seq::<(u8, Seq<char>)>::empty());
    assert(flatten_matching(e, None) =~= all_level_chars());
}

proof fn lemma_all_level_chars_no_dup()
    ensures
        all_level_chars().no_duplicates(),
{
}

/// The candidate pool never repeats a character, whatever the options: no
/// character is filed twice in the level table, the level filter only drops
/// entries, and the stroke-count filter only drops characters.
pub proof fn lemma_candidates_no_duplicates(options: RandomZhOptions)
    ensures
        candidates_spec(options).no_duplicates(),
{
    lemma_flatten_all_levels();
    lemma_all_level_chars_no_dup();
    lemma_flatten_no_dup(level_entries(), options.level_range);
    let base = flatten_matching(level_entries(), options.level_range);
    match options.stroke_count_range {
        None => {
        },
        Some((lo, hi)) => {
            lemma_retain_no_dup(base, stroke_entries(), lo, hi);
        },
    }
}

proof fn lemma_flatten_unmatched(entries: Seq<(u8, Seq<char>)>, lo: u8, hi: u8)
    requires
        forall|i: int|
            0 <= i < entries.len() ==> !in_range(#[trigger] entries[i].0, Some((lo, hi))),
    ensures
        flatten_matching(entries, Some((lo, hi))).len() == 0,
    decreases entries.len(),
{
    if entries.len() > 0 {
        let rest = entries.drop_last();
        assert forall|i: int| 0 <= i < rest.len() implies !in_range(
            #[trigger] rest[i].0,
            Some((lo, hi)),
        ) by {
            assert(rest[i] == entries[i]);
        }
        lemma_flatten_unmatched(rest, lo, hi);
        assert(entries.last() == entries[entries.len() - 1]);
        assert(!in_range(entries.last().0, Some((lo, hi))));
    }
}

/// A level range that matches no key of the level table empties the pool,
/// and with it the result.
pub proof fn lemma_unmatched_level_range(options: RandomZhOptions, lo: u8, hi: u8)
    requires
        options.level_range == Some((lo, hi)),
        forall|i: int|
            0 <= i < level_entries().len() ==> !in_range(
                #[trigger] level_entries()[i].0,
                Some((lo, hi)),
            ),
    ensures
        candidates_spec(options).len() == 0,
        result_len_spec(options) == 0,
{
    lemma_flatten_unmatched(level_entries(), lo, hi);
}

proof fn lemma_retain_none_match(pool: Seq<char>, entries: Seq<(u8, Seq<char>)>, lo: u8, hi: u8)
    requires
        forall|c: char| !char_in_table(c, entries, lo, hi),
    ensures
        retain_in_strokes(pool, entries, lo, hi).len() == 0,
    decreases pool.len(),
{
    if pool.len() > 0 {
        lemma_retain_none_match(pool.drop_last(), entries, lo, hi);
        assert(!char_in_table(pool.last(), entries, lo, hi));
    }
}

/// A stroke-count range under which no character at all is filed empties the
/// pool, and with it the result.
pub proof fn lemma_unmatched_stroke_range(options: RandomZhOptions, lo: u8, hi: u8)
    requires
        options.stroke_count_range == Some((lo, hi)),
        forall|c: char| !char_in_table(c, stroke_entries(), lo, hi),
    ensures
        candidates_spec(options).len() == 0,
        result_len_spec(options) == 0,
{
    let base = flatten_matching(level_entries(), options.level_range);
    lemma_retain_none_match(base, stroke_entries(), lo, hi);
}

proof fn lemma_flatten_full_range(entries: Seq<(u8, Seq<char>)>, lo: u8, hi: u8)
    requires
        forall|i: int| 0 <= i < entries.len() ==> in_range(#[trigger] entries[i].0, Some((lo, hi))),
    ensures
        flatten_matching(entries, Some((lo, hi))) == flatten_matching(entries, None),
    decreases entries.len(),
{
    if entries.len() > 0 {
        let rest = entries.drop_last();
        assert forall|i: int| 0 <= i < rest.len() implies in_range(
            #[trigger] rest[i].0,
            Some((lo, hi)),
        ) by {
            assert(rest[i] == entries[i]);
        }
        lemma_flatten_full_range(rest, lo, hi);
        assert(entries.last() == entries[entries.len() - 1]);
        assert(in_range(entries.last().0, Some((lo, hi))));
    }
}

proof fn lemma_flatten_member_entry(entries: Seq<(u8, Seq<char>)>, r: Option<(u8, u8)>, c: char)
    requires
        flatten_matching(entries, r).contains(c),
    ensures
        char_in_any(c, entries),
    decreases entries.len(),
{
    if entries.len() == 0 {
        assert(false);
    } else {
        let rest = entries.drop_last();
        let seg = if in_range(entries.last().0, r) {
            entries.last().1
        } else {
            Seq::<char>::empty()
        };
        lemma_concat_contains(flatten_matching(rest, r), seg, c);
        if flatten_matching(rest, r).contains(c) {
            lemma_flatten_member_entry(rest, r, c);
            let k = choose|k: int| 0 <= k < rest.len() && #[trigger] rest[k].1.contains(c);
            assert(entries[k].1.contains(c));
        } else {
            assert(entries[entries.len() - 1].1.contains(c));
        }
    }
}

proof fn lemma_retain_all(pool: Seq<char>, entries: Seq<(u8, Seq<char>)>, lo: u8, hi: u8)
    requires
        forall|k: int| 0 <= k < pool.len() ==> char_in_table(#[trigger] pool[k], entries, lo, hi),
    ensures
        retain_in_strokes(pool, entries, lo, hi) == pool,
    decreases pool.len(),
{
    if pool.len() == 0 {
        assert(retain_in_strokes(pool, entries, lo, hi) =~= pool);
    } else {
        let rest = pool.drop_last();
        assert forall|k: int| 0 <= k < rest.len() implies char_in_table(
            #[trigger] rest[k],
            entries,
            lo,
            hi,
        ) by {
            assert(rest[k] == pool[k]);
        }
        lemma_retain_all(rest, entries, lo, hi);
        assert(pool.last() == pool[pool.len() - 1]);
        assert(char_in_table(pool.last(), entries, lo, hi));
        assert(rest.push(pool.last()) =~= pool);
    }
}

/// Omitting both ranges selects the same pool as ranges that cover every key
/// of the two tables, provided every character filed in the level table is
/// also filed in the stroke-count table.
pub proof fn lemma_omitting_ranges_is_full_cover(
    levels: Seq<(u8, Seq<char>)>,
    strokes: Seq<(u8, Seq<char>)>,
    llo: u8,
    lhi: u8,
    slo: u8,
    shi: u8,
)
    requires
        forall|i: int| 0 <= i < levels.len() ==> in_range(#[trigger] levels[i].0, Some((llo, lhi))),
        forall|i: int|
            0 <= i < strokes.len() ==> in_range(#[trigger] strokes[i].0, Some((slo, shi))),
        forall|c: char| char_in_any(c, levels) ==> char_in_any(c, strokes),
    ensures
        pool_spec(levels, strokes, None, None) == pool_spec(
            levels,
            strokes,
            Some((llo, lhi)),
            Some((slo, shi)),
        ),
{
    lemma_flatten_full_range(levels, llo, lhi);
    let base = flatten_matching(levels, None);
    assert forall|k: int| 0 <= k < base.len() implies char_in_table(
        #[trigger] base[k],
        strokes,
        slo,
        shi,
    ) by {
        assert(base.contains(base[k]));
        lemma_flatten_member_entry(levels, None, base[k]);
        assert(char_in_any(base[k], strokes));
        let k2 = choose|k2: int| 0 <= k2 < strokes.len() && #[trigger] strokes[k2].1.contains(
            base[k],
        );
        assert(in_range(strokes[k2].0, Some((slo, shi))));
    }
    lemma_retain_all(base, strokes, slo, shi);
}

} // verus!
