//! The two reference tables: levels and stroke counts, each a list of
//! `(key, characters)` entries, together with the loader that reads such a
//! table out of a JSON object of string keys and string values.
use vstd::prelude::*;
use crate::text::{chars_of, parse_u8, parse_u8_spec};

verus! {

/// A table entry list as the specifications see it: each entry a key and
/// the characters filed under it.
pub open spec fn entries_view(t: Seq<(u8, Vec<char>)>) -> Seq<(u8, Seq<char>)> {
    t.map_values(|e: (u8, Vec<char>)| (e.0, e.1@))
}

/// The embedded level table: each character of the reference set, filed
/// under its level.
pub open spec fn level_entries() -> Seq<(u8, Seq<char>)> {
    seq![
        (1u8, seq!['一', '二', '三', '十', '人', '大']),
        (2u8, seq!['小', '山', '口', '日', '月']),
        (3u8, seq!['乙', '水', '火', '心', '石']),
    ]
}

/// The embedded stroke-count table: the same characters, filed under the
/// number of strokes used to write them.
pub open spec fn stroke_entries() -> Seq<(u8, Seq<char>)> {
    seq![
        (1u8, seq!['一', '乙']),
        (2u8, seq!['二', '十', '人']),
        (3u8, seq!['三', '大', '小', '山', '口']),
        (4u8, seq!['日', '月', '水', '火', '心']),
        (5u8, seq!['石']),
    ]
}

/// The two reference tables, loaded once per invocation.
pub struct Data {
    pub levels: Vec<(u8, Vec<char>)>,
    pub stroke_counts: Vec<(u8, Vec<char>)>,
}

fn level_table() -> (t: Vec<(u8, Vec<char>)>)
    ensures
        entries_view(t@) == level_entries(),
{
    let mut t: Vec<(u8, Vec<char>)> = Vec::new();
    let mut cs: Vec<char> = Vec::new();
    cs.push('一');
    cs.push('二');
    cs.push('三');
    cs.push('十');
    cs.push('人');
    cs.push('大');
    t.push((1, cs));
    let mut cs: Vec<char> = Vec::new();
    cs.push('小');
    cs.push('山');
    cs.push('口');
    cs.push('日');
    cs.push('月');
    t.push((2, cs));
    let mut cs: Vec<char> = Vec::new();
    cs.push('乙');
    cs.push('水');
    cs.push('火');
    cs.push('心');
    cs.push('石');
    t.push((3, cs));
    proof {
        assert(entries_view(t@) =~~= level_entries());
    }
    t
}

fn stroke_table() -> (t: Vec<(u8, Vec<char>)>)
    ensures
        entries_view(t@) == stroke_entries(),
{
    let mut t: Vec<(u8, Vec<char>)> = Vec::new();
    let mut cs: Vec<char> = Vec::new();
    cs.push('一');
    cs.push('乙');
    t.push((1, cs));
    let mut cs: Vec<char> = Vec::new();
    cs.push('二');
    cs.push('十');
    cs.push('人');
    t.push((2, cs));
    let mut cs: Vec<char> = Vec::new();
    cs.push('三');
    cs.push('大');
    cs.push('小');
    cs.push('山');
    cs.push('口');
    t.push((3, cs));
    let mut cs: Vec<char> = Vec::new();
    cs.push('日');
    cs.push('月');
    cs.push('水');
    cs.push('火');
    cs.push('心');
    t.push((4, cs));
    let mut cs: Vec<char> = Vec::new();
    cs.push('石');
    t.push((5, cs));
    proof {
        assert(entries_view(t@) =~~= stroke_entries());
    }
    t
}

/// The key-value pairs that a JSON object text denotes, keys in ascending
/// order, or nothing when the text is not such an object.
pub uninterp spec fn json_object_of(s: Seq<char>) -> Option<Seq<(Seq<char>, Seq<char>)>>;

/// A pair list as the specifications see it.
pub open spec fn pairs_view(v: Seq<(String, String)>) -> Seq<(Seq<char>, Seq<char>)> {
    v.map_values(|p: (String, String)| (p.0@, p.1@))
}

/// Relies on `serde_json::from_str` into an ordered string-to-string map:
/// it accepts exactly the texts that are a JSON object of string values,
/// and hands back their entries in ascending key order, so the outcome is a
/// function of the text alone.
#[verifier::external_body]
fn load_json(content: &str) -> (r: Option<Vec<(String, String)>>)
    ensures
        (r is Some) == (json_object_of(content@) is Some),
        r matches Some(v) ==> json_object_of(content@) matches Some(m) && pairs_view(v@) == m,
{
    match serde_json::from_str::<std::collections::BTreeMap<String, String>>(content) {
        Ok(m) => Some(m.into_iter().collect()),
        Err(_) => None,
    }
}

/// The table that a pair list denotes: every key read as a decimal `u8`,
/// every value split into its characters; nothing if any key is not a `u8`
/// numeral.
pub open spec fn table_of(pairs: Seq<(Seq<char>, Seq<char>)>) -> Option<Seq<(u8, Seq<char>)>> {
    if forall|i: int| 0 <= i < pairs.len() ==> parse_u8_spec(#[trigger] pairs[i].0) is Some {
        Some(pairs.map_values(|p: (Seq<char>, Seq<char>)| (parse_u8_spec(p.0)->Some_0, p.1)))
    } else {
        None
    }
}

/// The table that a JSON object text denotes, or nothing when the text is
/// not an object of string values with `u8`-numeral keys.
pub open spec fn loaded_table(content: Seq<char>) -> Option<Seq<(u8, Seq<char>)>> {
    match json_object_of(content) {
        Some(pairs) => table_of(pairs),
        None => None,
    }
}

impl Data {
    /// The embedded reference tables.
    pub fn new() -> (d: Data)
        ensures
            entries_view(d.levels@) == level_entries(),
            entries_view(d.stroke_counts@) == stroke_entries(),
    {
        Data { levels: level_table(), stroke_counts: stroke_table() }
    }

    /// Reads one table out of a JSON object text of string keys and string
    /// values; the whole load fails if the text is malformed or any key is
    /// not a `u8` numeral.
    pub fn load_and_parse_json(content: &str) -> (r: Option<Vec<(u8, Vec<char>)>>)
        ensures
            (r is Some) == (loaded_table(content@) is Some),
            r matches Some(t) ==> loaded_table(content@) matches Some(m) && entries_view(t@) == m,
    {
        let pairs = match load_json(content) {
            Some(pairs) => pairs,
            None => {
                return None;
            },
        };
        let ghost m = json_object_of(content@)->Some_0;
        let mut out: Vec<(u8, Vec<char>)> = Vec::new();
        let mut i: usize = 0;
        while i < pairs.len()
            invariant
                pairs_view(pairs@) == m,
                json_object_of(content@) == Some(m),
                i <= pairs@.len(),
                m.len() == pairs@.len(),
                out@.len() == i,
                forall|k: int| 0 <= k < i ==> parse_u8_spec(#[trigger] m[k].0) is Some,
                forall|k: int|
                    0 <= k < i ==> #[trigger] entries_view(out@)[k] == (
                    parse_u8_spec(m[k].0)->Some_0, m[k].1),
            decreases pairs@.len() - i,
        {
            let key_chars = chars_of((&pairs[i].0).as_str());
            proof {
                assert(key_chars@ == m[i as int].0);
            }
            let key = match parse_u8(&key_chars) {
                Some(key) => key,
                None => {
                    proof {
                        assert(parse_u8_spec(m[i as int].0) is None);
                        assert(table_of(m) is None);
                    }
                    return None;
                },
            };
            let value_chars = chars_of((&pairs[i].1).as_str());
            proof {
                assert(value_chars@ == m[i as int].1);
            }
            let ghost prev = out@;
            out.push((key, value_chars));
            proof {
                assert(out@ == prev.push((key, value_chars)));
                assert forall|k: int| 0 <= k < i implies #[trigger] entries_view(out@)[k]
                    == entries_view(prev)[k] by {
                    assert(out@[k] == prev[k]);
                }
                assert(entries_view(out@)[i as int] == (parse_u8_spec(m[i as int].0)->Some_0, m[
                    i as int].1));
            }
            i += 1;
        }
        proof {
            assert(table_of(m) matches Some(t) && entries_view(out@) =~~= t);
        }
        Some(out)
    }
}

} // verus!
