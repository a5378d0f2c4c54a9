use random_zh::{parse_range, random_zh, Data, RandomZhOptions};

#[test]
fn test_random_zh_default() {
    // Default options should return 1 random character
    let chars = random_zh(RandomZhOptions::default());
    assert_eq!(chars.len(), 1);
}

#[test]
fn test_random_zh_with_count() {
    // Generate exactly 10 characters
    let count = 10;
    let chars = random_zh(RandomZhOptions {
        count: Some(count),
        ..Default::default()
    });
    assert_eq!(chars.len(), count);
}

#[test]
fn test_random_zh_allow_duplicates() {
    // Generate 50 characters allowing duplicates
    let count = 50;
    let chars = random_zh(RandomZhOptions {
        count: Some(count),
        stroke_count_range: Some((1, 1)),
        allow_duplicates: true,
        ..Default::default()
    });
    assert_eq!(chars.len(), count);
}

#[test]
fn test_random_zh_disallow_duplicates() {
    // Generate 50 characters without allowing duplicates
    let count = 50;
    let chars = random_zh(RandomZhOptions {
        count: Some(count),
        stroke_count_range: Some((1, 1)),
        allow_duplicates: false,
        ..Default::default()
    });
    assert!(chars.len() < count);
}

#[test]
fn test_empty_candidates() {
    // When no characters match the filters, result should be empty
    let chars = random_zh(RandomZhOptions {
        level_range: Some((99, 100)),        // Non-existent levels
        stroke_count_range: Some((99, 100)), // Non-existent stroke counts
        count: Some(10),
        ..Default::default()
    });
    assert!(chars.is_empty());
}

#[test]
fn test_with_count_distinct() {
    // Without duplicates the characters are pairwise distinct
    let chars = random_zh(RandomZhOptions {
        count: Some(10),
        ..Default::default()
    });
    assert_eq!(chars.len(), 10);
    for i in 0..chars.len() {
        for j in 0..chars.len() {
            if i != j {
                assert_ne!(chars[i], chars[j]);
            }
        }
    }
}

#[test]
fn test_duplicates_respect_stroke_filter() {
    // Every drawn character must have exactly 1 stroke per the table
    let chars = random_zh(RandomZhOptions {
        count: Some(50),
        stroke_count_range: Some((1, 1)),
        allow_duplicates: true,
        ..Default::default()
    });
    assert_eq!(chars.len(), 50);
    let data = Data::new();
    let one_stroke: &Vec<char> = &data
        .stroke_counts
        .iter()
        .find(|entry| entry.0 == 1)
        .expect("the stroke table files characters under 1")
        .1;
    for c in &chars {
        assert!(one_stroke.contains(c));
    }
}

#[test]
fn test_empty_pool_with_duplicates() {
    // An empty pool yields an empty result even with duplicates allowed
    let chars = random_zh(RandomZhOptions {
        level_range: Some((99, 100)),
        count: Some(5),
        allow_duplicates: true,
        ..Default::default()
    });
    assert!(chars.is_empty());
}

#[test]
fn test_level_filter_selects_level_one() {
    // A (1,1) level band yields exactly the six level-1 characters
    let mut chars = random_zh(RandomZhOptions {
        count: Some(100),
        level_range: Some((1, 1)),
        ..Default::default()
    });
    chars.sort();
    let mut expected = vec!['一', '二', '三', '十', '人', '大'];
    expected.sort();
    assert_eq!(chars, expected);
}

#[test]
fn test_full_cover_ranges_match_omitted_ranges() {
    // Ranges covering every key select the same pool as no ranges at all
    let mut with_ranges = random_zh(RandomZhOptions {
        count: Some(100),
        level_range: Some((1, 3)),
        stroke_count_range: Some((1, 5)),
        ..Default::default()
    });
    let mut without_ranges = random_zh(RandomZhOptions {
        count: Some(100),
        ..Default::default()
    });
    with_ranges.sort();
    without_ranges.sort();
    assert_eq!(with_ranges, without_ranges);
    assert_eq!(with_ranges.len(), 16);
}

#[test]
fn test_stroke_filter_matching_no_characters() {
    // A stroke band under which nothing is filed empties the pool
    let chars = random_zh(RandomZhOptions {
        stroke_count_range: Some((99, 100)),
        count: Some(10),
        ..Default::default()
    });
    assert!(chars.is_empty());
}

#[test]
fn test_inverted_range_matches_nothing() {
    // A range with min above max matches no key: empty result, not an error
    let chars = random_zh(RandomZhOptions {
        level_range: Some((3, 1)),
        count: Some(5),
        ..Default::default()
    });
    assert!(chars.is_empty());
}

#[test]
fn test_parse_range_valid() {
    assert_eq!(parse_range("1,3"), Some((1, 3)));
    assert_eq!(parse_range("0,255"), Some((0, 255)));
    assert_eq!(parse_range("+2,10"), Some((2, 10)));
    assert_eq!(parse_range("007,8"), Some((7, 8)));
}

#[test]
fn test_parse_range_malformed() {
    assert_eq!(parse_range(""), None);
    assert_eq!(parse_range("1"), None);
    assert_eq!(parse_range("1,2,3"), None);
    assert_eq!(parse_range("a,b"), None);
    assert_eq!(parse_range("1,"), None);
    assert_eq!(parse_range(",2"), None);
    assert_eq!(parse_range("256,1"), None);
    assert_eq!(parse_range("1, 2"), None);
}

#[test]
fn test_data_new_tables() {
    let data = Data::new();
    assert_eq!(data.levels.len(), 3);
    assert_eq!(data.stroke_counts.len(), 5);
    assert_eq!(data.levels[0].0, 1);
    assert_eq!(data.levels[0].1.len(), 6);
    assert_eq!(data.stroke_counts[0].0, 1);
    assert_eq!(data.stroke_counts[0].1, vec!['一', '乙']);
}

#[test]
fn test_load_and_parse_json_valid() {
    let table = Data::load_and_parse_json("{\"2\": \"\u{4e8c}\u{5341}\", \"1\": \"\u{4e00}\"}")
        .expect("a well-formed object loads");
    // Keys come back in ascending order
    assert_eq!(table.len(), 2);
    assert_eq!(table[0].0, 1);
    assert_eq!(table[0].1, vec!['一']);
    assert_eq!(table[1].0, 2);
    assert_eq!(table[1].1, vec!['二', '十']);
}

#[test]
fn test_load_and_parse_json_malformed() {
    assert!(Data::load_and_parse_json("not json").is_none());
    assert!(Data::load_and_parse_json("{\"1\": 7}").is_none());
    assert!(Data::load_and_parse_json("{\"x\": \"a\"}").is_none());
    assert!(Data::load_and_parse_json("{\"256\": \"a\"}").is_none());
}
