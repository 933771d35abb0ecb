use generate_unicode_data::int_ranges::{CodePointSet, IntRange};
use generate_unicode_data::special_casing_functions::{
    accept_range, generate_special_casing_functions, in_any_range, last_in_set, SpecialCaseMap,
};

fn fixture_entries() -> Vec<(u32, Vec<u32>)> {
    vec![
        (0x00DF, vec![0x0053, 0x0053]),
        (0x0149, vec![0x02BC, 0x004E]),
        (0x01F0, vec![0x004A, 0x030C]),
        (0x0390, vec![0x0399, 0x0308, 0x0301]),
        (0x03B0, vec![0x03A5, 0x0308, 0x0301]),
        (0x0587, vec![0x0535, 0x0552]),
        (0x1E96, vec![0x0048, 0x0331]),
        (0x1E97, vec![0x0054, 0x0308]),
        (0x1E98, vec![0x0057, 0x030A]),
        (0x1E99, vec![0x0059, 0x030A]),
        (0x1E9A, vec![0x0041, 0x02BE]),
        (0x1F50, vec![0x03A5, 0x0313]),
        (0x1F52, vec![0x03A5, 0x0313, 0x0300]),
        (0x1F54, vec![0x03A5, 0x0313, 0x0301]),
        (0x1F56, vec![0x03A5, 0x0313, 0x0342]),
    ]
}

/// The decision must answer true exactly at the mapping's keys, here
/// probed at every key and at each key's neighbours.
#[test]
fn decision_matches_keys_exactly() {
    let entries = fixture_entries();
    let keys: Vec<u32> = entries.iter().map(|e| e.0).collect();
    let funcs = generate_special_casing_functions(SpecialCaseMap { entries });

    for &key in &keys {
        assert!(funcs.changes_when_upper_cased_special_casing(key as u16));
        for probe in [key - 1, key + 1] {
            assert_eq!(
                funcs.changes_when_upper_cased_special_casing(probe as u16),
                keys.contains(&probe),
                "probe {:#x}",
                probe
            );
        }
    }
    // outside the outer guard
    assert!(!funcs.changes_when_upper_cased_special_casing(0x0041));
    assert!(!funcs.changes_when_upper_cased_special_casing(0xFFFF));
    // between chunks
    assert!(!funcs.changes_when_upper_cased_special_casing(0x1000));
    assert!(!funcs.changes_when_upper_cased_special_casing(0x0800));
    // inside the dense chunk's guard but between its sub-chunks
    assert!(!funcs.changes_when_upper_cased_special_casing(0x1EFF));
    assert!(!funcs.changes_when_upper_cased_special_casing(0x1F00));
    // inside the dense chunk's guard, between two of one sub-chunk's ranges
    assert!(!funcs.changes_when_upper_cased_special_casing(0x1F51));
    assert!(!funcs.changes_when_upper_cased_special_casing(0x1F55));
}

/// A mapping whose keys all sit in small clusters takes the direct path.
#[test]
fn decision_direct_chunks_only() {
    let entries: Vec<(u32, Vec<u32>)> = vec![
        (0x0010, vec![0x0041]),
        (0x0011, vec![0x0042]),
        (0x2005, vec![0x0043, 0x0044]),
    ];
    let funcs = generate_special_casing_functions(SpecialCaseMap { entries });
    assert!(funcs.changes_when_upper_cased_special_casing(0x0010));
    assert!(funcs.changes_when_upper_cased_special_casing(0x0011));
    assert!(funcs.changes_when_upper_cased_special_casing(0x2005));
    assert!(!funcs.changes_when_upper_cased_special_casing(0x0012));
    assert!(!funcs.changes_when_upper_cased_special_casing(0x1234));
    assert!(!funcs.changes_when_upper_cased_special_casing(0x2006));
    assert_eq!(funcs.length_upper_case_special_casing(0x2005), 2);
}

#[test]
fn accept_range_three_outcomes() {
    let one = vec![IntRange(5, 10)];
    assert_eq!(accept_range(&one, 3), Some(false));
    assert_eq!(accept_range(&one, 5), Some(true));
    assert_eq!(accept_range(&one, 10), Some(true));
    assert_eq!(accept_range(&one, 11), None);

    let two = vec![IntRange(5, 10), IntRange(20, 20)];
    assert_eq!(accept_range(&two, 4), Some(false));
    assert_eq!(accept_range(&two, 7), Some(true));
    assert_eq!(accept_range(&two, 15), Some(false));
    assert_eq!(accept_range(&two, 20), Some(true));
    assert_eq!(accept_range(&two, 21), None);
}

#[test]
fn in_any_range_tests_singletons_by_equality() {
    let ranges = vec![IntRange(5, 5), IntRange(8, 9)];
    assert!(in_any_range(&ranges, 5));
    assert!(!in_any_range(&ranges, 6));
    assert!(in_any_range(&ranges, 8));
    assert!(in_any_range(&ranges, 9));
    assert!(!in_any_range(&ranges, 10));
}

#[test]
fn last_in_set_returns_greatest() {
    let set = CodePointSet::try_from_codes(vec![1, 5, 9]).expect("sorted");
    assert_eq!(last_in_set(&set), 9);
}
