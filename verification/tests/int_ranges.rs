use generate_unicode_data::int_ranges::{collect_int_ranges, int_ranges, CodePointSet, IntRange};

#[test]
fn coalesce_scenario() {
    let set = CodePointSet::try_from_codes(vec![0x41, 0x42, 0x43, 0x50]).expect("sorted");
    let ranges = collect_int_ranges(&set);
    assert_eq!(ranges, vec![IntRange(0x41, 0x43), IntRange(0x50, 0x50)]);
}

#[test]
fn coalesce_empty_set() {
    let set = CodePointSet::try_from_codes(Vec::new()).expect("sorted");
    let ranges = collect_int_ranges(&set);
    assert_eq!(ranges, Vec::<IntRange>::new());
}

#[test]
fn coalesce_single_run() {
    let set = CodePointSet::try_from_codes(vec![7, 8, 9, 10]).expect("sorted");
    let ranges = collect_int_ranges(&set);
    assert_eq!(ranges, vec![IntRange(7, 10)]);
}

#[test]
fn coalesce_all_singletons() {
    let set = CodePointSet::try_from_codes(vec![2, 4, 6]).expect("sorted");
    let ranges = collect_int_ranges(&set);
    assert_eq!(
        ranges,
        vec![IntRange(2, 2), IntRange(4, 4), IntRange(6, 6)]
    );
}

#[test]
fn int_ranges_yields_incrementally() {
    let set = CodePointSet::try_from_codes(vec![0x41, 0x42, 0x43, 0x50]).expect("sorted");
    let mut it = int_ranges(&set);
    assert_eq!(it.next(), Some(IntRange(0x41, 0x43)));
    assert_eq!(it.next(), Some(IntRange(0x50, 0x50)));
    assert_eq!(it.next(), None);
    assert_eq!(it.next(), None);
}

#[test]
fn try_from_codes_rejects_bad_input() {
    assert!(CodePointSet::try_from_codes(vec![2, 1]).is_none());
    assert!(CodePointSet::try_from_codes(vec![1, 1]).is_none());
    assert!(CodePointSet::try_from_codes(vec![0x110000]).is_none());
    assert!(CodePointSet::try_from_codes(vec![0x10FFFF]).is_some());
}
