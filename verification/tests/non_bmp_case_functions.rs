use generate_unicode_data::non_bmp_case_functions::{
    changes_when_cased_non_bmp, compute_conversion_ranges, to_case_non_bmp_trail, utf16_decode,
    utf16_encode, CaseMap, CaseMappingRange, Casing,
};

#[test]
fn check_utf16_encode() {
    assert_eq!(utf16_encode(0x10400), (0xD801, 0xDC00));
}

#[test]
fn utf16_encode_formula_samples() {
    assert_eq!(utf16_encode(0x10000), (0xD800, 0xDC00));
    assert_eq!(utf16_encode(0x103FF), (0xD800, 0xDFFF));
    assert_eq!(utf16_encode(0x10428), (0xD801, 0xDC28));
    assert_eq!(utf16_encode(0x10FFFF), (0xDBFF, 0xDFFF));
}

#[test]
fn utf16_round_trip_samples() {
    for code in [0x10000u32, 0x103FF, 0x10400, 0x10428, 0x1E943, 0x10FFFE, 0x10FFFF] {
        let (lead, trail) = utf16_encode(code);
        assert_eq!(utf16_decode(lead, trail), code);
    }
}

#[test]
fn casing_to_string() {
    assert_eq!(Casing::Upper.to_string(), "upper");
    assert_eq!(Casing::Lower.to_string(), "lower");
}

/// The Deseret small letters map onto one maximal run: a single range with
/// one lead unit and one wrapping trail delta.
#[test]
fn conversion_ranges_coalesce_one_run() {
    let mut entries: Vec<(u32, u32)> = Vec::new();
    for c in 0x10428u32..=0x1044F {
        entries.push((c, c - 40));
    }
    let case_map = CaseMap { entries };
    assert!(case_map.check_leads_consistent());
    let ranges = compute_conversion_ranges(&case_map);
    assert_eq!(
        ranges,
        vec![CaseMappingRange {
            start: 0x10428,
            length: 0x28,
            delta: 0xDC00u16.wrapping_sub(0xDC28),
            lead: 0xD801,
            trail: 0xDC28,
        }]
    );
}

/// A gap, a delta change or a lead change each closes a run.
#[test]
fn conversion_ranges_split_runs() {
    let entries: Vec<(u32, u32)> = vec![
        (0x10428, 0x10400),
        (0x10429, 0x10401),
        // gap
        (0x1042B, 0x10403),
        // contiguous with the previous but a different delta
        (0x1042C, 0x10400),
    ];
    let case_map = CaseMap { entries };
    let ranges = compute_conversion_ranges(&case_map);
    assert_eq!(ranges.len(), 3);
    assert_eq!((ranges[0].start, ranges[0].length), (0x10428, 2));
    assert_eq!((ranges[1].start, ranges[1].length), (0x1042B, 1));
    assert_eq!((ranges[2].start, ranges[2].length), (0x1042C, 1));
}

/// A pair outside every range reports no change and transforms to itself.
#[test]
fn identity_fallback_outside_ranges() {
    let mut entries: Vec<(u32, u32)> = Vec::new();
    for c in 0x10428u32..=0x1044F {
        entries.push((c, c - 40));
    }
    let ranges = compute_conversion_ranges(&CaseMap { entries });

    // wrong trail, right lead
    assert_eq!(changes_when_cased_non_bmp(&ranges, 0xD801, 0xDC27), false);
    assert_eq!(to_case_non_bmp_trail(&ranges, 0xD801, 0xDC27), 0xDC27);
    assert_eq!(changes_when_cased_non_bmp(&ranges, 0xD801, 0xDC50), false);
    assert_eq!(to_case_non_bmp_trail(&ranges, 0xD801, 0xDC50), 0xDC50);
    // right trail, wrong lead
    assert_eq!(changes_when_cased_non_bmp(&ranges, 0xD802, 0xDC28), false);
    assert_eq!(to_case_non_bmp_trail(&ranges, 0xD802, 0xDC28), 0xDC28);
    // inside
    assert_eq!(changes_when_cased_non_bmp(&ranges, 0xD801, 0xDC28), true);
    assert_eq!(to_case_non_bmp_trail(&ranges, 0xD801, 0xDC28), 0xDC00);
}

/// A mapping that moves a code point into another lead unit's block breaks
/// the lead invariant and is reported before any range is generated.
#[test]
fn leads_consistency_check_rejects() {
    let good = CaseMap {
        entries: vec![(0x10428, 0x10400)],
    };
    assert!(good.check_leads_consistent());

    let bad = CaseMap {
        entries: vec![(0x10400, 0x10800)],
    };
    assert!(!bad.check_leads_consistent());
}
