use generate_unicode_data::ascii_tables::generate_ascii_lookup_tables;
use generate_unicode_data::bmp::{BmpInfo, CharacterInfo};
use generate_unicode_data::int_ranges::CodePointSet;
use generate_unicode_data::latin1_tables::generate_latin1_lookup_tables;
use generate_unicode_data::non_bmp_case_functions::{
    generate_non_bmp_case_functions, CaseMap, NonBmpCaseFunctions,
};
use generate_unicode_data::special_casing_functions::{
    generate_special_casing_functions, SpecialCaseMap, SpecialCasingFunctions,
};
use generate_unicode_data::supplemental_identifier_function::generate_isidentifier_start_part_functions;

const LATIN_SMALL_LETTER_SHARP_S: u32 = 0x00DF;
const GREEK_SMALL_LETTER_IOTA_WITH_DIALYTIKA_AND_TONOS: u32 = 0x0390;
const GREEK_SMALL_LETTER_UPSILON_WITH_PSILI: u32 = 0x1F50;
const LATIN_SMALL_LETTER_H_WITH_LINE_BELOW: u32 = 0x1E96;
const GREEK_CAPITAL_LETTER_IOTA: u32 = 0x0399;
const COMBINING_DIAERESIS: u32 = 0x0308;
const COMBINING_ACUTE_ACCENT: u32 = 0x0301;
const LATIN_CAPITAL_LETTER_S: u32 = 0x0053;
const LATIN_CAPITAL_LETTER_H: u32 = 0x0048;
const COMBINING_MACRON_BELOW: u32 = 0x0331;

/// Build a 1:1 case map from (first, last, signed difference) rows, one
/// entry per code point of each row.
fn case_map(rows: &[(u32, u32, i64)]) -> CaseMap {
    let mut entries: Vec<(u32, u32)> = Vec::new();
    for &(from, to, diff) in rows {
        let mut c = from;
        while c <= to {
            entries.push((c, (c as i64 + diff) as u32));
            c += 1;
        }
    }
    CaseMap { entries }
}

/// The non-BMP simple case maps, entered row by row:
///
/// uppercase rows (small to capital):
/// - U+10428 DESERET SMALL LETTER LONG I .. U+1044F DESERET SMALL LETTER EW
/// - U+104D8 OSAGE SMALL LETTER A .. U+104FB OSAGE SMALL LETTER ZHA
/// - U+10CC0 OLD HUNGARIAN SMALL LETTER A .. U+10CF2 OLD HUNGARIAN SMALL LETTER US
/// - U+118C0 WARANG CITI SMALL LETTER NGAA .. U+118DF WARANG CITI SMALL LETTER VIYO
/// - U+16E60 MEDEFAIDRIN SMALL LETTER M .. U+16E7F MEDEFAIDRIN SMALL LETTER Y
/// - U+1E922 ADLAM SMALL LETTER ALIF .. U+1E943 ADLAM SMALL LETTER SHA
///
/// and the corresponding lowercase rows (capital to small).
fn non_bmp_fixture() -> NonBmpCaseFunctions {
    let uppercase_map = case_map(&[
        (0x10428, 0x1044F, -40),
        (0x104D8, 0x104FB, -40),
        (0x10CC0, 0x10CF2, -64),
        (0x118C0, 0x118DF, -32),
        (0x16E60, 0x16E7F, -32),
        (0x1E922, 0x1E943, -34),
    ]);
    let lowercase_map = case_map(&[
        (0x10400, 0x10427, 40),
        (0x104B0, 0x104D3, 40),
        (0x10C80, 0x10CB2, 64),
        (0x118A0, 0x118BF, 32),
        (0x16E40, 0x16E5F, 32),
        (0x1E900, 0x1E921, 34),
    ]);
    assert!(uppercase_map.check_leads_consistent());
    assert!(lowercase_map.check_leads_consistent());
    generate_non_bmp_case_functions(&uppercase_map, &lowercase_map)
}

/// Unconditional special uppercase entries, with their real replacement
/// sequences; the 0x1000-chunk holding U+1E96..U+1F56 has nine members, so
/// building the decision exercises the sub-chunk path.
fn special_casing_fixture() -> SpecialCasingFunctions {
    let entries: Vec<(u32, Vec<u32>)> = vec![
        (0x00DF, vec![0x0053, 0x0053]),
        (0x0149, vec![0x02BC, 0x004E]),
        (0x01F0, vec![0x004A, 0x030C]),
        (0x0390, vec![0x0399, 0x0308, 0x0301]),
        (0x03B0, vec![0x03A5, 0x0308, 0x0301]),
        (0x0587, vec![0x0535, 0x0552]),
        (0x1E96, vec![0x0048, 0x0331]),
        (0x1E97, vec![0x0054, 0x0308]),
        (0x1E98, vec![0x0057, 0x030A]),
        (0x1E99, vec![0x0059, 0x030A]),
        (0x1E9A, vec![0x0041, 0x02BE]),
        (0x1F50, vec![0x03A5, 0x0313]),
        (0x1F52, vec![0x03A5, 0x0313, 0x0300]),
        (0x1F54, vec![0x03A5, 0x0313, 0x0301]),
        (0x1F56, vec![0x03A5, 0x0313, 0x0342]),
    ];
    generate_special_casing_functions(SpecialCaseMap { entries })
}

#[test]
fn check_isidentifier_start_non_bmp() {
    // This code point constitutes a full range.
    const TIRHUTA_OM: u32 = 0x114C7;

    let mut start_codes: Vec<u32> = Vec::new();
    for c in 0x11480..=0x114AF {
        start_codes.push(c);
    }
    start_codes.push(0x114C4);
    start_codes.push(0x114C5);
    start_codes.push(TIRHUTA_OM);
    let id_start_set = CodePointSet::try_from_codes(start_codes).expect("sorted");
    let id_continue_set = CodePointSet::try_from_codes(vec![0x11370, 0x11371]).expect("sorted");
    let funcs = generate_isidentifier_start_part_functions(&id_start_set, &id_continue_set);

    assert_eq!(funcs.is_identifier_start_non_bmp(TIRHUTA_OM), true);

    assert_eq!(funcs.is_identifier_start_non_bmp(TIRHUTA_OM - 1), false);
    assert_eq!(funcs.is_identifier_start_non_bmp(TIRHUTA_OM + 1), false);
}

#[test]
fn check_isidentifier_part_non_bmp() {
    // 0x11370..=0x11374 is a full range.
    const COMBINING_GRANTHA_LETTER_A: u32 = 0x11370;

    let id_start_set = CodePointSet::try_from_codes(vec![0x11480]).expect("sorted");
    let mut cont_codes: Vec<u32> = Vec::new();
    for c in 0x11366..=0x1136C {
        cont_codes.push(c);
    }
    for c in 0x11370..=0x11374 {
        cont_codes.push(c);
    }
    let id_continue_set = CodePointSet::try_from_codes(cont_codes).expect("sorted");
    let funcs = generate_isidentifier_start_part_functions(&id_start_set, &id_continue_set);

    assert_eq!(
        funcs.is_identifier_part_non_bmp(COMBINING_GRANTHA_LETTER_A - 1),
        false
    );
    assert_eq!(
        funcs.is_identifier_part_non_bmp(COMBINING_GRANTHA_LETTER_A + 0),
        true
    );
    assert_eq!(
        funcs.is_identifier_part_non_bmp(COMBINING_GRANTHA_LETTER_A + 1),
        true
    );
    assert_eq!(
        funcs.is_identifier_part_non_bmp(COMBINING_GRANTHA_LETTER_A + 2),
        true
    );
    assert_eq!(
        funcs.is_identifier_part_non_bmp(COMBINING_GRANTHA_LETTER_A + 3),
        true
    );
    assert_eq!(
        funcs.is_identifier_part_non_bmp(COMBINING_GRANTHA_LETTER_A + 4),
        true
    );
    assert_eq!(
        funcs.is_identifier_part_non_bmp(COMBINING_GRANTHA_LETTER_A + 5),
        false
    );
}

#[test]
fn check_changes_when_upper_cased_special_casing() {
    let funcs = special_casing_fixture();

    assert_eq!(
        funcs.changes_when_upper_cased_special_casing('a' as u16),
        false
    );

    assert_eq!(
        funcs.changes_when_upper_cased_special_casing(LATIN_SMALL_LETTER_SHARP_S as u16),
        true
    );
    assert_eq!(
        funcs.changes_when_upper_cased_special_casing(
            GREEK_SMALL_LETTER_IOTA_WITH_DIALYTIKA_AND_TONOS as u16
        ),
        true
    );
    assert_eq!(
        funcs.changes_when_upper_cased_special_casing(GREEK_SMALL_LETTER_UPSILON_WITH_PSILI as u16),
        true
    );
}

#[test]
fn check_length_upper_case_special_casing() {
    let funcs = special_casing_fixture();

    assert_eq!(
        funcs.length_upper_case_special_casing(LATIN_SMALL_LETTER_SHARP_S as u16),
        2
    );
    assert_eq!(
        funcs.length_upper_case_special_casing(
            GREEK_SMALL_LETTER_IOTA_WITH_DIALYTIKA_AND_TONOS as u16
        ),
        3
    );
    assert_eq!(
        funcs.length_upper_case_special_casing(GREEK_SMALL_LETTER_UPSILON_WITH_PSILI as u16),
        2
    );
}

#[test]
fn check_append_upper_case_special_casing() {
    const BAD: u16 = 0xFFFF;
    const OFFSET: usize = 3;

    let funcs = special_casing_fixture();

    {
        let mut v = vec![BAD; 8];
        let number_written = 2;
        let mut index = OFFSET;
        funcs.append_upper_case_special_casing(
            LATIN_SMALL_LETTER_SHARP_S as u16,
            &mut v,
            &mut index,
        );
        assert_eq!(index, OFFSET + number_written);
        assert!(v[0..OFFSET].iter().all(|unit| *unit == BAD));
        assert_eq!(
            v[OFFSET..OFFSET + number_written],
            [LATIN_CAPITAL_LETTER_S as u16, LATIN_CAPITAL_LETTER_S as u16],
            "replacement units"
        );
        assert!(v[OFFSET + number_written..8].iter().all(|unit| *unit == BAD));
    }

    {
        let mut v = vec![BAD; 8];
        let number_written = 3;
        let mut index = OFFSET;
        funcs.append_upper_case_special_casing(
            GREEK_SMALL_LETTER_IOTA_WITH_DIALYTIKA_AND_TONOS as u16,
            &mut v,
            &mut index,
        );
        assert_eq!(index, OFFSET + number_written);
        assert!(v[0..OFFSET].iter().all(|unit| *unit == BAD));
        assert_eq!(
            v[OFFSET..OFFSET + number_written],
            [
                GREEK_CAPITAL_LETTER_IOTA as u16,
                COMBINING_DIAERESIS as u16,
                COMBINING_ACUTE_ACCENT as u16
            ],
            "replacement units"
        );
        assert!(v[OFFSET + number_written..8].iter().all(|unit| *unit == BAD));
    }

    {
        let mut v = vec![BAD; 8];
        let number_written = 2;
        let mut index = OFFSET;
        funcs.append_upper_case_special_casing(
            LATIN_SMALL_LETTER_H_WITH_LINE_BELOW as u16,
            &mut v,
            &mut index,
        );
        assert_eq!(index, OFFSET + number_written);
        assert!(v[0..OFFSET].iter().all(|unit| *unit == BAD));
        assert_eq!(
            v[OFFSET..OFFSET + number_written],
            [LATIN_CAPITAL_LETTER_H as u16, COMBINING_MACRON_BELOW as u16],
            "replacement units"
        );
        assert!(v[OFFSET + number_written..8].iter().all(|unit| *unit == BAD));
    }
}

#[test]
fn check_ascii_lookup_tables() {
    let bmp = BmpInfo {
        index: vec![0u32; 0x10000],
        table: vec![CharacterInfo {
            upper_delta: 0,
            lower_delta: 0,
            flags: 0,
        }],
    };
    let tables = generate_ascii_lookup_tables(&bmp);
    assert_eq!(tables.isidstart.len(), 0x80);
    assert_eq!(tables.isident.len(), 0x80);
    assert_eq!(tables.isspace.len(), 0x80);
}

#[test]
fn check_latin1_lookup_tables() {
    let mut index: Vec<u32> = Vec::new();
    let mut table: Vec<CharacterInfo> = Vec::new();
    for i in 0u32..0x10000 {
        index.push(if i < 0x100 { i } else { 0 });
    }
    for i in 0u32..0x100 {
        let lower = (i as u8 as char)
            .to_lowercase()
            .next()
            .expect("lowercasing can't empty") as u32;
        table.push(CharacterInfo {
            upper_delta: 0,
            lower_delta: (lower as u16).wrapping_sub(i as u16),
            flags: 0,
        });
    }
    let bmp = BmpInfo { index, table };
    let latin1_to_lower_case_table = generate_latin1_lookup_tables(&bmp);

    for (i, c) in latin1_to_lower_case_table.iter().enumerate() {
        assert!(i < 256);
        assert_eq!(
            (i as u8 as char)
                .to_string()
                .to_lowercase()
                .chars()
                .nth(0)
                .expect("lowercasing can't empty"),
            *c as char
        );
    }
}

#[test]
fn check_changes_when_upper_cased_non_bmp() {
    let funcs = non_bmp_fixture();
    assert!(funcs.changes_when_upper_cased_non_bmp(0xD801, 0xDC28));
}

#[test]
fn check_changes_when_lower_cased_non_bmp() {
    let funcs = non_bmp_fixture();
    assert!(funcs.changes_when_lower_cased_non_bmp(0xD801, 0xDC00));
}

#[test]
fn check_to_upper_case_non_bmp_trail() {
    let funcs = non_bmp_fixture();
    assert!(funcs.to_upper_case_non_bmp_trail(0xD801, 0xDC28) == 0xDC00);
}

#[test]
fn check_to_lower_case_non_bmp_trail() {
    let funcs = non_bmp_fixture();
    assert!(funcs.to_lower_case_non_bmp_trail(0xD801, 0xDC00) == 0xDC28);
}
