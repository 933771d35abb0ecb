use generate_unicode_data::index_table::{
    build_indexed_table, generate_index_table, generate_index_tables, width_fits, NarrowedIndex,
    NumericType,
};

#[test]
fn narrowing_truncates_per_element() {
    let index: Vec<u32> = vec![0x1FF, 3, 0x100];
    match generate_index_table(&index, NumericType::U8) {
        NarrowedIndex::U8(v) => assert_eq!(v, vec![0xFF, 3, 0x00]),
        _ => panic!("wrong width"),
    }
    match generate_index_table(&index, NumericType::U16) {
        NarrowedIndex::U16(v) => assert_eq!(v, vec![0x1FF, 3, 0x100]),
        _ => panic!("wrong width"),
    }
    match generate_index_table(&index, NumericType::U32) {
        NarrowedIndex::U32(v) => assert_eq!(v, vec![0x1FF, 3, 0x100]),
        _ => panic!("wrong width"),
    }
}

#[test]
fn width_fits_detects_loss() {
    let index: Vec<u32> = vec![0x1FF, 3];
    assert!(!width_fits(&index, NumericType::U8));
    assert!(width_fits(&index, NumericType::U16));
    assert!(width_fits(&index, NumericType::U32));
    assert!(width_fits(&vec![0xFF, 0], NumericType::U8));
}

#[test]
fn narrowing_both_indexes() {
    let index1: Vec<u32> = vec![1, 2];
    let index2: Vec<u32> = vec![0x300, 0x400];
    let (n1, n2) = generate_index_tables(&index1, NumericType::U8, &index2, NumericType::U16);
    match n1 {
        NarrowedIndex::U8(v) => assert_eq!(v, vec![1, 2]),
        _ => panic!("wrong width"),
    }
    match n2 {
        NarrowedIndex::U16(v) => assert_eq!(v, vec![0x300, 0x400]),
        _ => panic!("wrong width"),
    }
}

/// A two-level index table built for 0x10000 attribute values reconstructs
/// every one of the 0x10000 entries identically to the unsplit array.
#[test]
fn two_level_reconstruction_full_bmp() {
    for shift in [5u32, 6] {
        let mut direct: Vec<u32> = Vec::new();
        for c in 0u32..0x10000 {
            direct.push((c / 64) % 251);
        }
        let mut values: Vec<u32> = Vec::new();
        for v in 0u32..251 {
            values.push(v);
        }
        let mut index1: Vec<u32> = Vec::new();
        for i in 0u32..(0x10000 >> shift) {
            index1.push(i);
        }
        let mut index2: Vec<u32> = Vec::new();
        for c in 0u32..0x10000 {
            index2.push(direct[c as usize]);
        }

        let table =
            build_indexed_table(values, index1, index2, shift, &direct).expect("valid split");
        for c in 0u32..0x10000 {
            assert_eq!(table.lookup_via_two_level_index(c), direct[c as usize]);
        }
    }
}

#[test]
fn invalid_split_is_rejected() {
    let direct: Vec<u32> = vec![5, 6, 7, 8];
    // second-level entry out of bounds of the value table
    assert!(build_indexed_table(vec![5, 6, 7, 8], vec![0, 1], vec![0, 1, 2, 9], 1, &direct)
        .is_none());
    // wrong value reconstructed
    assert!(build_indexed_table(vec![5, 6, 7, 8], vec![0, 1], vec![0, 1, 3, 2], 1, &direct)
        .is_none());
    // a correct split of the same array
    assert!(build_indexed_table(vec![5, 6, 7, 8], vec![0, 1], vec![0, 1, 2, 3], 1, &direct)
        .is_some());
}
