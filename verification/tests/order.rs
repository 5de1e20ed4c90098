use std::collections::BTreeMap;
use unicode_info::constants::{
    contains_code, COMPATIBILITY_IDENTIFIER_PART, LINE_TERMINATOR, MAX_BMP, WHITE_SPACE,
};
use unicode_info::order::{keys_in_order, merge_without};

#[test]
fn keys_come_in_order() {
    let mut map = BTreeMap::new();
    map.insert(7u32, "seven");
    map.insert(3, "three");
    map.insert(5, "five");
    assert_eq!(keys_in_order(&map), vec![3, 5, 7]);
    let empty: BTreeMap<u32, u8> = BTreeMap::new();
    assert_eq!(keys_in_order(&empty), Vec::<u32>::new());
}

#[test]
fn lists_are_merged() {
    assert_eq!(merge_without(&vec![1, 3, 5], 4, 3), vec![1, 4, 5]);
    assert_eq!(merge_without(&vec![1, 3, 5], 0, 9), vec![0, 1, 3, 5]);
    assert_eq!(merge_without(&vec![1, 3, 5], 9, 1), vec![3, 5, 9]);
    assert_eq!(merge_without(&vec![1, 3, 5], 3, 9), vec![1, 3, 5]);
    assert_eq!(merge_without(&vec![1, 3, 5], 3, 3), vec![1, 5]);
    assert_eq!(merge_without(&vec![1, 3, 5], 4, 4), vec![1, 3, 5]);
    assert_eq!(merge_without(&vec![], 4, 3), vec![4]);
    assert_eq!(merge_without(&vec![], 4, 4), Vec::<u32>::new());
    assert_eq!(merge_without(&vec![4], 4, 4), Vec::<u32>::new());
}

#[test]
fn fixed_sets_hold_their_code_points() {
    for code in [0x09u32, 0x0B, 0x0C, 0x20, 0xA0, 0xFEFF] {
        assert!(contains_code(&WHITE_SPACE, code));
    }
    for code in [0x0Au32, 0x0D, 0x2028, 0x2029] {
        assert!(contains_code(&LINE_TERMINATOR, code));
        assert!(!contains_code(&WHITE_SPACE, code));
    }
    assert!(contains_code(&COMPATIBILITY_IDENTIFIER_PART, 0x200C));
    assert!(contains_code(&COMPATIBILITY_IDENTIFIER_PART, 0x200D));
    assert!(!contains_code(&COMPATIBILITY_IDENTIFIER_PART, 0x200B));
    assert!(!contains_code(&[], 0));
    assert_eq!(MAX_BMP, 0xFFFF);
}
