use unicode_info::table::{
    can_split, compute_maximum_shift, get_element_size, get_element_type, get_size,
    split_at_shift, split_table,
};
use unicode_info::types::NumericType;

#[test]
fn test_get_element_type() {
    let a = vec![254u32, 0, 0];
    assert_eq!(get_element_type(&a), NumericType::U8);

    let b = vec![255u32, 0, 0];
    assert_eq!(get_element_type(&b), NumericType::U8);

    let c = vec![256u32, 0, 0];
    assert_eq!(get_element_type(&c), NumericType::U16);

    let d = vec![65534u32, 0, 0];
    assert_eq!(get_element_type(&d), NumericType::U16);

    let e = vec![65535u32, 0, 0];
    assert_eq!(get_element_type(&e), NumericType::U16);

    let f = vec![65536u32, 0, 0];
    assert_eq!(get_element_type(&f), NumericType::U32);
}

#[test]
fn test_maximum_shift() {
    assert_eq!(compute_maximum_shift(&vec![0; 2]), 0);
    assert_eq!(compute_maximum_shift(&vec![0; 3]), 1);
    assert_eq!(compute_maximum_shift(&vec![0; 4]), 1);
    assert_eq!(compute_maximum_shift(&vec![0; 5]), 2);
    assert_eq!(compute_maximum_shift(&vec![0; 6]), 2);
    assert_eq!(compute_maximum_shift(&vec![0; 7]), 2);
    assert_eq!(compute_maximum_shift(&vec![0; 8]), 2);
    assert_eq!(compute_maximum_shift(&vec![0; 9]), 3);
    assert_eq!(compute_maximum_shift(&vec![0; 10]), 3);
}

#[test]
fn maximum_shift_of_short_tables_is_zero() {
    assert_eq!(compute_maximum_shift(&vec![]), 0);
    assert_eq!(compute_maximum_shift(&vec![7]), 0);
    assert_eq!(compute_maximum_shift(&vec![0; 65536]), 15);
}

#[test]
fn sizes_of_element_types() {
    assert_eq!(get_size(NumericType::U8), 1);
    assert_eq!(get_size(NumericType::U16), 2);
    assert_eq!(get_size(NumericType::U32), 4);
    assert_eq!(get_element_size(&vec![1, 2, 3]), 1);
    assert_eq!(get_element_size(&vec![1, 0x100, 3]), 2);
    assert_eq!(get_element_size(&vec![0x10000]), 4);
}

fn assert_recovers(t: &Vec<u32>, index1: &Vec<u32>, index2: &Vec<u32>, shift: u32) {
    for i in 0..t.len() {
        let mask = (1usize << shift) - 1;
        let index1_entry = index1[i >> shift];
        let index1_index_component = index1_entry << shift;
        let mask_component = i & mask;
        assert_eq!(t[i], index2[index1_index_component as usize + mask_component]);
    }
}

#[test]
fn split_of_a_single_entry() {
    let t = vec![42u32];
    let split = split_table(&t);
    assert_eq!(split.index1, vec![0]);
    assert_eq!(split.index2, vec![42]);
    assert_eq!(split.shift, 0);
    assert_eq!(split.index1_elem_type, NumericType::U8);
    assert_eq!(split.index2_elem_type, NumericType::U8);
}

#[test]
fn split_at_each_shift_of_a_repeating_table() {
    let t = vec![0u32, 0, 1, 1, 0, 0, 1, 1];

    let (index1, index2) = split_at_shift(&t, 0);
    assert_eq!(index1, vec![0, 0, 1, 1, 0, 0, 1, 1]);
    assert_eq!(index2, vec![0, 1]);
    assert_recovers(&t, &index1, &index2, 0);

    let (index1, index2) = split_at_shift(&t, 1);
    assert_eq!(index1, vec![0, 1, 0, 1]);
    assert_eq!(index2, vec![0, 0, 1, 1]);
    assert_recovers(&t, &index1, &index2, 1);

    let (index1, index2) = split_at_shift(&t, 2);
    assert_eq!(index1, vec![0, 0]);
    assert_eq!(index2, vec![0, 0, 1, 1]);
    assert!(index2.len() < t.len());
    assert_recovers(&t, &index1, &index2, 2);
}

#[test]
fn best_split_of_a_repeating_table() {
    let t = vec![0u32, 0, 1, 1, 0, 0, 1, 1];
    let split = split_table(&t);
    // Shift 0 takes 8 + 2 bytes, shift 1 takes 4 + 4, shift 2 takes 2 + 4.
    assert_eq!(split.shift, 2);
    assert_eq!(split.index1, vec![0, 0]);
    assert_eq!(split.index2, vec![0, 0, 1, 1]);
    assert_recovers(&t, &split.index1, &split.index2, split.shift);
}

#[test]
fn best_split_prefers_the_smallest_shift_among_equals() {
    // Shift 0 takes 2 + 2 bytes and shift... there is no other.
    let t = vec![5u32, 6];
    let split = split_table(&t);
    assert_eq!(split.shift, 0);
    assert_eq!(split.index1, vec![0, 1]);
    assert_eq!(split.index2, vec![5, 6]);

    // All distinct: shift 0 takes 4 + 4 bytes, shift 1 takes 2 + 4.
    let t = vec![1u32, 2, 3, 4];
    let split = split_table(&t);
    assert_eq!(split.shift, 1);
    assert_eq!(split.index1, vec![0, 1]);
    assert_eq!(split.index2, vec![1, 2, 3, 4]);

    // All equal: shift 0 takes 4 + 1 bytes, shift 1 takes 2 + 2.
    let t = vec![9u32, 9, 9, 9];
    let split = split_table(&t);
    assert_eq!(split.shift, 1);
    assert_eq!(split.index1, vec![0, 0]);
    assert_eq!(split.index2, vec![9, 9]);
}

#[test]
fn best_split_is_no_larger_than_the_unsplit_table() {
    let mut t: Vec<u32> = Vec::new();
    for i in 0..65536u32 {
        t.push(if i % 1024 < 1000 { 0 } else { (i % 7) + 300 });
    }
    let split = split_table(&t);
    let (index1, index2) = split_at_shift(&t, 0);
    let unsplit = get_element_size(&index1) * index1.len() + get_element_size(&index2) * index2.len();
    let best = get_size(split.index1_elem_type) * split.index1.len()
        + get_size(split.index2_elem_type) * split.index2.len();
    assert!(best <= unsplit);
    assert_eq!(split.index1_elem_type, get_element_type(&split.index1));
    assert_eq!(split.index2_elem_type, get_element_type(&split.index2));
    assert_recovers(&t, &split.index1, &split.index2, split.shift);
}

#[test]
fn tables_of_a_power_of_two_can_be_split() {
    assert!(!can_split(&vec![]));
    for len in 1..=70usize {
        assert_eq!(can_split(&vec![0; len]), len.is_power_of_two());
    }
    assert!(can_split(&vec![0; 65536]));
    assert!(!can_split(&vec![0; 65535]));
    assert!(!can_split(&vec![0; 65536 + 32768]));
}

#[test]
fn splitting_twice_gives_the_same_tables() {
    let mut t: Vec<u32> = Vec::new();
    for i in 0..1024u32 {
        t.push((i / 16) % 5 + (i % 3));
    }
    let first = split_table(&t);
    let second = split_table(&t);
    assert_eq!(first.shift, second.shift);
    assert_eq!(first.index1, second.index1);
    assert_eq!(first.index2, second.index2);
    assert_eq!(first.index1_elem_type, second.index1_elem_type);
    assert_eq!(first.index2_elem_type, second.index2_elem_type);
    assert_recovers(&t, &first.index1, &first.index2, first.shift);
}

#[test]
fn every_shift_up_to_the_maximum_is_tried() {
    // One page of 8 entries, stored once: 2 + 8 bytes at shift 3; any
    // smaller shift needs more entries in the first table.
    let mut t: Vec<u32> = Vec::new();
    for _ in 0..2 {
        t.extend_from_slice(&[1, 2, 3, 4, 5, 6, 7, 8]);
    }
    let split = split_table(&t);
    assert_eq!(compute_maximum_shift(&t), 3);
    assert_eq!(split.shift, 3);
    assert_eq!(split.index1, vec![0, 0]);
    assert_eq!(split.index2, vec![1, 2, 3, 4, 5, 6, 7, 8]);
}

#[test]
fn wide_entries_take_wide_types() {
    let t = vec![0u32, 0x1_0000, 0, 0x1_0000];
    let split = split_table(&t);
    // Shift 0 takes 4 + 8 bytes, shift 1 takes 2 + 8.
    assert_eq!(split.shift, 1);
    assert_eq!(split.index1, vec![0, 0]);
    assert_eq!(split.index2, vec![0, 0x1_0000]);
    assert_eq!(split.index1_elem_type, NumericType::U8);
    assert_eq!(split.index2_elem_type, NumericType::U32);
}
