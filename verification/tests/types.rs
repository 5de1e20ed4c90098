use unicode_info::types::{
    Flags, MappedCodePoint, NumericType, FLAG_SPACE, FLAG_UNICODE_ID_CONTINUE_ONLY,
    FLAG_UNICODE_ID_START,
};

#[test]
fn flags_start_empty() {
    let flags = Flags(0);
    assert!(!flags.is_space());
    assert!(!flags.is_unicode_id_start());
    assert!(!flags.is_unicode_id_continue_only());
}

#[test]
fn flag_bits() {
    assert_eq!(FLAG_SPACE, 1);
    assert_eq!(FLAG_UNICODE_ID_START, 2);
    assert_eq!(FLAG_UNICODE_ID_CONTINUE_ONLY, 4);
}

#[test]
fn setting_a_flag_leaves_the_others() {
    let mut flags = Flags(0);
    flags.set_space();
    assert_eq!(flags, Flags(1));
    assert!(flags.is_space());
    assert!(!flags.is_unicode_id_start());
    assert!(!flags.is_unicode_id_continue_only());

    flags.set_unicode_id_start();
    assert_eq!(flags, Flags(3));
    assert!(flags.is_space());
    assert!(flags.is_unicode_id_start());
    assert!(!flags.is_unicode_id_continue_only());

    let mut flags = Flags(0);
    flags.set_unicode_id_continue_only();
    assert_eq!(flags, Flags(4));
    assert!(!flags.is_space());
    assert!(!flags.is_unicode_id_start());
    assert!(flags.is_unicode_id_continue_only());

    // Setting a flag twice changes nothing, and unknown bits stay.
    let mut flags = Flags(0xF0);
    flags.set_space();
    flags.set_space();
    assert_eq!(flags, Flags(0xF1));
}

#[test]
fn mapped_code_point_holds_its_parts() {
    let mapped = MappedCodePoint { lower: 0x61, upper: 0x41, flags: Flags(2) };
    assert_eq!(mapped.lower, 0x61);
    assert_eq!(mapped.upper, 0x41);
    assert!(mapped.flags.is_unicode_id_start());
    assert_ne!(NumericType::U8, NumericType::U16);
}
