use unicode_info::bmp::{generate_bmp_info, CaseDelta, CaseOutsideBmp, CharacterInfo};
use unicode_info::code_point_table::generate_code_point_table;
use unicode_info::derived_core_properties::process_derived_core_properties;
use unicode_info::types::Flags;

/// Lines of the registry, as the file holds them.
const REGISTRY: &str = "\
0009;<control>;Cc;0;S;;;;;N;CHARACTER TABULATION;;;;
0020;SPACE;Zs;0;WS;;;;;N;;;;;
0030;DIGIT ZERO;Nd;0;EN;;0;0;0;N;;;;;
0041;LATIN CAPITAL LETTER A;Lu;0;L;;;;;N;;;;0061;
0042;LATIN CAPITAL LETTER B;Lu;0;L;;;;;N;;;;0062;
005F;LOW LINE;Pc;0;ON;;;;;N;SPACING UNDERSCORE;;;;
0061;LATIN SMALL LETTER A;Ll;0;L;;;;;N;;;0041;;0041
0062;LATIN SMALL LETTER B;Ll;0;L;;;;;N;;;0042;;0042
00FF;LATIN SMALL LETTER Y WITH DIAERESIS;Ll;0;L;0079 0308;;;;N;LATIN SMALL LETTER Y DIAERESIS;;0178;;0178
0178;LATIN CAPITAL LETTER Y WITH DIAERESIS;Lu;0;L;0059 0308;;;;N;LATIN CAPITAL LETTER Y DIAERESIS;;;00FF;
200C;ZERO WIDTH NON-JOINER;Cf;0;BN;;;;;N;;;;;
200D;ZERO WIDTH JOINER;Cf;0;BN;;;;;N;;;;;
2028;LINE SEPARATOR;Zl;0;WS;;;;;N;;;;;
1E9E;LATIN CAPITAL LETTER SHARP S;Lu;0;L;;;;;N;;;;00DF;
FEFF;ZERO WIDTH NO-BREAK SPACE;Cf;0;BN;;;;;N;BYTE ORDER MARK;;;;
10403;DESERET CAPITAL LETTER LONG AH;Lu;0;L;;;;;N;;;;1042B;
";

/// Lines of the derived properties, as the file holds them.
const DERIVED: &str = "\
0041..005A    ; ID_Start # L&  [26] LATIN CAPITAL LETTER A..LATIN CAPITAL LETTER Z
0061..007A    ; ID_Start # L&  [26] LATIN SMALL LETTER A..LATIN SMALL LETTER Z
00F8..01BA    ; ID_Start # L& [195] LATIN SMALL LETTER O WITH STROKE..LATIN SMALL LETTER EZH WITH TAIL
1E00..1F15    ; ID_Start # L& [278] LATIN CAPITAL LETTER A WITH RING BELOW..GREEK SMALL LETTER EPSILON WITH DASIA AND OXIA
0030..0039    ; ID_Continue # Nd  [10] DIGIT ZERO..DIGIT NINE
0041..005A    ; ID_Continue # L&  [26] LATIN CAPITAL LETTER A..LATIN CAPITAL LETTER Z
005F          ; ID_Continue # Pc       LOW LINE
0061..007A    ; ID_Continue # L&  [26] LATIN SMALL LETTER A..LATIN SMALL LETTER Z
00F8..01BA    ; ID_Continue # L& [195] LATIN SMALL LETTER O WITH STROKE..LATIN SMALL LETTER EZH WITH TAIL
1E00..1F15    ; ID_Continue # L& [278] LATIN CAPITAL LETTER A WITH RING BELOW..GREEK SMALL LETTER EPSILON WITH DASIA AND OXIA
";

const SPACE: u8 = 1;
const ID_START: u8 = 2;
const ID_CONTINUE_ONLY: u8 = 4;

fn info(upper: u16, lower: u16, flags: u8) -> CharacterInfo {
    CharacterInfo { upper_delta: CaseDelta(upper), lower_delta: CaseDelta(lower), flags: Flags(flags) }
}

#[test]
fn all_zeroes_is_the_identity() {
    let zero = CharacterInfo::all_zeroes();
    assert_eq!(zero, info(0, 0, 0));
    let mapped = zero.apply(0x1234);
    assert_eq!(mapped.upper, 0x1234);
    assert_eq!(mapped.lower, 0x1234);
    assert_eq!(mapped.flags, Flags(0));
}

#[test]
fn apply_adds_with_wrapping() {
    let upper_a = info(0, 0x20, ID_START);
    let mapped = upper_a.apply(0x41);
    assert_eq!(mapped.upper, 0x41);
    assert_eq!(mapped.lower, 0x61);
    assert_eq!(mapped.flags, Flags(ID_START));

    let lower_a = info(0x41u16.wrapping_sub(0x61), 0, ID_START);
    assert_eq!(lower_a.upper_delta, CaseDelta(0xFFE0));
    let mapped = lower_a.apply(0x61);
    assert_eq!(mapped.upper, 0x41);
    assert_eq!(mapped.lower, 0x61);

    let mapped = info(1, 2, 0).apply(0xFFFF);
    assert_eq!(mapped.upper, 0);
    assert_eq!(mapped.lower, 1);
}

#[test]
fn table_holds_each_record_once_in_the_order_of_the_codes() {
    let table = generate_code_point_table(REGISTRY.as_bytes()).unwrap();
    let derived = process_derived_core_properties(DERIVED.as_bytes()).unwrap();
    let bmp = generate_bmp_info(&table, &derived).expect("every case form is a BMP code point");
    assert_eq!(
        bmp.table,
        vec![
            info(0, 0, 0),
            // U+0009 and U+0020
            info(0, 0, SPACE),
            // U+0030 and U+005F
            info(0, 0, ID_CONTINUE_ONLY),
            // U+0041 and U+0042
            info(0, 0x20, ID_START),
            // U+0061 and U+0062
            info(0xFFE0, 0, ID_START),
            // U+00FF
            info(0x0178 - 0x00FF, 0, ID_START),
            // U+0178
            info(0, 0x00FFu16.wrapping_sub(0x0178), ID_START),
            // U+1E9E
            info(0, 0x00DFu16.wrapping_sub(0x1E9E), ID_START),
        ]
    );
    assert_eq!(bmp.index.len(), 0x10000);
    assert_eq!(bmp.index[0x09], 1);
    assert_eq!(bmp.index[0x20], 1);
    assert_eq!(bmp.index[0x30], 2);
    assert_eq!(bmp.index[0x41], 3);
    assert_eq!(bmp.index[0x42], 3);
    assert_eq!(bmp.index[0x5F], 2);
    assert_eq!(bmp.index[0x61], 4);
    assert_eq!(bmp.index[0x62], 4);
    assert_eq!(bmp.index[0xFF], 5);
    assert_eq!(bmp.index[0x178], 6);
    assert_eq!(bmp.index[0x200C], 2);
    assert_eq!(bmp.index[0x200D], 2);
    assert_eq!(bmp.index[0x2028], 1);
    assert_eq!(bmp.index[0x1E9E], 7);
    assert_eq!(bmp.index[0xFEFF], 1);
    // Unassigned code points.
    assert_eq!(bmp.index[0x00], 0);
    assert_eq!(bmp.index[0x43], 0);
    assert_eq!(bmp.index[0xFFFF], 0);
}

#[test]
fn records_recover_the_case_forms_of_the_registry() {
    let table = generate_code_point_table(REGISTRY.as_bytes()).unwrap();
    let derived = process_derived_core_properties(DERIVED.as_bytes()).unwrap();
    let bmp = generate_bmp_info(&table, &derived).unwrap();
    for code in 0..0x10000u32 {
        let mapped = bmp.table[bmp.index[code as usize] as usize].apply(code);
        match table.get(code) {
            Some(registered) => {
                assert_eq!(mapped.upper, registered.uppercase);
                assert_eq!(mapped.lower, registered.lowercase);
            }
            None => {
                assert_eq!(mapped.upper, code);
                assert_eq!(mapped.lower, code);
                assert_eq!(mapped.flags, Flags(0));
            }
        }
        let in_identifier = derived.id_start.contains(&code)
            || derived.id_continue.contains(&code)
            || code == 0x200C
            || code == 0x200D;
        if !in_identifier {
            assert!(!mapped.flags.is_unicode_id_start());
            assert!(!mapped.flags.is_unicode_id_continue_only());
        }
        assert!(!(mapped.flags.is_unicode_id_start() && mapped.flags.is_unicode_id_continue_only()));
    }
}

#[test]
fn case_form_outside_the_bmp_is_reported() {
    let table = generate_code_point_table(
        b"0041;A;Lu;0;L;;;;;N;;;;0061;\n\
          0050;P;Lu;0;L;;;;;N;;;;10428;\n\
          0042;B;Lu;0;L;;;;;N;;;10400;;\n",
    )
    .unwrap();
    let derived = process_derived_core_properties(b"").unwrap();
    assert_eq!(generate_bmp_info(&table, &derived).err(), Some(CaseOutsideBmp { code: 0x42 }));
}

#[test]
fn index_is_split_into_a_page_table() {
    let table = generate_code_point_table(REGISTRY.as_bytes()).unwrap();
    let derived = process_derived_core_properties(DERIVED.as_bytes()).unwrap();
    let bmp = generate_bmp_info(&table, &derived).unwrap();
    let split = bmp.split_index();
    let mask = (1usize << split.shift) - 1;
    for code in 0..0x10000usize {
        let page = (split.index1[code >> split.shift] as usize) << split.shift;
        assert_eq!(bmp.index[code], split.index2[page + (code & mask)]);
    }
    assert!(split.index1.len() + split.index2.len() < 0x10000);
}

#[test]
fn generation_gives_the_same_info_each_time() {
    let table = generate_code_point_table(REGISTRY.as_bytes()).unwrap();
    let derived = process_derived_core_properties(DERIVED.as_bytes()).unwrap();
    let first = generate_bmp_info(&table, &derived).unwrap();
    let table = generate_code_point_table(REGISTRY.as_bytes()).unwrap();
    let derived = process_derived_core_properties(DERIVED.as_bytes()).unwrap();
    let second = generate_bmp_info(&table, &derived).unwrap();
    assert_eq!(first.table, second.table);
    assert_eq!(first.index, second.index);
}
