use unicode_info::derived_core_properties::{
    process_derived_core_properties, read_code_range, read_property_line, unicode_version,
    CodePointAndPropertyIter, DerivedCoreProperties,
};
use unicode_info::text::{ParseError, ParseErrorKind};

/// Lines of the derived properties, as the file holds them.
const DERIVED: &str = "\
# DerivedCoreProperties-13.0.0.txt
# Date: 2020-01-22, 00:07:19 GMT

# ================================================

# Derived Property: Math

002B          ; Math # Sm       PLUS SIGN
003C..003E    ; Math # Sm   [3] LESS-THAN SIGN..GREATER-THAN SIGN

# ================================================

# Derived Property: ID_Start

0041..005A    ; ID_Start # L&  [26] LATIN CAPITAL LETTER A..LATIN CAPITAL LETTER Z
0061..007A    ; ID_Start # L&  [26] LATIN SMALL LETTER A..LATIN SMALL LETTER Z
00AA          ; ID_Start # Lo       FEMININE ORDINAL INDICATOR
00B5          ; ID_Start # L&       MICRO SIGN
00BA          ; ID_Start # Lo       MASCULINE ORDINAL INDICATOR
00C0..00D6    ; ID_Start # L&  [23] LATIN CAPITAL LETTER A WITH GRAVE..LATIN CAPITAL LETTER O WITH DIAERESIS
00D8..00F6    ; ID_Start # L&  [31] LATIN CAPITAL LETTER O WITH STROKE..LATIN SMALL LETTER O WITH DIAERESIS
4E00..9FFC    ; ID_Start # Lo [20989] CJK UNIFIED IDEOGRAPH-4E00..CJK UNIFIED IDEOGRAPH-9FFC
AC00..D7A3    ; ID_Start # Lo [11172] HANGUL SYLLABLE GA..HANGUL SYLLABLE HIH
103C8..103CF  ; ID_Start # Lo   [8] OLD PERSIAN SIGN AURAMAZDAA..OLD PERSIAN SIGN BUUMISH
20000..2A6DD  ; ID_Start # Lo [42718] CJK UNIFIED IDEOGRAPH-20000..CJK UNIFIED IDEOGRAPH-2A6DD

# ================================================

# Derived Property: ID_Continue

0030..0039    ; ID_Continue # Nd  [10] DIGIT ZERO..DIGIT NINE
0041..005A    ; ID_Continue # L&  [26] LATIN CAPITAL LETTER A..LATIN CAPITAL LETTER Z
005F          ; ID_Continue # Pc       LOW LINE
0061..007A    ; ID_Continue # L&  [26] LATIN SMALL LETTER A..LATIN SMALL LETTER Z
00AA          ; ID_Continue # Lo       FEMININE ORDINAL INDICATOR
00B5          ; ID_Continue # L&       MICRO SIGN
00B7          ; ID_Continue # Po       MIDDLE DOT
00BA          ; ID_Continue # Lo       MASCULINE ORDINAL INDICATOR
0300..036F    ; ID_Continue # Mn [112] COMBINING GRAVE ACCENT..COMBINING LATIN SMALL LETTER X
4E00..9FFC    ; ID_Continue # Lo [20989] CJK UNIFIED IDEOGRAPH-4E00..CJK UNIFIED IDEOGRAPH-9FFC
103C8..103CF  ; ID_Continue # Lo   [8] OLD PERSIAN SIGN AURAMAZDAA..OLD PERSIAN SIGN BUUMISH
";

/// How many code points `DERIVED` gives the property ID_Start.
const LISTED_STARTS: usize = 26 + 26 + 1 + 1 + 1 + 23 + 31 + 20989 + 11172 + 8 + 42718;

/// How many code points `DERIVED` gives the property ID_Continue.
const LISTED_CONTINUES: usize = 10 + 26 + 1 + 26 + 1 + 1 + 1 + 1 + 112 + 20989 + 8;

/// `DERIVED`, and after it one run of code points of a plane that `DERIVED`
/// does not speak of for each of the two properties, so long that the
/// properties have as many code points as the whole file gives them.
fn whole_file() -> String {
    let more_starts = 131_482 - LISTED_STARTS;
    let more_continues = 134_434 - LISTED_CONTINUES;
    format!(
        "{}{:04X}..{:04X}  ; ID_Start # the rest\n{:04X}..{:04X}  ; ID_Continue # the rest\n",
        DERIVED,
        0x40000,
        0x40000 + more_starts - 1,
        0x60000,
        0x60000 + more_continues - 1
    )
}

#[test]
fn check_derived_core_properties() {
    let text = whole_file();
    let dcp = process_derived_core_properties(text.as_bytes()).expect("well formed");

    let starts = dcp.id_start;
    let starts_count = starts.len();

    const DOLLAR_SIGN: u32 = '$' as u32;
    const LOW_LINE: u32 = '_' as u32;

    assert!(!starts.contains(&DOLLAR_SIGN));
    assert!(!starts.contains(&LOW_LINE));

    let continues = dcp.id_continue;
    let continues_count = continues.len();

    assert!(!continues.contains(&DOLLAR_SIGN));
    assert!(continues.contains(&LOW_LINE));

    assert_eq!(starts_count, 131_482);
    assert_eq!(continues_count, 134_434);
}

#[test]
fn listed_code_points_are_counted() {
    let dcp = process_derived_core_properties(DERIVED.as_bytes()).expect("well formed");
    assert_eq!(dcp.id_start.len(), LISTED_STARTS);
    assert_eq!(dcp.id_continue.len(), LISTED_CONTINUES);
    assert!(dcp.id_start.contains(&0x41));
    assert!(dcp.id_start.contains(&0x5A));
    assert!(!dcp.id_start.contains(&0x5B));
    assert!(!dcp.id_start.contains(&0x40));
    assert!(dcp.id_start.contains(&0x103C8));
    assert!(dcp.id_start.contains(&0x2A6DD));
    assert!(!dcp.id_start.contains(&0x2A6DE));
    assert!(dcp.id_continue.contains(&0x30));
    assert!(!dcp.id_start.contains(&0x30));
    // Other properties are passed over.
    assert!(!dcp.id_start.contains(&0x2B));
    assert!(!dcp.id_continue.contains(&0x3C));
}

#[test]
fn version_is_read_from_the_first_line() {
    assert_eq!(unicode_version(DERIVED.as_bytes()), Some(&b"13.0.0"[..]));
    assert_eq!(
        unicode_version(b"# DerivedCoreProperties-15.1.0.txt\r\nrest"),
        Some(&b"15.1.0"[..])
    );
    assert_eq!(unicode_version(b"# DerivedCoreProperties-.txt"), Some(&b""[..]));
    assert_eq!(unicode_version(b""), None);
    assert_eq!(unicode_version(b"\n# DerivedCoreProperties-13.0.0.txt"), None);
    assert_eq!(unicode_version(b"# DerivedCoreProperties-13.0.0.csv"), None);
    assert_eq!(unicode_version(b"# CaseFolding-13.0.0.txt"), None);
}

#[test]
fn reader_yields_each_code_point_of_a_range() {
    let mut reader = DerivedCoreProperties::read(b"# c\n0041..0043 ; ID_Start # x\n0050;Other\n");
    let mut seen = Vec::new();
    while let Some(item) = reader.next() {
        let found = item.unwrap();
        seen.push((found.code_point, found.property));
    }
    assert_eq!(
        seen,
        vec![
            (0x41, b"ID_Start".to_vec()),
            (0x42, b"ID_Start".to_vec()),
            (0x43, b"ID_Start".to_vec()),
            (0x50, b"Other".to_vec()),
        ]
    );
}

#[test]
fn code_ranges_are_read() {
    assert_eq!(read_code_range(&b"0041".to_vec()), Ok((0x41, 0x41)));
    assert_eq!(read_code_range(&b"0041..005A".to_vec()), Ok((0x41, 0x5A)));
    assert_eq!(read_code_range(&b"10FFFF".to_vec()), Ok((0x10FFFF, 0x10FFFF)));
    assert_eq!(read_code_range(&b"0041..0041".to_vec()), Ok((0x41, 0x41)));
    assert_eq!(read_code_range(&b"005A..0041".to_vec()), Err(ParseErrorKind::Range));
    assert_eq!(read_code_range(&b"".to_vec()), Err(ParseErrorKind::Number));
    assert_eq!(read_code_range(&b"0041.005A".to_vec()), Err(ParseErrorKind::Number));
    assert_eq!(read_code_range(&b"0041..".to_vec()), Err(ParseErrorKind::Number));
    assert_eq!(read_code_range(&b"..0041".to_vec()), Err(ParseErrorKind::Number));
    assert_eq!(read_code_range(&b"0041..0042..0043".to_vec()), Err(ParseErrorKind::Number));
    assert_eq!(read_code_range(&b"110000".to_vec()), Err(ParseErrorKind::Number));
}

#[test]
fn property_lines_are_read() {
    let text = b"0041..005A    ; ID_Start ";
    assert_eq!(
        read_property_line(text, 0, text.len()),
        Ok((0x41, 0x5A, b"ID_Start".to_vec()))
    );
    let text = b"094D ; InCB; Linker ";
    assert_eq!(read_property_line(text, 0, text.len()), Ok((0x94D, 0x94D, b"InCB".to_vec())));
    let text = b"0041";
    assert_eq!(read_property_line(text, 0, text.len()), Err(ParseErrorKind::FieldCount));
}

#[test]
fn first_bad_line_is_reported() {
    let text = b"0041 ; ID_Start\n0042\n004G ; ID_Start\n";
    match process_derived_core_properties(text) {
        Err(error) => assert_eq!(error, ParseError { offset: 16, kind: ParseErrorKind::FieldCount }),
        Ok(_) => panic!("the text should not be read"),
    }
    let text = b"0041 ; ID_Start\n004G ; ID_Start\n";
    match process_derived_core_properties(text) {
        Err(error) => assert_eq!(error, ParseError { offset: 16, kind: ParseErrorKind::Number }),
        Ok(_) => panic!("the text should not be read"),
    }
}

#[test]
fn range_yields_its_code_points() {
    let mut range = CodePointAndPropertyIter { next: 0x41, last: 0x42, property: b"P".to_vec() };
    let first = range.next().unwrap();
    assert_eq!((first.code_point, first.property), (0x41, b"P".to_vec()));
    let second = range.next().unwrap();
    assert_eq!((second.code_point, second.property), (0x42, b"P".to_vec()));
    assert!(range.next().is_none());
    assert!(range.next().is_none());
}
