use std::collections::BTreeMap;
use unicode_info::case_folding::{
    bmp_foldings, codes_with_equivalents, fold_classes, process_case_folding, read_folding_line,
    read_folding_map, reverse_foldings, CaseFoldingError, CaseFoldingParse, Delta,
};
use unicode_info::text::{ParseError, ParseErrorKind};

/// Lines of the case foldings, as the file holds them.
const CASE_FOLDING: &str = "\
# CaseFolding-13.0.0.txt
# Date: 2019-09-08, 23:30:59 GMT
#
# <code>; <status>; <mapping>; # <name>

0041; C; 0061; # LATIN CAPITAL LETTER A
0042; C; 0062; # LATIN CAPITAL LETTER B
0049; C; 0069; # LATIN CAPITAL LETTER I
0049; T; 0131; # LATIN CAPITAL LETTER I
00B5; C; 03BC; # MICRO SIGN
00DF; F; 0073 0073; # LATIN SMALL LETTER SHARP S
0130; F; 0069 0307; # LATIN CAPITAL LETTER I WITH DOT ABOVE
0130; T; 0069; # LATIN CAPITAL LETTER I WITH DOT ABOVE
0345; C; 03B9; # COMBINING GREEK YPOGEGRAMMENI
0399; C; 03B9; # GREEK CAPITAL LETTER IOTA
039C; C; 03BC; # GREEK CAPITAL LETTER MU
03A3; C; 03C3; # GREEK CAPITAL LETTER SIGMA
03C2; C; 03C3; # GREEK SMALL LETTER FINAL SIGMA
1E9E; F; 0073 0073; # LATIN CAPITAL LETTER SHARP S
1E9E; S; 00DF; # LATIN CAPITAL LETTER SHARP S
1FBE; C; 03B9; # GREEK PROSGEGRAMMENI
2126; C; 03C9; # OHM SIGN
10400; C; 10428; # DESERET CAPITAL LETTER LONG I
";

#[test]
fn check_case_folding() {
    let data = process_case_folding(CASE_FOLDING.as_bytes()).expect("well formed");
    let all_codes_with_equivalents = data.all_codes_with_equivalents;
    let bmp_folding_index = data.bmp_folding_index;
    let bmp_folding_table = data.bmp_folding_table;

    assert!(all_codes_with_equivalents.contains(&(0x0399, vec![0x0345, 0x03B9, 0x1FBE])),
            "GREEK CAPITAL LETTER IOTA, GREEK SMALL LETTER IOTA, COMBINING GREEK YPOGEGRAMMENI (GREEK NON-SPACING IOTA BELOW), GREEK PROSGEGRAMMENI");

    assert_eq!(
        bmp_folding_table[bmp_folding_index[0x0041] as usize],
        Delta(0x0061 - 0x0041),
        "verify 'A' -> 'a' correspondence noted in `CaseFoldingData` docs"
    );

    for (code, table_index) in bmp_folding_index.iter().enumerate() {
        let _computed_delta = bmp_folding_table[*table_index as usize];

        let _idx = code;
    }
}

#[test]
fn equivalents_of_greek_iota() {
    let data = process_case_folding(CASE_FOLDING.as_bytes()).unwrap();
    assert_eq!(data.equivalents_of(0x0399), Some(&vec![0x0345, 0x03B9, 0x1FBE]));
    assert_eq!(data.equivalents_of(0x03B9), Some(&vec![0x0345, 0x0399, 0x1FBE]));
    assert_eq!(data.equivalents_of(0x0345), Some(&vec![0x0399, 0x03B9, 0x1FBE]));
    assert_eq!(data.equivalents_of(0x1FBE), Some(&vec![0x0345, 0x0399, 0x03B9]));
    assert_eq!(data.equivalents_of(0x0041), Some(&vec![0x0061]));
    assert_eq!(data.equivalents_of(0x0061), Some(&vec![0x0041]));
    assert_eq!(data.equivalents_of(0x10428), Some(&vec![0x10400]));
    assert_eq!(data.equivalents_of(0x0043), None);
    // Full and Turkish foldings are left out.
    assert_eq!(data.equivalents_of(0x0131), None);
    assert_eq!(data.equivalents_of(0x0130), None);
    assert_eq!(data.equivalents_of(0x00DF), Some(&vec![0x1E9E]));
}

#[test]
fn equivalence_is_symmetric() {
    let data = process_case_folding(CASE_FOLDING.as_bytes()).unwrap();
    for (code, equivalents) in &data.all_codes_with_equivalents {
        assert!(!equivalents.contains(code));
        for other in equivalents {
            let back = data.equivalents_of(*other).expect("takes part as well");
            assert!(back.contains(code));
        }
    }
}

#[test]
fn codes_are_listed_in_order() {
    let data = process_case_folding(CASE_FOLDING.as_bytes()).unwrap();
    let codes: Vec<u32> = data.all_codes_with_equivalents.iter().map(|entry| entry.0).collect();
    assert_eq!(
        codes,
        vec![
            0x41, 0x42, 0x49, 0x61, 0x62, 0x69, 0xB5, 0xDF, 0x345, 0x399, 0x39C, 0x3A3, 0x3B9,
            0x3BC, 0x3C2, 0x3C3, 0x3C9, 0x1E9E, 0x1FBE, 0x2126, 0x10400, 0x10428,
        ]
    );
    for (_, equivalents) in &data.all_codes_with_equivalents {
        assert!(equivalents.windows(2).all(|pair| pair[0] < pair[1]));
    }
}

#[test]
fn folding_table_holds_each_delta_once() {
    let data = process_case_folding(CASE_FOLDING.as_bytes()).unwrap();
    assert_eq!(data.bmp_folding_table[0], Delta(0));
    assert_eq!(data.bmp_folding_index.len(), 0x10000);
    // 0x20 for A, B and I, then the deltas in the order of the code points.
    assert_eq!(
        data.bmp_folding_table,
        vec![
            Delta(0),
            Delta(0x20),
            Delta(0x03BC - 0x00B5),
            Delta(0x03B9 - 0x0345),
            Delta(0x03C3 - 0x03C2),
            Delta(0x00DFu16.wrapping_sub(0x1E9E)),
            Delta(0x03B9u16.wrapping_sub(0x1FBE)),
            Delta(0x03C9u16.wrapping_sub(0x2126)),
        ]
    );
    assert_eq!(data.bmp_folding_index[0x41], 1);
    assert_eq!(data.bmp_folding_index[0x42], 1);
    assert_eq!(data.bmp_folding_index[0x49], 1);
    assert_eq!(data.bmp_folding_index[0x399], 1);
    assert_eq!(data.bmp_folding_index[0x39C], 1);
    assert_eq!(data.bmp_folding_index[0x3A3], 1);
    assert_eq!(data.bmp_folding_index[0x61], 0);
    assert_eq!(data.bmp_folding_index[0x1E9E], 5);
    for code in 0..0x10000u32 {
        let delta = data.bmp_folding_table[data.bmp_folding_index[code as usize] as usize];
        let folded = (code as u16).wrapping_add(delta.0) as u32;
        let expected = match code {
            0x41 => 0x61,
            0x42 => 0x62,
            0x49 => 0x69,
            0xB5 => 0x3BC,
            0x345 | 0x399 | 0x1FBE => 0x3B9,
            0x39C => 0x3BC,
            0x3A3 | 0x3C2 => 0x3C3,
            0x1E9E => 0xDF,
            0x2126 => 0x3C9,
            other => other,
        };
        assert_eq!(folded, expected);
    }
}

#[test]
fn folding_to_itself_takes_the_first_position() {
    let data = process_case_folding(b"0041; C; 0041; # A\n0042; C; 0043; # B\n").unwrap();
    assert_eq!(data.bmp_folding_table, vec![Delta(0), Delta(1)]);
    assert_eq!(data.bmp_folding_index[0x41], 0);
    assert_eq!(data.bmp_folding_index[0x42], 1);
    assert_eq!(data.equivalents_of(0x41), Some(&vec![]));
}

#[test]
fn reader_passes_over_full_and_turkish_foldings() {
    let mut reader = CaseFoldingParse::simple_and_common_foldings(CASE_FOLDING.as_bytes());
    assert_eq!(reader.next(), Some(Ok((0x41, 0x61))));
    assert_eq!(reader.next(), Some(Ok((0x42, 0x62))));
    assert_eq!(reader.next(), Some(Ok((0x49, 0x69))));
    assert_eq!(reader.next(), Some(Ok((0xB5, 0x3BC))));
    assert_eq!(reader.next(), Some(Ok((0x345, 0x3B9))));
    let mut count = 5;
    while let Some(item) = reader.next() {
        assert!(item.is_ok());
        count += 1;
    }
    assert_eq!(count, 13);
    assert_eq!(reader.next(), None);
}

#[test]
fn folding_lines_are_read() {
    let text = b"0041; C; 0061; ";
    assert_eq!(read_folding_line(text, 0, text.len()), Ok(Some((0x41, 0x61))));
    let text = b"1E9E; S; 00DF; ";
    assert_eq!(read_folding_line(text, 0, text.len()), Ok(Some((0x1E9E, 0xDF))));
    let text = b"00DF; F; 0073 0073; ";
    assert_eq!(read_folding_line(text, 0, text.len()), Ok(None));
    let text = b"0049; T; 0131; ";
    assert_eq!(read_folding_line(text, 0, text.len()), Ok(None));
    let text = b"0049; X; 0131; ";
    assert_eq!(read_folding_line(text, 0, text.len()), Err(ParseErrorKind::Status));
    let text = b"0049; C; 0131";
    assert_eq!(read_folding_line(text, 0, text.len()), Err(ParseErrorKind::FieldCount));
    let text = b"0049; C; 0131 0132; ";
    assert_eq!(read_folding_line(text, 0, text.len()), Err(ParseErrorKind::Number));
    let text = b"; C; 0131; ";
    assert_eq!(read_folding_line(text, 0, text.len()), Err(ParseErrorKind::Number));
}

#[test]
fn unknown_status_is_reported() {
    match process_case_folding(b"0041; C; 0061; # A\n0042; Q; 0062; # B\n") {
        Err(error) => assert_eq!(
            error,
            CaseFoldingError::Parse(ParseError { offset: 19, kind: ParseErrorKind::Status })
        ),
        Ok(_) => panic!("the text should not be read"),
    }
    match read_folding_map(b"0041; C; 0061\n") {
        Err(error) => assert_eq!(error, ParseError { offset: 0, kind: ParseErrorKind::FieldCount }),
        Ok(_) => panic!("the text should not be read"),
    }
}

#[test]
fn folding_out_of_the_bmp_is_reported() {
    match process_case_folding(b"0041; C; 0061; # A\n0050; C; 10428; # P\n0042; C; 10429; # B\n") {
        Err(error) => assert_eq!(error, CaseFoldingError::MappingOutsideBmp { code: 0x42 }),
        Ok(_) => panic!("no data should be made"),
    }
    let mut map = BTreeMap::new();
    map.insert(0x10400u32, 0x41u32);
    map.insert(0x41u32, 0x10400u32);
    assert_eq!(bmp_foldings(&map).err(), Some(0x41));
    assert!(fold_classes(&map).is_err());
}

#[test]
fn later_folding_of_a_code_counts() {
    let map = read_folding_map(b"0041; C; 0061;\n0041; S; 0062;\n").unwrap();
    assert_eq!(map.get(&0x41), Some(&0x62));
    assert_eq!(map.len(), 1);
    let data = fold_classes(&map).unwrap();
    assert_eq!(data.all_codes_with_equivalents, vec![(0x41, vec![0x62]), (0x62, vec![0x41])]);
}

#[test]
fn reverse_lists_the_sources_in_order() {
    let mut map = BTreeMap::new();
    map.insert(0x1FBEu32, 0x3B9u32);
    map.insert(0x345, 0x3B9);
    map.insert(0x399, 0x3B9);
    map.insert(0x41, 0x61);
    let reverse = reverse_foldings(&map);
    assert_eq!(reverse.len(), 2);
    assert_eq!(reverse.get(&0x3B9), Some(&vec![0x345, 0x399, 0x1FBE]));
    assert_eq!(reverse.get(&0x61), Some(&vec![0x41]));
    let list = codes_with_equivalents(&map);
    assert_eq!(list.len(), 6);
    assert_eq!(list[0], (0x41, vec![0x61]));
}

#[test]
fn folding_index_is_split_into_a_page_table() {
    let data = process_case_folding(CASE_FOLDING.as_bytes()).unwrap();
    let split = data.split_index();
    let mask = (1usize << split.shift) - 1;
    for code in 0..0x10000usize {
        let page = (split.index1[code >> split.shift] as usize) << split.shift;
        assert_eq!(data.bmp_folding_index[code], split.index2[page + (code & mask)]);
    }
}

#[test]
fn processing_gives_the_same_data_each_time() {
    let first = process_case_folding(CASE_FOLDING.as_bytes()).unwrap();
    let second = process_case_folding(CASE_FOLDING.as_bytes()).unwrap();
    assert_eq!(first.all_codes_with_equivalents, second.all_codes_with_equivalents);
    assert_eq!(first.bmp_folding_table, second.bmp_folding_table);
    assert_eq!(first.bmp_folding_index, second.bmp_folding_index);
}
