use unicode_info::code_point_table::generate_code_point_table;
use unicode_info::constants::{
    CARRIAGE_RETURN, CHARACTER_TABULATION, FORM_FEED, IDEOGRAPHIC_SPACE, LINE_FEED,
    LINE_SEPARATOR, LINE_TABULATION, NO_BREAK_SPACE, PARAGRAPH_SEPARATOR, SPACE,
    ZERO_WIDTH_NO_BREAK_SPACE,
};
use unicode_info::spaces::compute_white_space;

/// Lines of the registry, as the file holds them.
const REGISTRY: &str = "\
0008;<control>;Cc;0;BN;;;;;N;BACKSPACE;;;;
0009;<control>;Cc;0;S;;;;;N;CHARACTER TABULATION;;;;
000A;<control>;Cc;0;B;;;;;N;LINE FEED (LF);;;;
000B;<control>;Cc;0;S;;;;;N;LINE TABULATION;;;;
000C;<control>;Cc;0;WS;;;;;N;FORM FEED (FF);;;;
000D;<control>;Cc;0;B;;;;;N;CARRIAGE RETURN (CR);;;;
0020;SPACE;Zs;0;WS;;;;;N;;;;;
0041;LATIN CAPITAL LETTER A;Lu;0;L;;;;;N;;;;0061;
0085;<control>;Cc;0;B;;;;;N;NEXT LINE (NEL);;;;
00A0;NO-BREAK SPACE;Zs;0;CS;<noBreak> 0020;;;;N;NON-BREAKING SPACE;;;;
1680;OGHAM SPACE MARK;Zs;0;WS;;;;;N;;;;;
2000;EN QUAD;Zs;0;WS;2002;;;;N;;;;;
200B;ZERO WIDTH SPACE;Cf;0;BN;;;;;N;;;;;
2028;LINE SEPARATOR;Zl;0;WS;;;;;N;;;;;
2029;PARAGRAPH SEPARATOR;Zp;0;B;;;;;N;;;;;
3000;IDEOGRAPHIC SPACE;Zs;0;WS;<wide> 0020;;;;N;;;;;
FEFF;ZERO WIDTH NO-BREAK SPACE;Cf;0;BN;;;;;N;BYTE ORDER MARK;;;;
1F4A9;PILE OF POO;So;0;ON;;;;;N;;;;;
";

#[test]
fn space_set_contains() {
    let table = generate_code_point_table(REGISTRY.as_bytes()).expect("well formed");
    let spaces = compute_white_space(&table).expect("no space outside the BMP");
    assert!(spaces.contains(&CHARACTER_TABULATION));
    assert!(spaces.contains(&LINE_TABULATION));
    assert!(spaces.contains(&CARRIAGE_RETURN));
    assert!(spaces.contains(&LINE_FEED));
    assert!(spaces.contains(&NO_BREAK_SPACE));
    assert!(spaces.contains(&LINE_SEPARATOR));
    assert!(spaces.contains(&PARAGRAPH_SEPARATOR));
    assert!(spaces.contains(&IDEOGRAPHIC_SPACE));
    assert!(spaces.contains(&ZERO_WIDTH_NO_BREAK_SPACE));
}

#[test]
fn space_set_holds_nothing_else() {
    let table = generate_code_point_table(REGISTRY.as_bytes()).unwrap();
    let spaces = compute_white_space(&table).unwrap();
    let mut codes: Vec<u32> = spaces.iter().copied().collect();
    codes.sort();
    assert_eq!(
        codes,
        vec![
            CHARACTER_TABULATION,
            LINE_FEED,
            LINE_TABULATION,
            FORM_FEED,
            CARRIAGE_RETURN,
            SPACE,
            NO_BREAK_SPACE,
            0x1680,
            0x2000,
            LINE_SEPARATOR,
            PARAGRAPH_SEPARATOR,
            IDEOGRAPHIC_SPACE,
            ZERO_WIDTH_NO_BREAK_SPACE,
        ]
    );
}

#[test]
fn unassigned_code_point_is_no_space() {
    // U+0009 is of the fixed set, but the registry does not hold it.
    let table = generate_code_point_table(b"0020;SPACE;Zs;0;WS;;;;;N;;;;;\n").unwrap();
    let spaces = compute_white_space(&table).unwrap();
    assert_eq!(spaces.len(), 1);
    assert!(spaces.contains(&SPACE));
}

#[test]
fn space_outside_the_bmp_is_reported() {
    let table = generate_code_point_table(
        b"0020;SPACE;Zs;0;WS;;;;;N;;;;;\n\
          E0021;SECOND;Zs;0;BN;;;;;N;;;;;\n\
          E0020;FIRST;Zs;0;BN;;;;;N;;;;;\n",
    )
    .unwrap();
    assert_eq!(compute_white_space(&table).err(), Some(0xE0020));
}
