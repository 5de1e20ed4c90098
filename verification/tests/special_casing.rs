use unicode_info::bmp::{generate_bmp_info, BMPInfo};
use unicode_info::code_point_table::generate_code_point_table;
use unicode_info::derived_core_properties::process_derived_core_properties;
use unicode_info::special_casing::{
    process_special_casing, read_special_case_line, read_special_cases, sort_special_cases, Rule,
    SpecialCase, SpecialCasing, SpecialCasingError,
};
use unicode_info::text::{ParseError, ParseErrorKind};

/// Lines of the registry, as the file holds them.
const REGISTRY: &str = "\
0041;LATIN CAPITAL LETTER A;Lu;0;L;;;;;N;;;;0061;
0049;LATIN CAPITAL LETTER I;Lu;0;L;;;;;N;;;;0069;
0061;LATIN SMALL LETTER A;Ll;0;L;;;;;N;;;0041;;0041
0069;LATIN SMALL LETTER I;Ll;0;L;;;;;N;;;0049;;0049
00DF;LATIN SMALL LETTER SHARP S;Ll;0;L;;;;;N;;;;;
00E0;LATIN SMALL LETTER A WITH GRAVE;Ll;0;L;0061 0300;;;;N;LATIN SMALL LETTER A GRAVE;;00C0;;00C0
0130;LATIN CAPITAL LETTER I WITH DOT ABOVE;Lu;0;L;0049 0307;;;;N;LATIN CAPITAL LETTER I DOT;;;0069;
0149;LATIN SMALL LETTER N PRECEDED BY APOSTROPHE;Ll;0;L;<compat> 02BC 006E;;;;N;LATIN SMALL LETTER APOSTROPHE N;;;;
0307;COMBINING DOT ABOVE;Mn;230;NSM;;;;;N;NON-SPACING DOT ABOVE;;;;
03A3;GREEK CAPITAL LETTER SIGMA;Lu;0;L;;;;;N;;;;03C3;
03C2;GREEK SMALL LETTER FINAL SIGMA;Ll;0;L;;;;;N;;;03A3;;03A3
03C3;GREEK SMALL LETTER SIGMA;Ll;0;L;;;;;N;;;03A3;;03A3
FB00;LATIN SMALL LIGATURE FF;Ll;0;L;<compat> 0066 0066;;;;N;;;;;
";

/// Lines of the special casings, as the file holds them.
const SPECIAL_CASING: &str = "\
# SpecialCasing-13.0.0.txt
# Date: 2019-09-08, 23:31:24 GMT
#
# <code>; <lower>; <title>; <upper>; (<condition_list>;)? # <comment>

# The German es-zed is special--the normal mapping is to SS.

00DF; 00DF; 0053 0073; 0053 0053; # LATIN SMALL LETTER SHARP S

# Preserve canonical equivalence for I with dot. Turkic is handled below.

0130; 0069 0307; 0130; 0130; # LATIN CAPITAL LETTER I WITH DOT ABOVE

# Ligatures

FB00; FB00; 0046 0066; 0046 0046; # LATIN SMALL LIGATURE FF

# No corresponding uppercase precomposed character

0149; 0149; 02BC 004E; 02BC 004E; # LATIN SMALL LETTER N PRECEDED BY APOSTROPHE

# Special case for final form of sigma

03A3; 03C2; 03A3; 03A3; Final_Sigma; # GREEK CAPITAL LETTER SIGMA

# Lithuanian

0307; 0307; ; ; lt After_Soft_Dotted; # COMBINING DOT ABOVE
0049; 0069 0307; 0049; 0049; lt More_Above; # LATIN CAPITAL LETTER I

# Turkish and Azeri

0130; 0069; 0130; 0130; tr; # LATIN CAPITAL LETTER I WITH DOT ABOVE
0130; 0069; 0130; 0130; az; # LATIN CAPITAL LETTER I WITH DOT ABOVE
0307; ; 0307; 0307; tr After_I; # COMBINING DOT ABOVE
0307; ; 0307; 0307; az After_I; # COMBINING DOT ABOVE
0049; 0131; 0049; 0049; tr Not_Before_Dot; # LATIN CAPITAL LETTER I
0049; 0131; 0049; 0049; az Not_Before_Dot; # LATIN CAPITAL LETTER I
0069; 0069; 0130; 0130; tr; # LATIN SMALL LETTER I
0069; 0069; 0130; 0130; az; # LATIN SMALL LETTER I
";

fn bmp() -> BMPInfo {
    let table = generate_code_point_table(REGISTRY.as_bytes()).expect("well formed");
    let derived = process_derived_core_properties(b"").expect("well formed");
    generate_bmp_info(&table, &derived).expect("every case form is a BMP code point")
}

fn rule_broken_by(text: &str) -> Rule {
    match process_special_casing(text.as_bytes(), &bmp()) {
        Err(SpecialCasingError::Broken(rule)) => rule,
        Err(SpecialCasingError::Parse(error)) => panic!("the text is not read: {:?}", error),
        Ok(_) => panic!("the text breaks no rule"),
    }
}

/// The lines that the rules ask for.
const NEEDED: &str = "\
00DF; 00DF; 0053 0073; 0053 0053; # LATIN SMALL LETTER SHARP S
0130; 0069 0307; 0130; 0130; # LATIN CAPITAL LETTER I WITH DOT ABOVE
03A3; 03C2; 03A3; 03A3; Final_Sigma; # GREEK CAPITAL LETTER SIGMA
";

#[test]
fn check_special_casing() {
    let data = process_special_casing(SPECIAL_CASING.as_bytes(), &bmp()).expect("no rule is broken");
    assert_eq!(data.unconditional_toupper[&0x00DF], [0x0053, 0x0053]);
    assert_eq!(data.unconditional_tolower[&0x0130], [0x0069, 0x0307]);
}

#[test]
fn special_forms_are_sorted_by_their_conditions() {
    let data = process_special_casing(SPECIAL_CASING.as_bytes(), &bmp()).unwrap();

    let lower: Vec<(u32, Vec<u32>)> =
        data.unconditional_tolower.iter().map(|(code, to)| (*code, to.clone())).collect();
    assert_eq!(lower, vec![(0x130, vec![0x69, 0x307])]);

    let upper: Vec<(u32, Vec<u32>)> =
        data.unconditional_toupper.iter().map(|(code, to)| (*code, to.clone())).collect();
    assert_eq!(
        upper,
        vec![
            (0xDF, vec![0x53, 0x53]),
            (0x149, vec![0x2BC, 0x4E]),
            (0xFB00, vec![0x46, 0x46]),
        ]
    );

    assert_eq!(data.conditional_tolower.len(), 1);
    assert_eq!(data.conditional_tolower[&0x3A3], (vec![0x3C2], b"Final_Sigma".to_vec()));
    assert!(data.conditional_toupper.is_empty());

    let lower: Vec<(Vec<u8>, u32, Vec<u32>, Option<Vec<u8>>)> = data
        .lang_conditional_tolower
        .iter()
        .map(|m| (m.language.clone(), m.code, m.replacement.clone(), m.context.clone()))
        .collect();
    assert_eq!(
        lower,
        vec![
            (b"lt".to_vec(), 0x49, vec![0x69, 0x307], Some(b"More_Above".to_vec())),
            (b"tr".to_vec(), 0x307, vec![], Some(b"After_I".to_vec())),
            (b"az".to_vec(), 0x307, vec![], Some(b"After_I".to_vec())),
            (b"tr".to_vec(), 0x49, vec![0x131], Some(b"Not_Before_Dot".to_vec())),
            (b"az".to_vec(), 0x49, vec![0x131], Some(b"Not_Before_Dot".to_vec())),
        ]
    );
    let upper: Vec<(Vec<u8>, u32, Vec<u32>, Option<Vec<u8>>)> = data
        .lang_conditional_toupper
        .iter()
        .map(|m| (m.language.clone(), m.code, m.replacement.clone(), m.context.clone()))
        .collect();
    assert_eq!(
        upper,
        vec![
            (b"lt".to_vec(), 0x307, vec![], Some(b"After_Soft_Dotted".to_vec())),
            (b"tr".to_vec(), 0x69, vec![0x130], None),
            (b"az".to_vec(), 0x69, vec![0x130], None),
        ]
    );
}

#[test]
fn needed_lines_alone_break_no_rule() {
    assert!(process_special_casing(NEEDED.as_bytes(), &bmp()).is_ok());
}

#[test]
fn reader_yields_the_lines() {
    let mut reader = SpecialCasing::read(SPECIAL_CASING.as_bytes());
    let first = reader.next().unwrap().unwrap();
    assert_eq!(first.code, 0xDF);
    assert_eq!(first.lower, vec![0xDF]);
    assert_eq!(first.title, vec![0x53, 0x73]);
    assert_eq!(first.upper, vec![0x53, 0x53]);
    assert!(first.languages.is_empty());
    assert!(first.contexts.is_empty());
    let mut count = 1;
    while let Some(item) = reader.next() {
        assert!(item.is_ok());
        count += 1;
    }
    assert_eq!(count, 15);
    assert_eq!(read_special_cases(SPECIAL_CASING.as_bytes()).unwrap().len(), 15);
}

#[test]
fn lines_are_read() {
    let text = b"0307; 0307; ; ; lt After_Soft_Dotted; ";
    let line = read_special_case_line(text, 0, text.len()).unwrap();
    assert_eq!(line.code, 0x307);
    assert_eq!(line.lower, vec![0x307]);
    assert_eq!(line.title, Vec::<u32>::new());
    assert_eq!(line.upper, Vec::<u32>::new());
    assert_eq!(line.languages, vec![b"lt".to_vec()]);
    assert_eq!(line.contexts, vec![b"After_Soft_Dotted".to_vec()]);

    // The conditions come in any order, and the last `;` may be left out.
    let text = b"0049;0131;0049;0049;Not_Before_Dot tr";
    let line = read_special_case_line(text, 0, text.len()).unwrap();
    assert_eq!(line.languages, vec![b"tr".to_vec()]);
    assert_eq!(line.contexts, vec![b"Not_Before_Dot".to_vec()]);

    let text = b"1F88; 1F80; 1F88; 1F00 0399; ";
    let line = read_special_case_line(text, 0, text.len()).unwrap();
    assert_eq!(line.upper, vec![0x1F00, 0x399]);
    assert!(line.languages.is_empty());
}

fn kind_of(line: &str) -> ParseErrorKind {
    read_special_case_line(line.as_bytes(), 0, line.len()).err().expect("the line is not read")
}

#[test]
fn lines_that_cannot_be_read() {
    assert_eq!(kind_of("00DF; 00DF; 0053 0073; 0053 0053"), ParseErrorKind::FieldCount);
    assert_eq!(kind_of("00DF; 00DF; 0053 0073; 0053 0053; ; x"), ParseErrorKind::FieldCount);
    assert_eq!(kind_of("00DF; 00DF; 0053 0073; 0053 0053; ; ;"), ParseErrorKind::FieldCount);
    assert_eq!(kind_of("00DG; 00DF; 0053 0073; 0053 0053; "), ParseErrorKind::Number);
    assert_eq!(kind_of("00DF; 00DF; 0053  0073; 0053 0053; "), ParseErrorKind::Number);
    assert_eq!(kind_of("00DF; 00DF; 0053 0073; 10053 0053; "), ParseErrorKind::Number);
    assert_eq!(kind_of("00DF; 00DF; 0053 0073; 0053 0053; tr az; "), ParseErrorKind::Condition);
    assert_eq!(
        kind_of("00DF; 00DF; 0053 0073; 0053 0053; After_I More_Above; "),
        ParseErrorKind::Condition
    );
    assert_eq!(kind_of("00DF; 00DF; 0053 0073; 0053 0053; tr  After_I; "), ParseErrorKind::Condition);
}

#[test]
fn first_line_that_cannot_be_read_is_reported() {
    let text = "00DF; 00DF; 0053 0073; 0053 0053; # SHARP S\n0130; 0069 0307; 0130\n";
    match process_special_casing(text.as_bytes(), &bmp()) {
        Err(error) => assert_eq!(
            error,
            SpecialCasingError::Parse(ParseError { offset: 44, kind: ParseErrorKind::FieldCount })
        ),
        Ok(_) => panic!("the text should not be read"),
    }
}

#[test]
fn code_point_outside_the_bmp_breaks_a_rule() {
    let text = format!("{}10400; 10428; 10400; 10400; \n", NEEDED);
    match read_special_cases(text.as_bytes()) {
        // A replacement holds BMP code points only, so the line is not read.
        Err(error) => assert_eq!(error.kind, ParseErrorKind::Number),
        Ok(_) => panic!("the text should not be read"),
    }
    let text = format!("{}10400; 0041; 0041; 0041; \n", NEEDED);
    assert_eq!(rule_broken_by(&text), Rule::BmpOnly);
}

#[test]
fn more_than_one_condition_breaks_a_rule() {
    let case = SpecialCase {
        code: 0x49,
        lower: vec![0x131],
        title: vec![0x49],
        upper: vec![0x49],
        languages: vec![b"tr".to_vec(), b"az".to_vec()],
        contexts: vec![],
    };
    assert_eq!(sort_special_cases(&vec![case], &bmp()).err(), Some(Rule::OneCondition));
    let case = SpecialCase {
        code: 0x49,
        lower: vec![0x131],
        title: vec![0x49],
        upper: vec![0x49],
        languages: vec![],
        contexts: vec![b"After_I".to_vec(), b"More_Above".to_vec()],
    };
    assert_eq!(sort_special_cases(&vec![case], &bmp()).err(), Some(Rule::OneCondition));
}

#[test]
fn replacement_by_the_code_point_itself_breaks_a_rule() {
    // U+0041 has U+0061 as its lowercase form by default.
    let text = format!("{}0041; 0041; 0041; 0041; tr; \n", NEEDED);
    assert_eq!(rule_broken_by(&text), Rule::DiffersFromSource);
    // U+00E0 has U+00C0 as its uppercase form by default.
    let text = format!("{}00E0; 00E0; 00C0; 00E0; tr; \n", NEEDED);
    assert_eq!(rule_broken_by(&text), Rule::DiffersFromSource);
}

#[test]
fn unknown_language_breaks_a_rule() {
    let text = format!("{}0049; 0131; 0049; 0049; de; \n", NEEDED);
    assert_eq!(rule_broken_by(&text), Rule::KnownLanguage);
}

#[test]
fn long_replacement_breaks_a_rule() {
    let text = format!("{}0390; 0390; 0399 0308 0301 0301; 0399 0308 0301 0301; \n", NEEDED);
    assert_eq!(rule_broken_by(&text), Rule::ShortReplacement);
    let text = format!("{}0390; 0390; 0399 0308 0301; 0399 0308 0301; \n", NEEDED);
    assert!(process_special_casing(text.as_bytes(), &bmp()).is_ok());
}

#[test]
fn unknown_context_breaks_a_rule() {
    let text = format!("{}0049; 0131; 0049; 0049; tr Before_Dot; \n", NEEDED);
    assert_eq!(rule_broken_by(&text), Rule::KnownContext);
    let text = format!("{}0399; 0399; 0399; 0345; Not_Final_Sigma; \n", NEEDED);
    assert_eq!(rule_broken_by(&text), Rule::KnownContext);
}

#[test]
fn first_rule_that_a_line_breaks_is_reported() {
    let text = format!(
        "{}0049; 0131; 0049; 0049; tr Before_Dot; \n0049; 0131; 0049; 0049; de; \n",
        NEEDED
    );
    assert_eq!(rule_broken_by(&text), Rule::KnownContext);
    let text = format!("{}0049; 0131; 0049; 0049; de Before_Dot; \n", NEEDED);
    assert_eq!(rule_broken_by(&text), Rule::KnownLanguage);
}

#[test]
fn special_form_of_an_ascii_code_point_breaks_a_rule() {
    let text = format!("{}0041; 0061 0300; 0041; 0041; \n", NEEDED);
    assert_eq!(rule_broken_by(&text), Rule::NoAscii);
    let text = format!("{}0061; 0061; 0041; 0041 0300; After_I; \n", NEEDED);
    assert_eq!(rule_broken_by(&text), Rule::NoAscii);
    // In one language an ASCII code point may have a special form.
    let text = format!("{}0041; 0061 0300; 0041; 0041; lt; \n", NEEDED);
    assert!(process_special_casing(text.as_bytes(), &bmp()).is_ok());
}

#[test]
fn special_lowercase_form_of_a_latin1_code_point_breaks_a_rule() {
    let text = format!("{}00C0; 0061 0300; 00C0; 00C0; \n", NEEDED);
    assert_eq!(rule_broken_by(&text), Rule::NoLatin1Lower);
    let text = format!("{}00C0; 0061 0300; 00C0; 00C0; After_I; \n", NEEDED);
    assert_eq!(rule_broken_by(&text), Rule::NoLatin1Lower);
}

#[test]
fn conditional_uppercase_form_of_a_latin1_code_point_breaks_a_rule() {
    let text = format!("{}00FF; 00FF; 00FF; 0059 0308; More_Above; \n", NEEDED);
    assert_eq!(rule_broken_by(&text), Rule::NoLatin1ConditionalUpper);
}

#[test]
fn sharp_s_is_held_to_its_rule() {
    let without = "\
0130; 0069 0307; 0130; 0130; # LATIN CAPITAL LETTER I WITH DOT ABOVE
03A3; 03C2; 03A3; 03A3; Final_Sigma; # GREEK CAPITAL LETTER SIGMA
";
    assert_eq!(rule_broken_by(without), Rule::SharpS);
    let text = format!("{}00DF; 00DF; 0053 0073; 0053 0073; \n", without);
    assert_eq!(rule_broken_by(&text), Rule::SharpS);
    let text = format!("{}00FF; 00FF; 0059 0308; 0059 0308; \n", NEEDED);
    assert_eq!(rule_broken_by(&text), Rule::SharpS);
}

#[test]
fn dotted_capital_i_is_held_to_its_rule() {
    let without = "\
00DF; 00DF; 0053 0073; 0053 0053; # LATIN SMALL LETTER SHARP S
03A3; 03C2; 03A3; 03A3; Final_Sigma; # GREEK CAPITAL LETTER SIGMA
";
    assert_eq!(rule_broken_by(without), Rule::DottedCapitalI);
    let text = format!("{}0130; 0069 0308; 0130; 0130; \n", without);
    assert_eq!(rule_broken_by(&text), Rule::DottedCapitalI);
    let text = format!("{}0149; 02BC 006E; 02BC 004E; 02BC 004E; \n", NEEDED);
    assert_eq!(rule_broken_by(&text), Rule::DottedCapitalI);
}

#[test]
fn conditional_uppercase_form_breaks_a_rule() {
    let text = format!("{}0149; 0149; 02BC 004E; 02BC 004E; More_Above; \n", NEEDED);
    assert_eq!(rule_broken_by(&text), Rule::NoConditionalUpper);
}

#[test]
fn final_sigma_is_held_to_its_rule() {
    let without = "\
00DF; 00DF; 0053 0073; 0053 0053; # LATIN SMALL LETTER SHARP S
0130; 0069 0307; 0130; 0130; # LATIN CAPITAL LETTER I WITH DOT ABOVE
";
    assert_eq!(rule_broken_by(without), Rule::FinalSigma);
    let text = format!("{}03A3; 03C2; 03A3; 03A3; More_Above; \n", without);
    assert_eq!(rule_broken_by(&text), Rule::FinalSigma);
    let text = format!("{}03A3; 03C2 03C2; 03A3; 03A3; Final_Sigma; \n", without);
    assert_eq!(rule_broken_by(&text), Rule::FinalSigma);
    let text = format!("{}0149; 02BC 006E; 0149; 0149; Final_Sigma; \n", NEEDED);
    assert_eq!(rule_broken_by(&text), Rule::FinalSigma);
}

#[test]
fn later_line_for_a_code_point_counts() {
    let text = "\
00DF; 00DF; 0053 0073; 0053 0073; # replaced below
00DF; 00DF; 0053 0073; 0053 0053; # LATIN SMALL LETTER SHARP S
0130; 0069 0307; 0130; 0130; # LATIN CAPITAL LETTER I WITH DOT ABOVE
03A3; 03C2; 03A3; 03A3; Final_Sigma; # GREEK CAPITAL LETTER SIGMA
";
    let data = process_special_casing(text.as_bytes(), &bmp()).unwrap();
    assert_eq!(data.unconditional_toupper[&0xDF], [0x53, 0x53]);
}
