//! Processes `SpecialCasing.txt` to extract all special casing information.

use crate::bmp::{shifted, BMPInfo};
use crate::constants::{
    COMBINING_DOT_ABOVE, GREEK_CAPITAL_LETTER_SIGMA, GREEK_SMALL_LETTER_FINAL_SIGMA,
    LATIN_CAPITAL_LETTER_I_WITH_DOT_ABOVE, LATIN_CAPITAL_LETTER_S, LATIN_SMALL_LETTER_I,
    LATIN_SMALL_LETTER_SHARP_S, MAX_BMP, MAX_CODE_POINT,
};
use crate::order::keys_in_order;
use crate::text::{
    content_at, content_start, hex_list, hex_number, next_content, next_line_start, parse_hex,
    parse_hex_list, same_bytes, split, split_fields, split_tokens, tokens, trim, trimmed, views,
    ParseError, ParseErrorKind, FIELD_BYTE,
};
use std::collections::BTreeMap;
use vstd::prelude::*;
use vstd::std_specs::btree::group_btree_axioms;

verus! {

broadcast use group_btree_axioms;

/// A line of `SpecialCasing.txt`: a code point, what it becomes in each
/// case, and the conditions under which it does.
#[derive(Clone, Debug)]
pub struct SpecialCase {
    /// The code point.
    pub code: u32,
    /// What the code point becomes in lowercase.
    pub lower: Vec<u32>,
    /// What the code point becomes in titlecase.
    pub title: Vec<u32>,
    /// What the code point becomes in uppercase.
    pub upper: Vec<u32>,
    /// The languages to which the line is restricted.
    pub languages: Vec<Vec<u8>>,
    /// The contexts to which the line is restricted.
    pub contexts: Vec<Vec<u8>>,
}

/// What a [`SpecialCase`] holds.
pub ghost struct SpecialCaseView {
    pub code: u32,
    pub lower: Seq<u32>,
    pub title: Seq<u32>,
    pub upper: Seq<u32>,
    pub languages: Seq<Seq<u8>>,
    pub contexts: Seq<Seq<u8>>,
}

impl View for SpecialCase {
    type V = SpecialCaseView;

    open spec fn view(&self) -> SpecialCaseView {
        SpecialCaseView {
            code: self.code,
            lower: self.lower@,
            title: self.title@,
            upper: self.upper@,
            languages: views(self.languages@),
            contexts: views(self.contexts@),
        }
    }
}

/// Whether a condition names a language: it begins with a lowercase letter.
pub open spec fn is_language(condition: Seq<u8>) -> bool {
    condition.len() > 0 && 0x61 <= condition[0] <= 0x7A
}

/// The conditions that name a language, in their order.
pub open spec fn languages_of(conditions: Seq<Seq<u8>>) -> Seq<Seq<u8>>
    decreases conditions.len(),
{
    if conditions.len() == 0 {
        Seq::empty()
    } else if is_language(conditions.last()) {
        languages_of(conditions.drop_last()).push(conditions.last())
    } else {
        languages_of(conditions.drop_last())
    }
}

/// The conditions that name a context, in their order.
pub open spec fn contexts_of(conditions: Seq<Seq<u8>>) -> Seq<Seq<u8>>
    decreases conditions.len(),
{
    if conditions.len() == 0 {
        Seq::empty()
    } else if is_language(conditions.last()) {
        contexts_of(conditions.drop_last())
    } else {
        contexts_of(conditions.drop_last()).push(conditions.last())
    }
}

/// What a line of the special casings says, `content` being the line
/// without its comment: five fields, which are the code, the lowercase,
/// titlecase and uppercase sequences and the list of conditions, and a
/// sixth, empty one where a `;` ends the list of conditions. A condition is
/// not empty, and a line names one language at most and one context at
/// most.
pub open spec fn special_case_line(content: Seq<u8>) -> Result<SpecialCaseView, ParseErrorKind> {
    let fields = split(content, FIELD_BYTE);
    if !(fields.len() == 5 || (fields.len() == 6 && trim(fields[5]).len() == 0)) {
        Err(ParseErrorKind::FieldCount)
    } else {
        match (
            hex_number(trim(fields[0]), MAX_CODE_POINT as nat),
            hex_list(fields[1], MAX_BMP as nat),
            hex_list(fields[2], MAX_BMP as nat),
            hex_list(fields[3], MAX_BMP as nat),
        ) {
            (Some(code), Some(lower), Some(title), Some(upper)) => {
                let conditions = tokens(fields[4]);
                if (exists|i: int| 0 <= i < conditions.len() && (#[trigger] conditions[i]).len() == 0)
                    || languages_of(conditions).len() > 1 || contexts_of(conditions).len() > 1 {
                    Err(ParseErrorKind::Condition)
                } else {
                    Ok(
                        SpecialCaseView {
                            code,
                            lower,
                            title,
                            upper,
                            languages: languages_of(conditions),
                            contexts: contexts_of(conditions),
                        },
                    )
                }
            },
            _ => Err(ParseErrorKind::Number),
        }
    }
}

/// Read what `text[from..to]` says as a line of the special casings.
pub fn read_special_case_line(text: &[u8], from: usize, to: usize) -> (line: Result<
    SpecialCase,
    ParseErrorKind,
>)
    requires
        from <= to <= text.len(),
    ensures
        match line {
            Ok(special_case) => special_case_line(text@.subrange(from as int, to as int)) == Ok::<
                SpecialCaseView,
                ParseErrorKind,
            >(special_case@),
            Err(kind) => special_case_line(text@.subrange(from as int, to as int)) == Err::<
                SpecialCaseView,
                ParseErrorKind,
            >(kind),
        },
{
    // Format:
    // <code>; <lower>; <title>; <upper>; (<condition_list>;)? # <comment>
    let fields = split_fields(text, from, to, FIELD_BYTE);
    proof {
        let all = split(text@.subrange(from as int, to as int), FIELD_BYTE);
        assert forall|i: int| 0 <= i < fields@.len() implies fields@[i]@ == all[i] by {
            assert(views(fields@)[i] == fields@[i]@);
        }
    }
    if !(fields.len() == 5 || (fields.len() == 6 && trimmed(&fields[5]).len() == 0)) {
        return Err(ParseErrorKind::FieldCount);
    }
    proof {
        let all = split(text@.subrange(from as int, to as int), FIELD_BYTE);
        assert(fields@[0]@ == all[0] && fields@[1]@ == all[1] && fields@[2]@ == all[2]
            && fields@[3]@ == all[3] && fields@[4]@ == all[4]);
    }
    let code = parse_hex(&trimmed(&fields[0]), MAX_CODE_POINT);
    let lower = parse_hex_list(&fields[1], MAX_BMP);
    let title = parse_hex_list(&fields[2], MAX_BMP);
    let upper = parse_hex_list(&fields[3], MAX_BMP);
    let (code, lower, title, upper) = match (code, lower, title, upper) {
        (Some(code), Some(lower), Some(title), Some(upper)) => (code, lower, title, upper),
        _ => {
            return Err(ParseErrorKind::Number);
        },
    };
    let conditions = split_tokens(&fields[4]);
    let ghost all = tokens(fields@[4]@);
    let mut languages: Vec<Vec<u8>> = Vec::new();
    let mut contexts: Vec<Vec<u8>> = Vec::new();
    let mut i: usize = 0;
    proof {
        assert(views(languages@) =~= languages_of(all.take(0)));
        assert(views(contexts@) =~= contexts_of(all.take(0)));
    }
    let ghost parts = split(text@.subrange(from as int, to as int), FIELD_BYTE);
    while i < conditions.len()
        invariant
            i <= conditions.len(),
            from <= to <= text.len(),
            parts == split(text@.subrange(from as int, to as int), FIELD_BYTE),
            parts.len() == 5 || (parts.len() == 6 && trim(parts[5]).len() == 0),
            hex_number(trim(parts[0]), MAX_CODE_POINT as nat) == Some(code),
            hex_list(parts[1], MAX_BMP as nat) == Some(lower@),
            hex_list(parts[2], MAX_BMP as nat) == Some(title@),
            hex_list(parts[3], MAX_BMP as nat) == Some(upper@),
            all == tokens(parts[4]),
            views(conditions@) == all,
            views(languages@) == languages_of(all.take(i as int)),
            views(contexts@) == contexts_of(all.take(i as int)),
            forall|j: int| 0 <= j < i ==> (#[trigger] all[j]).len() > 0,
        decreases conditions.len() - i,
    {
        proof {
            assert(views(conditions@)[i as int] == conditions@[i as int]@);
            assert(all.take(i + 1).drop_last() =~= all.take(i as int));
        }
        if conditions[i].len() == 0 {
            proof {
                assert(all[i as int].len() == 0);
            }
            return Err(ParseErrorKind::Condition);
        }
        let ghost old_languages = languages@;
        let ghost old_contexts = contexts@;
        let first = conditions[i][0];
        if 0x61 <= first && first <= 0x7A {
            languages.push(conditions[i].clone());
            proof {
                assert(views(languages@) =~= views(old_languages).push(conditions@[i as int]@));
            }
        } else {
            contexts.push(conditions[i].clone());
            proof {
                assert(views(contexts@) =~= views(old_contexts).push(conditions@[i as int]@));
            }
        }
        i += 1;
    }
    proof {
        assert(all.take(i as int) =~= all);
        assert(views(conditions@).len() == conditions@.len());
    }
    if languages.len() > 1 || contexts.len() > 1 {
        return Err(ParseErrorKind::Condition);
    }
    Ok(SpecialCase { code, lower, title, upper, languages, contexts })
}

/// The special casing that the text holds at or after `from`, and where
/// reading goes on after it. A line that says nothing is passed over.
/// After an error nothing more is read.
pub open spec fn scan_special_cases(text: Seq<u8>, from: int) -> (
    Option<Result<SpecialCaseView, ParseError>>,
    int,
) {
    let start = content_start(text, from);
    if start >= text.len() {
        (None, text.len() as int)
    } else {
        match special_case_line(content_at(text, start)) {
            Err(kind) => (
                Some(Err(ParseError { offset: start as usize, kind })),
                text.len() as int,
            ),
            Ok(special_case) => (Some(Ok(special_case)), next_line_start(text, start)),
        }
    }
}

/// A reader of the contents of `SpecialCasing.txt`.
pub struct SpecialCasing<'a> {
    /// The whole text.
    pub text: &'a [u8],
    /// Where in the text reading goes on.
    pub position: usize,
}

impl<'a> SpecialCasing<'a> {
    /// Produce a reader of the contents of `SpecialCasing.txt`.
    pub fn read(text: &'a [u8]) -> (reader: SpecialCasing<'a>)
        ensures
            reader.text@ == text@,
            reader.position == 0,
    {
        SpecialCasing { text, position: 0 }
    }

    /// Yields the next special casing. `None` says that the text is
    /// exhausted.
    pub fn next(&mut self) -> (item: Option<Result<SpecialCase, ParseError>>)
        requires
            old(self).position <= old(self).text@.len(),
        ensures
            final(self).text == old(self).text,
            final(self).position == scan_special_cases(
                old(self).text@,
                old(self).position as int,
            ).1,
            old(self).position <= final(self).position <= old(self).text@.len(),
            match item {
                None => scan_special_cases(old(self).text@, old(self).position as int).0 is None,
                Some(Err(error)) => scan_special_cases(
                    old(self).text@,
                    old(self).position as int,
                ).0 == Some(Err::<SpecialCaseView, ParseError>(error)),
                Some(Ok(special_case)) => scan_special_cases(
                    old(self).text@,
                    old(self).position as int,
                ).0 == Some(Ok::<SpecialCaseView, ParseError>(special_case@)) && old(self).position
                    < final(self).position,
            },
    {
        let text = self.text;
        let (start, end, next) = next_content(text, self.position);
        if start >= text.len() {
            self.position = text.len();
            return None;
        }
        match read_special_case_line(text, start, end) {
            Err(kind) => {
                self.position = text.len();
                Some(Err(ParseError { offset: start, kind }))
            },
            Ok(special_case) => {
                self.position = next;
                Some(Ok(special_case))
            },
        }
    }
}

/// `cases` with the special casings added that `text` holds from `from`
/// on, or the error in the first line that cannot be read.
pub open spec fn special_cases_from(text: Seq<u8>, from: int, cases: Seq<SpecialCaseView>) -> Result<
    Seq<SpecialCaseView>,
    ParseError,
>
    decreases text.len() - from,
{
    let scanned = scan_special_cases(text, from);
    match scanned.0 {
        None => Ok(cases),
        Some(Err(error)) => Err(error),
        Some(Ok(special_case)) => if from < scanned.1 <= text.len() {
            special_cases_from(text, scanned.1, cases.push(special_case))
        } else {
            Ok(cases)
        },
    }
}

/// The special casings that `text` holds, in their order, or the error in
/// the first line that cannot be read.
pub open spec fn special_cases_of(text: Seq<u8>) -> Result<Seq<SpecialCaseView>, ParseError> {
    special_cases_from(text, 0, Seq::empty())
}

/// What the special casings of `cases` hold.
pub open spec fn case_views(cases: Seq<SpecialCase>) -> Seq<SpecialCaseView> {
    cases.map_values(|special_case: SpecialCase| special_case@)
}

/// Read all special casings from the text of `SpecialCasing.txt`.
pub fn read_special_cases(text: &[u8]) -> (cases: Result<Vec<SpecialCase>, ParseError>)
    ensures
        match cases {
            Ok(cases) => special_cases_of(text@) == Ok::<Seq<SpecialCaseView>, ParseError>(
                case_views(cases@),
            ),
            Err(error) => special_cases_of(text@) == Err::<Seq<SpecialCaseView>, ParseError>(
                error,
            ),
        },
{
    let mut cases: Vec<SpecialCase> = Vec::new();
    let mut reader = SpecialCasing::read(text);
    proof {
        assert(case_views(cases@) =~= Seq::empty());
    }
    loop
        invariant
            reader.text@ == text@,
            reader.position <= text@.len(),
            special_cases_from(text@, reader.position as int, case_views(cases@))
                == special_cases_of(text@),
        decreases text@.len() - reader.position,
    {
        match reader.next() {
            None => {
                return Ok(cases);
            },
            Some(Err(error)) => {
                return Err(error);
            },
            Some(Ok(special_case)) => {
                let ghost before = cases@;
                let ghost added = special_case@;
                cases.push(special_case);
                proof {
                    assert(case_views(cases@) =~= case_views(before).push(added));
                }
            },
        }
    }
}

/// `az`, the language Azeri.
pub const LANGUAGE_AZERI: [u8; 2] = [0x61, 0x7A];

/// `lt`, the language Lithuanian.
pub const LANGUAGE_LITHUANIAN: [u8; 2] = [0x6C, 0x74];

/// `tr`, the language Turkish.
pub const LANGUAGE_TURKISH: [u8; 2] = [0x74, 0x72];

/// `After_I`, the context after an uppercase I.
pub const CONTEXT_AFTER_I: [u8; 7] = [0x41, 0x66, 0x74, 0x65, 0x72, 0x5F, 0x49];

/// `After_Soft_Dotted`, the context after a letter with a soft dot.
pub const CONTEXT_AFTER_SOFT_DOTTED: [u8; 17] = [0x41, 0x66, 0x74, 0x65, 0x72, 0x5F, 0x53, 0x6F, 0x66, 0x74, 0x5F, 0x44, 0x6F, 0x74, 0x74, 0x65, 0x64];

/// `Final_Sigma`, the context at the end of a word.
pub const CONTEXT_FINAL_SIGMA: [u8; 11] = [0x46, 0x69, 0x6E, 0x61, 0x6C, 0x5F, 0x53, 0x69, 0x67, 0x6D, 0x61];

/// `More_Above`, the context before a mark above.
pub const CONTEXT_MORE_ABOVE: [u8; 10] = [0x4D, 0x6F, 0x72, 0x65, 0x5F, 0x41, 0x62, 0x6F, 0x76, 0x65];

/// `Not_Before_Dot`, the context before anything but a dot above.
pub const CONTEXT_NOT_BEFORE_DOT: [u8; 14] = [0x4E, 0x6F, 0x74, 0x5F, 0x42, 0x65, 0x66, 0x6F, 0x72, 0x65, 0x5F, 0x44, 0x6F, 0x74];

/// One of the two cases in which a code point can have a special form.
#[derive(Copy, Clone, PartialEq, Eq, Debug, Structural)]
pub enum Case {
    Lower,
    Upper,
}

/// A rule that the special casings have to keep.
#[derive(Copy, Clone, PartialEq, Eq, Debug, Structural)]
pub enum Rule {
    /// Every special casing is that of a BMP code point.
    BmpOnly,
    /// A special casing names one language at most and one context at most.
    OneCondition,
    /// Where a code point has another code point as its lowercase or
    /// uppercase form by default, its special casing for that case is not
    /// the code point alone.
    DiffersFromSource,
    /// The only languages are Azeri, Lithuanian and Turkish.
    KnownLanguage,
    /// No replacement is longer than three code points.
    ShortReplacement,
    /// The only contexts are `After_I`, `After_Soft_Dotted`, `Final_Sigma`,
    /// `More_Above` and `Not_Before_Dot`.
    KnownContext,
    /// No ASCII code point has a special casing that holds in every
    /// language.
    NoAscii,
    /// No Latin-1 code point has a special lowercase form that holds in
    /// every language.
    NoLatin1Lower,
    /// No Latin-1 code point has a special uppercase form that holds in
    /// every language in some context only.
    NoLatin1ConditionalUpper,
    /// U+00DF is the only Latin-1 code point with a special uppercase form,
    /// which is two U+0053.
    SharpS,
    /// U+0130 is the only code point with a special lowercase form that
    /// holds everywhere, which is U+0069 and U+0307.
    DottedCapitalI,
    /// No code point has a special uppercase form that holds in every
    /// language in some context only.
    NoConditionalUpper,
    /// U+03A3 is the only code point with a special lowercase form that
    /// holds in every language in some context only: U+03C2 in the context
    /// `Final_Sigma`.
    FinalSigma,
}

/// What a code point becomes in `case` according to a special casing.
pub open spec fn replacement(special_case: SpecialCaseView, case: Case) -> Seq<u32> {
    match case {
        Case::Lower => special_case.lower,
        Case::Upper => special_case.upper,
    }
}

/// What the BMP code point `code` becomes in `case` by default.
pub open spec fn default_case(bmp: &BMPInfo, code: u32, case: Case) -> u32 {
    match case {
        Case::Lower => shifted(code, bmp.info(code).lower_delta.0),
        Case::Upper => shifted(code, bmp.info(code).upper_delta.0),
    }
}

/// Whether a special casing gives its code point a form in `case` other
/// than the default one.
pub open spec fn is_special(bmp: &BMPInfo, special_case: SpecialCaseView, case: Case) -> bool {
    replacement(special_case, case).len() != 1 || replacement(special_case, case)[0]
        != default_case(bmp, special_case.code, case)
}

/// Whether a special casing keeps [`Rule::DiffersFromSource`] in `case`.
pub open spec fn differs_from_source(
    bmp: &BMPInfo,
    special_case: SpecialCaseView,
    case: Case,
) -> bool {
    special_case.code == default_case(bmp, special_case.code, case) || replacement(
        special_case,
        case,
    ).len() != 1 || special_case.code != replacement(special_case, case)[0]
}

/// Whether `language` is one of the three known languages.
pub open spec fn known_language(language: Seq<u8>) -> bool {
    language == LANGUAGE_AZERI@ || language == LANGUAGE_LITHUANIAN@ || language
        == LANGUAGE_TURKISH@
}

/// Whether `context` is one of the five known contexts.
pub open spec fn known_context(context: Seq<u8>) -> bool {
    context == CONTEXT_AFTER_I@ || context == CONTEXT_AFTER_SOFT_DOTTED@ || context
        == CONTEXT_FINAL_SIGMA@ || context == CONTEXT_MORE_ABOVE@ || context
        == CONTEXT_NOT_BEFORE_DOT@
}

/// The first rule that a special casing breaks by itself, if it breaks one.
pub open spec fn broken_by(bmp: &BMPInfo, special_case: SpecialCaseView) -> Option<Rule> {
    if special_case.code > MAX_BMP {
        Some(Rule::BmpOnly)
    } else if special_case.languages.len() > 1 || special_case.contexts.len() > 1 {
        Some(Rule::OneCondition)
    } else if !differs_from_source(bmp, special_case, Case::Lower) || !differs_from_source(
        bmp,
        special_case,
        Case::Upper,
    ) {
        Some(Rule::DiffersFromSource)
    } else if special_case.languages.len() == 1 && !known_language(special_case.languages[0]) {
        Some(Rule::KnownLanguage)
    } else if special_case.lower.len() > 3 || special_case.upper.len() > 3 {
        Some(Rule::ShortReplacement)
    } else if special_case.contexts.len() == 1 && !known_context(special_case.contexts[0]) {
        Some(Rule::KnownContext)
    } else {
        None
    }
}

/// The rule that the first special casing breaks that breaks one by
/// itself.
pub open spec fn first_broken(bmp: &BMPInfo, cases: Seq<SpecialCaseView>) -> Option<Rule>
    decreases cases.len(),
{
    if cases.len() == 0 {
        None
    } else {
        match first_broken(bmp, cases.drop_last()) {
            Some(rule) => Some(rule),
            None => broken_by(bmp, cases.last()),
        }
    }
}

/// The special forms in `case` that hold in every language and context:
/// each code point with the replacement that the last special casing
/// without conditions gives it.
pub open spec fn unconditional(bmp: &BMPInfo, cases: Seq<SpecialCaseView>, case: Case) -> Map<
    u32,
    Seq<u32>,
>
    decreases cases.len(),
{
    if cases.len() == 0 {
        Map::empty()
    } else {
        let before = unconditional(bmp, cases.drop_last(), case);
        let last = cases.last();
        if last.languages.len() == 0 && last.contexts.len() == 0 && is_special(bmp, last, case) {
            before.insert(last.code, replacement(last, case))
        } else {
            before
        }
    }
}

/// The special forms in `case` that hold in every language in some context
/// only: each code point with the replacement and the context that the last
/// special casing with a context and no language gives it.
pub open spec fn conditional(bmp: &BMPInfo, cases: Seq<SpecialCaseView>, case: Case) -> Map<
    u32,
    (Seq<u32>, Seq<u8>),
>
    decreases cases.len(),
{
    if cases.len() == 0 {
        Map::empty()
    } else {
        let before = conditional(bmp, cases.drop_last(), case);
        let last = cases.last();
        if last.languages.len() == 0 && last.contexts.len() == 1 && is_special(bmp, last, case) {
            before.insert(last.code, (replacement(last, case), last.contexts[0]))
        } else {
            before
        }
    }
}

/// A special form of a code point that holds in one language, in every
/// context or in one.
#[derive(Clone, Debug)]
pub struct LanguageMapping {
    /// The language.
    pub language: Vec<u8>,
    /// The code point.
    pub code: u32,
    /// What the code point becomes.
    pub replacement: Vec<u32>,
    /// The context in which it does, if it is restricted to one.
    pub context: Option<Vec<u8>>,
}

/// What a [`LanguageMapping`] holds.
pub ghost struct LanguageMappingView {
    pub language: Seq<u8>,
    pub code: u32,
    pub replacement: Seq<u32>,
    pub context: Option<Seq<u8>>,
}

impl View for LanguageMapping {
    type V = LanguageMappingView;

    open spec fn view(&self) -> LanguageMappingView {
        LanguageMappingView {
            language: self.language@,
            code: self.code,
            replacement: self.replacement@,
            context: match self.context {
                Some(context) => Some(context@),
                None => None,
            },
        }
    }
}

/// What the mappings of `mappings` hold.
pub open spec fn mapping_views(mappings: Seq<LanguageMapping>) -> Seq<LanguageMappingView> {
    mappings.map_values(|mapping: LanguageMapping| mapping@)
}

/// The special forms in `case` that hold in one language, in the order of
/// the special casings that give them. Where two of them speak of one code
/// point in one language, the later one counts.
pub open spec fn language_conditional(
    bmp: &BMPInfo,
    cases: Seq<SpecialCaseView>,
    case: Case,
) -> Seq<LanguageMappingView>
    decreases cases.len(),
{
    if cases.len() == 0 {
        Seq::empty()
    } else {
        let before = language_conditional(bmp, cases.drop_last(), case);
        let last = cases.last();
        if last.languages.len() == 1 && is_special(bmp, last, case) {
            before.push(
                LanguageMappingView {
                    language: last.languages[0],
                    code: last.code,
                    replacement: replacement(last, case),
                    context: if last.contexts.len() > 0 {
                        Some(last.contexts[0])
                    } else {
                        None
                    },
                },
            )
        } else {
            before
        }
    }
}

/// Every code point of `map` is larger than `bound`.
pub open spec fn keys_above<V>(map: Map<u32, V>, bound: u32) -> bool {
    forall|code: u32| #[trigger] map.contains_key(code) ==> code > bound
}

/// Every code point of `map` up to `bound` is `only`.
pub open spec fn keys_up_to_are<V>(map: Map<u32, V>, bound: u32, only: u32) -> bool {
    forall|code: u32| #[trigger] map.contains_key(code) && code <= bound ==> code == only
}

/// The first rule on the special forms that hold in every language that
/// these break, if they break one: `lower` and `upper` are those that hold
/// in every context, `lower_in_context` and `upper_in_context` those that
/// hold in some context only.
pub open spec fn broken_among(
    lower: Map<u32, Seq<u32>>,
    upper: Map<u32, Seq<u32>>,
    lower_in_context: Map<u32, (Seq<u32>, Seq<u8>)>,
    upper_in_context: Map<u32, (Seq<u32>, Seq<u8>)>,
) -> Option<Rule> {
    if !(keys_above(lower, 0x7F) && keys_above(upper, 0x7F) && keys_above(lower_in_context, 0x7F)
        && keys_above(upper_in_context, 0x7F)) {
        Some(Rule::NoAscii)
    } else if !(keys_above(lower, 0xFF) && keys_above(lower_in_context, 0xFF)) {
        Some(Rule::NoLatin1Lower)
    } else if !keys_above(upper_in_context, 0xFF) {
        Some(Rule::NoLatin1ConditionalUpper)
    } else if !(keys_up_to_are(upper, 0xFF, LATIN_SMALL_LETTER_SHARP_S) && upper.contains_key(
        LATIN_SMALL_LETTER_SHARP_S,
    ) && upper[LATIN_SMALL_LETTER_SHARP_S] == seq![
        LATIN_CAPITAL_LETTER_S,
        LATIN_CAPITAL_LETTER_S,
    ]) {
        Some(Rule::SharpS)
    } else if !(lower.dom() == set![LATIN_CAPITAL_LETTER_I_WITH_DOT_ABOVE]
        && lower[LATIN_CAPITAL_LETTER_I_WITH_DOT_ABOVE] == seq![
        LATIN_SMALL_LETTER_I,
        COMBINING_DOT_ABOVE,
    ]) {
        Some(Rule::DottedCapitalI)
    } else if !(upper_in_context.dom() == Set::<u32>::empty()) {
        Some(Rule::NoConditionalUpper)
    } else if !(lower_in_context.dom() == set![GREEK_CAPITAL_LETTER_SIGMA]
        && lower_in_context[GREEK_CAPITAL_LETTER_SIGMA] == (
        seq![GREEK_SMALL_LETTER_FINAL_SIGMA],
        CONTEXT_FINAL_SIGMA@,
    )) {
        Some(Rule::FinalSigma)
    } else {
        None
    }
}

/// The first rule that the special casings break, if they break one: a
/// rule that a special casing breaks by itself comes before one on the
/// special forms taken together.
pub open spec fn broken(bmp: &BMPInfo, cases: Seq<SpecialCaseView>) -> Option<Rule> {
    match first_broken(bmp, cases) {
        Some(rule) => Some(rule),
        None => broken_among(
            unconditional(bmp, cases, Case::Lower),
            unconditional(bmp, cases, Case::Upper),
            conditional(bmp, cases, Case::Lower),
            conditional(bmp, cases, Case::Upper),
        ),
    }
}

/// A mapping from code point to replacement code point sequence, independent of
/// language or context within a string.
pub type UnconditionalMapping = BTreeMap<u32, Vec<u32>>;

/// A mapping from code point to replacement code point sequence and the context
/// in which the mapping should be applied.
pub type ContextualMapping = BTreeMap<u32, (Vec<u32>, Vec<u8>)>;

/// What an [`UnconditionalMapping`] holds.
pub open spec fn replacements(map: Map<u32, Vec<u32>>) -> Map<u32, Seq<u32>> {
    Map::new(|code: u32| map.contains_key(code), |code: u32| map[code]@)
}

/// What a [`ContextualMapping`] holds.
pub open spec fn replacements_in_context(map: Map<u32, (Vec<u32>, Vec<u8>)>) -> Map<
    u32,
    (Seq<u32>, Seq<u8>),
> {
    Map::new(|code: u32| map.contains_key(code), |code: u32| (map[code].0@, map[code].1@))
}

/// The special forms of code points that `SpecialCasing.txt` gives.
pub struct SpecialCasingData {
    /// Unconditional mappings, performed for all languages and contexts, when
    /// lowercasing.
    pub unconditional_tolower: UnconditionalMapping,
    /// Unconditional mappings, performed for all languages and contexts, when
    /// uppercasing.
    pub unconditional_toupper: UnconditionalMapping,
    /// Mappings performed for all languages in some context only, when
    /// lowercasing.
    pub conditional_tolower: ContextualMapping,
    /// Mappings performed for all languages in some context only, when
    /// uppercasing.
    pub conditional_toupper: ContextualMapping,
    /// Mappings performed for one language, when lowercasing.
    pub lang_conditional_tolower: Vec<LanguageMapping>,
    /// Mappings performed for one language, when uppercasing.
    pub lang_conditional_toupper: Vec<LanguageMapping>,
}

impl SpecialCasingData {
    /// The data holds the special forms that `cases` give, `bmp` giving the
    /// default forms.
    pub open spec fn describes(&self, bmp: &BMPInfo, cases: Seq<SpecialCaseView>) -> bool {
        &&& replacements(self.unconditional_tolower@) == unconditional(bmp, cases, Case::Lower)
        &&& replacements(self.unconditional_toupper@) == unconditional(bmp, cases, Case::Upper)
        &&& replacements_in_context(self.conditional_tolower@) == conditional(
            bmp,
            cases,
            Case::Lower,
        )
        &&& replacements_in_context(self.conditional_toupper@) == conditional(
            bmp,
            cases,
            Case::Upper,
        )
        &&& mapping_views(self.lang_conditional_tolower@) == language_conditional(
            bmp,
            cases,
            Case::Lower,
        )
        &&& mapping_views(self.lang_conditional_toupper@) == language_conditional(
            bmp,
            cases,
            Case::Upper,
        )
    }
}

/// Whether every code point of `map` is larger than `bound`.
fn all_keys_above<V>(map: &BTreeMap<u32, V>, bound: u32) -> (all: bool)
    ensures
        all == keys_above(map@, bound),
{
    let codes = keys_in_order(map);
    let mut i: usize = 0;
    while i < codes.len()
        invariant
            i <= codes.len(),
            codes@.to_set() == map@.dom(),
            forall|k: int| 0 <= k < i ==> codes@[k] > bound,
        decreases codes.len() - i,
    {
        if codes[i] <= bound {
            proof {
                assert(codes@.to_set().contains(codes@[i as int]));
            }
            return false;
        }
        i += 1;
    }
    proof {
        assert forall|code: u32| #[trigger] map@.contains_key(code) implies code > bound by {
            assert(codes@.to_set().contains(code));
        }
    }
    true
}

/// Whether every code point of `map` up to `bound` is `only`.
fn all_keys_up_to_are<V>(map: &BTreeMap<u32, V>, bound: u32, only: u32) -> (all: bool)
    ensures
        all == keys_up_to_are(map@, bound, only),
{
    let codes = keys_in_order(map);
    let mut i: usize = 0;
    while i < codes.len()
        invariant
            i <= codes.len(),
            codes@.to_set() == map@.dom(),
            forall|k: int| 0 <= k < i && codes@[k] <= bound ==> codes@[k] == only,
        decreases codes.len() - i,
    {
        if codes[i] <= bound && codes[i] != only {
            proof {
                assert(codes@.to_set().contains(codes@[i as int]));
            }
            return false;
        }
        i += 1;
    }
    proof {
        assert forall|code: u32| #[trigger] map@.contains_key(code) && code <= bound implies code
            == only by {
            assert(codes@.to_set().contains(code));
        }
    }
    true
}

/// Whether `map` holds the code point `key` and no other.
fn has_only_key<V>(map: &BTreeMap<u32, V>, key: u32) -> (only: bool)
    ensures
        only == (map@.dom() == set![key]),
{
    let codes = keys_in_order(map);
    if codes.len() == 1 && codes[0] == key {
        proof {
            assert forall|code: u32| codes@.to_set().contains(code) <==> set![key].contains(
                code,
            ) by {
                if codes@.contains(code) {
                    let k = choose|k: int| 0 <= k < codes@.len() && codes@[k] == code;
                }
                assert(codes@[0] == key);
            }
            assert(map@.dom() =~= set![key]);
        }
        true
    } else {
        proof {
            if map@.dom() == set![key] {
                assert(codes@.to_set().contains(key));
                assert(codes@.contains(key));
                if codes@.len() >= 2 {
                    assert(codes@.to_set().contains(codes@[0]));
                    assert(codes@.to_set().contains(codes@[1]));
                }
            }
        }
        false
    }
}

/// Whether `map` holds no code point.
fn has_no_key<V>(map: &BTreeMap<u32, V>) -> (none: bool)
    ensures
        none == (map@.dom() == Set::<u32>::empty()),
{
    let codes = keys_in_order(map);
    if codes.len() == 0 {
        proof {
            assert(map@.dom() =~= Set::<u32>::empty());
        }
        true
    } else {
        proof {
            assert(codes@.to_set().contains(codes@[0]));
        }
        false
    }
}

/// Whether `list` is the one code `only`.
fn is_single(list: &Vec<u32>, only: u32) -> (same: bool)
    ensures
        same == (list@ == seq![only]),
{
    if list.len() == 1 && list[0] == only {
        proof {
            assert(list@ =~= seq![only]);
        }
        true
    } else {
        false
    }
}

/// Whether `list` is the two codes `first` and `second`.
fn is_pair(list: &Vec<u32>, first: u32, second: u32) -> (same: bool)
    ensures
        same == (list@ == seq![first, second]),
{
    if list.len() == 2 && list[0] == first && list[1] == second {
        proof {
            assert(list@ =~= seq![first, second]);
        }
        true
    } else {
        false
    }
}

/// Whether `language` is one of the three known languages.
fn is_known_language(language: &Vec<u8>) -> (known: bool)
    ensures
        known == known_language(language@),
{
    same_bytes(language.as_slice(), LANGUAGE_AZERI.as_slice()) || same_bytes(
        language.as_slice(),
        LANGUAGE_LITHUANIAN.as_slice(),
    ) || same_bytes(language.as_slice(), LANGUAGE_TURKISH.as_slice())
}

/// Whether `context` is one of the five known contexts.
fn is_known_context(context: &Vec<u8>) -> (known: bool)
    ensures
        known == known_context(context@),
{
    same_bytes(context.as_slice(), CONTEXT_AFTER_I.as_slice()) || same_bytes(
        context.as_slice(),
        CONTEXT_AFTER_SOFT_DOTTED.as_slice(),
    ) || same_bytes(context.as_slice(), CONTEXT_FINAL_SIGMA.as_slice()) || same_bytes(
        context.as_slice(),
        CONTEXT_MORE_ABOVE.as_slice(),
    ) || same_bytes(context.as_slice(), CONTEXT_NOT_BEFORE_DOT.as_slice())
}

/// The first rule that a special casing breaks by itself, if it breaks one.
fn check_special_case(special_case: &SpecialCase, bmp: &BMPInfo) -> (rule: Option<Rule>)
    requires
        bmp.wf(),
    ensures
        rule == broken_by(bmp, special_case@),
{
    let code = special_case.code;
    if code > MAX_BMP {
        return Some(Rule::BmpOnly);
    }
    if special_case.languages.len() > 1 || special_case.contexts.len() > 1 {
        return Some(Rule::OneCondition);
    }
    let defaults = bmp.table[bmp.index[code as usize] as usize].apply(code);
    let lower = &special_case.lower;
    let upper = &special_case.upper;

    // Invariant: If |code| has casing per UnicodeData.txt, then it also has
    // casing rules in SpecialCasing.txt.
    if !(code == defaults.lower || lower.len() != 1 || code != lower[0]) || !(code
        == defaults.upper || upper.len() != 1 || code != upper[0]) {
        return Some(Rule::DiffersFromSource);
    }
    proof {
        assert(views(special_case.languages@).len() == special_case.languages@.len());
        assert(views(special_case.contexts@).len() == special_case.contexts@.len());
    }
    if special_case.languages.len() == 1 {
        proof {
            assert(views(special_case.languages@)[0] == special_case.languages@[0]@);
        }
        if !is_known_language(&special_case.languages[0]) {
            return Some(Rule::KnownLanguage);
        }
    }
    if lower.len() > 3 || upper.len() > 3 {
        return Some(Rule::ShortReplacement);
    }
    if special_case.contexts.len() == 1 {
        proof {
            assert(views(special_case.contexts@)[0] == special_case.contexts@[0]@);
        }
        if !is_known_context(&special_case.contexts[0]) {
            return Some(Rule::KnownContext);
        }
    }
    None
}

/// The first rule on the special forms that hold in every language that
/// these break, if they break one.
fn check_mappings(
    lower: &UnconditionalMapping,
    upper: &UnconditionalMapping,
    lower_in_context: &ContextualMapping,
    upper_in_context: &ContextualMapping,
) -> (rule: Option<Rule>)
    ensures
        rule == broken_among(
            replacements(lower@),
            replacements(upper@),
            replacements_in_context(lower_in_context@),
            replacements_in_context(upper_in_context@),
        ),
{
    proof {
        assert(replacements(lower@).dom() =~= lower@.dom());
        assert(replacements(upper@).dom() =~= upper@.dom());
        assert(replacements_in_context(lower_in_context@).dom() =~= lower_in_context@.dom());
        assert(replacements_in_context(upper_in_context@).dom() =~= upper_in_context@.dom());
        assert forall|bound: u32|
            keys_above(replacements(lower@), bound) == keys_above(lower@, bound) && keys_above(
                replacements(upper@),
                bound,
            ) == keys_above(upper@, bound) && keys_above(
                replacements_in_context(lower_in_context@),
                bound,
            ) == keys_above(lower_in_context@, bound) && keys_above(
                replacements_in_context(upper_in_context@),
                bound,
            ) == keys_above(upper_in_context@, bound) by {
            assert forall|code: u32|
                (replacements(lower@).contains_key(code) <==> lower@.contains_key(code)) && (
                replacements(upper@).contains_key(code) <==> upper@.contains_key(code)) && (
                replacements_in_context(lower_in_context@).contains_key(code)
                    <==> lower_in_context@.contains_key(code)) && (replacements_in_context(
                    upper_in_context@,
                ).contains_key(code) <==> upper_in_context@.contains_key(code)) by {}
        }
        assert(keys_up_to_are(replacements(upper@), 0xFF, LATIN_SMALL_LETTER_SHARP_S)
            == keys_up_to_are(upper@, 0xFF, LATIN_SMALL_LETTER_SHARP_S)) by {
            assert forall|code: u32|
                replacements(upper@).contains_key(code) <==> upper@.contains_key(code) by {}
        }
    }
    // Ensure no ASCII characters have special case mappings.
    if !(all_keys_above(lower, 0x7F) && all_keys_above(upper, 0x7F) && all_keys_above(
        lower_in_context,
        0x7F,
    ) && all_keys_above(upper_in_context, 0x7F)) {
        return Some(Rule::NoAscii);
    }
    // Ensure no Latin-1 characters have special lower case mappings.
    if !(all_keys_above(lower, 0xFF) && all_keys_above(lower_in_context, 0xFF)) {
        return Some(Rule::NoLatin1Lower);
    }
    // Ensure no Latin-1 characters have conditional special upper case
    // mappings.
    if !all_keys_above(upper_in_context, 0xFF) {
        return Some(Rule::NoLatin1ConditionalUpper);
    }
    // Ensure U+00DF LATIN SMALL LETTER SHARP S is the only Latin-1
    // character with a special upper case mapping.
    let sharp_s = match upper.get(&LATIN_SMALL_LETTER_SHARP_S) {
        Some(replacement) => is_pair(replacement, LATIN_CAPITAL_LETTER_S, LATIN_CAPITAL_LETTER_S),
        None => false,
    };
    if !(all_keys_up_to_are(upper, 0xFF, LATIN_SMALL_LETTER_SHARP_S) && sharp_s) {
        return Some(Rule::SharpS);
    }
    // Ensure U+0130 LATIN CAPITAL LETTER I WITH DOT ABOVE is the only
    // character with a special lower case mapping.
    let dotted_i = match lower.get(&LATIN_CAPITAL_LETTER_I_WITH_DOT_ABOVE) {
        Some(replacement) => is_pair(replacement, LATIN_SMALL_LETTER_I, COMBINING_DOT_ABOVE),
        None => false,
    };
    if !(has_only_key(lower, LATIN_CAPITAL_LETTER_I_WITH_DOT_ABOVE) && dotted_i) {
        return Some(Rule::DottedCapitalI);
    }
    // Ensure no characters have language-independent conditional upper case
    // mappings.
    if !has_no_key(upper_in_context) {
        return Some(Rule::NoConditionalUpper);
    }
    // Ensure U+03A3 GREEK CAPITAL LETTER SIGMA is the only character with
    // language-independent conditional lower case mapping.
    let final_sigma = match lower_in_context.get(&GREEK_CAPITAL_LETTER_SIGMA) {
        Some(mapping) => is_single(&mapping.0, GREEK_SMALL_LETTER_FINAL_SIGMA) && same_bytes(
            mapping.1.as_slice(),
            CONTEXT_FINAL_SIGMA.as_slice(),
        ),
        None => false,
    };
    if !(has_only_key(lower_in_context, GREEK_CAPITAL_LETTER_SIGMA) && final_sigma) {
        return Some(Rule::FinalSigma);
    }
    None
}

/// Why no special casing data could be made.
#[derive(Copy, Clone, PartialEq, Eq, Debug, Structural)]
pub enum SpecialCasingError {
    /// A line of the text could not be read.
    Parse(ParseError),
    /// The special casings break a rule.
    Broken(Rule),
}

/// Whether the replacement of a special casing in a case differs from the
/// default form `default`.
fn differs_from_default(replacement: &Vec<u32>, default: u32) -> (special: bool)
    ensures
        special == (replacement@.len() != 1 || replacement@[0] != default),
{
    replacement.len() != 1 || replacement[0] != default
}

/// Sort the special casings into the special forms that they give, `bmp`
/// giving the default forms, and hold them to the rules.
///
/// A special casing without conditions gives forms that hold everywhere,
/// one with a context and no language gives forms that hold in that
/// context, and one with a language gives forms that hold in that
/// language. Only a form that differs from the default one is stored.
///
/// Where the special casings break a rule, the first rule broken is
/// reported, and no data is made.
pub fn sort_special_cases(cases: &Vec<SpecialCase>, bmp: &BMPInfo) -> (data: Result<
    SpecialCasingData,
    Rule,
>)
    requires
        bmp.wf(),
    ensures
        match data {
            Ok(data) => broken(bmp, case_views(cases@)) is None && data.describes(
                bmp,
                case_views(cases@),
            ),
            Err(rule) => broken(bmp, case_views(cases@)) == Some(rule),
        },
{
    // Unconditional special casing.
    let mut unconditional_tolower: UnconditionalMapping = BTreeMap::new();
    let mut unconditional_toupper: UnconditionalMapping = BTreeMap::new();

    // Conditional special casing: applicable in context yet
    // language-independent.
    let mut conditional_tolower: ContextualMapping = BTreeMap::new();
    let mut conditional_toupper: ContextualMapping = BTreeMap::new();

    // Conditional special casing: language-dependent, possibly only applicable
    // in context.
    let mut lang_conditional_tolower: Vec<LanguageMapping> = Vec::new();
    let mut lang_conditional_toupper: Vec<LanguageMapping> = Vec::new();

    let ghost all = case_views(cases@);
    proof {
        assert(all.take(0) =~= Seq::empty());
        assert(replacements(unconditional_tolower@) =~= Map::empty());
        assert(replacements(unconditional_toupper@) =~= Map::empty());
        assert(replacements_in_context(conditional_tolower@) =~= Map::empty());
        assert(replacements_in_context(conditional_toupper@) =~= Map::empty());
        assert(mapping_views(lang_conditional_tolower@) =~= Seq::empty());
        assert(mapping_views(lang_conditional_toupper@) =~= Seq::empty());
    }
    let mut i: usize = 0;
    while i < cases.len()
        invariant
            i <= cases.len(),
            bmp.wf(),
            all == case_views(cases@),
            first_broken(bmp, all.take(i as int)) is None,
            replacements(unconditional_tolower@) == unconditional(
                bmp,
                all.take(i as int),
                Case::Lower,
            ),
            replacements(unconditional_toupper@) == unconditional(
                bmp,
                all.take(i as int),
                Case::Upper,
            ),
            replacements_in_context(conditional_tolower@) == conditional(
                bmp,
                all.take(i as int),
                Case::Lower,
            ),
            replacements_in_context(conditional_toupper@) == conditional(
                bmp,
                all.take(i as int),
                Case::Upper,
            ),
            mapping_views(lang_conditional_tolower@) == language_conditional(
                bmp,
                all.take(i as int),
                Case::Lower,
            ),
            mapping_views(lang_conditional_toupper@) == language_conditional(
                bmp,
                all.take(i as int),
                Case::Upper,
            ),
        decreases cases.len() - i,
    {
        let special_case = &cases[i];
        let ghost this = special_case@;
        proof {
            assert(all.take(i + 1).drop_last() =~= all.take(i as int));
            assert(all.take(i + 1).last() == this);
        }
        match check_special_case(special_case, bmp) {
            Some(rule) => {
                proof {
                    lemma_first_broken_stays(bmp, all, i + 1);
                }
                return Err(rule);
            },
            None => {},
        }
        let code = special_case.code;
        let defaults = bmp.table[bmp.index[code as usize] as usize].apply(code);
        let has_special_lower = differs_from_default(&special_case.lower, defaults.lower);
        let has_special_upper = differs_from_default(&special_case.upper, defaults.upper);
        proof {
            assert(views(special_case.languages@).len() == special_case.languages@.len());
            assert(views(special_case.contexts@).len() == special_case.contexts@.len());
            assert(has_special_lower == is_special(bmp, this, Case::Lower));
            assert(has_special_upper == is_special(bmp, this, Case::Upper));
        }
        let ghost old_lower = unconditional_tolower@;
        let ghost old_upper = unconditional_toupper@;
        let ghost old_lower_in_context = conditional_tolower@;
        let ghost old_upper_in_context = conditional_toupper@;
        let ghost old_lower_in_language = lang_conditional_tolower@;
        let ghost old_upper_in_language = lang_conditional_toupper@;
        if special_case.languages.len() == 0 {
            if special_case.contexts.len() == 0 {
                if has_special_lower {
                    unconditional_tolower.insert(code, special_case.lower.clone());
                    proof {
                        assert(replacements(unconditional_tolower@) =~= replacements(
                            old_lower,
                        ).insert(code, this.lower));
                    }
                }
                if has_special_upper {
                    unconditional_toupper.insert(code, special_case.upper.clone());
                    proof {
                        assert(replacements(unconditional_toupper@) =~= replacements(
                            old_upper,
                        ).insert(code, this.upper));
                    }
                }
            } else {
                proof {
                    assert(views(special_case.contexts@)[0] == special_case.contexts@[0]@);
                }
                if has_special_lower {
                    conditional_tolower.insert(
                        code,
                        (special_case.lower.clone(), special_case.contexts[0].clone()),
                    );
                    proof {
                        assert(replacements_in_context(conditional_tolower@)
                            =~= replacements_in_context(old_lower_in_context).insert(
                            code,
                            (this.lower, this.contexts[0]),
                        ));
                    }
                }
                if has_special_upper {
                    conditional_toupper.insert(
                        code,
                        (special_case.upper.clone(), special_case.contexts[0].clone()),
                    );
                    proof {
                        assert(replacements_in_context(conditional_toupper@)
                            =~= replacements_in_context(old_upper_in_context).insert(
                            code,
                            (this.upper, this.contexts[0]),
                        ));
                    }
                }
            }
        } else {
            proof {
                assert(views(special_case.languages@)[0] == special_case.languages@[0]@);
                if special_case.contexts.len() > 0 {
                    assert(views(special_case.contexts@)[0] == special_case.contexts@[0]@);
                }
            }
            if has_special_lower {
                let mapping = LanguageMapping {
                    language: special_case.languages[0].clone(),
                    code,
                    replacement: special_case.lower.clone(),
                    context: if special_case.contexts.len() > 0 {
                        Some(special_case.contexts[0].clone())
                    } else {
                        None
                    },
                };
                let ghost added = mapping@;
                lang_conditional_tolower.push(mapping);
                proof {
                    assert(mapping_views(lang_conditional_tolower@) =~= mapping_views(
                        old_lower_in_language,
                    ).push(added));
                }
            }
            if has_special_upper {
                let mapping = LanguageMapping {
                    language: special_case.languages[0].clone(),
                    code,
                    replacement: special_case.upper.clone(),
                    context: if special_case.contexts.len() > 0 {
                        Some(special_case.contexts[0].clone())
                    } else {
                        None
                    },
                };
                let ghost added = mapping@;
                lang_conditional_toupper.push(mapping);
                proof {
                    assert(mapping_views(lang_conditional_toupper@) =~= mapping_views(
                        old_upper_in_language,
                    ).push(added));
                }
            }
        }
        i += 1;
    }
    proof {
        assert(all.take(i as int) =~= all);
    }
    // Processing complete: now hold the special forms to the assumptions
    // made about them elsewhere.
    match check_mappings(
        &unconditional_tolower,
        &unconditional_toupper,
        &conditional_tolower,
        &conditional_toupper,
    ) {
        Some(rule) => Err(rule),
        None => Ok(
            SpecialCasingData {
                unconditional_tolower,
                unconditional_toupper,
                conditional_tolower,
                conditional_toupper,
                lang_conditional_tolower,
                lang_conditional_toupper,
            },
        ),
    }
}

/// A rule that the first `count` special casings break stays the first
/// rule broken when more special casings follow.
proof fn lemma_first_broken_stays(bmp: &BMPInfo, cases: Seq<SpecialCaseView>, count: int)
    requires
        0 <= count <= cases.len(),
        first_broken(bmp, cases.take(count)) is Some,
    ensures
        first_broken(bmp, cases) == first_broken(bmp, cases.take(count)),
    decreases cases.len() - count,
{
    if count < cases.len() {
        assert(cases.take(count + 1).drop_last() =~= cases.take(count));
        lemma_first_broken_stays(bmp, cases, count + 1);
    } else {
        assert(cases.take(count) =~= cases);
    }
}

/// Generate the special forms of code points from the text of
/// `SpecialCasing.txt`, `bmp` giving the default forms.
///
/// The first line that cannot be read is reported, or else the first rule
/// that the special casings break, and no data is made.
pub fn process_special_casing(text: &[u8], bmp: &BMPInfo) -> (data: Result<
    SpecialCasingData,
    SpecialCasingError,
>)
    requires
        bmp.wf(),
    ensures
        match data {
            Ok(data) => {
                &&& special_cases_of(text@) is Ok
                &&& broken(bmp, special_cases_of(text@)->Ok_0) is None
                &&& data.describes(bmp, special_cases_of(text@)->Ok_0)
            },
            Err(SpecialCasingError::Parse(error)) => special_cases_of(text@) == Err::<
                Seq<SpecialCaseView>,
                ParseError,
            >(error),
            Err(SpecialCasingError::Broken(rule)) => {
                &&& special_cases_of(text@) is Ok
                &&& broken(bmp, special_cases_of(text@)->Ok_0) == Some(rule)
            },
        },
{
    let cases = match read_special_cases(text) {
        Err(error) => {
            return Err(SpecialCasingError::Parse(error));
        },
        Ok(cases) => cases,
    };
    match sort_special_cases(&cases, bmp) {
        Err(rule) => Err(SpecialCasingError::Broken(rule)),
        Ok(data) => Ok(data),
    }
}

} // verus!
