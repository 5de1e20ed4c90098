//! Parse the contents of `UnicodeData.txt`, the central code point registry
//! file, into queryable and iterable form.

use crate::constants::MAX_CODE_POINT;
use crate::order::{keys_in_order, strictly_increasing};
use crate::text::{
    content_at, content_start, copy_range, ends_with, has_suffix, hex_number, next_content,
    next_line_start, parse_hex, push_bytes, push_upper_hex, read_content, split, split_fields,
    trim, trimmed, upper_hex, views, ParseError, ParseErrorKind, FIELD_BYTE,
};
use std::collections::BTreeMap;
use vstd::prelude::*;
use vstd::std_specs::btree::group_btree_axioms;
use vstd::utf8::{
    decode_utf8, encode_utf8, encode_utf8_decode_utf8, encode_utf8_valid_utf8, is_ascii_chars,
    is_ascii_chars_encode_utf8, valid_utf8,
};

verus! {

broadcast use group_btree_axioms;

/// Information about a particular code point.
#[derive(Clone, Debug)]
pub struct CodePointInfo {
    /// The name of the code point, e.g. CRAB or PILE OF POO or
    /// LATIN CAPITAL LETTER A.
    pub name: Vec<u8>,
    /// The Unicode category of the code point, in its abbreviated form: for
    /// example, "Zs" rather than "Space_Separator".
    pub category: Vec<u8>,
    /// The alias of the code point, if any.
    ///
    /// For example, U+FEFF ZERO WIDTH NO-BREAK SPACE has BYTE ORDER MARK as its
    /// alias.
    pub alias: Vec<u8>,
    /// The code for the uppercase form of the associated code point.
    ///
    /// If the code point doesn't have an uppercase form, this will be the code
    /// point itself.
    pub uppercase: u32,
    /// The code for the lowercase form of the associated code point.
    ///
    /// If the code point doesn't have a lowercase form, this will be the code
    /// point itself.
    pub lowercase: u32,
}

/// What a [`CodePointInfo`] holds.
pub ghost struct CodePointInfoView {
    pub name: Seq<u8>,
    pub category: Seq<u8>,
    pub alias: Seq<u8>,
    pub uppercase: u32,
    pub lowercase: u32,
}

impl View for CodePointInfo {
    type V = CodePointInfoView;

    open spec fn view(&self) -> CodePointInfoView {
        CodePointInfoView {
            name: self.name@,
            category: self.category@,
            alias: self.alias@,
            uppercase: self.uppercase,
            lowercase: self.lowercase,
        }
    }
}

impl CodePointInfo {
    /// A copy that holds what `self` holds.
    pub fn duplicate(&self) -> (copy: CodePointInfo)
        ensures
            copy@ == self@,
    {
        CodePointInfo {
            name: self.name.clone(),
            category: self.category.clone(),
            alias: self.alias.clone(),
            uppercase: self.uppercase,
            lowercase: self.lowercase,
        }
    }
}

/// Code point info, including its code.
#[derive(Clone, Debug)]
pub struct CodePoint {
    pub code: u32,
    pub info: CodePointInfo,
}

/// What a [`CodePoint`] holds.
pub ghost struct CodePointView {
    pub code: u32,
    pub info: CodePointInfoView,
}

impl View for CodePoint {
    type V = CodePointView;

    open spec fn view(&self) -> CodePointView {
        CodePointView { code: self.code, info: self.info@ }
    }
}

/// The code that a case field names: the code point itself where the field
/// is empty.
pub open spec fn case_target(field: Seq<u8>, code: u32) -> Option<u32> {
    if field.len() == 0 {
        Some(code)
    } else {
        hex_number(field, MAX_CODE_POINT as nat)
    }
}

/// What a line of the registry says, `content` being the line without its
/// comment: fifteen fields, of which the first is the code, the second the
/// name, the third the category, the eleventh the alias, the thirteenth the
/// uppercase form and the fourteenth the lowercase form.
pub open spec fn registry_line(content: Seq<u8>) -> Result<CodePointView, ParseErrorKind> {
    let fields = split(content, FIELD_BYTE);
    if fields.len() != 15 {
        Err(ParseErrorKind::FieldCount)
    } else {
        match hex_number(trim(fields[0]), MAX_CODE_POINT as nat) {
            None => Err(ParseErrorKind::Number),
            Some(code) => match (
                case_target(trim(fields[12]), code),
                case_target(trim(fields[13]), code),
            ) {
                (Some(uppercase), Some(lowercase)) => Ok(
                    CodePointView {
                        code,
                        info: CodePointInfoView {
                            name: trim(fields[1]),
                            category: trim(fields[2]),
                            alias: trim(fields[10]),
                            uppercase,
                            lowercase,
                        },
                    },
                ),
                _ => Err(ParseErrorKind::Number),
            },
        }
    }
}

/// Read a case field: the code point itself where the field is empty.
fn read_case_target(field: &Vec<u8>, code: u32) -> (target: Option<u32>)
    ensures
        target == case_target(field@, code),
{
    if field.len() == 0 {
        Some(code)
    } else {
        parse_hex(field, MAX_CODE_POINT)
    }
}

/// Read what `text[from..to]` says as a line of the registry.
pub fn read_registry_line(text: &[u8], from: usize, to: usize) -> (line: Result<
    CodePoint,
    ParseErrorKind,
>)
    requires
        from <= to <= text.len(),
    ensures
        match line {
            Ok(code_point) => registry_line(text@.subrange(from as int, to as int)) == Ok::<
                CodePointView,
                ParseErrorKind,
            >(code_point@),
            Err(kind) => registry_line(text@.subrange(from as int, to as int)) == Err::<
                CodePointView,
                ParseErrorKind,
            >(kind),
        },
{
    let fields = split_fields(text, from, to, FIELD_BYTE);
    if fields.len() != 15 {
        return Err(ParseErrorKind::FieldCount);
    }
    proof {
        let all = split(text@.subrange(from as int, to as int), FIELD_BYTE);
        assert forall|i: int| 0 <= i < 15 implies fields@[i]@ == all[i] by {
            assert(views(fields@)[i] == fields@[i]@);
        }
    }
    let code = match parse_hex(&trimmed(&fields[0]), MAX_CODE_POINT) {
        None => {
            return Err(ParseErrorKind::Number);
        },
        Some(code) => code,
    };
    let uppercase = read_case_target(&trimmed(&fields[12]), code);
    let lowercase = read_case_target(&trimmed(&fields[13]), code);
    match (uppercase, lowercase) {
        (Some(uppercase), Some(lowercase)) => Ok(
            CodePoint {
                code,
                info: CodePointInfo {
                    name: trimmed(&fields[1]),
                    category: trimmed(&fields[2]),
                    alias: trimmed(&fields[10]),
                    uppercase,
                    lowercase,
                },
            },
        ),
        _ => Err(ParseErrorKind::Number),
    }
}

/// The byte `<`, with which the name of a line that opens a range starts.
pub const RANGE_OPEN_BYTE: u8 = 0x3C;

/// `First>`, with which the name of a line that opens a range ends.
pub const RANGE_FIRST: [u8; 6] = [0x46, 0x69, 0x72, 0x73, 0x74, 0x3E];

/// `, First>`, which is taken from the name of a line that opens a range.
pub const RANGE_FIRST_TAIL: [u8; 8] = [0x2C, 0x20, 0x46, 0x69, 0x72, 0x73, 0x74, 0x3E];

/// `Last>`, with which the name of a line that closes a range ends.
pub const RANGE_LAST: [u8; 5] = [0x4C, 0x61, 0x73, 0x74, 0x3E];

/// Whether a line with this name opens a range of code points: the name
/// begins with `<` and ends with `First>`.
pub open spec fn opens_range(name: Seq<u8>) -> bool {
    name.len() > 0 && name[0] == RANGE_OPEN_BYTE && ends_with(name, RANGE_FIRST@)
}

/// The name of the code points of a range, from the name of the line that
/// opens it: what stands between `<` and `, First>`.
pub open spec fn range_name(name: Seq<u8>) -> Seq<u8> {
    name.subrange(1, name.len() - 8)
}

/// A run of consecutive code points that share all aspects except for
/// code. A line of the registry that opens no range stands for a run of one.
pub ghost struct Entry {
    pub first: u32,
    pub last: u32,
    /// What holds of each code point of the run, but for its case forms
    /// where the next two fields say so.
    pub info: CodePointInfoView,
    /// Whether each code point of the run is its own uppercase form.
    pub upper_is_self: bool,
    /// Whether each code point of the run is its own lowercase form.
    pub lower_is_self: bool,
}

/// What an entry says of its code point `code`.
pub open spec fn info_at(entry: Entry, code: u32) -> CodePointInfoView {
    CodePointInfoView {
        uppercase: if entry.upper_is_self {
            code
        } else {
            entry.info.uppercase
        },
        lowercase: if entry.lower_is_self {
            code
        } else {
            entry.info.lowercase
        },
        ..entry.info
    }
}

/// The entry that the registry holds at or after `from`, and where reading
/// goes on after it. A line that says nothing is passed over. A line that
/// opens a range is read together with the very next line, which has to
/// close the range; where that line gives its code point itself as a case
/// form, each code point of the range is its own form in that case. After
/// an error nothing more is read.
pub open spec fn scan_registry(text: Seq<u8>, from: int) -> (
    Option<Result<Entry, ParseError>>,
    int,
) {
    let start = content_start(text, from);
    let next = next_line_start(text, start);
    let end = text.len() as int;
    if start >= text.len() {
        (None, end)
    } else {
        match registry_line(content_at(text, start)) {
            Err(kind) => (Some(Err(ParseError { offset: start as usize, kind })), end),
            Ok(first) => if !opens_range(first.info.name) {
                (
                    Some(
                        Ok(
                            Entry {
                                first: first.code,
                                last: first.code,
                                info: first.info,
                                upper_is_self: false,
                                lower_is_self: false,
                            },
                        ),
                    ),
                    next,
                )
            } else if !ends_with(first.info.name, RANGE_FIRST_TAIL@) || next >= text.len() {
                (
                    Some(Err(ParseError { offset: start as usize, kind: ParseErrorKind::Range })),
                    end,
                )
            } else {
                match registry_line(content_at(text, next)) {
                    Err(kind) => (Some(Err(ParseError { offset: next as usize, kind })), end),
                    Ok(last) => if !ends_with(last.info.name, RANGE_LAST@) || last.code
                        < first.code {
                        (
                            Some(
                                Err(
                                    ParseError {
                                        offset: next as usize,
                                        kind: ParseErrorKind::Range,
                                    },
                                ),
                            ),
                            end,
                        )
                    } else {
                        (
                            Some(
                                Ok(
                                    Entry {
                                        first: first.code,
                                        last: last.code,
                                        info: CodePointInfoView {
                                            name: range_name(first.info.name),
                                            ..first.info
                                        },
                                        upper_is_self: first.info.uppercase == first.code,
                                        lower_is_self: first.info.lowercase == first.code,
                                    },
                                ),
                            ),
                            next_line_start(text, next),
                        )
                    },
                }
            },
        }
    }
}

/// Code points within a range, that share all aspects except for code.
pub struct CodePointRange {
    /// The code point of the range that comes next.
    pub next: u32,
    /// The last code point of the range.
    pub last: u32,
    /// What holds of each of them, but for its case forms where the next
    /// two fields say so.
    pub info: CodePointInfo,
    /// Whether each of them is its own uppercase form.
    pub upper_is_self: bool,
    /// Whether each of them is its own lowercase form.
    pub lower_is_self: bool,
}

impl View for CodePointRange {
    type V = Entry;

    open spec fn view(&self) -> Entry {
        Entry {
            first: self.next,
            last: self.last,
            info: self.info@,
            upper_is_self: self.upper_is_self,
            lower_is_self: self.lower_is_self,
        }
    }
}

/// A structure representing parse state during a parse of the contents of
/// `UnicodeData.txt`.
pub struct UnicodeDataParse<'a> {
    /// The range whose code points are being produced, if any.
    pub within_range: Option<CodePointRange>,
    /// The whole text.
    pub text: &'a [u8],
    /// Where in the text reading goes on.
    pub position: usize,
}

impl<'a> UnicodeDataParse<'a> {
    /// The position is within the text, and a range that is being produced
    /// has a code point left.
    pub open spec fn wf(&self) -> bool {
        &&& self.position <= self.text@.len()
        &&& match self.within_range {
            Some(range) => range.next <= range.last,
            None => true,
        }
    }

    /// The code points that are left of the range that is being produced.
    pub open spec fn pending(&self) -> Option<Entry> {
        match self.within_range {
            Some(range) => Some(range@),
            None => None,
        }
    }

    /// Produce a reader of the structured contents of `UnicodeData.txt`.
    pub fn parse(text: &'a [u8]) -> (reader: UnicodeDataParse<'a>)
        ensures
            reader.wf(),
            reader.text@ == text@,
            reader.position == 0,
            reader.pending() is None,
    {
        UnicodeDataParse { within_range: None, text, position: 0 }
    }

    /// Read the entry at or after the position, and move the position past
    /// it.
    fn scan(&mut self) -> (entry: Option<Result<CodePointRange, ParseError>>)
        requires
            old(self).position <= old(self).text@.len(),
        ensures
            final(self).text == old(self).text,
            final(self).within_range == old(self).within_range,
            final(self).position == scan_registry(old(self).text@, old(self).position as int).1,
            old(self).position <= final(self).position <= old(self).text@.len(),
            match entry {
                None => scan_registry(old(self).text@, old(self).position as int).0 is None,
                Some(Err(error)) => scan_registry(old(self).text@, old(self).position as int).0
                    == Some(Err::<Entry, ParseError>(error)),
                Some(Ok(range)) => {
                    &&& scan_registry(old(self).text@, old(self).position as int).0 == Some(
                        Ok::<Entry, ParseError>(range@),
                    )
                    &&& range.next <= range.last
                    &&& old(self).position < final(self).position
                },
            },
    {
        let text = self.text;
        let (start, end, next) = next_content(text, self.position);
        if start >= text.len() {
            self.position = text.len();
            return None;
        }
        let first = match read_registry_line(text, start, end) {
            Err(kind) => {
                self.position = text.len();
                return Some(Err(ParseError { offset: start, kind }));
            },
            Ok(first) => first,
        };
        // A consecutive code point pair may represent a range of code
        // points, for example
        //
        //   D800;<Non Private Use High Surrogate, First>;Cs;0;L;;;;;N;;;;;
        //   DB7F;<Non Private Use High Surrogate, Last>;Cs;0;L;;;;;N;;;;;
        let opens = first.info.name.len() > 0 && first.info.name[0] == RANGE_OPEN_BYTE
            && has_suffix(first.info.name.as_slice(), RANGE_FIRST.as_slice());
        if !opens {
            self.position = next;
            return Some(
                Ok(
                    CodePointRange {
                        next: first.code,
                        last: first.code,
                        info: first.info,
                        upper_is_self: false,
                        lower_is_self: false,
                    },
                ),
            );
        }
        if !has_suffix(first.info.name.as_slice(), RANGE_FIRST_TAIL.as_slice()) || next
            >= text.len() {
            self.position = text.len();
            return Some(Err(ParseError { offset: start, kind: ParseErrorKind::Range }));
        }
        let (last_start, last_end, after) = read_content(text, next);
        let last = match read_registry_line(text, last_start, last_end) {
            Err(kind) => {
                self.position = text.len();
                return Some(Err(ParseError { offset: next, kind }));
            },
            Ok(last) => last,
        };
        if !has_suffix(last.info.name.as_slice(), RANGE_LAST.as_slice()) || last.code
            < first.code {
            self.position = text.len();
            return Some(Err(ParseError { offset: next, kind: ParseErrorKind::Range }));
        }
        // Remove "<" and ", First>" to extract the general name of all code
        // points in the range.
        let name = copy_range(first.info.name.as_slice(), 1, first.info.name.len() - 8);
        let info = CodePointInfo {
            name,
            category: first.info.category,
            alias: first.info.alias,
            uppercase: first.info.uppercase,
            lowercase: first.info.lowercase,
        };
        self.position = after;
        Some(
            Ok(
                CodePointRange {
                    next: first.code,
                    last: last.code,
                    info,
                    upper_is_self: first.info.uppercase == first.code,
                    lower_is_self: first.info.lowercase == first.code,
                },
            ),
        )
    }

    /// Yields information about the next code point described in
    /// `UnicodeData.txt`: the next one of the range that is being produced,
    /// or else the first one of the entry that is read next from the text.
    /// `None` says that the text is exhausted.
    pub fn next(&mut self) -> (item: Option<Result<CodePoint, ParseError>>)
        requires
            old(self).wf(),
        ensures
            final(self).wf(),
            final(self).text == old(self).text,
            match old(self).pending() {
                Some(range) => {
                    &&& final(self).position == old(self).position
                    &&& yields_first(item, range)
                    &&& final(self).pending() == rest_of(range)
                },
                None => {
                    let scanned = scan_registry(old(self).text@, old(self).position as int);
                    &&& final(self).position == scanned.1
                    &&& old(self).position <= final(self).position
                    &&& match scanned.0 {
                        None => item is None && final(self).pending() is None,
                        Some(Err(error)) => item == Some(Err::<CodePoint, ParseError>(error))
                            && final(self).pending() is None,
                        Some(Ok(entry)) => {
                            &&& yields_first(item, entry)
                            &&& final(self).pending() == rest_of(entry)
                            &&& old(self).position < final(self).position
                        },
                    }
                },
            },
    {
        // First handle any remaining iteration within a code point range.
        let within_range = self.within_range.take();
        let range = match within_range {
            Some(range) => range,
            None => {
                // Then go on with the remaining lines of the text.
                match self.scan() {
                    None => {
                        return None;
                    },
                    Some(Err(error)) => {
                        return Some(Err(error));
                    },
                    Some(Ok(range)) => range,
                }
            },
        };
        let code = range.next;
        let mut info = range.info.duplicate();
        if range.upper_is_self {
            info.uppercase = code;
        }
        if range.lower_is_self {
            info.lowercase = code;
        }
        if code < range.last {
            self.within_range =
            Some(
                CodePointRange {
                    next: code + 1,
                    last: range.last,
                    info: range.info,
                    upper_is_self: range.upper_is_self,
                    lower_is_self: range.lower_is_self,
                },
            );
        }
        Some(Ok(CodePoint { code, info }))
    }
}

/// `item` is the first code point of `entry`.
pub open spec fn yields_first(item: Option<Result<CodePoint, ParseError>>, entry: Entry) -> bool {
    match item {
        Some(Ok(code_point)) => code_point@ == CodePointView {
            code: entry.first,
            info: info_at(entry, entry.first),
        },
        _ => false,
    }
}

/// What is left of `entry` without its first code point.
pub open spec fn rest_of(entry: Entry) -> Option<Entry> {
    if entry.first < entry.last {
        Some(Entry { first: (entry.first + 1) as u32, ..entry })
    } else {
        None
    }
}

/// The registry `registry` with the code points of `entry` added, each with
/// what the entry says of it. What `registry` said of them before is lost.
pub open spec fn with_entry(
    registry: Map<u32, CodePointInfoView>,
    entry: Entry,
) -> Map<u32, CodePointInfoView> {
    Map::new(
        |code: u32| registry.contains_key(code) || entry.first <= code <= entry.last,
        |code: u32|
            if entry.first <= code <= entry.last {
                info_at(entry, code)
            } else {
                registry[code]
            },
    )
}

/// `registry` with the entries added that `text` holds from `from` on, or
/// the error in the first line that cannot be read.
pub open spec fn registry_from(
    text: Seq<u8>,
    from: int,
    registry: Map<u32, CodePointInfoView>,
) -> Result<Map<u32, CodePointInfoView>, ParseError>
    decreases text.len() - from,
{
    let scanned = scan_registry(text, from);
    match scanned.0 {
        None => Ok(registry),
        Some(Err(error)) => Err(error),
        Some(Ok(entry)) => if from < scanned.1 <= text.len() {
            registry_from(text, scanned.1, with_entry(registry, entry))
        } else {
            Ok(registry)
        },
    }
}

/// The registry that `text` describes, or the error in the first line that
/// cannot be read.
pub open spec fn registry_of(text: Seq<u8>) -> Result<Map<u32, CodePointInfoView>, ParseError> {
    registry_from(text, 0, Map::empty())
}

/// What a map of code point infos holds.
pub open spec fn info_views(map: Map<u32, CodePointInfo>) -> Map<u32, CodePointInfoView> {
    Map::new(|code: u32| map.contains_key(code), |code: u32| map[code]@)
}

/// ` (`, which stands before an alias.
pub const ALIAS_OPEN: [u8; 2] = [0x20, 0x28];

/// `)`, which stands after an alias.
pub const ALIAS_CLOSE: [u8; 1] = [0x29];

/// `U+`, which stands before a code.
pub const CODE_PREFIX: [u8; 2] = [0x55, 0x2B];

/// The name of a code point and, in brackets, its alias where it has one.
pub open spec fn display_name(info: CodePointInfoView) -> Seq<u8> {
    if info.alias.len() == 0 {
        info.name
    } else {
        info.name + ALIAS_OPEN@ + info.alias + ALIAS_CLOSE@
    }
}

/// `U+`, the code in upper-case hexadecimal digits, four of them or more, a
/// space, and the name with the alias.
pub open spec fn display_full_name(code: u32, info: CodePointInfoView) -> Seq<u8> {
    CODE_PREFIX@ + upper_hex(code as nat, 4) + seq![0x20u8] + display_name(info)
}

/// The text that [`String::from_utf8_lossy`] makes of `bytes`.
pub uninterp spec fn lossy_text(bytes: Seq<u8>) -> Seq<char>;

/// The text that `bytes` hold. This is `String::from_utf8_lossy` of std, and
/// nothing is proved of it here. Its result is the text that
/// [`lossy_text`] names; of bytes that are valid UTF-8 it is the text that
/// they encode.
#[verifier::external_body]
fn text_from_bytes(bytes: &[u8]) -> (text: String)
    ensures
        text@ == lossy_text(bytes@),
        valid_utf8(bytes@) ==> text@ == decode_utf8(bytes@),
{
    String::from_utf8_lossy(bytes).into_owned()
}

/// The characters that ASCII bytes stand for, one for each byte.
pub open spec fn ascii_text(bytes: Seq<u8>) -> Seq<char> {
    Seq::new(bytes.len(), |i: int| bytes[i] as char)
}

/// Bytes that are all ASCII are valid UTF-8, and the text that they encode
/// has one character for each byte.
pub proof fn lemma_ascii_text(bytes: Seq<u8>)
    requires
        forall|i: int| 0 <= i < bytes.len() ==> bytes[i] < 128,
    ensures
        valid_utf8(bytes),
        decode_utf8(bytes) == ascii_text(bytes),
{
    let chars = ascii_text(bytes);
    assert(is_ascii_chars(chars));
    is_ascii_chars_encode_utf8(chars);
    assert forall|i: int| 0 <= i < bytes.len() implies encode_utf8(chars)[i] == bytes[i] by {
        assert(chars[i] as u8 == encode_utf8(chars)[i]);
    }
    assert(encode_utf8(chars) =~= bytes);
    encode_utf8_valid_utf8(chars);
    encode_utf8_decode_utf8(chars);
}

/// A table containing information on every code point.
///
/// Information about individual code points may be accessed by passing the code
/// point's code to the various query functions defined here.
///
/// Information about all code points may be accessed using
/// [`iter()`](CodePointTable::iter).
pub struct CodePointTable {
    map: BTreeMap<u32, CodePointInfo>,
}

impl View for CodePointTable {
    type V = Map<u32, CodePointInfoView>;

    closed spec fn view(&self) -> Map<u32, CodePointInfoView> {
        info_views(self.map@)
    }
}

/// An iterator over the code points in a `CodePointTable`, in the order of
/// their codes.
pub struct CodePointTableIter<'a> {
    /// The table whose code points are produced.
    pub table: &'a CodePointTable,
    /// The codes of the table, each once, the smallest first.
    pub codes: Vec<u32>,
    /// How many of them were produced.
    pub position: usize,
}

impl<'a> CodePointTableIter<'a> {
    /// The codes are those of the table, each once and in their order, and
    /// the position is among them or behind the last.
    pub open spec fn wf(&self) -> bool {
        &&& self.position <= self.codes@.len()
        &&& self.codes@.to_set() == self.table@.dom()
        &&& strictly_increasing(self.codes@)
    }

    /// The next code point and its info, or `None` after the last.
    pub fn next(&mut self) -> (item: Option<(u32, &'a CodePointInfo)>)
        requires
            old(self).wf(),
        ensures
            final(self).wf(),
            final(self).table == old(self).table,
            final(self).codes == old(self).codes,
            match item {
                Some((code, info)) => {
                    &&& old(self).position < old(self).codes@.len()
                    &&& final(self).position == old(self).position + 1
                    &&& code == old(self).codes@[old(self).position as int]
                    &&& old(self).table@.contains_key(code)
                    &&& info@ == old(self).table@[code]
                },
                None => {
                    &&& old(self).position == old(self).codes@.len()
                    &&& final(self).position == old(self).position
                },
            },
    {
        if self.position >= self.codes.len() {
            return None;
        }
        let code = self.codes[self.position];
        let table: &'a CodePointTable = self.table;
        proof {
            assert(self.codes@.to_set().contains(code));
        }
        self.position += 1;
        match table.get(code) {
            Some(info) => Some((code, info)),
            None => None,
        }
    }
}

impl CodePointTable {
    /// What the table says of `code`, if it holds it.
    pub fn get(&self, code: u32) -> (info: Option<&CodePointInfo>)
        ensures
            match info {
                Some(info) => self@.contains_key(code) && self@[code] == info@,
                None => !self@.contains_key(code),
            },
    {
        self.map.get(&code)
    }

    /// Return the bytes of the code point's name and (if it has one) of its
    /// alias in brackets.
    pub fn name_bytes(&self, code: u32) -> (name: Vec<u8>)
        requires
            self@.contains_key(code),
        ensures
            name@ == display_name(self@[code]),
    {
        let mut out: Vec<u8> = Vec::new();
        match self.get(code) {
            Some(info) => {
                push_bytes(&mut out, info.name.as_slice());
                if info.alias.len() > 0 {
                    push_bytes(&mut out, ALIAS_OPEN.as_slice());
                    push_bytes(&mut out, info.alias.as_slice());
                    push_bytes(&mut out, ALIAS_CLOSE.as_slice());
                }
            },
            None => {},
        }
        out
    }

    /// Return the bytes of the code point's code, its name, and (if it has
    /// one) its alias.
    pub fn full_name_bytes(&self, code: u32) -> (name: Vec<u8>)
        requires
            self@.contains_key(code),
        ensures
            name@ == display_full_name(code, self@[code]),
    {
        let mut out: Vec<u8> = Vec::new();
        push_bytes(&mut out, CODE_PREFIX.as_slice());
        push_upper_hex(&mut out, code, 4);
        out.push(0x20);
        let name = self.name_bytes(code);
        push_bytes(&mut out, name.as_slice());
        out
    }

    /// Return a string containing the code point's name and (if it has one) its
    /// alias: `LATIN CAPITAL LETTER A`, or
    /// `ZERO WIDTH NO-BREAK SPACE (BYTE ORDER MARK)`.
    pub fn name(&self, code: u32) -> (name: String)
        requires
            self@.contains_key(code),
        ensures
            name@ == lossy_text(display_name(self@[code])),
            valid_utf8(display_name(self@[code])) ==> name@ == decode_utf8(
                display_name(self@[code]),
            ),
    {
        let bytes = self.name_bytes(code);
        text_from_bytes(bytes.as_slice())
    }

    /// Return a string containing the code point's code, its name, and (if it
    /// has one) its alias: `U+0041 LATIN CAPITAL LETTER A`, or
    /// `U+FEFF ZERO WIDTH NO-BREAK SPACE (BYTE ORDER MARK)`.
    pub fn full_name(&self, code: u32) -> (name: String)
        requires
            self@.contains_key(code),
        ensures
            name@ == lossy_text(display_full_name(code, self@[code])),
            valid_utf8(display_full_name(code, self@[code])) ==> name@ == decode_utf8(
                display_full_name(code, self@[code]),
            ),
    {
        let bytes = self.full_name_bytes(code);
        text_from_bytes(bytes.as_slice())
    }

    /// Return an iterator over all code points and their info in this table.
    pub fn iter(&self) -> (iter: CodePointTableIter<'_>)
        ensures
            iter.wf(),
            iter.table == self,
            iter.position == 0,
    {
        let codes = keys_in_order(&self.map);
        proof {
            assert(self@.dom() =~= self.map@.dom());
        }
        CodePointTableIter { table: self, codes, position: 0 }
    }
}

/// The registry with the code points added that a reader in this state has
/// yet to produce from the range that it is in.
pub open spec fn with_pending(
    registry: Map<u32, CodePointInfoView>,
    pending: Option<Entry>,
) -> Map<u32, CodePointInfoView> {
    match pending {
        Some(entry) => with_entry(registry, entry),
        None => registry,
    }
}

/// How many code points a reader has yet to produce from the range that it
/// is in.
pub open spec fn pending_count(pending: Option<Entry>) -> int {
    match pending {
        Some(entry) => entry.last - entry.first + 1,
        None => 0,
    }
}

/// Generate a table of all code points, mapping code to characteristics,
/// from the text of `UnicodeData.txt`. Where two lines speak of one code
/// point, the later one counts. The first line that cannot be read is
/// reported, and no table is made.
pub fn generate_code_point_table(text: &[u8]) -> (table: Result<CodePointTable, ParseError>)
    ensures
        match table {
            Ok(table) => registry_of(text@) == Ok::<Map<u32, CodePointInfoView>, ParseError>(
                table@,
            ),
            Err(error) => registry_of(text@) == Err::<Map<u32, CodePointInfoView>, ParseError>(
                error,
            ),
        },
{
    let mut code_point_map: BTreeMap<u32, CodePointInfo> = BTreeMap::new();
    let mut reader = UnicodeDataParse::parse(text);
    proof {
        assert(info_views(code_point_map@) =~= Map::empty());
    }
    loop
        invariant
            reader.wf(),
            reader.text@ == text@,
            registry_from(
                text@,
                reader.position as int,
                with_pending(info_views(code_point_map@), reader.pending()),
            ) == registry_of(text@),
        decreases text@.len() - reader.position, pending_count(reader.pending()),
    {
        let ghost before = info_views(code_point_map@);
        let ghost pending = reader.pending();
        let ghost position = reader.position as int;
        match reader.next() {
            None => {
                return Ok(CodePointTable { map: code_point_map });
            },
            Some(Err(error)) => {
                return Err(error);
            },
            Some(Ok(code_point)) => {
                code_point_map.insert(code_point.code, code_point.info);
                proof {
                    let entry = match pending {
                        Some(range) => range,
                        None => scan_registry(text@, position).0->0->Ok_0,
                    };
                    assert(with_pending(info_views(code_point_map@), rest_of(entry)) =~= with_entry(
                        before,
                        entry,
                    ));
                }
            },
        }
    }
}

} // verus!
