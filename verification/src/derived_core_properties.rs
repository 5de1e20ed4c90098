//! Processes `DerivedCoreProperties.txt` to extract all ID_Start and
//! ID_Continue code points.

use crate::constants::MAX_CODE_POINT;
use crate::text::{
    content_at, content_start, copy_range, find_byte, find_from, has_prefix, has_suffix,
    hex_number, line_at, next_content, next_line_start, parse_hex, read_line, same_bytes, split,
    split_fields, starts_with, ends_with, trim, trimmed, views, ParseError, ParseErrorKind,
    FIELD_BYTE,
};
use std::collections::HashSet;
use vstd::prelude::*;
use vstd::slice::slice_subrange;
use vstd::std_specs::hash::group_hash_axioms;

verus! {

broadcast use group_hash_axioms;

/// The byte `.`, two of which stand between the ends of a range.
pub const RANGE_BYTE: u8 = 0x2E;

/// `ID_Start`, the name of the property of the code points that can start
/// an identifier.
pub const ID_START: [u8; 8] = [0x49, 0x44, 0x5F, 0x53, 0x74, 0x61, 0x72, 0x74];

/// `ID_Continue`, the name of the property of the code points that can
/// stand within an identifier.
pub const ID_CONTINUE: [u8; 11] = [
    0x49,
    0x44,
    0x5F,
    0x43,
    0x6F,
    0x6E,
    0x74,
    0x69,
    0x6E,
    0x75,
    0x65,
];

/// A code point and a property that it has.
#[derive(Clone, Debug)]
pub struct CodePointAndProperty {
    pub code_point: u32,
    pub property: Vec<u8>,
}

/// A run of consecutive code points that have a property.
pub ghost struct PropertyEntry {
    pub first: u32,
    pub last: u32,
    pub property: Seq<u8>,
}

/// The code points that a field names: one code, or two codes with `..`
/// between them, the first of which is not the larger.
pub open spec fn code_range(field: Seq<u8>) -> Result<(u32, u32), ParseErrorKind> {
    let dot = find_from(field, RANGE_BYTE, 0);
    if 0 <= dot < field.len() {
        if dot + 1 < field.len() && field[dot + 1] == RANGE_BYTE {
            match (
                hex_number(field.subrange(0, dot), MAX_CODE_POINT as nat),
                hex_number(field.subrange(dot + 2, field.len() as int), MAX_CODE_POINT as nat),
            ) {
                (Some(first), Some(last)) => if first <= last {
                    Ok((first, last))
                } else {
                    Err(ParseErrorKind::Range)
                },
                _ => Err(ParseErrorKind::Number),
            }
        } else {
            Err(ParseErrorKind::Number)
        }
    } else {
        match hex_number(field, MAX_CODE_POINT as nat) {
            Some(code) => Ok((code, code)),
            None => Err(ParseErrorKind::Number),
        }
    }
}

/// What a line of the derived properties says, `content` being the line
/// without its comment: two fields or more, of which the first names the
/// code points and the second the property.
pub open spec fn property_line(content: Seq<u8>) -> Result<PropertyEntry, ParseErrorKind> {
    let fields = split(content, FIELD_BYTE);
    if fields.len() < 2 {
        Err(ParseErrorKind::FieldCount)
    } else {
        match code_range(trim(fields[0])) {
            Err(kind) => Err(kind),
            Ok((first, last)) => Ok(PropertyEntry { first, last, property: trim(fields[1]) }),
        }
    }
}

/// Read the code points that a field names.
pub fn read_code_range(field: &Vec<u8>) -> (range: Result<(u32, u32), ParseErrorKind>)
    ensures
        range == code_range(field@),
{
    let dot = find_byte(field.as_slice(), RANGE_BYTE, 0);
    if dot < field.len() {
        if dot + 1 < field.len() && field[dot + 1] == RANGE_BYTE {
            let first = parse_hex(&copy_range(field.as_slice(), 0, dot), MAX_CODE_POINT);
            let last = parse_hex(
                &copy_range(field.as_slice(), dot + 2, field.len()),
                MAX_CODE_POINT,
            );
            match (first, last) {
                (Some(first), Some(last)) => if first <= last {
                    Ok((first, last))
                } else {
                    Err(ParseErrorKind::Range)
                },
                _ => Err(ParseErrorKind::Number),
            }
        } else {
            Err(ParseErrorKind::Number)
        }
    } else {
        match parse_hex(field, MAX_CODE_POINT) {
            Some(code) => Ok((code, code)),
            None => Err(ParseErrorKind::Number),
        }
    }
}

/// Read what `text[from..to]` says as a line of the derived properties: the
/// first code point, the last one, and the property.
pub fn read_property_line(text: &[u8], from: usize, to: usize) -> (line: Result<
    (u32, u32, Vec<u8>),
    ParseErrorKind,
>)
    requires
        from <= to <= text.len(),
    ensures
        match line {
            Ok((first, last, property)) => property_line(text@.subrange(from as int, to as int))
                == Ok::<PropertyEntry, ParseErrorKind>(
                PropertyEntry { first, last, property: property@ },
            ),
            Err(kind) => property_line(text@.subrange(from as int, to as int)) == Err::<
                PropertyEntry,
                ParseErrorKind,
            >(kind),
        },
{
    let fields = split_fields(text, from, to, FIELD_BYTE);
    if fields.len() < 2 {
        return Err(ParseErrorKind::FieldCount);
    }
    proof {
        assert(views(fields@)[0] == fields@[0]@);
        assert(views(fields@)[1] == fields@[1]@);
    }
    match read_code_range(&trimmed(&fields[0])) {
        Err(kind) => Err(kind),
        Ok((first, last)) => Ok((first, last, trimmed(&fields[1]))),
    }
}

/// The entry that the derived properties hold at or after `from`, and where
/// reading goes on after it. A line that says nothing is passed over. After
/// an error nothing more is read.
pub open spec fn scan_properties(text: Seq<u8>, from: int) -> (
    Option<Result<PropertyEntry, ParseError>>,
    int,
) {
    let start = content_start(text, from);
    if start >= text.len() {
        (None, text.len() as int)
    } else {
        match property_line(content_at(text, start)) {
            Err(kind) => (
                Some(Err(ParseError { offset: start as usize, kind })),
                text.len() as int,
            ),
            Ok(entry) => (Some(Ok(entry)), next_line_start(text, start)),
        }
    }
}

/// The code points of a range that are yet to be produced, with the
/// property that they have.
pub struct CodePointAndPropertyIter {
    /// The code point of the range that comes next.
    pub next: u32,
    /// The last code point of the range.
    pub last: u32,
    /// The property of each of them.
    pub property: Vec<u8>,
}

impl CodePointAndPropertyIter {
    /// The code points that are left, with their property.
    pub open spec fn left(&self) -> Option<PropertyEntry> {
        if self.next <= self.last {
            Some(PropertyEntry { first: self.next, last: self.last, property: self.property@ })
        } else {
            None
        }
    }

    /// The next code point of the range with its property, or `None` after
    /// the last.
    pub fn next(&mut self) -> (item: Option<CodePointAndProperty>)
        requires
            old(self).last < u32::MAX,
        ensures
            final(self).last == old(self).last,
            final(self).property == old(self).property,
            match old(self).left() {
                Some(entry) => {
                    &&& item is Some
                    &&& item->0.code_point == entry.first
                    &&& item->0.property@ == entry.property
                    &&& final(self).left() == rest_of(entry)
                },
                None => item is None && final(self).left() is None,
            },
    {
        if self.next > self.last {
            return None;
        }
        let code_point = self.next;
        self.next = code_point + 1;
        Some(CodePointAndProperty { code_point, property: self.property.clone() })
    }
}

/// A reader of the contents of `DerivedCoreProperties.txt`.
pub struct DerivedCoreProperties<'a> {
    /// The range whose code points are being produced, if any.
    pub within_range: Option<CodePointAndPropertyIter>,
    /// The whole text.
    pub text: &'a [u8],
    /// Where in the text reading goes on.
    pub position: usize,
}

/// `item` is the first code point of `entry`, with its property.
pub open spec fn yields_first(
    item: Option<Result<CodePointAndProperty, ParseError>>,
    entry: PropertyEntry,
) -> bool {
    match item {
        Some(Ok(found)) => found.code_point == entry.first && found.property@ == entry.property,
        _ => false,
    }
}

/// What is left of `entry` without its first code point.
pub open spec fn rest_of(entry: PropertyEntry) -> Option<PropertyEntry> {
    if entry.first < entry.last {
        Some(PropertyEntry { first: (entry.first + 1) as u32, ..entry })
    } else {
        None
    }
}

impl<'a> DerivedCoreProperties<'a> {
    /// The position is within the text, and a range that is being produced
    /// has a code point left.
    pub open spec fn wf(&self) -> bool {
        &&& self.position <= self.text@.len()
        &&& match self.within_range {
            Some(range) => range.next <= range.last < u32::MAX,
            None => true,
        }
    }

    /// The code points that are left of the range that is being produced.
    pub open spec fn pending(&self) -> Option<PropertyEntry> {
        match self.within_range {
            Some(range) => range.left(),
            None => None,
        }
    }

    /// Produce a reader of the contents of `DerivedCoreProperties.txt`.
    pub fn read(text: &'a [u8]) -> (reader: DerivedCoreProperties<'a>)
        ensures
            reader.wf(),
            reader.text@ == text@,
            reader.position == 0,
            reader.pending() is None,
    {
        DerivedCoreProperties { within_range: None, text, position: 0 }
    }

    /// Yields the next code point with a property that it has: the next one
    /// of the range that is being produced, or else the first one of the
    /// entry that is read next from the text. `None` says that the text is
    /// exhausted.
    pub fn next(&mut self) -> (item: Option<Result<CodePointAndProperty, ParseError>>)
        requires
            old(self).wf(),
        ensures
            final(self).wf(),
            final(self).text == old(self).text,
            match old(self).pending() {
                Some(range) => {
                    &&& final(self).position == old(self).position
                    &&& yields_first(item, range)
                    &&& final(self).pending() == rest_of(range)
                },
                None => {
                    let scanned = scan_properties(old(self).text@, old(self).position as int);
                    &&& final(self).position == scanned.1
                    &&& old(self).position <= final(self).position
                    &&& match scanned.0 {
                        None => item is None && final(self).pending() is None,
                        Some(Err(error)) => item == Some(
                            Err::<CodePointAndProperty, ParseError>(error),
                        ) && final(self).pending() is None,
                        Some(Ok(entry)) => {
                            &&& yields_first(item, entry)
                            &&& final(self).pending() == rest_of(entry)
                            &&& old(self).position < final(self).position
                        },
                    }
                },
            },
    {
        let within_range = self.within_range.take();
        let mut range = match within_range {
            Some(range) => range,
            None => {
                let text = self.text;
                let (start, end, next) = next_content(text, self.position);
                if start >= text.len() {
                    self.position = text.len();
                    return None;
                }
                match read_property_line(text, start, end) {
                    Err(kind) => {
                        self.position = text.len();
                        return Some(Err(ParseError { offset: start, kind }));
                    },
                    Ok((next_code, last, property)) => {
                        self.position = next;
                        CodePointAndPropertyIter { next: next_code, last, property }
                    },
                }
            },
        };
        match range.next() {
            Some(found) => {
                if range.next <= range.last {
                    self.within_range = Some(range);
                }
                Some(Ok(found))
            },
            None => None,
        }
    }
}

/// Computed information about select derived properties of code points.
///
/// A derived property is one that can be indirectly computed from the contents
/// of `UnicodeData.txt`, that for convenience's sake is separately computed and
/// recorded in `DerivedCoreProperties.txt`.
pub struct DerivedCorePropertyData {
    /// The set of all code points in the ID_Start category, denoting code
    /// points that can appear at the start of an identifier.
    ///
    /// Note that as pertains to ECMAScript, U+0024 DOLLAR SIGN ("$") and
    /// U+005F LOW LINE ("_")  may appear at the start of an identifier even
    /// though they're not in the ID_Start category and aren't in this set.
    pub id_start: HashSet<u32>,
    /// The set of all code points in the ID_Continue category, denoting code
    /// points that can appear within an identifier after its initial code
    /// point.
    ///
    /// Note that as pertains to ECMAScript, U+0024 DOLLAR SIGN ("$") may appear
    /// after the start of an identifier even though it's not in the ID_Start
    /// category and isn't in this set.
    pub id_continue: HashSet<u32>,
}

/// The two sets of code points, `sets.0` of those that can start an
/// identifier and `sets.1` of those that can stand within one, with the
/// code points of `entry` added to the one that its property names, and to
/// neither where it names another property.
pub open spec fn with_property(sets: (Set<u32>, Set<u32>), entry: PropertyEntry) -> (
    Set<u32>,
    Set<u32>,
) {
    let added = Set::new(|code: u32| entry.first <= code <= entry.last);
    if entry.property == ID_START@ {
        (sets.0.union(added), sets.1)
    } else if entry.property == ID_CONTINUE@ {
        (sets.0, sets.1.union(added))
    } else {
        sets
    }
}

/// `sets` with the entries added that `text` holds from `from` on, or the
/// error in the first line that cannot be read.
pub open spec fn properties_from(text: Seq<u8>, from: int, sets: (Set<u32>, Set<u32>)) -> Result<
    (Set<u32>, Set<u32>),
    ParseError,
>
    decreases text.len() - from,
{
    let scanned = scan_properties(text, from);
    match scanned.0 {
        None => Ok(sets),
        Some(Err(error)) => Err(error),
        Some(Ok(entry)) => if from < scanned.1 <= text.len() {
            properties_from(text, scanned.1, with_property(sets, entry))
        } else {
            Ok(sets)
        },
    }
}

/// The sets of the code points that `text` gives the properties ID_Start
/// and ID_Continue, or the error in the first line that cannot be read.
pub open spec fn properties_of(text: Seq<u8>) -> Result<(Set<u32>, Set<u32>), ParseError> {
    properties_from(text, 0, (Set::empty(), Set::empty()))
}

/// The sets with the code points added that a reader in this state has yet
/// to produce from the range that it is in.
pub open spec fn with_pending(sets: (Set<u32>, Set<u32>), pending: Option<PropertyEntry>) -> (
    Set<u32>,
    Set<u32>,
) {
    match pending {
        Some(entry) => with_property(sets, entry),
        None => sets,
    }
}

/// How many code points a reader has yet to produce from the range that it
/// is in.
pub open spec fn pending_count(pending: Option<PropertyEntry>) -> int {
    match pending {
        Some(entry) => entry.last - entry.first + 1,
        None => 0,
    }
}

/// Generate sets containing code points within salient categories, from the
/// text of `DerivedCoreProperties.txt`. The first line that cannot be read
/// is reported, and no sets are made.
pub fn process_derived_core_properties(text: &[u8]) -> (data: Result<
    DerivedCorePropertyData,
    ParseError,
>)
    ensures
        match data {
            Ok(data) => properties_of(text@) == Ok::<(Set<u32>, Set<u32>), ParseError>(
                (data.id_start@, data.id_continue@),
            ),
            Err(error) => properties_of(text@) == Err::<(Set<u32>, Set<u32>), ParseError>(error),
        },
{
    let mut id_start: HashSet<u32> = HashSet::new();
    let mut id_continue: HashSet<u32> = HashSet::new();
    let mut reader = DerivedCoreProperties::read(text);
    loop
        invariant
            reader.wf(),
            reader.text@ == text@,
            properties_from(
                text@,
                reader.position as int,
                with_pending((id_start@, id_continue@), reader.pending()),
            ) == properties_of(text@),
        decreases text@.len() - reader.position, pending_count(reader.pending()),
    {
        let ghost before = (id_start@, id_continue@);
        let ghost pending = reader.pending();
        let ghost position = reader.position as int;
        match reader.next() {
            None => {
                return Ok(DerivedCorePropertyData { id_start, id_continue });
            },
            Some(Err(error)) => {
                return Err(error);
            },
            Some(Ok(found)) => {
                if same_bytes(found.property.as_slice(), ID_START.as_slice()) {
                    id_start.insert(found.code_point);
                } else if same_bytes(found.property.as_slice(), ID_CONTINUE.as_slice()) {
                    id_continue.insert(found.code_point);
                }
                proof {
                    let entry = match pending {
                        Some(range) => range,
                        None => scan_properties(text@, position).0->0->Ok_0,
                    };
                    let after = with_pending((id_start@, id_continue@), rest_of(entry));
                    let wanted = with_property(before, entry);
                    assert(after.0 =~= wanted.0);
                    assert(after.1 =~= wanted.1);
                }
            },
        }
    }
}

/// `# DerivedCoreProperties-`, with which the first line of the file starts.
pub const VERSION_PREFIX: [u8; 24] = [
    0x23,
    0x20,
    0x44,
    0x65,
    0x72,
    0x69,
    0x76,
    0x65,
    0x64,
    0x43,
    0x6F,
    0x72,
    0x65,
    0x50,
    0x72,
    0x6F,
    0x70,
    0x65,
    0x72,
    0x74,
    0x69,
    0x65,
    0x73,
    0x2D,
];

/// `.txt`, with which the first line of the file ends.
pub const VERSION_SUFFIX: [u8; 4] = [0x2E, 0x74, 0x78, 0x74];

/// The version that the first line of `text` names: what stands in it
/// between `# DerivedCoreProperties-` and `.txt`.
pub open spec fn version_of(text: Seq<u8>) -> Option<Seq<u8>> {
    let line = line_at(text, 0);
    if text.len() > 0 && line.len() >= 28 && starts_with(line, VERSION_PREFIX@) && ends_with(
        line,
        VERSION_SUFFIX@,
    ) {
        Some(line.subrange(24, line.len() - 4))
    } else {
        None
    }
}

/// Return the Unicode version of `DerivedCoreProperties.txt`, whose first
/// line looks like `# DerivedCoreProperties-13.0.0.txt`, or `None` where
/// the first line does not look like that.
pub fn unicode_version(text: &[u8]) -> (version: Option<&[u8]>)
    ensures
        match version {
            Some(version) => version_of(text@) == Some(version@),
            None => version_of(text@) is None,
        },
{
    if text.len() == 0 {
        return None;
    }
    let (first, last, _next) = read_line(text, 0);
    let line = slice_subrange(text, first, last);
    if line.len() >= 28 && has_prefix(line, VERSION_PREFIX.as_slice()) && has_suffix(
        line,
        VERSION_SUFFIX.as_slice(),
    ) {
        Some(slice_subrange(line, 24, line.len() - 4))
    } else {
        None
    }
}

} // verus!
