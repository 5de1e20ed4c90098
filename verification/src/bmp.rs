//! Various information salient to handling _only_ BMP code points.

use crate::code_point_table::{CodePointInfoView, CodePointTable};
use crate::constants::{
    contains_code, COMPATIBILITY_IDENTIFIER_PART, LINE_TERMINATOR, MAX_BMP, SPACE_SEPARATOR,
    WHITE_SPACE,
};
use crate::derived_core_properties::DerivedCorePropertyData;
use crate::table::{
    index1_of, index2_of, is_best_shift, lemma_bmp_table_splits, recovers, split_table, TableSplit,
};
use crate::text::same_bytes;
use crate::types::{
    lemma_no_flags, Flags, MappedCodePoint, FLAG_SPACE, FLAG_UNICODE_ID_CONTINUE_ONLY,
    FLAG_UNICODE_ID_START,
};
use std::collections::HashMap;
use vstd::prelude::*;
use vstd::std_specs::hash::group_hash_axioms;

verus! {

broadcast use group_hash_axioms;

/// A lightweight typed wrapper around `delta = mapping - code` (with wrapping)
/// for a BMP `code -> mapping` lowercasing or uppercasing operation.
#[derive(Copy, Clone, Debug, Hash, PartialEq, Eq, Structural)]
pub struct CaseDelta(pub u16);

/// For a code point `c`, store relevant information about it.
#[derive(Copy, Clone, Debug, Hash, PartialEq, Eq, Structural)]
pub struct CharacterInfo {
    /// A number `upper_delta` which, when added (with wrapping) to the code
    /// point to which this `CharacterInfo` pertains, produces the uppercase
    /// version of the code point.  (For example, because of the
    /// `U+0061 LATIN SMALL LETTER A -> U+0041 LATIN CAPITAL LETTER A`
    /// uppercasing relationship, for the former code point we will have
    /// `upper_delta = CaseDelta(u16::wrapping_sub(0x41, 0x61))`.)
    pub upper_delta: CaseDelta,
    /// A number `lower_delta` that provides the same functionality as
    /// `upper_delta`, for a transformation to lowercase.  (For example, because
    /// of the `U+0041 LATIN CAPITAL LETTER A -> U+0061 LATIN SMALL LETTER A`
    /// lowercasing relationship, for the former code point we will have
    /// `lower_delta = CaseDelta(0x61 - 0x41)`.
    pub lower_delta: CaseDelta,
    /// Flags pertaining to the associated code point.
    pub flags: Flags,
}

/// The delta that leads from `code` to `target`: their difference modulo
/// `2^16`.
pub open spec fn delta_between(code: u32, target: u32) -> u16 {
    ((target - code) % 0x10000) as u16
}

/// The code that `delta` leads to from `code`: their sum modulo `2^16`.
pub open spec fn shifted(code: u32, delta: u16) -> u32 {
    ((code + delta) % 0x10000) as u32
}

/// Applying the delta between two BMP codes to the first gives the second.
pub proof fn lemma_delta_round_trip(code: u32, target: u32)
    requires
        code <= MAX_BMP,
        target <= MAX_BMP,
    ensures
        shifted(code, delta_between(code, target)) == target,
{
}

impl CharacterInfo {
    /// `CharacterInfo` for a code point whose lowercase and uppercase forms are
    /// the code point itself, with no flags set.
    pub open spec fn spec_all_zeroes() -> CharacterInfo {
        CharacterInfo { lower_delta: CaseDelta(0), upper_delta: CaseDelta(0), flags: Flags(0) }
    }

    /// `CharacterInfo` for a code point whose lowercase and uppercase forms are
    /// the code point itself, with no flags set.
    #[verifier::when_used_as_spec(spec_all_zeroes)]
    pub fn all_zeroes() -> (info: CharacterInfo)
        ensures
            info == Self::spec_all_zeroes(),
    {
        CharacterInfo { lower_delta: CaseDelta(0), upper_delta: CaseDelta(0), flags: Flags(0) }
    }

    /// The uppercase and lowercase forms of the BMP code point `code`, to
    /// which this info pertains, and its flags.
    pub fn apply(&self, code: u32) -> (mapped: MappedCodePoint)
        requires
            code <= MAX_BMP,
        ensures
            mapped.upper == shifted(code, self.upper_delta.0),
            mapped.lower == shifted(code, self.lower_delta.0),
            mapped.flags == self.flags,
    {
        let upper = u16::wrapping_add(code as u16, self.upper_delta.0) as u32;
        let lower = u16::wrapping_add(code as u16, self.lower_delta.0) as u32;
        MappedCodePoint { upper, lower, flags: self.flags }
    }
}

/// Information about various categories and mappings of BMP code points.
///
/// See [`crate::non_bmp`](crate::non_bmp) for non-BMP code point information.
pub struct BMPInfo {
    /// A list of unique `CharacterInfo` values.
    pub table: Vec<CharacterInfo>,
    /// A vector, each element of which is the index in `table` of that code
    /// point's `CharacterInfo`.
    pub index: Vec<u32>,
}

impl BMPInfo {
    /// The table starts with the all-zero record and holds no record twice,
    /// and the index gives for each BMP code point a position in the table.
    pub open spec fn wf(&self) -> bool {
        &&& self.table@.len() > 0
        &&& self.table@[0] == CharacterInfo::all_zeroes()
        &&& self.table@.no_duplicates()
        &&& self.index@.len() == MAX_BMP + 1
        &&& forall|code: int|
            0 <= code <= MAX_BMP ==> (#[trigger] self.index@[code]) < self.table@.len()
    }

    /// The record of the BMP code point `code`.
    pub open spec fn info(&self, code: u32) -> CharacterInfo {
        self.table@[self.index@[code as int] as int]
    }

    /// The index as the smallest two-level page table: the position of the
    /// record of every BMP code point is found again in its two tables.
    pub fn split_index(&self) -> (split: TableSplit)
        requires
            self.wf(),
        ensures
            recovers(self.index@, split.index1@, split.index2@, split.shift),
            is_best_shift(self.index@, split.shift as nat),
            split.index1@ == index1_of(self.index@, split.shift as nat),
            split.index2@ == index2_of(self.index@, split.shift as nat),
    {
        proof {
            lemma_bmp_table_splits();
        }
        split_table(&self.index)
    }
}

/// Whether `bmp` is the info that the registry and the two sets of the
/// derived properties give: its table holds the records in the order of
/// [`table_after`], and its index leads each assigned BMP code point to its
/// record and each unassigned one to the all-zero record.
pub open spec fn describes(
    bmp: &BMPInfo,
    registry: Map<u32, CodePointInfoView>,
    id_start: Set<u32>,
    id_continue: Set<u32>,
) -> bool {
    &&& bmp.wf()
    &&& bmp.table@ == table_after(registry, id_start, id_continue, MAX_BMP as nat + 1)
    &&& forall|code: u32|
        code <= MAX_BMP && registry.contains_key(code) ==> #[trigger] bmp.info(code) == info_of(
            registry[code],
            code,
            id_start,
            id_continue,
        )
    &&& forall|code: u32|
        code <= MAX_BMP && !registry.contains_key(code) ==> #[trigger] bmp.index@[code as int] == 0
}

/// The registry and the derived properties give one info only: making it
/// again gives the same table and the same index.
pub proof fn lemma_described_once(
    a: &BMPInfo,
    b: &BMPInfo,
    registry: Map<u32, CodePointInfoView>,
    id_start: Set<u32>,
    id_continue: Set<u32>,
)
    requires
        describes(a, registry, id_start, id_continue),
        describes(b, registry, id_start, id_continue),
    ensures
        a.table@ == b.table@,
        a.index@ == b.index@,
{
    assert forall|i: int| 0 <= i < a.index@.len() implies a.index@[i] == b.index@[i] by {
        let code = i as u32;
        if registry.contains_key(code) {
            assert(a.info(code) == b.info(code));
            assert(a.index@[code as int] < a.table@.len());
            assert(b.index@[code as int] < b.table@.len());
        } else {
            assert(a.index@[code as int] == 0);
            assert(b.index@[code as int] == 0);
        }
    }
    assert(a.index@ =~= b.index@);
}

/// Whether a code point of category `category` is a spacing character of
/// JavaScript: one of category "Zs", of `WhiteSpace` or of `LineTerminator`.
pub open spec fn is_space(category: Seq<u8>, code: u32) -> bool {
    category == SPACE_SEPARATOR@ || WHITE_SPACE@.contains(code) || LINE_TERMINATOR@.contains(code)
}

/// The flags of an assigned code point.
pub open spec fn flags_of(
    category: Seq<u8>,
    code: u32,
    id_start: Set<u32>,
    id_continue: Set<u32>,
) -> Flags {
    let space: u8 = if is_space(category, code) {
        FLAG_SPACE
    } else {
        0
    };
    let identifier: u8 = if id_start.contains(code) {
        FLAG_UNICODE_ID_START
    } else if id_continue.contains(code) || COMPATIBILITY_IDENTIFIER_PART@.contains(code) {
        FLAG_UNICODE_ID_CONTINUE_ONLY
    } else {
        0
    };
    Flags(space | identifier)
}

/// The record of the code point `code`, of which the registry says `info`.
pub open spec fn info_of(
    info: CodePointInfoView,
    code: u32,
    id_start: Set<u32>,
    id_continue: Set<u32>,
) -> CharacterInfo {
    CharacterInfo {
        upper_delta: CaseDelta(delta_between(code, info.uppercase)),
        lower_delta: CaseDelta(delta_between(code, info.lowercase)),
        flags: flags_of(info.category, code, id_start, id_continue),
    }
}

/// The table of records after the code points below `count` were looked
/// at, the smallest first: it starts with the all-zero record, and the
/// record of each assigned code point is appended unless the table holds
/// it.
pub open spec fn table_after(
    registry: Map<u32, CodePointInfoView>,
    id_start: Set<u32>,
    id_continue: Set<u32>,
    count: nat,
) -> Seq<CharacterInfo>
    decreases count,
{
    if count == 0 {
        seq![CharacterInfo::all_zeroes()]
    } else {
        let before = table_after(registry, id_start, id_continue, (count - 1) as nat);
        let code = (count - 1) as u32;
        if registry.contains_key(code) {
            let item = info_of(registry[code], code, id_start, id_continue);
            if before.contains(item) {
                before
            } else {
                before.push(item)
            }
        } else {
            before
        }
    }
}

/// Whether the registry gives the code point `code` an uppercase or a
/// lowercase form outside the BMP.
pub open spec fn leaves_bmp(registry: Map<u32, CodePointInfoView>, code: u32) -> bool {
    registry.contains_key(code) && (registry[code].uppercase > MAX_BMP || registry[code].lowercase
        > MAX_BMP)
}

/// A BMP code point whose uppercase or lowercase form is no BMP code point.
#[derive(Copy, Clone, Debug, PartialEq, Eq, Structural)]
pub struct CaseOutsideBmp {
    /// The code point.
    pub code: u32,
}

/// The number by which a record is found again: its three parts side by
/// side.
pub open spec fn key_of(item: CharacterInfo) -> u64 {
    (item.upper_delta.0 * 0x1000000 + item.lower_delta.0 * 0x100 + item.flags.0) as u64
}

/// The number by which a record is found again.
fn cache_key(item: &CharacterInfo) -> (key: u64)
    ensures
        key == key_of(*item),
{
    item.upper_delta.0 as u64 * 0x1000000 + item.lower_delta.0 as u64 * 0x100
        + item.flags.0 as u64
}

/// Records with the same key are the same.
proof fn lemma_key_of(a: CharacterInfo, b: CharacterInfo)
    requires
        key_of(a) == key_of(b),
    ensures
        a == b,
{
}

/// The flags of the code point `code` of category `category`.
fn compute_flags(category: &Vec<u8>, code: u32, derived_properties: &DerivedCorePropertyData) -> (flags:
    Flags)
    ensures
        flags == flags_of(
            category@,
            code,
            derived_properties.id_start@,
            derived_properties.id_continue@,
        ),
{
    let mut flags = Flags(0);
    proof {
        assert(1u8 << 0 == 1u8 && 1u8 << 1 == 2u8 && 1u8 << 2 == 4u8) by (bit_vector);
        assert(0u8 | 1u8 == 1u8 && 0u8 | 2u8 == 2u8 && 0u8 | 4u8 == 4u8 && 0u8 | 0u8 == 0u8 && 1u8
            | 0u8 == 1u8) by (bit_vector);
    }
    if same_bytes(category.as_slice(), SPACE_SEPARATOR.as_slice()) || contains_code(
        WHITE_SPACE.as_slice(),
        code,
    ) || contains_code(LINE_TERMINATOR.as_slice(), code) {
        flags.set_space();
    }
    if derived_properties.id_start.contains(&code) {
        flags.set_unicode_id_start();
    } else if derived_properties.id_continue.contains(&code) || contains_code(
        COMPATIBILITY_IDENTIFIER_PART.as_slice(),
        code,
    ) {
        flags.set_unicode_id_continue_only();
    }
    flags
}

/// Flags are made of the three known bits, and the two bits that speak of
/// identifiers are set only for a code point with the property ID_Start,
/// with the property ID_Continue, or of the compatibility set.
pub proof fn lemma_flags_of(category: Seq<u8>, code: u32, id_start: Set<u32>, id_continue: Set<u32>)
    ensures
        ({
            let flags = flags_of(category, code, id_start, id_continue);
            &&& flags.is_space() == is_space(category, code)
            &&& flags.is_unicode_id_start() == id_start.contains(code)
            &&& flags.is_unicode_id_continue_only() == (!id_start.contains(code) && (
            id_continue.contains(code) || COMPATIBILITY_IDENTIFIER_PART@.contains(code)))
            &&& !(flags.is_unicode_id_start() && flags.is_unicode_id_continue_only())
        }),
{
    assert(1u8 << 0 == 1u8 && 1u8 << 1 == 2u8 && 1u8 << 2 == 4u8) by (bit_vector);
    assert(forall|s: u8, i: u8|
        (s == 0 || s == 1) && (i == 0 || i == 2 || i == 4) ==> (((s | i) & 1 != 0) == (s == 1))
            && (((s | i) & 2 != 0) == (i == 2)) && (((s | i) & 4 != 0) == (i == 4)))
        by (bit_vector);
}

/// Generate various information about code points in the base multilingual
/// plane: code points that can be represented in a single UTF-16 code unit.
///
/// The code points are looked at in the order of their codes. The record
/// of each assigned one is stored in the table unless the table holds it
/// already, and its position there is stored in the index. The index of an
/// unassigned code point is 0, which is where the all-zero record stands.
///
/// An assigned BMP code point whose uppercase or lowercase form is no BMP
/// code point has no record: the smallest such code point is reported, and
/// no table is made.
pub fn generate_bmp_info(
    code_point_table: &CodePointTable,
    derived_properties: &DerivedCorePropertyData,
) -> (bmp: Result<BMPInfo, CaseOutsideBmp>)
    ensures
        match bmp {
            Ok(bmp) => {
                let registry = code_point_table@;
                let id_start = derived_properties.id_start@;
                let id_continue = derived_properties.id_continue@;
                &&& forall|code: u32| code <= MAX_BMP ==> !leaves_bmp(registry, code)
                &&& describes(&bmp, registry, id_start, id_continue)
                &&& forall|code: u32|
                    code <= MAX_BMP && registry.contains_key(code) ==> shifted(
                        code,
                        (#[trigger] bmp.info(code)).upper_delta.0,
                    ) == registry[code].uppercase && shifted(code, bmp.info(code).lower_delta.0)
                        == registry[code].lowercase
                &&& forall|code: u32|
                    code <= MAX_BMP && !id_start.contains(code) && !id_continue.contains(code)
                        && !COMPATIBILITY_IDENTIFIER_PART@.contains(code) ==> !(#[trigger] bmp.info(
                        code,
                    )).flags.is_unicode_id_start() && !bmp.info(
                        code,
                    ).flags.is_unicode_id_continue_only()
                &&& forall|code: u32|
                    code <= MAX_BMP ==> !((#[trigger] bmp.info(code)).flags.is_unicode_id_start()
                        && bmp.info(code).flags.is_unicode_id_continue_only())
            },
            Err(error) => {
                &&& error.code <= MAX_BMP
                &&& leaves_bmp(code_point_table@, error.code)
                &&& forall|code: u32| code < error.code ==> !leaves_bmp(code_point_table@, code)
            },
        },
{
    let ghost registry = code_point_table@;
    let ghost id_start = derived_properties.id_start@;
    let ghost id_continue = derived_properties.id_continue@;

    // A list of unique `CharacterInfo` that pertain to some BMP code point.
    //
    // This list must start with `CharacterInfo::all_zeroes()` so that
    // unassigned code points will have that behavior.
    let mut table: Vec<CharacterInfo> = Vec::new();
    table.push(CharacterInfo::all_zeroes());

    // `index[c]` is the index into `table` of the record of code point `c`.
    //
    // Note that because indexes are initially `0`, every code point starts
    // out with the all-zero record.  The loop below overwrites the indexes
    // of the assigned code points.
    let mut index: Vec<u32> = vec![0u32; 0x10000];

    // A map from the key of a `CharacterInfo` to its unique index in `table`.
    let mut cache: HashMap<u64, u32> = HashMap::new();
    cache.insert(cache_key(&CharacterInfo::all_zeroes()), 0);

    proof {
        assert(table@ =~= seq![CharacterInfo::all_zeroes()]);
        lemma_no_flags();
    }

    let mut code: u32 = 0;
    while code <= MAX_BMP
        invariant
            code <= MAX_BMP + 1,
            registry == code_point_table@,
            id_start == derived_properties.id_start@,
            id_continue == derived_properties.id_continue@,
            forall|c: u32| c < code ==> !leaves_bmp(registry, c),
            table@ == table_after(registry, id_start, id_continue, code as nat),
            table@.len() > 0,
            table@.len() <= code + 1,
            table@[0] == CharacterInfo::all_zeroes(),
            table@.no_duplicates(),
            index@.len() == 0x10000,
            forall|c: int| 0 <= c <= MAX_BMP ==> (#[trigger] index@[c]) < table@.len(),
            forall|c: u32|
                c < code && registry.contains_key(c) ==> table@[(#[trigger] index@[c as int]) as int]
                    == info_of(registry[c], c, id_start, id_continue),
            forall|c: u32| c <= MAX_BMP && !registry.contains_key(c) ==> #[trigger] index@[c as int] == 0,
            forall|i: int|
                0 <= i < table@.len() ==> cache@.contains_key(#[trigger] key_of(table@[i]))
                    && cache@[key_of(table@[i])] == i,
            forall|key: u64| #[trigger]
                cache@.contains_key(key) ==> cache@[key] < table@.len() && key_of(
                    table@[cache@[key] as int],
                ) == key,
        decreases MAX_BMP + 1 - code,
    {
        match code_point_table.get(code) {
            None => {},
            Some(code_point) => {
                let uppercase = code_point.uppercase;
                let lowercase = code_point.lowercase;
                if uppercase > MAX_BMP || lowercase > MAX_BMP {
                    return Err(CaseOutsideBmp { code });
                }
                let lower_delta = CaseDelta(u16::wrapping_sub(lowercase as u16, code as u16));
                let upper_delta = CaseDelta(u16::wrapping_sub(uppercase as u16, code as u16));
                let flags = compute_flags(&code_point.category, code, derived_properties);
                let item = CharacterInfo { upper_delta, lower_delta, flags };
                proof {
                    assert(item == info_of(registry[code], code, id_start, id_continue));
                }
                let key = cache_key(&item);
                let ghost before = table@;
                let i = match cache.get(&key) {
                    None => {
                        proof {
                            assert forall|j: int| 0 <= j < table@.len() implies table@[j]
                                != item by {
                                assert(cache@.contains_key(key_of(table@[j])));
                            }
                        }
                        let i = table.len() as u32;
                        cache.insert(key, i);
                        table.push(item);
                        proof {
                            assert forall|j: int| 0 <= j < table@.len() implies cache@.contains_key(
                                #[trigger] key_of(table@[j]),
                            ) && cache@[key_of(table@[j])] == j by {
                                if j < before.len() {
                                    assert(table@[j] == before[j]);
                                    lemma_key_distinct(before[j], item);
                                }
                            }
                        }
                        i
                    },
                    Some(i) => {
                        proof {
                            lemma_key_of(table@[*i as int], item);
                            assert(before.contains(item));
                        }
                        *i
                    },
                };
                let ghost old_index = index@;
                index.set(code as usize, i);
                proof {
                    assert forall|c: u32|
                        c < code + 1 && registry.contains_key(c) implies table@[(
                    #[trigger] index@[c as int]) as int] == info_of(
                        registry[c],
                        c,
                        id_start,
                        id_continue,
                    ) by {
                        if c < code {
                            assert(index@[c as int] == old_index[c as int]);
                            assert(table@[old_index[c as int] as int] == before[old_index[c as int] as int]);
                        }
                    }
                }
            },
        }
        code += 1;
    }
    let bmp = BMPInfo { table, index };
    proof {
        assert forall|c: u32| c <= MAX_BMP && registry.contains_key(c) implies shifted(
            c,
            (#[trigger] bmp.info(c)).upper_delta.0,
        ) == registry[c].uppercase && shifted(c, bmp.info(c).lower_delta.0)
            == registry[c].lowercase by {
            assert(!leaves_bmp(registry, c));
            lemma_delta_round_trip(c, registry[c].uppercase);
            lemma_delta_round_trip(c, registry[c].lowercase);
        }
        assert forall|c: u32|
            c <= MAX_BMP && !id_start.contains(c) && !id_continue.contains(c)
                && !COMPATIBILITY_IDENTIFIER_PART@.contains(c) implies !(#[trigger] bmp.info(
            c,
        )).flags.is_unicode_id_start() && !bmp.info(c).flags.is_unicode_id_continue_only() by {
            if registry.contains_key(c) {
                lemma_flags_of(registry[c].category, c, id_start, id_continue);
            } else {
                assert(bmp.index@[c as int] == 0);
            }
        }
        assert forall|c: u32| c <= MAX_BMP implies !((#[trigger] bmp.info(
            c,
        )).flags.is_unicode_id_start() && bmp.info(c).flags.is_unicode_id_continue_only()) by {
            if registry.contains_key(c) {
                lemma_flags_of(registry[c].category, c, id_start, id_continue);
            } else {
                assert(bmp.index@[c as int] == 0);
            }
        }
    }
    Ok(bmp)
}

/// Different records have different keys.
proof fn lemma_key_distinct(a: CharacterInfo, b: CharacterInfo)
    requires
        a != b,
    ensures
        key_of(a) != key_of(b),
{
}

} // verus!
