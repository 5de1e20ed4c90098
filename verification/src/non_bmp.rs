//! Various information salient to handling _only_ non-BMP code points.

use crate::code_point_table::{CodePointInfoView, CodePointTable};
use crate::constants::{MAX_BMP, SPACE_SEPARATOR};
use crate::derived_core_properties::DerivedCorePropertyData;
use crate::order::lemma_push_contains;
use crate::text::same_bytes;
use crate::types::{CaseMap, CodePointSet};
use vstd::prelude::*;
use vstd::std_specs::hash::group_hash_axioms;

verus! {

broadcast use group_hash_axioms;

/// Information about various non-BMP code points.
pub struct NonBMPInfo {
    /// A mapping of every non-BMP code point to its lowercase form, *when the
    /// lowercase form is different*.  (Identity mappings are not included.)
    pub lowercase_map: CaseMap,
    /// A mapping of every non-BMP code point to its uppercase form, *when the
    /// uppercase form is different*.  (Identity mappings are not included.)
    pub uppercase_map: CaseMap,
    /// The set of all non-BMP code points in the Zs category.
    pub space_set: CodePointSet,
    /// The set of all non-BMP code points in the ID_Start derived category,
    /// which is to say code points that may appear at the start of an
    /// identifier.
    pub id_start_set: CodePointSet,
    /// The set of all non-BMP code points in the ID_Continue derived category,
    /// which is to say code points that may appear within an identifier after
    /// its start.
    pub id_continue_set: CodePointSet,
}

/// What a non-BMP code point must not be.
#[derive(Copy, Clone, PartialEq, Eq, Debug, Structural)]
pub enum NonBmpRule {
    /// A non-BMP code point has a BMP code point as its uppercase or
    /// lowercase form.
    CaseInsideBmp,
    /// A non-BMP code point is of category "Zs".
    Space,
}

/// A non-BMP code point that is what it must not be.
#[derive(Copy, Clone, PartialEq, Eq, Debug, Structural)]
pub struct NonBmpError {
    /// The code point.
    pub code: u32,
    /// What it is.
    pub rule: NonBmpRule,
}

/// Whether the registry holds the non-BMP code point `code`.
pub open spec fn is_registered(registry: Map<u32, CodePointInfoView>, code: u32) -> bool {
    code > MAX_BMP && registry.contains_key(code)
}

/// Whether a code point has a BMP code point as its uppercase or lowercase
/// form without being that code point.
pub open spec fn case_inside_bmp(info: CodePointInfoView, code: u32) -> bool {
    (info.lowercase != code && info.lowercase <= MAX_BMP) || (info.uppercase != code
        && info.uppercase <= MAX_BMP)
}

/// What the non-BMP code point `code` is that it must not be, if anything.
pub open spec fn breaks(registry: Map<u32, CodePointInfoView>, code: u32) -> Option<NonBmpRule> {
    if !is_registered(registry, code) {
        None
    } else if case_inside_bmp(registry[code], code) {
        Some(NonBmpRule::CaseInsideBmp)
    } else if registry[code].category == SPACE_SEPARATOR@ {
        Some(NonBmpRule::Space)
    } else {
        None
    }
}

impl NonBMPInfo {
    /// The info holds the code points of `head` that the registry holds
    /// outside the BMP: in the two maps those that have a lowercase or an
    /// uppercase form other than themselves, and in the two sets those that
    /// are in `id_start` or in `id_continue`.
    pub open spec fn describes_among(
        &self,
        head: Seq<u32>,
        registry: Map<u32, CodePointInfoView>,
        id_start: Set<u32>,
        id_continue: Set<u32>,
    ) -> bool {
        &&& forall|code: u32| #[trigger]
            self.lowercase_map@.contains_key(code) <==> head.contains(code) && is_registered(
                registry,
                code,
            ) && registry[code].lowercase != code
        &&& forall|code: u32| #[trigger]
            self.lowercase_map@.contains_key(code) ==> self.lowercase_map@[code]
                == registry[code].lowercase
        &&& forall|code: u32| #[trigger]
            self.uppercase_map@.contains_key(code) <==> head.contains(code) && is_registered(
                registry,
                code,
            ) && registry[code].uppercase != code
        &&& forall|code: u32| #[trigger]
            self.uppercase_map@.contains_key(code) ==> self.uppercase_map@[code]
                == registry[code].uppercase
        &&& self.space_set@ == Set::<u32>::empty()
        &&& forall|code: u32| #[trigger]
            self.id_start_set@.contains(code) <==> head.contains(code) && is_registered(
                registry,
                code,
            ) && id_start.contains(code)
        &&& forall|code: u32| #[trigger]
            self.id_continue_set@.contains(code) <==> head.contains(code) && is_registered(
                registry,
                code,
            ) && id_continue.contains(code)
    }

    /// The info holds the code points that the registry holds outside the
    /// BMP: in the two maps those that have a lowercase or an uppercase
    /// form other than themselves, each with that form, and in the two sets
    /// those that are in `id_start` or in `id_continue`. No set of spaces
    /// is left to hold.
    pub open spec fn describes(
        &self,
        registry: Map<u32, CodePointInfoView>,
        id_start: Set<u32>,
        id_continue: Set<u32>,
    ) -> bool {
        &&& forall|code: u32| #[trigger]
            self.lowercase_map@.contains_key(code) <==> is_registered(registry, code)
                && registry[code].lowercase != code
        &&& forall|code: u32| #[trigger]
            self.lowercase_map@.contains_key(code) ==> self.lowercase_map@[code]
                == registry[code].lowercase && self.lowercase_map@[code] > MAX_BMP
        &&& forall|code: u32| #[trigger]
            self.uppercase_map@.contains_key(code) <==> is_registered(registry, code)
                && registry[code].uppercase != code
        &&& forall|code: u32| #[trigger]
            self.uppercase_map@.contains_key(code) ==> self.uppercase_map@[code]
                == registry[code].uppercase && self.uppercase_map@[code] > MAX_BMP
        &&& self.space_set@ == Set::<u32>::empty()
        &&& forall|code: u32| #[trigger]
            self.id_start_set@.contains(code) <==> is_registered(registry, code)
                && id_start.contains(code)
        &&& forall|code: u32| #[trigger]
            self.id_continue_set@.contains(code) <==> is_registered(registry, code)
                && id_continue.contains(code)
    }
}

/// Generate various information about code points outside the base multilingual
/// plane: code points that can't be represented in a single UTF-16 code unit.
///
/// No such code point may have a BMP code point as its uppercase or
/// lowercase form, and none may be of category "Zs": the smallest one that
/// is what it must not be is reported, and no info is made.
pub fn generate_non_bmp_info(
    code_point_table: &CodePointTable,
    derived_properties: &DerivedCorePropertyData,
) -> (info: Result<NonBMPInfo, NonBmpError>)
    ensures
        match info {
            Ok(info) => {
                &&& forall|code: u32| breaks(code_point_table@, code) is None
                &&& info.describes(
                    code_point_table@,
                    derived_properties.id_start@,
                    derived_properties.id_continue@,
                )
            },
            Err(error) => {
                &&& breaks(code_point_table@, error.code) == Some(error.rule)
                &&& forall|smaller: u32|
                    smaller < error.code ==> breaks(code_point_table@, smaller) is None
            },
        },
{
    let ghost registry = code_point_table@;
    let ghost id_start = derived_properties.id_start@;
    let ghost id_continue = derived_properties.id_continue@;
    let mut info = NonBMPInfo {
        lowercase_map: CaseMap::new(),
        uppercase_map: CaseMap::new(),
        space_set: CodePointSet::new(),
        id_start_set: CodePointSet::new(),
        id_continue_set: CodePointSet::new(),
    };
    let mut points = code_point_table.iter();
    loop
        invariant
            points.wf(),
            points.table == code_point_table,
            registry == code_point_table@,
            id_start == derived_properties.id_start@,
            id_continue == derived_properties.id_continue@,
            info.describes_among(
                points.codes@.subrange(0, points.position as int),
                registry,
                id_start,
                id_continue,
            ),
            forall|k: int| 0 <= k < points.position ==> breaks(registry, points.codes@[k]) is None,
        decreases points.codes@.len() - points.position,
    {
        let ghost head = points.codes@.subrange(0, points.position as int);
        match points.next() {
            None => {
                proof {
                    assert(head =~= points.codes@);
                    assert forall|code: u32|
                        points.codes@.contains(code) <==> registry.contains_key(code) by {
                        assert(points.codes@.contains(code) <==> points.codes@.to_set().contains(
                            code,
                        ));
                    }
                    assert forall|code: u32| breaks(registry, code) is None by {
                        if registry.contains_key(code) {
                            assert(points.codes@.contains(code));
                            let k = choose|k: int|
                                0 <= k < points.codes@.len() && points.codes@[k] == code;
                            assert(breaks(registry, points.codes@[k]) is None);
                        }
                    }
                }
                return Ok(info);
            },
            Some((code, code_point)) => {
                proof {
                    assert(points.codes@.subrange(0, points.position as int) =~= head.push(code));
                    assert forall|x: u32| head.push(code).contains(x) <==> head.contains(x) || x
                        == code by {
                        lemma_push_contains(head, code, x);
                    }
                    assert(!head.contains(code)) by {
                        if head.contains(code) {
                            let k = choose|k: int| 0 <= k < head.len() && head[k] == code;
                            assert(points.codes@[k] == code);
                        }
                    }
                }
                if code > MAX_BMP {
                    let lowercase = code_point.lowercase;
                    let uppercase = code_point.uppercase;
                    let inside = (lowercase != code && lowercase <= MAX_BMP) || (uppercase != code
                        && uppercase <= MAX_BMP);
                    let space = same_bytes(
                        code_point.category.as_slice(),
                        SPACE_SEPARATOR.as_slice(),
                    );
                    if inside || space {
                        proof {
                            assert forall|smaller: u32| smaller < code implies breaks(
                                registry,
                                smaller,
                            ) is None by {
                                if registry.contains_key(smaller) {
                                    assert(points.codes@.to_set().contains(smaller));
                                    let k = choose|k: int|
                                        0 <= k < points.codes@.len() && points.codes@[k]
                                            == smaller;
                                    assert(k < points.position - 1);
                                    assert(breaks(registry, points.codes@[k]) is None);
                                }
                            }
                        }
                        return Err(
                            NonBmpError {
                                code,
                                rule: if inside {
                                    NonBmpRule::CaseInsideBmp
                                } else {
                                    NonBmpRule::Space
                                },
                            },
                        );
                    }
                    if code != lowercase {
                        info.lowercase_map.insert(code, lowercase);
                    }
                    if code != uppercase {
                        info.uppercase_map.insert(code, uppercase);
                    }
                    if derived_properties.id_start.contains(&code) {
                        info.id_start_set.insert(code);
                    }
                    if derived_properties.id_continue.contains(&code) {
                        info.id_continue_set.insert(code);
                    }
                }
            },
        }
    }
}

} // verus!
