//! Computation of the set of code points recognized as white space in JavaScript.

use crate::bmp::is_space;
use crate::code_point_table::{CodePointInfoView, CodePointTable};
use crate::constants::{contains_code, LINE_TERMINATOR, MAX_BMP, SPACE_SEPARATOR, WHITE_SPACE};
use crate::order::lemma_push_contains;
use crate::text::same_bytes;
use crate::types::CodePointSet;
use vstd::prelude::*;
use vstd::std_specs::hash::group_hash_axioms;

verus! {

broadcast use group_hash_axioms;

/// Whether the registry holds `code` as a spacing character of JavaScript.
pub open spec fn is_registered_space(registry: Map<u32, CodePointInfoView>, code: u32) -> bool {
    registry.contains_key(code) && is_space(registry[code].category, code)
}

/// `spaces` holds the code points of `head` that the registry holds as
/// spacing characters.
pub open spec fn spaces_among(
    spaces: Set<u32>,
    head: Seq<u32>,
    registry: Map<u32, CodePointInfoView>,
) -> bool {
    forall|code: u32| #[trigger]
        spaces.contains(code) <==> head.contains(code) && is_registered_space(registry, code)
}

/// Compute the set of all code points that match the `WhiteSpace` or
/// `LineTerminator` productions.
///
/// Note that `WhiteSpace` includes all code points in the Unicode "Space
/// Separator", i.e. "Zs", category.
///
/// No code point outside the BMP may be among them: the smallest one that
/// is is reported, and no set is made.
pub fn compute_white_space(code_point_table: &CodePointTable) -> (spaces: Result<CodePointSet, u32>)
    ensures
        match spaces {
            Ok(spaces) => {
                &&& forall|code: u32| #[trigger]
                    spaces@.contains(code) <==> is_registered_space(code_point_table@, code)
                &&& forall|code: u32| #[trigger] spaces@.contains(code) ==> code <= MAX_BMP
            },
            Err(code) => {
                &&& code > MAX_BMP
                &&& is_registered_space(code_point_table@, code)
                &&& forall|smaller: u32|
                    smaller < code && is_registered_space(code_point_table@, smaller) ==> smaller
                        <= MAX_BMP
            },
        },
{
    let ghost registry = code_point_table@;
    let mut space_set: CodePointSet = CodePointSet::new();
    let mut points = code_point_table.iter();
    loop
        invariant
            points.wf(),
            points.table == code_point_table,
            registry == code_point_table@,
            spaces_among(
                space_set@,
                points.codes@.subrange(0, points.position as int),
                registry,
            ),
            forall|code: u32| #[trigger] space_set@.contains(code) ==> code <= MAX_BMP,
        decreases points.codes@.len() - points.position,
    {
        let ghost head = points.codes@.subrange(0, points.position as int);
        match points.next() {
            None => {
                proof {
                    assert(head =~= points.codes@);
                    assert forall|code: u32| #[trigger]
                        space_set@.contains(code) <==> is_registered_space(registry, code) by {
                        assert(points.codes@.contains(code) <==> points.codes@.to_set().contains(
                            code,
                        ));
                    }
                }
                return Ok(space_set);
            },
            Some((code, info)) => {
                proof {
                    assert(points.codes@.subrange(0, points.position as int) =~= head.push(code));
                    assert forall|x: u32| head.push(code).contains(x) <==> head.contains(x) || x
                        == code by {
                        lemma_push_contains(head, code, x);
                    }
                }
                if same_bytes(info.category.as_slice(), SPACE_SEPARATOR.as_slice())
                    || contains_code(WHITE_SPACE.as_slice(), code) || contains_code(
                    LINE_TERMINATOR.as_slice(),
                    code,
                ) {
                    if code > MAX_BMP {
                        proof {
                            assert forall|smaller: u32|
                                smaller < code && is_registered_space(
                                    registry,
                                    smaller,
                                ) implies smaller <= MAX_BMP by {
                                assert(points.codes@.to_set().contains(smaller));
                                let k = choose|k: int|
                                    0 <= k < points.codes@.len() && points.codes@[k] == smaller;
                                assert(k < points.position - 1);
                                assert(head[k] == smaller);
                                assert(space_set@.contains(smaller));
                            }
                        }
                        return Err(code);
                    }
                    space_set.insert(code);
                }
            },
        }
    }
}

} // verus!
