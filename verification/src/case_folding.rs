//! Parse the contents of `CaseFolding.txt`, which maps code points to the
//! code points that they fold to when case is to be ignored.

use crate::bmp::{delta_between, lemma_delta_round_trip, shifted};
use crate::constants::{MAX_BMP, MAX_CODE_POINT};
use crate::order::{
    keys_in_order, lemma_increasing_unique, lemma_push_contains, merge_without,
    strictly_increasing,
};
use crate::table::{
    index1_of, index2_of, is_best_shift, lemma_bmp_table_splits, recovers, split_table, TableSplit,
};
use crate::text::{
    content_at, content_start, hex_number, lemma_content_start, lemma_next_line_start,
    next_content, next_line_start, parse_hex, same_bytes, split, split_fields, trim, trimmed,
    views, ParseError, ParseErrorKind, FIELD_BYTE,
};
use std::collections::BTreeMap;
use std::collections::HashMap;
use vstd::prelude::*;
use vstd::std_specs::btree::group_btree_axioms;
use vstd::std_specs::hash::group_hash_axioms;

verus! {

broadcast use {group_btree_axioms, group_hash_axioms};

/// `C`, the status of a common folding.
pub const STATUS_COMMON: [u8; 1] = [0x43];

/// `S`, the status of a simple folding.
pub const STATUS_SIMPLE: [u8; 1] = [0x53];

/// `F`, the status of a full folding.
pub const STATUS_FULL: [u8; 1] = [0x46];

/// `T`, the status of a Turkish folding.
pub const STATUS_TURKISH: [u8; 1] = [0x54];

/// What a line of the case foldings says, `content` being the line without
/// its comment: four fields, of which the first is the code, the second the
/// status and the third the mapping. A common or a simple folding gives the
/// code and the code that it folds to. A full or a Turkish folding gives
/// nothing.
pub open spec fn folding_line(content: Seq<u8>) -> Result<Option<(u32, u32)>, ParseErrorKind> {
    let fields = split(content, FIELD_BYTE);
    if fields.len() != 4 {
        Err(ParseErrorKind::FieldCount)
    } else {
        let status = trim(fields[1]);
        if status == STATUS_COMMON@ || status == STATUS_SIMPLE@ {
            match (
                hex_number(trim(fields[0]), MAX_CODE_POINT as nat),
                hex_number(trim(fields[2]), MAX_CODE_POINT as nat),
            ) {
                (Some(code), Some(mapping)) => Ok(Some((code, mapping))),
                _ => Err(ParseErrorKind::Number),
            }
        } else if status == STATUS_FULL@ || status == STATUS_TURKISH@ {
            Ok(None)
        } else {
            Err(ParseErrorKind::Status)
        }
    }
}

/// Read what `text[from..to]` says as a line of the case foldings.
pub fn read_folding_line(text: &[u8], from: usize, to: usize) -> (line: Result<
    Option<(u32, u32)>,
    ParseErrorKind,
>)
    requires
        from <= to <= text.len(),
    ensures
        line == folding_line(text@.subrange(from as int, to as int)),
{
    let fields = split_fields(text, from, to, FIELD_BYTE);
    if fields.len() != 4 {
        return Err(ParseErrorKind::FieldCount);
    }
    proof {
        assert(views(fields@)[0] == fields@[0]@);
        assert(views(fields@)[1] == fields@[1]@);
        assert(views(fields@)[2] == fields@[2]@);
    }
    let status = trimmed(&fields[1]);
    // Unicode regular expression support depends only on common/simple
    // foldings.
    if same_bytes(status.as_slice(), STATUS_COMMON.as_slice()) || same_bytes(
        status.as_slice(),
        STATUS_SIMPLE.as_slice(),
    ) {
        let code = parse_hex(&trimmed(&fields[0]), MAX_CODE_POINT);
        let mapping = parse_hex(&trimmed(&fields[2]), MAX_CODE_POINT);
        match (code, mapping) {
            (Some(code), Some(mapping)) => Ok(Some((code, mapping))),
            _ => Err(ParseErrorKind::Number),
        }
    } else if same_bytes(status.as_slice(), STATUS_FULL.as_slice()) || same_bytes(
        status.as_slice(),
        STATUS_TURKISH.as_slice(),
    ) {
        Ok(None)
    } else {
        Err(ParseErrorKind::Status)
    }
}

/// The common or simple folding that the text holds at or after `from`, and
/// where reading goes on after it. A line that says nothing is passed
/// over, and so is a full or a Turkish folding. After an error nothing more
/// is read.
pub open spec fn scan_foldings(text: Seq<u8>, from: int) -> (
    Option<Result<(u32, u32), ParseError>>,
    int,
)
    decreases text.len() - from,
{
    let start = content_start(text, from);
    let next = next_line_start(text, start);
    if start >= text.len() {
        (None, text.len() as int)
    } else {
        match folding_line(content_at(text, start)) {
            Err(kind) => (
                Some(Err(ParseError { offset: start as usize, kind })),
                text.len() as int,
            ),
            Ok(Some(folding)) => (Some(Ok(folding)), next),
            Ok(None) => if from <= start < next <= text.len() {
                scan_foldings(text, next)
            } else {
                (None, text.len() as int)
            },
        }
    }
}

/// A reader of the common and simple foldings of `CaseFolding.txt`.
pub struct CaseFoldingParse<'a> {
    /// The whole text.
    pub text: &'a [u8],
    /// Where in the text reading goes on.
    pub position: usize,
}

impl<'a> CaseFoldingParse<'a> {
    /// Produce a reader of the common and simple foldings of
    /// `CaseFolding.txt`.
    pub fn simple_and_common_foldings(text: &'a [u8]) -> (reader: CaseFoldingParse<'a>)
        ensures
            reader.text@ == text@,
            reader.position == 0,
    {
        CaseFoldingParse { text, position: 0 }
    }

    /// Yields the next common or simple folding, as the code and the code
    /// that it folds to. `None` says that the text is exhausted.
    pub fn next(&mut self) -> (item: Option<Result<(u32, u32), ParseError>>)
        requires
            old(self).position <= old(self).text@.len(),
        ensures
            final(self).text == old(self).text,
            item == scan_foldings(old(self).text@, old(self).position as int).0,
            final(self).position == scan_foldings(old(self).text@, old(self).position as int).1,
            old(self).position <= final(self).position <= old(self).text@.len(),
            item is Some && item->0 is Ok ==> old(self).position < final(self).position,
    {
        let text = self.text;
        let ghost from = self.position as int;
        loop
            invariant
                text == self.text,
                text == old(self).text,
                from == old(self).position,
                from <= self.position <= text@.len(),
                scan_foldings(text@, self.position as int) == scan_foldings(text@, from),
            decreases text@.len() - self.position,
        {
            // The entries in this file are in the following machine-readable
            // format:
            //
            // <code>; <status>; <mapping>; # <name>
            let (start, end, next) = next_content(text, self.position);
            if start >= text.len() {
                self.position = text.len();
                return None;
            }
            match read_folding_line(text, start, end) {
                Err(kind) => {
                    self.position = text.len();
                    return Some(Err(ParseError { offset: start, kind }));
                },
                Ok(Some(folding)) => {
                    self.position = next;
                    return Some(Ok(folding));
                },
                Ok(None) => {
                    proof {
                        lemma_scan_from_content(text@, next as int);
                        lemma_scan_from_content(text@, self.position as int);
                    }
                    self.position = next;
                },
            }
        }
    }
}

/// Scanning from a position is scanning from the first line at or after it
/// that says something.
proof fn lemma_scan_from_content(text: Seq<u8>, from: int)
    requires
        0 <= from <= text.len(),
    ensures
        scan_foldings(text, from) == scan_foldings(text, content_start(text, from)),
{
    lemma_content_start(text, from);
    let start = content_start(text, from);
    lemma_content_again(text, from);
    if start < text.len() {
        lemma_next_line_start(text, start);
    }
}

/// The first line that says something, looked for from where it starts,
/// is itself.
proof fn lemma_content_again(text: Seq<u8>, from: int)
    requires
        0 <= from <= text.len(),
    ensures
        content_start(text, content_start(text, from)) == content_start(text, from),
    decreases text.len() - from,
{
    if from < text.len() && content_at(text, from).len() == 0 {
        lemma_next_line_start(text, from);
        lemma_content_again(text, next_line_start(text, from));
    }
}

/// `map` with the foldings added that `text` holds from `from` on, or the
/// error in the first line that cannot be read. Where two lines fold one
/// code, the later one counts.
pub open spec fn foldings_from(text: Seq<u8>, from: int, map: Map<u32, u32>) -> Result<
    Map<u32, u32>,
    ParseError,
>
    decreases text.len() - from,
{
    let scanned = scan_foldings(text, from);
    match scanned.0 {
        None => Ok(map),
        Some(Err(error)) => Err(error),
        Some(Ok((code, mapping))) => if from < scanned.1 <= text.len() {
            foldings_from(text, scanned.1, map.insert(code, mapping))
        } else {
            Ok(map)
        },
    }
}

/// The map from each code that `text` folds to the code that it folds to,
/// or the error in the first line that cannot be read.
pub open spec fn foldings_of(text: Seq<u8>) -> Result<Map<u32, u32>, ParseError> {
    foldings_from(text, 0, Map::empty())
}

/// Read the map of all common and simple foldings from the text of
/// `CaseFolding.txt`.
pub fn read_folding_map(text: &[u8]) -> (map: Result<BTreeMap<u32, u32>, ParseError>)
    ensures
        match map {
            Ok(map) => foldings_of(text@) == Ok::<Map<u32, u32>, ParseError>(map@),
            Err(error) => foldings_of(text@) == Err::<Map<u32, u32>, ParseError>(error),
        },
{
    let mut folding_map: BTreeMap<u32, u32> = BTreeMap::new();
    let mut reader = CaseFoldingParse::simple_and_common_foldings(text);
    loop
        invariant
            reader.text@ == text@,
            reader.position <= text@.len(),
            foldings_from(text@, reader.position as int, folding_map@) == foldings_of(text@),
        decreases text@.len() - reader.position,
    {
        match reader.next() {
            None => {
                return Ok(folding_map);
            },
            Some(Err(error)) => {
                return Err(error);
            },
            Some(Ok((code, mapping))) => {
                folding_map.insert(code, mapping);
            },
        }
    }
}

/// The codes that fold to `target`.
pub open spec fn sources(map: Map<u32, u32>, target: u32) -> Set<u32> {
    Set::new(|code: u32| map.contains_key(code) && map[code] == target)
}

/// Whether some code folds to `target`.
pub open spec fn is_target(map: Map<u32, u32>, target: u32) -> bool {
    exists|code: u32| #[trigger] map.contains_key(code) && map[code] == target
}

/// The code that `code` folds to: itself where the map does not fold it.
pub open spec fn fold_target(map: Map<u32, u32>, code: u32) -> u32 {
    if map.contains_key(code) {
        map[code]
    } else {
        code
    }
}

/// The codes that are equivalent to `code` after case folding, `code`
/// itself left out: the code that it folds to and the codes that fold to
/// the same code.
pub open spec fn equivalents(map: Map<u32, u32>, code: u32) -> Set<u32> {
    sources(map, fold_target(map, code)).insert(fold_target(map, code)).remove(code)
}

/// Whether `code` takes part in case folding: it folds to a code, or a
/// code folds to it.
pub open spec fn takes_part(map: Map<u32, u32>, code: u32) -> bool {
    map.contains_key(code) || is_target(map, code)
}

/// No code folds to a code that folds to another one.
pub open spec fn folds_once(map: Map<u32, u32>) -> bool {
    forall|code: u32| #[trigger]
        map.contains_key(code) ==> fold_target(map, map[code]) == map[code]
}

/// Where no code folds to a code that folds on, being equivalent is
/// symmetric: a code is among the equivalents of each of its equivalents.
pub proof fn lemma_equivalents_symmetric(map: Map<u32, u32>, a: u32, b: u32)
    requires
        folds_once(map),
        equivalents(map, a).contains(b),
    ensures
        equivalents(map, b).contains(a),
{
    if map.contains_key(a) {
        assert(fold_target(map, map[a]) == map[a]);
    }
    if map.contains_key(b) {
        assert(fold_target(map, map[b]) == map[b]);
    }
}

/// Where no code folds to a code that folds on, being equivalent is
/// transitive.
pub proof fn lemma_equivalents_transitive(map: Map<u32, u32>, a: u32, b: u32, c: u32)
    requires
        folds_once(map),
        equivalents(map, a).contains(b),
        equivalents(map, b).contains(c),
        a != c,
    ensures
        equivalents(map, a).contains(c),
{
    if map.contains_key(a) {
        assert(fold_target(map, map[a]) == map[a]);
    }
    if map.contains_key(b) {
        assert(fold_target(map, map[b]) == map[b]);
    }
    if map.contains_key(c) {
        assert(fold_target(map, map[c]) == map[c]);
    }
}

/// `reverse` holds for each code to which a code of `head` folds the codes
/// of `head` that fold to it, the smallest first, and holds no other code.
pub open spec fn reverses(reverse: Map<u32, Vec<u32>>, map: Map<u32, u32>, head: Seq<u32>) -> bool {
    forall|target: u32|
        #![trigger reverse.contains_key(target)]
        {
            &&& reverse.contains_key(target) ==> {
                &&& reverse[target]@.len() > 0
                &&& strictly_increasing(reverse[target]@)
                &&& listed(reverse[target]@, map, head, target)
            }
            &&& !reverse.contains_key(target) ==> forall|code: u32| #[trigger]
                head.contains(code) ==> map[code] != target
        }
}

/// `list` holds the codes of `head` that fold to `target`.
pub open spec fn listed(list: Seq<u32>, map: Map<u32, u32>, head: Seq<u32>, target: u32) -> bool {
    forall|code: u32| #[trigger] list.contains(code) <==> head.contains(code) && map[code] == target
}

/// The inverse of the map of foldings: for each code to which a code
/// folds, the codes that fold to it, the smallest first.
pub fn reverse_foldings(folding_map: &BTreeMap<u32, u32>) -> (reverse: BTreeMap<u32, Vec<u32>>)
    ensures
        forall|target: u32| #[trigger]
            reverse@.contains_key(target) <==> is_target(folding_map@, target),
        forall|target: u32| #[trigger]
            reverse@.contains_key(target) ==> strictly_increasing(reverse@[target]@)
                && reverse@[target]@.to_set() == sources(folding_map@, target),
{
    let codes = keys_in_order(folding_map);
    let mut reverse: BTreeMap<u32, Vec<u32>> = BTreeMap::new();
    let mut n: usize = 0;
    while n < codes.len()
        invariant
            n <= codes.len(),
            strictly_increasing(codes@),
            codes@.to_set() == folding_map@.dom(),
            reverses(reverse@, folding_map@, codes@.subrange(0, n as int)),
        decreases codes.len() - n,
    {
        let code = codes[n];
        let ghost head = codes@.subrange(0, n as int);
        let ghost before = reverse@;
        proof {
            assert(codes@.to_set().contains(code));
        }
        let mapping = match folding_map.get(&code) {
            Some(mapping) => *mapping,
            None => code,
        };
        let mut list: Vec<u32> = match reverse.remove(&mapping) {
            Some(list) => list,
            None => Vec::new(),
        };
        let ghost shorter = list@;
        list.push(code);
        proof {
            assert(before.contains_key(mapping) ==> shorter == before[mapping]@);
            assert forall|i: int, j: int| 0 <= i < j < list@.len() implies list@[i]
                < list@[j] by {
                if j == shorter.len() {
                    assert(shorter.contains(shorter[i]));
                    let k = choose|k: int| 0 <= k < head.len() && head[k] == shorter[i];
                    assert(codes@[k] == shorter[i]);
                }
            }
        }
        reverse.insert(mapping, list);
        proof {
            let longer = codes@.subrange(0, n + 1);
            assert(longer =~= head.push(code));
            assert forall|target: u32| #![trigger reverse@.contains_key(target)]
                {
                    &&& reverse@.contains_key(target) ==> {
                        &&& reverse@[target]@.len() > 0
                        &&& strictly_increasing(reverse@[target]@)
                        &&& listed(reverse@[target]@, folding_map@, longer, target)
                    }
                    &&& !reverse@.contains_key(target) ==> forall|x: u32| #[trigger]
                        longer.contains(x) ==> folding_map@[x] != target
                } by {
                assert(before.contains_key(target) || !before.contains_key(target));
                assert forall|x: u32| longer.contains(x) <==> head.contains(x) || x == code by {
                    lemma_push_contains(head, code, x);
                }
                if target == mapping {
                    assert forall|x: u32| #[trigger]
                        list@.contains(x) <==> longer.contains(x) && folding_map@[x]
                            == target by {
                        lemma_push_contains(shorter, code, x);
                        if before.contains_key(mapping) {
                            assert(listed(shorter, folding_map@, head, target));
                        }
                    }
                } else if reverse@.contains_key(target) {
                    assert(before.contains_key(target));
                    assert(listed(before[target]@, folding_map@, head, target));
                }
            }
        }
        n += 1;
    }
    proof {
        assert(codes@.subrange(0, n as int) =~= codes@);
        assert forall|target: u32| #[trigger]
            reverse@.contains_key(target) <==> is_target(folding_map@, target) by {
            if reverse@.contains_key(target) {
                let code = reverse@[target]@[0];
                assert(reverse@[target]@.contains(code));
                assert(codes@.contains(code));
                assert(codes@.to_set().contains(code));
                assert(folding_map@.contains_key(code) && folding_map@[code] == target);
            }
            if is_target(folding_map@, target) {
                let code = choose|code: u32| #[trigger]
                    folding_map@.contains_key(code) && folding_map@[code] == target;
                assert(codes@.to_set().contains(code));
                assert(codes@.contains(code));
            }
        }
        assert forall|target: u32| #[trigger] reverse@.contains_key(target) implies strictly_increasing(
            reverse@[target]@,
        ) && reverse@[target]@.to_set() == sources(folding_map@, target) by {
            assert(listed(reverse@[target]@, folding_map@, codes@, target));
            assert forall|x: u32|
                reverse@[target]@.to_set().contains(x) <==> sources(folding_map@, target).contains(
                    x,
                ) by {
                assert(codes@.contains(x) <==> codes@.to_set().contains(x));
            }
            assert(reverse@[target]@.to_set() =~= sources(folding_map@, target));
        }
    }
    reverse
}

/// A type storing a code point and all (non-identical) code points that are
/// equivalent to it after case folding.
pub type CodeWithEquivalents = (u32, Vec<u32>);

/// `list` holds each code that takes part in case folding once, the
/// smallest first, and with each the codes that are equivalent to it, the
/// smallest first.
pub open spec fn lists_equivalents(list: Seq<CodeWithEquivalents>, map: Map<u32, u32>) -> bool {
    &&& forall|i: int, j: int| 0 <= i < j < list.len() ==> list[i].0 < list[j].0
    &&& forall|i: int| 0 <= i < list.len() ==> takes_part(map, (#[trigger] list[i]).0)
    &&& forall|code: u32|
        takes_part(map, code) ==> exists|i: int| 0 <= i < list.len() && (#[trigger] list[i]).0 == code
    &&& forall|i: int|
        0 <= i < list.len() ==> strictly_increasing((#[trigger] list[i]).1@) && list[i].1@.to_set()
            == equivalents(map, list[i].0)
}

/// A list of `(code, [equivalents])` for every code that participates in
/// case folding, ordered by code.
pub fn codes_with_equivalents(folding_map: &BTreeMap<u32, u32>) -> (list: Vec<CodeWithEquivalents>)
    ensures
        lists_equivalents(list@, folding_map@),
{
    let reverse = reverse_foldings(folding_map);

    // Every code that folds or is folded to, with the code that it folds
    // to.
    let mut all_folding_codes: BTreeMap<u32, u32> = folding_map.clone();
    let targets = keys_in_order(&reverse);
    let mut n: usize = 0;
    while n < targets.len()
        invariant
            n <= targets.len(),
            targets@.to_set() == reverse@.dom(),
            forall|code: u32| #[trigger]
                all_folding_codes@.contains_key(code) <==> folding_map@.contains_key(code)
                    || targets@.subrange(0, n as int).contains(code),
            forall|code: u32| #[trigger]
                all_folding_codes@.contains_key(code) ==> all_folding_codes@[code] == fold_target(
                    folding_map@,
                    code,
                ),
        decreases targets.len() - n,
    {
        let target = targets[n];
        proof {
            let head = targets@.subrange(0, n as int);
            assert(targets@.subrange(0, n + 1) =~= head.push(target));
            assert forall|x: u32| head.push(target).contains(x) <==> head.contains(x) || x
                == target by {
                lemma_push_contains(head, target, x);
            }
        }
        if !folding_map.contains_key(&target) {
            all_folding_codes.insert(target, target);
        }
        n += 1;
    }
    proof {
        assert(targets@.subrange(0, n as int) =~= targets@);
        assert forall|code: u32| #[trigger]
            all_folding_codes@.contains_key(code) <==> takes_part(folding_map@, code) by {
            assert(targets@.contains(code) <==> targets@.to_set().contains(code));
            assert(reverse@.contains_key(code) <==> is_target(folding_map@, code));
        }
    }
    let codes = keys_in_order(&all_folding_codes);
    let mut list: Vec<CodeWithEquivalents> = Vec::new();
    let mut i: usize = 0;
    while i < codes.len()
        invariant
            i <= codes.len(),
            list@.len() == i,
            strictly_increasing(codes@),
            codes@.to_set() == all_folding_codes@.dom(),
            forall|code: u32| #[trigger]
                all_folding_codes@.contains_key(code) <==> takes_part(folding_map@, code),
            forall|code: u32| #[trigger]
                all_folding_codes@.contains_key(code) ==> all_folding_codes@[code] == fold_target(
                    folding_map@,
                    code,
                ),
            forall|target: u32| #[trigger]
                reverse@.contains_key(target) <==> is_target(folding_map@, target),
            forall|target: u32| #[trigger]
                reverse@.contains_key(target) ==> strictly_increasing(reverse@[target]@)
                    && reverse@[target]@.to_set() == sources(folding_map@, target),
            forall|k: int| 0 <= k < i ==> (#[trigger] list@[k]).0 == codes@[k],
            forall|k: int|
                0 <= k < i ==> strictly_increasing((#[trigger] list@[k]).1@) && list@[k].1@.to_set()
                    == equivalents(folding_map@, list@[k].0),
        decreases codes.len() - i,
    {
        let code = codes[i];
        proof {
            assert(codes@.to_set().contains(code));
            assert(all_folding_codes@.contains_key(code));
        }
        let target = match all_folding_codes.get(&code) {
            Some(target) => *target,
            None => code,
        };
        proof {
            assert(target == fold_target(folding_map@, code));
            assert(takes_part(folding_map@, code));
            assert(is_target(folding_map@, target));
            assert(reverse@.contains_key(target));
        }
        let equivs = match reverse.get(&target) {
            Some(others) => merge_without(others, target, code),
            None => Vec::new(),
        };
        list.push((code, equivs));
        i += 1;
    }
    proof {
        assert forall|a: int, b: int| 0 <= a < b < list@.len() implies list@[a].0
            < list@[b].0 by {
            assert(list@[a].0 == codes@[a] && list@[b].0 == codes@[b]);
        }
        assert forall|k: int| 0 <= k < list@.len() implies takes_part(
            folding_map@,
            (#[trigger] list@[k]).0,
        ) by {
            assert(codes@.to_set().contains(codes@[k]));
            assert(all_folding_codes@.contains_key(codes@[k]));
        }
        assert forall|code: u32| takes_part(folding_map@, code) implies exists|k: int|
            0 <= k < list@.len() && (#[trigger] list@[k]).0 == code by {
            assert(all_folding_codes@.contains_key(code));
            assert(codes@.to_set().contains(code));
            let k = choose|k: int| 0 <= k < codes@.len() && codes@[k] == code;
            assert(list@[k].0 == code);
        }
    }
    list
}

/// `delta` in the `code + delta == mapping` identity used to convert from a
/// BMP code point to its folded code point.
#[derive(PartialEq, Eq, Hash, Copy, Clone, Debug, Structural)]
pub struct Delta(pub u16);

/// The table of deltas after the code points below `count` were looked at,
/// the smallest first: it starts with the delta 0, and the delta of each
/// code point that folds is appended unless the table holds it.
pub open spec fn folding_table_after(map: Map<u32, u32>, count: nat) -> Seq<Delta>
    decreases count,
{
    if count == 0 {
        seq![Delta(0)]
    } else {
        let before = folding_table_after(map, (count - 1) as nat);
        let code = (count - 1) as u32;
        if map.contains_key(code) {
            let delta = Delta(delta_between(code, map[code]));
            if before.contains(delta) {
                before
            } else {
                before.push(delta)
            }
        } else {
            before
        }
    }
}

/// Whether `code` folds to a code outside the BMP.
pub open spec fn folds_out_of_bmp(map: Map<u32, u32>, code: u32) -> bool {
    map.contains_key(code) && map[code] > MAX_BMP
}

/// Why no case-folding data could be made.
#[derive(Copy, Clone, PartialEq, Eq, Debug, Structural)]
pub enum CaseFoldingError {
    /// A line of the text could not be read.
    Parse(ParseError),
    /// A BMP code point folds to a code point outside the BMP.
    MappingOutsideBmp { code: u32 },
}

/// Data resulting from processing `CaseFolding.txt`.
pub struct CaseFoldingData {
    /// A list of `(code, [equivalents])` for every code that participates in
    /// non-identity case folding, ordered by code.  For example, if we had
    /// these mappings:
    ///
    /// ```text
    /// A -> C
    /// B -> C
    /// ```
    ///
    /// this vector would be
    ///
    /// ```text
    /// [(A, [B, C]), (B, [A, C]), (C, [A, B])]
    /// ```
    ///
    /// Arrays of equivalents are in sorted order.
    ///
    /// The included codes span the full BMP and non-BMP gamut.
    pub all_codes_with_equivalents: Vec<CodeWithEquivalents>,
    /// A list of unique `Delta` values.
    pub bmp_folding_table: Vec<Delta>,
    /// A vector, each element of which is the index in
    /// [`CaseFoldingData::bmp_folding_table`](CaseFoldingData::bmp_folding_table)
    /// of that code point's `Delta`.  For example, because `CaseFolding.txt`
    /// contains
    ///
    /// ```text
    /// U+0041 LATIN CAPITAL LETTER A -> U+0061 LATIN SMALL LETTER A
    /// ```
    ///
    /// we will have `bmp_folding_table[bmp_folding_index[0x0041] as usize] == Delta(0x0061 - 0x0041)`.
    pub bmp_folding_index: Vec<u32>,
}

impl CaseFoldingData {
    /// The table starts with the delta 0 and holds no delta twice, and the
    /// index gives for each BMP code point a position in the table.
    pub open spec fn wf(&self) -> bool {
        &&& self.bmp_folding_table@.len() > 0
        &&& self.bmp_folding_table@[0] == Delta(0)
        &&& self.bmp_folding_table@.no_duplicates()
        &&& self.bmp_folding_index@.len() == MAX_BMP + 1
        &&& forall|code: int|
            0 <= code <= MAX_BMP ==> (#[trigger] self.bmp_folding_index@[code])
                < self.bmp_folding_table@.len()
    }

    /// The delta of the BMP code point `code`.
    pub open spec fn delta(&self, code: u32) -> Delta {
        self.bmp_folding_table@[self.bmp_folding_index@[code as int] as int]
    }

    /// The data is what the map of foldings `map` gives: every code that
    /// takes part is listed with its equivalents, and each BMP code point
    /// has the delta that leads to the code that it folds to.
    pub open spec fn describes(&self, map: Map<u32, u32>) -> bool {
        &&& self.wf()
        &&& lists_equivalents(self.all_codes_with_equivalents@, map)
        &&& self.bmp_folding_table@ == folding_table_after(map, MAX_BMP as nat + 1)
        &&& forall|code: u32|
            code <= MAX_BMP && map.contains_key(code) ==> #[trigger] self.delta(code) == Delta(
                delta_between(code, map[code]),
            )
        &&& forall|code: u32|
            code <= MAX_BMP && !map.contains_key(code) ==> #[trigger] self.bmp_folding_index@[code as int]
                == 0
        &&& forall|code: u32|
            code <= MAX_BMP ==> shifted(code, (#[trigger] self.delta(code)).0) == fold_target(
                map,
                code,
            )
    }

    /// The index as the smallest two-level page table: the position of the
    /// delta of every BMP code point is found again in its two tables.
    pub fn split_index(&self) -> (split: TableSplit)
        requires
            self.wf(),
        ensures
            recovers(self.bmp_folding_index@, split.index1@, split.index2@, split.shift),
            is_best_shift(self.bmp_folding_index@, split.shift as nat),
            split.index1@ == index1_of(self.bmp_folding_index@, split.shift as nat),
            split.index2@ == index2_of(self.bmp_folding_index@, split.shift as nat),
    {
        proof {
            lemma_bmp_table_splits();
        }
        split_table(&self.bmp_folding_index)
    }

    /// The codes that are equivalent to `code` after case folding, the
    /// smallest first, or `None` where `code` takes no part in case
    /// folding.
    pub fn equivalents_of(&self, code: u32) -> (found: Option<&Vec<u32>>)
        ensures
            match found {
                Some(equivs) => exists|i: int|
                    0 <= i < self.all_codes_with_equivalents@.len() && (
                    #[trigger] self.all_codes_with_equivalents@[i]).0 == code
                        && self.all_codes_with_equivalents@[i].1 == *equivs,
                None => forall|i: int|
                    0 <= i < self.all_codes_with_equivalents@.len() ==> (
                    #[trigger] self.all_codes_with_equivalents@[i]).0 != code,
            },
    {
        let mut i: usize = 0;
        while i < self.all_codes_with_equivalents.len()
            invariant
                i <= self.all_codes_with_equivalents@.len(),
                forall|k: int|
                    0 <= k < i ==> (#[trigger] self.all_codes_with_equivalents@[k]).0 != code,
            decreases self.all_codes_with_equivalents@.len() - i,
        {
            if self.all_codes_with_equivalents[i].0 == code {
                return Some(&self.all_codes_with_equivalents[i].1);
            }
            i += 1;
        }
        None
    }
}

/// The codes that a list of codes with their equivalents holds.
pub open spec fn listed_codes(list: Seq<CodeWithEquivalents>) -> Seq<u32> {
    Seq::new(list.len(), |i: int| list[i].0)
}

/// A map of foldings gives one data only: making it again gives the same
/// list, the same table and the same index.
pub proof fn lemma_described_once(a: &CaseFoldingData, b: &CaseFoldingData, map: Map<u32, u32>)
    requires
        a.describes(map),
        b.describes(map),
    ensures
        a.bmp_folding_table@ == b.bmp_folding_table@,
        a.bmp_folding_index@ == b.bmp_folding_index@,
        a.all_codes_with_equivalents@.len() == b.all_codes_with_equivalents@.len(),
        forall|i: int|
            0 <= i < a.all_codes_with_equivalents@.len() ==> (
            #[trigger] a.all_codes_with_equivalents@[i]).0 == b.all_codes_with_equivalents@[i].0
                && a.all_codes_with_equivalents@[i].1@ == b.all_codes_with_equivalents@[i].1@,
{
    assert forall|i: int| 0 <= i < a.bmp_folding_index@.len() implies a.bmp_folding_index@[i]
        == b.bmp_folding_index@[i] by {
        let code = i as u32;
        if map.contains_key(code) {
            assert(a.delta(code) == b.delta(code));
            assert(a.bmp_folding_index@[code as int] < a.bmp_folding_table@.len());
            assert(b.bmp_folding_index@[code as int] < b.bmp_folding_table@.len());
        } else {
            assert(a.bmp_folding_index@[code as int] == 0);
            assert(b.bmp_folding_index@[code as int] == 0);
        }
    }
    assert(a.bmp_folding_index@ =~= b.bmp_folding_index@);
    let list_a = a.all_codes_with_equivalents@;
    let list_b = b.all_codes_with_equivalents@;
    let codes_a = listed_codes(list_a);
    let codes_b = listed_codes(list_b);
    assert forall|code: u32| codes_a.to_set().contains(code) <==> codes_b.to_set().contains(
        code,
    ) by {
        if codes_a.contains(code) {
            let i = choose|i: int| 0 <= i < codes_a.len() && codes_a[i] == code;
            assert(takes_part(map, list_a[i].0));
            let j = choose|j: int| 0 <= j < list_b.len() && (#[trigger] list_b[j]).0 == code;
            assert(codes_b[j] == code);
        }
        if codes_b.contains(code) {
            let i = choose|i: int| 0 <= i < codes_b.len() && codes_b[i] == code;
            assert(takes_part(map, list_b[i].0));
            let j = choose|j: int| 0 <= j < list_a.len() && (#[trigger] list_a[j]).0 == code;
            assert(codes_a[j] == code);
        }
    }
    assert(codes_a.to_set() =~= codes_b.to_set());
    assert(strictly_increasing(codes_a)) by {
        assert forall|i: int, j: int| 0 <= i < j < codes_a.len() implies codes_a[i]
            < codes_a[j] by {
            assert(list_a[i].0 < list_a[j].0);
        }
    }
    assert(strictly_increasing(codes_b)) by {
        assert forall|i: int, j: int| 0 <= i < j < codes_b.len() implies codes_b[i]
            < codes_b[j] by {
            assert(list_b[i].0 < list_b[j].0);
        }
    }
    lemma_increasing_unique(codes_a, codes_b);
    assert forall|i: int| 0 <= i < list_a.len() implies (#[trigger] list_a[i]).0 == list_b[i].0
        && list_a[i].1@ == list_b[i].1@ by {
        assert(codes_a[i] == codes_b[i]);
        lemma_increasing_unique(list_a[i].1@, list_b[i].1@);
    }
}

/// The table of the deltas of the BMP code points that fold, and for each
/// BMP code point the position of its delta in that table. The smallest BMP
/// code point that folds to a code point outside the BMP is reported
/// instead where there is one.
pub fn bmp_foldings(folding_map: &BTreeMap<u32, u32>) -> (tables: Result<(Vec<Delta>, Vec<u32>), u32>)
    ensures
        match tables {
            Ok((table, index)) => {
                let map = folding_map@;
                &&& forall|code: u32| code <= MAX_BMP ==> !folds_out_of_bmp(map, code)
                &&& table@ == folding_table_after(map, MAX_BMP as nat + 1)
                &&& table@.len() > 0
                &&& table@[0] == Delta(0)
                &&& table@.no_duplicates()
                &&& index@.len() == MAX_BMP + 1
                &&& forall|code: int| 0 <= code <= MAX_BMP ==> (#[trigger] index@[code]) < table@.len()
                &&& forall|code: u32|
                    code <= MAX_BMP && map.contains_key(code) ==> table@[(
                    #[trigger] index@[code as int]) as int] == Delta(delta_between(code, map[code]))
                &&& forall|code: u32|
                    code <= MAX_BMP && !map.contains_key(code) ==> #[trigger] index@[code as int] == 0
            },
            Err(code) => {
                &&& code <= MAX_BMP
                &&& folds_out_of_bmp(folding_map@, code)
                &&& forall|smaller: u32| smaller < code ==> !folds_out_of_bmp(folding_map@, smaller)
            },
        },
{
    let ghost map = folding_map@;

    // A list of unique deltas from a code point to its folded code point.
    // This list starts with `Delta(0)` because entries in `bmp_folding_index`
    // are `0` unless `CaseFolding.txt` entries modify that.
    let mut bmp_folding_table: Vec<Delta> = Vec::new();
    bmp_folding_table.push(Delta(0));

    // A map from a delta to its unique index in `bmp_folding_table`.
    let mut bmp_folding_cache: HashMap<u16, u32> = HashMap::new();
    bmp_folding_cache.insert(0, 0);

    // `bmp_folding_index[c]` is the index into `bmp_folding_table` of the
    // `delta` to be added (with wrapping) to code point `c` to compute its
    // folded code point.
    //
    // Note that because indexes are initially `0`, every code point starts out
    // as mapping to `bmp_folding_table[0]`, i.e. `Delta(0)`, i.e. folding to
    // itself.  The loop below overwrites only the indexes of the code
    // points that fold.
    let mut bmp_folding_index: Vec<u32> = vec![0u32; 0x10000];

    proof {
        assert(bmp_folding_table@ =~= seq![Delta(0)]);
    }
    let mut code: u32 = 0;
    while code <= MAX_BMP
        invariant
            code <= MAX_BMP + 1,
            map == folding_map@,
            forall|c: u32| c < code ==> !folds_out_of_bmp(map, c),
            bmp_folding_table@ == folding_table_after(map, code as nat),
            bmp_folding_table@.len() > 0,
            bmp_folding_table@.len() <= code + 1,
            bmp_folding_table@[0] == Delta(0),
            bmp_folding_table@.no_duplicates(),
            bmp_folding_index@.len() == 0x10000,
            forall|c: int|
                0 <= c <= MAX_BMP ==> (#[trigger] bmp_folding_index@[c]) < bmp_folding_table@.len(),
            forall|c: u32|
                c < code && map.contains_key(c) ==> bmp_folding_table@[(
                #[trigger] bmp_folding_index@[c as int]) as int] == Delta(delta_between(c, map[c])),
            forall|c: u32|
                c <= MAX_BMP && !map.contains_key(c) ==> #[trigger] bmp_folding_index@[c as int] == 0,
            forall|i: int|
                0 <= i < bmp_folding_table@.len() ==> bmp_folding_cache@.contains_key(
                    (#[trigger] bmp_folding_table@[i]).0,
                ) && bmp_folding_cache@[bmp_folding_table@[i].0] == i,
            forall|key: u16| #[trigger]
                bmp_folding_cache@.contains_key(key) ==> bmp_folding_cache@[key]
                    < bmp_folding_table@.len()
                    && bmp_folding_table@[bmp_folding_cache@[key] as int].0 == key,
        decreases MAX_BMP + 1 - code,
    {
        match folding_map.get(&code) {
            None => {},
            Some(mapping) => {
                if *mapping > MAX_BMP {
                    return Err(code);
                }
                // BMP case folding `code -> mapping` is implemented as successive table
                // lookups, that together produce `delta` from the identity
                // `code + delta == mapping`.
                let delta = Delta(u16::wrapping_sub(*mapping as u16, code as u16));
                let ghost before = bmp_folding_table@;
                let index = match bmp_folding_cache.get(&delta.0) {
                    None => {
                        proof {
                            assert forall|j: int|
                                0 <= j < bmp_folding_table@.len() implies bmp_folding_table@[j]
                                != delta by {
                                assert(bmp_folding_cache@.contains_key(bmp_folding_table@[j].0));
                            }
                        }
                        let index = bmp_folding_table.len() as u32;
                        bmp_folding_cache.insert(delta.0, index);
                        bmp_folding_table.push(delta);
                        proof {
                            assert forall|j: int|
                                0 <= j < bmp_folding_table@.len() implies bmp_folding_cache@.contains_key(
                                (#[trigger] bmp_folding_table@[j]).0,
                            ) && bmp_folding_cache@[bmp_folding_table@[j].0] == j by {
                                if j < before.len() {
                                    assert(bmp_folding_table@[j] == before[j]);
                                }
                            }
                        }
                        index
                    },
                    Some(index) => {
                        proof {
                            assert(before[*index as int] == delta);
                            assert(before.contains(delta));
                        }
                        *index
                    },
                };
                let ghost old_index = bmp_folding_index@;
                bmp_folding_index.set(code as usize, index);
                proof {
                    assert forall|c: u32|
                        c < code + 1 && map.contains_key(c) implies bmp_folding_table@[(
                    #[trigger] bmp_folding_index@[c as int]) as int] == Delta(
                        delta_between(c, map[c]),
                    ) by {
                        if c < code {
                            assert(bmp_folding_index@[c as int] == old_index[c as int]);
                            assert(bmp_folding_table@[old_index[c as int] as int]
                                == before[old_index[c as int] as int]);
                        }
                    }
                }
            },
        }
        code += 1;
    }
    Ok((bmp_folding_table, bmp_folding_index))
}

/// The case-folding data that the map of foldings gives.
pub fn fold_classes(folding_map: &BTreeMap<u32, u32>) -> (data: Result<CaseFoldingData, u32>)
    ensures
        match data {
            Ok(data) => data.describes(folding_map@) && forall|code: u32|
                code <= MAX_BMP ==> !folds_out_of_bmp(folding_map@, code),
            Err(code) => {
                &&& code <= MAX_BMP
                &&& folds_out_of_bmp(folding_map@, code)
                &&& forall|smaller: u32| smaller < code ==> !folds_out_of_bmp(folding_map@, smaller)
            },
        },
{
    let all_codes_with_equivalents = codes_with_equivalents(folding_map);
    match bmp_foldings(folding_map) {
        Err(code) => Err(code),
        Ok((bmp_folding_table, bmp_folding_index)) => {
            let data = CaseFoldingData {
                all_codes_with_equivalents,
                bmp_folding_table,
                bmp_folding_index,
            };
            proof {
                assert forall|code: u32| code <= MAX_BMP implies shifted(
                    code,
                    (#[trigger] data.delta(code)).0,
                ) == fold_target(folding_map@, code) by {
                    if folding_map@.contains_key(code) {
                        assert(!folds_out_of_bmp(folding_map@, code));
                        lemma_delta_round_trip(code, folding_map@[code]);
                    } else {
                        assert(data.bmp_folding_index@[code as int] == 0);
                    }
                }
            }
            Ok(data)
        },
    }
}

/// Generate common and simple case-folding information from the text of
/// `CaseFolding.txt`.
///
/// Case folding is the process of converting code point sequences to a
/// canonical, folded form.  JavaScript depends upon the case folding process to
/// implement 1) case-insensitive comparisons for `/foo/iu` regular expressions
/// and 2) aspects of `Intl.Collator`.
///
/// The entries in `CaseFolding.txt` map from code point to folded
/// code point, in four different and potentially overlapping ways.  Because
/// Unicode regular expressions depend upon only "simple" and "common"
/// foldings, "Turkish" and "Full" foldings are discarded during processing.
///
/// The first line that cannot be read is reported, or else the smallest BMP
/// code point that folds to a code point outside the BMP, and no data is
/// made.
pub fn process_case_folding(text: &[u8]) -> (data: Result<CaseFoldingData, CaseFoldingError>)
    ensures
        match data {
            Ok(data) => foldings_of(text@) is Ok && data.describes(foldings_of(text@)->Ok_0)
                && forall|code: u32|
                code <= MAX_BMP ==> !folds_out_of_bmp(foldings_of(text@)->Ok_0, code),
            Err(CaseFoldingError::Parse(error)) => foldings_of(text@) == Err::<
                Map<u32, u32>,
                ParseError,
            >(error),
            Err(CaseFoldingError::MappingOutsideBmp { code }) => {
                &&& foldings_of(text@) is Ok
                &&& code <= MAX_BMP
                &&& folds_out_of_bmp(foldings_of(text@)->Ok_0, code)
                &&& forall|smaller: u32|
                    smaller < code ==> !folds_out_of_bmp(foldings_of(text@)->Ok_0, smaller)
            },
        },
{
    // Basic map of code -> folded for all Common/Simple mappings.
    let folding_map = match read_folding_map(text) {
        Err(error) => {
            return Err(CaseFoldingError::Parse(error));
        },
        Ok(folding_map) => folding_map,
    };
    match fold_classes(&folding_map) {
        Err(code) => Err(CaseFoldingError::MappingOutsideBmp { code }),
        Ok(data) => Ok(data),
    }
}

} // verus!
