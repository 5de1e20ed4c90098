//! Lists of code points in increasing order, as which the keys of a sorted
//! map come out.

use std::collections::BTreeMap;
use vstd::prelude::*;
use vstd::std_specs::btree::{axiom_increasing_seq_meaning, group_btree_axioms, increasing_seq};
use vstd::std_specs::cmp::OrdSpec;
use vstd::std_specs::iter::IteratorSpec;

verus! {

broadcast use group_btree_axioms;

/// Each code of `codes` is smaller than the next.
pub open spec fn strictly_increasing(codes: Seq<u32>) -> bool {
    forall|i: int, j: int| 0 <= i < j < codes.len() ==> codes[i] < codes[j]
}

/// References to numbers that come in increasing order refer to numbers
/// each of which is smaller than the next.
pub proof fn lemma_increasing_codes(codes: Seq<&u32>)
    requires
        increasing_seq(codes),
    ensures
        strictly_increasing(codes.unref()),
{
    broadcast use vstd::laws_cmp::group_laws_cmp;

    assert(vstd::laws_cmp::obeys_cmp::<u32>());
    assert(vstd::laws_cmp::obeys_cmp::<&u32>());
    axiom_increasing_seq_meaning::<&u32>(codes);
    assert forall|i: int, j: int| 0 <= i < j < codes.len() implies *codes[i] < *codes[j] by {
        assert(OrdSpec::cmp_spec(&codes[i], &codes[j]) is Less);
    }
}

/// Two lists in increasing order that hold the same codes are the same
/// list.
pub proof fn lemma_increasing_unique(a: Seq<u32>, b: Seq<u32>)
    requires
        strictly_increasing(a),
        strictly_increasing(b),
        a.to_set() == b.to_set(),
    ensures
        a == b,
    decreases a.len(),
{
    if a.len() == 0 {
        if b.len() > 0 {
            assert(b.to_set().contains(b[0]));
            assert(a.contains(b[0]));
        }
        assert(a =~= b);
    } else {
        assert(a.to_set().contains(a.last()));
        assert(b.contains(a.last()));
        assert(b.to_set().contains(b.last()));
        assert(a.contains(b.last()));
        assert(a.last() == b.last());
        let shorter_a = a.drop_last();
        let shorter_b = b.drop_last();
        assert forall|x: u32| shorter_a.to_set().contains(x) <==> shorter_b.to_set().contains(
            x,
        ) by {
            if shorter_a.contains(x) {
                let i = choose|i: int| 0 <= i < shorter_a.len() && shorter_a[i] == x;
                assert(a[i] == x);
                assert(a.to_set().contains(x));
                assert(b.contains(x));
                let j = choose|j: int| 0 <= j < b.len() && b[j] == x;
                assert(j < b.len() - 1);
                assert(shorter_b[j] == x);
            }
            if shorter_b.contains(x) {
                let i = choose|i: int| 0 <= i < shorter_b.len() && shorter_b[i] == x;
                assert(b[i] == x);
                assert(b.to_set().contains(x));
                assert(a.contains(x));
                let j = choose|j: int| 0 <= j < a.len() && a[j] == x;
                assert(j < a.len() - 1);
                assert(shorter_a[j] == x);
            }
        }
        assert(shorter_a.to_set() =~= shorter_b.to_set());
        lemma_increasing_unique(shorter_a, shorter_b);
        assert(a =~= shorter_a.push(a.last()));
        assert(b =~= shorter_b.push(b.last()));
    }
}

/// The keys of `map`, each once, the smallest first.
pub fn keys_in_order<V>(map: &BTreeMap<u32, V>) -> (codes: Vec<u32>)
    ensures
        strictly_increasing(codes@),
        codes@.to_set() == map@.dom(),
{
    let mut codes: Vec<u32> = Vec::new();
    let keys = map.keys();
    let ghost all = keys.remaining();
    for code in it: keys
        invariant
            it.seq() == all,
            codes@.len() == it.index(),
            forall|i: int| 0 <= i < codes@.len() ==> codes@[i] == *all[i],
    {
        codes.push(*code);
    }
    proof {
        assert(codes@ =~= all.unref());
        lemma_increasing_codes(all);
    }
    codes
}

/// A list with one more code holds that code and what it held.
pub proof fn lemma_push_contains(list: Seq<u32>, more: u32, x: u32)
    ensures
        list.push(more).contains(x) <==> list.contains(x) || x == more,
{
    if list.push(more).contains(x) {
        let k = choose|k: int| 0 <= k < list.push(more).len() && list.push(more)[k] == x;
        if k < list.len() {
            assert(list[k] == x);
        }
    }
    if list.contains(x) {
        let k = choose|k: int| 0 <= k < list.len() && list[k] == x;
        assert(list.push(more)[k] == x);
    }
    if x == more {
        assert(list.push(more)[list.len() as int] == x);
    }
}

/// `merged` holds the codes of `head`, and `extra` where `with_extra` says
/// so, but for the code `without`.
pub open spec fn merges(
    merged: Seq<u32>,
    head: Seq<u32>,
    with_extra: bool,
    extra: u32,
    without: u32,
) -> bool {
    forall|x: u32| #[trigger]
        merged.contains(x) <==> x != without && (head.contains(x) || (with_extra && x == extra))
}

/// The codes of `list` and the code `extra`, but for the code `without`,
/// each once, the smallest first.
pub fn merge_without(list: &Vec<u32>, extra: u32, without: u32) -> (merged: Vec<u32>)
    requires
        strictly_increasing(list@),
    ensures
        strictly_increasing(merged@),
        merged@.to_set() == list@.to_set().insert(extra).remove(without),
{
    let mut merged: Vec<u32> = Vec::new();
    let mut placed: bool = false;
    let mut i: usize = 0;
    while i < list.len()
        invariant
            i <= list.len(),
            strictly_increasing(list@),
            strictly_increasing(merged@),
            forall|k: int|
                0 <= k < merged@.len() && i < list@.len() ==> merged@[k] < list@[i as int],
            !placed ==> forall|k: int| 0 <= k < merged@.len() ==> merged@[k] < extra,
            !placed ==> forall|k: int| 0 <= k < i ==> list@[k] < extra,
            placed ==> i > 0 && extra <= list@[i - 1],
            merges(merged@, list@.subrange(0, i as int), placed, extra, without),
        decreases list.len() - i,
    {
        let x = list[i];
        let ghost head = list@.subrange(0, i as int);
        let ghost first = merged@;
        let ghost was_placed = placed;
        if !placed && extra <= x {
            if extra < x && extra != without {
                merged.push(extra);
            }
            placed = true;
        }
        let ghost second = merged@;
        if x != without {
            merged.push(x);
        }
        proof {
            let longer = list@.subrange(0, i + 1);
            assert(longer =~= head.push(x));
            assert forall|y: u32| #[trigger]
                merged@.contains(y) <==> y != without && (longer.contains(y) || (placed && y
                    == extra)) by {
                lemma_push_contains(head, x, y);
                lemma_push_contains(first, extra, y);
                lemma_push_contains(second, x, y);
                assert(first.contains(y) <==> y != without && (head.contains(y) || (was_placed
                    && y == extra)));
            }
        }
        i += 1;
    }
    let ghost first = merged@;
    if !placed && extra != without {
        merged.push(extra);
    }
    proof {
        assert(list@.subrange(0, i as int) =~= list@);
        assert forall|y: u32|
            merged@.to_set().contains(y) <==> list@.to_set().insert(extra).remove(
                without,
            ).contains(y) by {
            lemma_push_contains(first, extra, y);
            assert(first.contains(y) <==> y != without && (list@.contains(y) || (placed && y
                == extra)));
        }
        assert(merged@.to_set() =~= list@.to_set().insert(extra).remove(without));
    }
    merged
}

} // verus!
