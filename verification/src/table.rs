//! Functions for transforming a list of integers into two lists, indexed in
//! sequence by the upper bits of the index, then by the lower bits of the
//! index.

use crate::types::NumericType;
use vstd::arithmetic::div_mod::*;
use vstd::arithmetic::mul::*;
use vstd::arithmetic::power2::*;
use vstd::bits::*;
use vstd::prelude::*;

verus! {

/// From a list `t` of integers, many of which will be equal in value, two
/// separate lists `index1` and `index2` with given element types, plus the
/// shift necessary to use them as a two-level page table for `t`.
pub struct TableSplit {
    pub index1: Vec<u32>,
    pub index1_elem_type: NumericType,
    pub index2: Vec<u32>,
    pub index2_elem_type: NumericType,
    pub shift: u32,
}

/// Every value in `data` is at most `max`.
pub open spec fn all_at_most(data: Seq<u32>, max: int) -> bool {
    forall|i: int| 0 <= i < data.len() ==> data[i] <= max
}

/// The narrowest unsigned type that holds every value in `data`.
pub open spec fn element_type_of(data: Seq<u32>) -> NumericType {
    if all_at_most(data, 0xFF) {
        NumericType::U8
    } else if all_at_most(data, 0xFFFF) {
        NumericType::U16
    } else {
        NumericType::U32
    }
}

/// The width in bytes of a value of type `t`.
pub open spec fn size_of(t: NumericType) -> nat {
    match t {
        NumericType::U8 => 1,
        NumericType::U16 => 2,
        NumericType::U32 => 4,
    }
}

/// Compute the type of the smallest integer type that can represent every value
/// in `data`.
pub fn get_element_type(data: &Vec<u32>) -> (t: NumericType)
    requires
        data.len() > 0,
    ensures
        t == element_type_of(data@),
{
    let mut max_data: u32 = 0;
    let mut i: usize = 0;
    let ghost mut at: int = 0;
    while i < data.len()
        invariant
            i <= data.len(),
            forall|j: int| 0 <= j < i ==> data[j] <= max_data,
            i == 0 ==> max_data == 0,
            i > 0 ==> 0 <= at < i && data[at] == max_data,
        decreases data.len() - i,
    {
        if data[i] >= max_data {
            max_data = data[i];
            proof {
                at = i as int;
            }
        }
        i += 1;
    }
    if max_data <= 0xFF {
        NumericType::U8
    } else if max_data <= 0xFFFF {
        NumericType::U16
    } else {
        NumericType::U32
    }
}

/// The width in bytes of a value of type `t`.
pub fn get_size(t: NumericType) -> (bytes: usize)
    ensures
        bytes == size_of(t),
{
    match t {
        NumericType::U8 => 1,
        NumericType::U16 => 2,
        NumericType::U32 => 4,
    }
}

/// Compute the size of the smallest integer type in bytes that can represent
/// every value in `data`.
pub fn get_element_size(data: &Vec<u32>) -> (bytes: usize)
    requires
        data.len() > 0,
    ensures
        bytes == size_of(element_type_of(data@)),
{
    get_size(get_element_type(data))
}

/// The largest shift that [`split_table`] tries on a table of `len` entries:
/// the `shift` for which `2^(shift + 1)` is the least power of two that is
/// at least `len`, and 0 for a table of fewer than two entries.
pub open spec fn maximum_shift(len: nat) -> nat
    decreases len,
{
    if len <= 2 {
        0
    } else {
        1 + maximum_shift((len + 1) / 2)
    }
}

/// [`maximum_shift`] of `len` is the only `s` with `len <= 2^(s + 1)` that
/// is 0 or has `2^s < len`.
pub proof fn lemma_maximum_shift(len: nat)
    ensures
        len <= pow2(maximum_shift(len) + 1),
        maximum_shift(len) > 0 ==> pow2(maximum_shift(len)) < len,
    decreases len,
{
    lemma2_to64();
    if len > 2 {
        let half = (len + 1) / 2;
        lemma_maximum_shift(half);
        lemma_pow2_unfold(maximum_shift(half) + 1);
        lemma_pow2_unfold(maximum_shift(half) + 2);
    }
}

/// Compute the maximum possible `shift` such that `(t.len() - 1) >> shift` is
/// still nonzero, or 0 where there is none.
pub fn compute_maximum_shift(t: &Vec<u32>) -> (shift: u32)
    ensures
        shift == maximum_shift(t@.len()),
        shift < usize::BITS,
{
    let mut rest: usize = t.len();
    let mut shift: u32 = 0;
    proof {
        lemma2_to64();
    }
    while rest > 2
        invariant
            maximum_shift(t@.len()) == shift + maximum_shift(rest as nat),
            pow2(shift as nat) * (rest - 1) < t@.len() || rest == 0,
            shift < usize::BITS,
            t@.len() <= usize::MAX,
        decreases rest,
    {
        proof {
            let p = pow2(shift as nat) as int;
            let next = (rest / 2 + rest % 2) as int;
            lemma_pow2_unfold(shift as nat + 1);
            lemma_pow2_pos(shift as nat);
            assert((2 * p) * (next - 1) <= p * (rest - 1)) by (nonlinear_arith)
                requires
                    2 * (next - 1) <= rest - 1,
                    p > 0,
            ;
            assert(2 * p <= p * (rest - 1)) by (nonlinear_arith)
                requires
                    rest - 1 >= 2,
                    p > 0,
            ;
            if shift + 1 >= usize::BITS {
                lemma2_to64();
                lemma2_to64_rest();
                if shift + 1 > usize::BITS {
                    lemma_pow2_strictly_increases(usize::BITS as nat, shift as nat + 1);
                }
            }
        }
        rest = rest / 2 + rest % 2;
        shift += 1;
    }
    shift
}

/// The `k`th run of `size` consecutive entries of `t`.
pub open spec fn chunk(t: Seq<u32>, size: nat, k: int) -> Seq<u32> {
    t.subrange(k * size, k * size + size)
}

/// `pages` holds `c` as its page number `p`.
pub open spec fn is_page(pages: Seq<u32>, size: nat, p: int, c: Seq<u32>) -> bool {
    &&& 0 <= p
    &&& p * size + size <= pages.len()
    &&& chunk(pages, size, p) == c
}

/// `pages` holds `c` as one of its pages.
pub open spec fn has_page(pages: Seq<u32>, size: nat, c: Seq<u32>) -> bool {
    exists|p: int| is_page(pages, size, p, c)
}

/// The number of a page of `pages` that equals `c`.
pub open spec fn page_number(pages: Seq<u32>, size: nat, c: Seq<u32>) -> int {
    choose|p: int| is_page(pages, size, p, c)
}

/// No two pages of `pages` are equal.
pub open spec fn pages_distinct(pages: Seq<u32>, size: nat) -> bool {
    forall|p: int, q: int|
        0 <= p && 0 <= q && p * size + size <= pages.len() && q * size + size <= pages.len()
            && #[trigger] chunk(pages, size, p) == #[trigger] chunk(pages, size, q) ==> p == q
}

/// The second-level table after the first `n` chunks of `t` were scanned
/// from the left: each chunk that is not yet a page is appended as one.
pub open spec fn pages_after(t: Seq<u32>, size: nat, n: nat) -> Seq<u32>
    decreases n,
{
    if n == 0 {
        Seq::empty()
    } else {
        let before = pages_after(t, size, (n - 1) as nat);
        let c = chunk(t, size, n - 1);
        if has_page(before, size, c) {
            before
        } else {
            before + c
        }
    }
}

/// The second-level table of `t` split into chunks of `2^shift` entries.
pub open spec fn index2_of(t: Seq<u32>, shift: nat) -> Seq<u32> {
    pages_after(t, pow2(shift), t.len() / pow2(shift))
}

/// The first-level table of `t` split into chunks of `2^shift` entries: for
/// each chunk the number of the page that holds it.
pub open spec fn index1_of(t: Seq<u32>, shift: nat) -> Seq<u32> {
    Seq::new(
        t.len() / pow2(shift),
        |k: int| page_number(index2_of(t, shift), pow2(shift), chunk(t, pow2(shift), k)) as u32,
    )
}

/// Entry `i` of `t` is found again in two indexed reads: the upper bits of
/// `i` select an entry of `index1`, which with the lower bits of `i` selects
/// an entry of `index2`.
pub open spec fn recovered_at(
    t: Seq<u32>,
    index1: Seq<u32>,
    index2: Seq<u32>,
    shift: u32,
    i: u64,
) -> bool {
    let high = i >> (shift as u64);
    let low = i & (((1u64 << (shift as u64)) - 1) as u64);
    &&& high < index1.len()
    &&& ((index1[high as int] as u64) << (shift as u64)) + low < index2.len()
    &&& t[i as int] == index2[((index1[high as int] as u64) << (shift as u64)) + low]
}

/// The recovery law of a two-level page table: every entry of `t` is found
/// again in two indexed reads.
pub open spec fn recovers(t: Seq<u32>, index1: Seq<u32>, index2: Seq<u32>, shift: u32) -> bool {
    forall|i: u64| i < t.len() ==> #[trigger] recovered_at(t, index1, index2, shift, i)
}

/// Entry `i` of `t`, at `k * size + j`, is entry `j` of the page whose
/// number `index1` gives for chunk `k`.
pub open spec fn recovered_by_division_at(
    t: Seq<u32>,
    index1: Seq<u32>,
    index2: Seq<u32>,
    size: nat,
    i: int,
) -> bool {
    &&& i / (size as int) < index1.len()
    &&& index1[i / (size as int)] * size + i % (size as int) < index2.len()
    &&& t[i] == index2[index1[i / (size as int)] * size + i % (size as int)]
}

/// The recovery law in terms of division and remainder.
pub open spec fn recovers_by_division(
    t: Seq<u32>,
    index1: Seq<u32>,
    index2: Seq<u32>,
    size: nat,
) -> bool {
    forall|i: int|
        0 <= i < t.len() ==> #[trigger] recovered_by_division_at(t, index1, index2, size, i)
}

/// The number of bytes that the two tables take, each stored with its
/// narrowest element type.
pub open spec fn byte_cost(index1: Seq<u32>, index2: Seq<u32>) -> nat {
    size_of(element_type_of(index1)) * index1.len() + size_of(element_type_of(index2))
        * index2.len()
}

/// The number of bytes that the split of `t` with `shift` takes.
pub open spec fn cost_at(t: Seq<u32>, shift: nat) -> nat {
    byte_cost(index1_of(t, shift), index2_of(t, shift))
}

/// `shift` is the shift whose split of `t` takes the fewest bytes among
/// those up to [`maximum_shift`], and the smallest such shift.
pub open spec fn is_best_shift(t: Seq<u32>, shift: nat) -> bool {
    &&& shift <= maximum_shift(t.len())
    &&& forall|other: nat|
        other <= maximum_shift(t.len()) ==> cost_at(t, shift) <= #[trigger] cost_at(t, other)
    &&& forall|other: nat| other < shift ==> cost_at(t, shift) < #[trigger] cost_at(t, other)
}

/// Only one shift is the best one: the split of a table is the same
/// whenever it is made.
pub proof fn lemma_best_shift_unique(t: Seq<u32>, a: nat, b: nat)
    requires
        is_best_shift(t, a),
        is_best_shift(t, b),
    ensures
        a == b,
{
    if a < b {
        assert(cost_at(t, b) < cost_at(t, a));
        assert(cost_at(t, a) <= cost_at(t, b));
    }
    if b < a {
        assert(cost_at(t, a) < cost_at(t, b));
        assert(cost_at(t, b) <= cost_at(t, a));
    }
}

/// Where the division form of the law holds and the tables are short enough
/// for 32-bit entries, the law holds as it is read with shifts and a mask.
pub proof fn lemma_recovers(t: Seq<u32>, index1: Seq<u32>, index2: Seq<u32>, shift: u32)
    requires
        shift < 32,
        t.len() <= u32::MAX,
        index2.len() <= u32::MAX,
        recovers_by_division(t, index1, index2, pow2(shift as nat)),
    ensures
        recovers(t, index1, index2, shift),
{
    let size = pow2(shift as nat);
    lemma_pow2_pos(shift as nat);
    lemma2_to64();
    lemma_pow2_strictly_increases(shift as nat, 32);
    assert forall|i: u64| i < t.len() implies #[trigger] recovered_at(
        t,
        index1,
        index2,
        shift,
        i,
    ) by {
        lemma_u64_shl_is_mul(1u64, shift as u64);
        assert((1u64 << (shift as u64)) == size);
        let high = i >> (shift as u64);
        let low = i & (((1u64 << (shift as u64)) - 1) as u64);
        lemma_u64_shr_is_div(i, shift as u64);
        lemma_u64_low_bits_mask_is_mod(i, shift as nat);
        assert(high == i as int / (size as int));
        assert(low == i as int % (size as int));
        assert(recovered_by_division_at(t, index1, index2, size, i as int));
        let page = index1[high as int];
        assert(page * size + low < index2.len());
        assert(page * size <= u64::MAX);
        lemma_u64_shl_is_mul(page as u64, shift as u64);
    }
}

/// A page that ends within `count` pages has a number below `count`.
proof fn lemma_page_within(p: int, count: int, size: int)
    requires
        size > 0,
        p * size + size <= count * size,
    ensures
        p < count,
{
    assert(p < count) by (nonlinear_arith)
        requires
            size > 0,
            p * size + size <= count * size,
    ;
}

/// The pages of `pages` stay what they are when more is appended.
proof fn lemma_chunk_of_prefix(pages: Seq<u32>, more: Seq<u32>, size: nat, p: int)
    requires
        0 <= p,
        p * size + size <= pages.len(),
    ensures
        chunk(pages + more, size, p) == chunk(pages, size, p),
{
    assert(p * size >= 0) by (nonlinear_arith)
        requires
            p >= 0,
            size >= 0,
    ;
    assert(chunk(pages + more, size, p) =~= chunk(pages, size, p));
}

/// Whether the `size` entries of `a` from `i` equal those of `b` from `j`.
fn chunks_equal(a: &Vec<u32>, i: usize, b: &Vec<u32>, j: usize, size: usize) -> (same: bool)
    requires
        i + size <= a.len(),
        j + size <= b.len(),
    ensures
        same == (a@.subrange(i as int, i + size) == b@.subrange(j as int, j + size)),
{
    let ghost sa = a@.subrange(i as int, i + size);
    let ghost sb = b@.subrange(j as int, j + size);
    let mut n: usize = 0;
    while n < size
        invariant
            n <= size,
            i + size <= a.len(),
            j + size <= b.len(),
            sa == a@.subrange(i as int, i + size),
            sb == b@.subrange(j as int, j + size),
            forall|m: int| 0 <= m < n ==> sa[m] == sb[m],
        decreases size - n,
    {
        if a[i + n] != b[j + n] {
            proof {
                assert(sa[n as int] == a[i + n]);
                assert(sb[n as int] == b[j + n]);
            }
            return false;
        }
        proof {
            assert(sa[n as int] == a[i + n]);
            assert(sb[n as int] == b[j + n]);
        }
        n += 1;
    }
    proof {
        assert(sa =~= sb);
    }
    true
}

/// The position in `pages` at which the page starts that equals the chunk
/// of `t` from `i`, if there is one.
fn find_page(pages: &Vec<u32>, t: &Vec<u32>, i: usize, size: usize, Ghost(count): Ghost<int>) -> (at:
    Option<usize>)
    requires
        size > 0,
        0 <= count,
        pages.len() == count * size,
        i + size <= t.len(),
    ensures
        match at {
            Some(start) => exists|p: int|
                0 <= p < count && start == p * size && #[trigger] is_page(
                    pages@,
                    size as nat,
                    p,
                    t@.subrange(i as int, i + size),
                ),
            None => !has_page(pages@, size as nat, t@.subrange(i as int, i + size)),
        },
{
    let ghost c = t@.subrange(i as int, i + size);
    let mut start: usize = 0;
    let ghost mut p: int = 0;
    while start < pages.len()
        invariant
            size > 0,
            0 <= count,
            pages.len() == count * size,
            i + size <= t.len(),
            c == t@.subrange(i as int, i + size),
            0 <= p <= count,
            start == p * size,
            forall|q: int| 0 <= q < p ==> !is_page(pages@, size as nat, q, c),
        decreases pages.len() - start,
    {
        proof {
            assert(p < count) by (nonlinear_arith)
                requires
                    p * size < count * size,
                    size > 0,
            ;
            assert(p * size + size <= count * size) by (nonlinear_arith)
                requires
                    p + 1 <= count,
                    size > 0,
            ;
        }
        if chunks_equal(t, i, pages, start, size) {
            proof {
                assert(is_page(pages@, size as nat, p, c));
            }
            return Some(start);
        }
        proof {
            assert((p + 1) * size == p * size + size) by (nonlinear_arith);
            p = p + 1;
        }
        start += size;
    }
    proof {
        assert forall|q: int| !is_page(pages@, size as nat, q, c) by {
            if 0 <= q && q * size + size <= pages@.len() {
                lemma_page_within(q, count, size as int);
                assert(q < p) by (nonlinear_arith)
                    requires
                        q < count,
                        p * size >= count * size,
                        size > 0,
                ;
            }
        }
    }
    None
}

/// `index1` and `index2` are the two tables of `t` split into chunks of
/// `size` entries: `index2` holds each distinct chunk once, in the order in
/// which the chunks first occur, and `index1` holds for each chunk the
/// number of its page.
pub open spec fn is_split(t: Seq<u32>, size: nat, index1: Seq<u32>, index2: Seq<u32>) -> bool {
    &&& index1.len() * size == t.len()
    &&& index2 == pages_after(t, size, index1.len())
    &&& pages_distinct(index2, size)
    &&& forall|k: int|
        0 <= k < index1.len() ==> #[trigger] is_page(
            index2,
            size,
            index1[k] as int,
            chunk(t, size, k),
        )
}

/// A split stores every chunk of `t`, so the law holds of it.
pub proof fn lemma_split_recovers(t: Seq<u32>, size: nat, index1: Seq<u32>, index2: Seq<u32>)
    requires
        size > 0,
        is_split(t, size, index1, index2),
    ensures
        recovers_by_division(t, index1, index2, size),
{
    assert forall|i: int| 0 <= i < t.len() implies #[trigger] recovered_by_division_at(
        t,
        index1,
        index2,
        size,
        i,
    ) by {
        let k = i / (size as int);
        let j = i % (size as int);
        lemma_fundamental_div_mod(i, size as int);
        assert(k < index1.len()) by (nonlinear_arith)
            requires
                i == (size as int) * k + j,
                0 <= j,
                i < index1.len() * size,
                size > 0,
        ;
        assert(0 <= k) by (nonlinear_arith)
            requires
                i == (size as int) * k + j,
                j < size,
                0 <= i,
                size > 0,
        ;
        let page = index1[k] as int;
        assert(is_page(index2, size, page, chunk(t, size, k)));
        assert(k * size + size <= t.len()) by (nonlinear_arith)
            requires
                k + 1 <= index1.len(),
                index1.len() * size == t.len(),
                size > 0,
        ;
        assert(k * size == (size as int) * k) by (nonlinear_arith);
        assert(chunk(t, size, k)[j] == t[k * size + j]);
        assert(chunk(index2, size, page)[j] == index2[page * size + j]);
    }
}

/// Only one pair of tables is the split of `t` into chunks of `size`
/// entries.
pub proof fn lemma_split_unique(
    t: Seq<u32>,
    size: nat,
    index1: Seq<u32>,
    index2: Seq<u32>,
    other1: Seq<u32>,
    other2: Seq<u32>,
)
    requires
        size > 0,
        is_split(t, size, index1, index2),
        is_split(t, size, other1, other2),
    ensures
        index1 == other1,
        index2 == other2,
{
    assert(index1.len() == other1.len()) by (nonlinear_arith)
        requires
            index1.len() * size == other1.len() * size,
            size > 0,
    ;
    assert forall|k: int| 0 <= k < index1.len() implies index1[k] == other1[k] by {
        assert(is_page(index2, size, index1[k] as int, chunk(t, size, k)));
        assert(is_page(other2, size, other1[k] as int, chunk(t, size, k)));
    }
    assert(index1 =~= other1);
}

/// The split of `t` into chunks of `2^shift` entries is the pair
/// [`index1_of`], [`index2_of`].
pub proof fn lemma_split_is_index_of(t: Seq<u32>, shift: nat, index1: Seq<u32>, index2: Seq<u32>)
    requires
        is_split(t, pow2(shift), index1, index2),
    ensures
        index1 == index1_of(t, shift),
        index2 == index2_of(t, shift),
{
    let size = pow2(shift);
    lemma_pow2_pos(shift);
    lemma_div_multiples_vanish(index1.len() as int, size as int);
    assert(index1.len() * size == size * index1.len()) by (nonlinear_arith);
    assert(t.len() / size == index1.len());
    assert forall|k: int| 0 <= k < index1.len() implies index1[k] == index1_of(t, shift)[k] by {
        let c = chunk(t, size, k);
        assert(is_page(index2, size, index1[k] as int, c));
        let p = page_number(index2, size, c);
        assert(is_page(index2, size, p, c));
    }
    assert(index1 =~= index1_of(t, shift));
}

/// Split `t` into chunks of `2^shift` entries: the second table holds each
/// distinct chunk once, in the order in which the chunks first occur in
/// `t`, and the first table holds for each chunk the number of its page.
pub fn split_at_shift(t: &Vec<u32>, shift: u32) -> (tables: (Vec<u32>, Vec<u32>))
    requires
        shift < 32,
        0 < t.len() <= u32::MAX,
        t@.len() as int % (pow2(shift as nat) as int) == 0,
    ensures
        is_split(t@, pow2(shift as nat), tables.0@, tables.1@),
        tables.0@ == index1_of(t@, shift as nat),
        tables.1@ == index2_of(t@, shift as nat),
        recovers(t@, tables.0@, tables.1@, shift),
        0 < tables.0.len() <= t.len(),
        0 < tables.1.len() <= t.len(),
{
    let ghost size_nat = pow2(shift as nat);
    let ghost total: int = t.len() as int / (size_nat as int);
    proof {
        lemma_pow2_pos(shift as nat);
        lemma2_to64();
        if shift < 31 {
            lemma_pow2_strictly_increases(shift as nat, 31);
        }
        lemma_usize_shl_is_mul(1usize, shift as usize);
        lemma_fundamental_div_mod(t.len() as int, size_nat as int);
        assert(total * size_nat == size_nat * total) by (nonlinear_arith);
    }
    let size: usize = 1usize << shift;
    let mut index1: Vec<u32> = Vec::new();
    let mut index2: Vec<u32> = Vec::new();
    let mut i: usize = 0;
    let ghost mut k: int = 0;
    let ghost mut count: int = 0;
    while i < t.len()
        invariant
            shift < 32,
            size == size_nat,
            size_nat == pow2(shift as nat),
            size > 0,
            t.len() <= u32::MAX,
            total * size == t.len(),
            0 <= k <= total,
            i == k * size,
            0 <= count <= k,
            index2.len() == count * size,
            index1.len() == k,
            index2@ == pages_after(t@, size_nat, k as nat),
            pages_distinct(index2@, size_nat),
            forall|j: int|
                0 <= j < k ==> #[trigger] is_page(
                    index2@,
                    size_nat,
                    index1@[j] as int,
                    chunk(t@, size_nat, j),
                ),
        decreases t.len() - i,
    {
        let ghost c = chunk(t@, size_nat, k);
        let ghost before1 = index1@;
        let ghost before2 = index2@;
        proof {
            assert(k < total) by (nonlinear_arith)
                requires
                    k * size < total * size,
                    size > 0,
            ;
            assert(k * size + size <= total * size) by (nonlinear_arith)
                requires
                    k + 1 <= total,
                    size > 0,
            ;
            assert(count * size <= k * size) by (nonlinear_arith)
                requires
                    count <= k,
                    size > 0,
            ;
            assert(c == t@.subrange(i as int, i + size));
        }
        let start: usize = match find_page(&index2, t, i, size, Ghost(count)) {
            Some(start) => start,
            None => {
                let start = index2.len();
                let mut n: usize = 0;
                while n < size
                    invariant
                        n <= size,
                        i + size <= t.len(),
                        index2@ == before2 + t@.subrange(i as int, i + n),
                    decreases size - n,
                {
                    index2.push(t[i + n]);
                    proof {
                        assert(index2@ =~= before2 + t@.subrange(i as int, i + n + 1));
                    }
                    n += 1;
                }
                start
            },
        };
        let ghost p: int = if has_page(before2, size_nat, c) {
            choose|p: int|
                0 <= p < count && start == p * size && #[trigger] is_page(before2, size_nat, p, c)
        } else {
            count
        };
        proof {
            assert(pages_after(t@, size_nat, (k + 1) as nat) == if has_page(before2, size_nat, c) {
                before2
            } else {
                before2 + c
            });
            if has_page(before2, size_nat, c) {
                assert(index2@ == before2);
            } else {
                assert(index2@ == before2 + c);
                assert((count + 1) * size == count * size + size) by (nonlinear_arith);
                assert(chunk(index2@, size_nat, count) =~= c);
                assert forall|j: int| 0 <= j < k implies #[trigger] is_page(
                    index2@,
                    size_nat,
                    before1[j] as int,
                    chunk(t@, size_nat, j),
                ) by {
                    assert(is_page(before2, size_nat, before1[j] as int, chunk(t@, size_nat, j)));
                    lemma_chunk_of_prefix(before2, c, size_nat, before1[j] as int);
                }
                assert forall|a: int, b: int|
                    0 <= a && 0 <= b && a * size_nat + size_nat <= index2@.len() && b * size_nat
                        + size_nat <= index2@.len() && #[trigger] chunk(index2@, size_nat, a)
                        == #[trigger] chunk(index2@, size_nat, b) implies a == b by {
                    lemma_page_within(a, count + 1, size as int);
                    lemma_page_within(b, count + 1, size as int);
                    if a < count {
                        assert(a * size + size <= count * size) by (nonlinear_arith)
                            requires
                                a + 1 <= count,
                                size > 0,
                        ;
                        lemma_chunk_of_prefix(before2, c, size_nat, a);
                    }
                    if b < count {
                        assert(b * size + size <= count * size) by (nonlinear_arith)
                            requires
                                b + 1 <= count,
                                size > 0,
                        ;
                        lemma_chunk_of_prefix(before2, c, size_nat, b);
                    }
                    if a < count && b == count {
                        assert(is_page(before2, size_nat, a, c));
                    }
                    if b < count && a == count {
                        assert(is_page(before2, size_nat, b, c));
                    }
                }
            }
            assert(is_page(index2@, size_nat, p, c));
            assert(start == p * size);
            assert(p * size <= k * size) by (nonlinear_arith)
                requires
                    p <= k,
                    size > 0,
            ;
            lemma_u32_shr_is_div(start as u32, shift);
            lemma_div_multiples_vanish(p, size as int);
            assert(p * size == size * p) by (nonlinear_arith);
            assert((k + 1) * size == k * size + size) by (nonlinear_arith);
        }
        index1.push((start as u32) >> shift);
        proof {
            if !has_page(before2, size_nat, c) {
                count = count + 1;
            }
            k = k + 1;
        }
        i += size;
    }
    proof {
        assert(k == total) by (nonlinear_arith)
            requires
                k * size >= total * size,
                k <= total,
                size > 0,
        ;
        assert(total > 0) by (nonlinear_arith)
            requires
                total * size > 0,
                size > 0,
        ;
        assert(count * size <= total * size) by (nonlinear_arith)
            requires
                count <= total,
                size > 0,
        ;
        assert(total <= total * size) by (nonlinear_arith)
            requires
                total >= 0,
                size > 0,
        ;
        assert(is_page(index2@, size_nat, index1@[0] as int, chunk(t@, size_nat, 0)));
        lemma_split_is_index_of(t@, shift as nat, index1@, index2@);
        lemma_split_recovers(t@, size_nat, index1@, index2@);
        lemma_recovers(t@, index1@, index2@, shift);
    }
    (index1, index2)
}

/// A table whose length is a multiple of `2^high` can be cut into chunks of
/// `2^low` entries for every `low <= high`.
proof fn lemma_smaller_chunks_fit(len: nat, low: nat, high: nat)
    requires
        low <= high,
        len as int % (pow2(high) as int) == 0,
    ensures
        len as int % (pow2(low) as int) == 0,
{
    lemma_pow2_pos(high);
    lemma_pow2_pos(low);
    lemma_pow2_pos((high - low) as nat);
    lemma_pow2_adds(low, (high - low) as nat);
    lemma_fundamental_div_mod(len as int, pow2(high) as int);
    let m = len as int / (pow2(high) as int);
    let factor = m * pow2((high - low) as nat);
    assert(len == factor * pow2(low)) by (nonlinear_arith)
        requires
            len == pow2(high) * m,
            pow2(high) == pow2(low) * pow2((high - low) as nat),
            factor == m * pow2((high - low) as nat),
    ;
    lemma_mod_multiples_basic(factor, pow2(low) as int);
}

/// Whether a table of `len` entries can be split: it is not empty, 32 bits
/// hold its length, and its length is a multiple of the largest chunk size
/// that is tried.
pub open spec fn splits(len: nat) -> bool {
    0 < len <= u32::MAX && len as int % (pow2(maximum_shift(len)) as int) == 0
}

/// A table whose length is a power of two that 32 bits hold can be split.
pub proof fn lemma_power_of_two_splits(exponent: nat)
    requires
        pow2(exponent) <= u32::MAX,
    ensures
        splits(pow2(exponent)),
{
    let len = pow2(exponent);
    let shift = maximum_shift(len);
    lemma_pow2_pos(exponent);
    lemma_maximum_shift(len);
    if shift > 0 {
        if shift >= exponent {
            if shift > exponent {
                lemma_pow2_strictly_increases(exponent, shift);
            }
            assert(false);
        }
        lemma_pow2_pos(exponent);
        lemma_mod_self_0(pow2(exponent) as int);
        lemma_smaller_chunks_fit(len, shift, exponent);
    } else {
        lemma2_to64();
    }
}

/// A table with one entry for each BMP code point can be split.
pub proof fn lemma_bmp_table_splits()
    ensures
        splits(0x10000),
{
    lemma2_to64();
    lemma_power_of_two_splits(16);
}

/// Whether `t` can be split with [`split_table`].
pub fn can_split(t: &Vec<u32>) -> (can: bool)
    ensures
        can == splits(t@.len()),
{
    if t.len() == 0 || t.len() > 0xFFFF_FFFF {
        return false;
    }
    let shift = compute_maximum_shift(t);
    proof {
        lemma_maximum_shift(t@.len());
        lemma_pow2_pos(shift as nat);
        lemma2_to64();
        if shift > 0 {
            lemma_usize_shl_is_mul(1usize, shift as usize);
        }
    }
    if shift == 0 {
        return true;
    }
    let size: usize = 1usize << shift;
    t.len() % size == 0
}

/// Given a (large) table `t` of values, return the best possible splitting of
/// that table into a two-level page table.
///
/// Various code point information is conceptually determined by looking up a
/// value in an array, by code point.  Even given that we can limit this to only
/// BMP code points, that's still a 64K-element array: a lot of memory!  And for
/// our use cases, most of those elements have identical values.
///
/// So `t` is cut into chunks of `2^N` entries.  `index2` stores each
/// distinct chunk once, and `index1` stores for each chunk of `t` the number
/// of the page of `index2` that holds it.  An entry is read back as
///
/// ```text
/// let mask = (1 << N) - 1;
/// t[i] == index2[(index1[i >> N] << N) + (i & mask)]
/// ```
///
/// Every `N` from 0 to [`maximum_shift`] is tried, and the one whose two
/// tables take the fewest bytes is returned; of several such, the smallest.
///
/// The length of `t` has to be a multiple of the largest chunk size tried,
/// which makes it a power of two: pad the table before the call.
/// [`can_split`] tells whether it is.
pub fn split_table(t: &Vec<u32>) -> (best: TableSplit)
    requires
        splits(t@.len()),
    ensures
        best.shift <= maximum_shift(t@.len()),
        is_split(t@, pow2(best.shift as nat), best.index1@, best.index2@),
        best.index1@ == index1_of(t@, best.shift as nat),
        best.index2@ == index2_of(t@, best.shift as nat),
        best.index1_elem_type == element_type_of(best.index1@),
        best.index2_elem_type == element_type_of(best.index2@),
        recovers(t@, best.index1@, best.index2@, best.shift),
        is_best_shift(t@, best.shift as nat),
        byte_cost(best.index1@, best.index2@) <= byte_cost(index1_of(t@, 0), index2_of(t@, 0)),
{
    // The memory consumed by the current best splitting.  (Initialized to
    // more than any splitting takes so that the first iteration of the loop
    // below overwrites it.)
    let mut best_bytes: u64 = u64::MAX;

    // The current best splitting -- immediately overwritten.
    let mut best = TableSplit {
        index1: Vec::new(),
        index1_elem_type: NumericType::U8,
        index2: Vec::new(),
        index2_elem_type: NumericType::U8,
        shift: 0,
    };

    // The maximum possible downshift of a valid index of `t` that will produce
    // _some_ nonzero value.
    let max_shift = compute_maximum_shift(t);
    proof {
        lemma_maximum_shift(t@.len());
        lemma2_to64();
        if max_shift >= 32 {
            if max_shift > 32 {
                lemma_pow2_strictly_increases(32, max_shift as nat);
            }
        }
    }

    // For every possible shift that leaves some index into `t` nonzero...
    let mut candidate_shift: u32 = 0;
    while candidate_shift <= max_shift
        invariant
            0 < t.len() <= u32::MAX,
            t@.len() as int % (pow2(maximum_shift(t@.len())) as int) == 0,
            max_shift == maximum_shift(t@.len()),
            max_shift < 32,
            candidate_shift <= max_shift + 1,
            candidate_shift == 0 ==> best_bytes == u64::MAX,
            candidate_shift > 0 ==> {
                &&& best.shift < candidate_shift
                &&& best_bytes == cost_at(t@, best.shift as nat)
                &&& is_split(t@, pow2(best.shift as nat), best.index1@, best.index2@)
                &&& best.index1@ == index1_of(t@, best.shift as nat)
                &&& best.index2@ == index2_of(t@, best.shift as nat)
                &&& best.index1_elem_type == element_type_of(best.index1@)
                &&& best.index2_elem_type == element_type_of(best.index2@)
                &&& recovers(t@, best.index1@, best.index2@, best.shift)
            },
            forall|s: nat| s < candidate_shift ==> best_bytes <= #[trigger] cost_at(t@, s),
            forall|s: nat| s < best.shift ==> best_bytes < #[trigger] cost_at(t@, s),
        decreases max_shift + 1 - candidate_shift,
    {
        proof {
            lemma_smaller_chunks_fit(t@.len(), candidate_shift as nat, max_shift as nat);
        }
        //  Let `t` be split into chunks of the corresponding size.
        let (index1, index2) = split_at_shift(t, candidate_shift);

        let index1_elem_type = get_element_type(&index1);
        let index2_elem_type = get_element_type(&index2);

        let width1 = get_size(index1_elem_type);
        let width2 = get_size(index2_elem_type);
        proof {
            assert(width1 * index1.len() <= 4 * 0xFFFF_FFFF) by (nonlinear_arith)
                requires
                    width1 <= 4,
                    index1.len() <= 0xFFFF_FFFF,
            ;
            assert(width2 * index2.len() <= 4 * 0xFFFF_FFFF) by (nonlinear_arith)
                requires
                    width2 <= 4,
                    index2.len() <= 0xFFFF_FFFF,
            ;
        }
        let index1_size: u64 = width1 as u64 * index1.len() as u64;
        let index2_size: u64 = width2 as u64 * index2.len() as u64;

        // If the total size of `index1` and `index2` beats the previous best,
        // update with the new best result.
        let bytes: u64 = index1_size + index2_size;
        if bytes < best_bytes {
            best =
            TableSplit {
                index1,
                index1_elem_type,
                index2,
                index2_elem_type,
                shift: candidate_shift,
            };
            best_bytes = bytes;
        }
        candidate_shift += 1;
    }
    proof {
        assert(cost_at(t@, best.shift as nat) <= cost_at(t@, 0));
    }
    best
}

} // verus!
