//! Bit-level facts about page indices, stated once and proved by bit-vector
//! reasoning, so the rest of the crate can work with plain division and
//! modulus.

use vstd::prelude::*;

verus! {

/// The four 9-bit table-index fields of a page index, as arithmetic.
pub open spec fn p4_field(i: u64) -> int {
    (i as int / 0x8000000) % 512
}

pub open spec fn p3_field(i: u64) -> int {
    (i as int / 0x40000) % 512
}

pub open spec fn p2_field(i: u64) -> int {
    (i as int / 512) % 512
}

pub open spec fn p1_field(i: u64) -> int {
    i as int % 512
}

/// Recomposition of the four fields: `(((p4 << 9 | p3) << 9 | p2) << 9) | p1`.
pub open spec fn recompose(p4: int, p3: int, p2: int, p1: int) -> int {
    ((p4 * 512 + p3) * 512 + p2) * 512 + p1
}

/// Shift-and-mask extraction agrees with division and modulus.
pub proof fn lemma_shift_fields(x: u64)
    ensures
        (x >> 27) & 511 == p4_field(x),
        (x >> 18) & 511 == p3_field(x),
        (x >> 9) & 511 == p2_field(x),
        x & 511 == p1_field(x),
{
    assert((x >> 27) & 511 == (x / 0x8000000) % 512) by (bit_vector);
    assert((x >> 18) & 511 == (x / 0x40000) % 512) by (bit_vector);
    assert((x >> 9) & 511 == (x / 512) % 512) by (bit_vector);
    assert(x & 511 == x % 512) by (bit_vector);
}

/// The four fields of a page index recompose to the index modulo `2^36`.
pub proof fn lemma_recompose_mod(x: u64)
    ensures
        recompose(p4_field(x), p3_field(x), p2_field(x), p1_field(x)) == x as int % 0x1000000000,
{
    assert((((((x / 0x8000000) % 512) * 512 + (x / 0x40000) % 512) * 512 + (x / 512) % 512) * 512
        + x % 512) == x % 0x1000000000) by (bit_vector);
}

/// Each field is a valid table index.
pub proof fn lemma_fields_bounded(i: u64)
    ensures
        0 <= p4_field(i) < 512,
        0 <= p3_field(i) < 512,
        0 <= p2_field(i) < 512,
        0 <= p1_field(i) < 512,
{
}

/// Two canonical page indices that agree modulo `2^36` are equal, so the four
/// index fields identify a canonical page uniquely.
pub proof fn lemma_canonical_mod_inject(x: u64, y: u64)
    requires
        x < 0x800000000 || (0xffff800000000 <= x && x < 0x10000000000000),
        y < 0x800000000 || (0xffff800000000 <= y && y < 0x10000000000000),
        x as int % 0x1000000000 == y as int % 0x1000000000,
    ensures
        x == y,
{
    assert((x < 0x800000000 || (0xffff800000000 <= x && x < 0x10000000000000)) && (y
        < 0x800000000 || (0xffff800000000 <= y && y < 0x10000000000000)) && x % 0x1000000000 == y
        % 0x1000000000 ==> x == y) by (bit_vector);
}

/// The integers of `[start, end]`, in ascending order.
pub open spec fn range_seq(start: nat, end: nat) -> Seq<nat>
    decreases end + 1 - start,
{
    if start > end {
        Seq::empty()
    } else {
        seq![start] + range_seq(start + 1, end)
    }
}

/// Basic shape facts about `range_seq`, for iterator contracts.
pub proof fn lemma_range_seq(start: nat, end: nat)
    ensures
        start > end ==> range_seq(start, end) == Seq::<nat>::empty(),
        start <= end ==> range_seq(start, end).len() == end + 1 - start,
        start <= end ==> range_seq(start, end)[0] == start,
        start <= end ==> range_seq(start, end).drop_first() == range_seq(start + 1, end),
    decreases end + 1 - start,
{
    if start <= end {
        lemma_range_seq(start + 1, end);
        assert(range_seq(start, end).drop_first() =~= range_seq(start + 1, end));
    }
}

/// Membership in `range_seq` is membership in the interval.
pub proof fn lemma_range_seq_index(start: nat, end: nat, k: int)
    requires
        0 <= k,
        start + k <= end,
    ensures
        range_seq(start, end).len() > k,
        range_seq(start, end)[k] == start + k,
    decreases end + 1 - start,
{
    if k > 0 {
        lemma_range_seq_index(start + 1, end, k - 1);
    }
}

} // verus!
