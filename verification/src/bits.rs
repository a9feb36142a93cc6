//! Word-level facts about the bit layers of a map.
use vstd::prelude::*;

verus! {

/// Bit `j` of `x`.
pub open spec fn bit(x: u32, j: u32) -> bool {
    (x >> j) & 1u32 == 1u32
}

/// Painting `m` into one layer and clearing it from another keeps two
/// disjoint words disjoint, in either order; clearing it from both does too.
pub proof fn lemma_disjoint_after_paint(a: u32, b: u32, m: u32)
    by (bit_vector)
    requires
        a & b == 0,
    ensures
        (a | m) & (b & !m) == 0,
        (a & !m) & (b | m) == 0,
        (a & !m) & (b & !m) == 0,
{
}

/// Words without bits outside `k` stay so under painting and clearing.
pub proof fn lemma_inside_after_paint(a: u32, m: u32, k: u32)
    by (bit_vector)
    requires
        a & !k == 0,
    ensures
        m & !k == 0 ==> (a | m) & !k == 0,
        (a & !m) & !k == 0,
        (a & m) & !k == 0,
        (m & a) & !k == 0,
        (m & k) & !k == 0,
        k & !k == 0,
        0u32 & !k == 0,
{
}

/// The words `!0`, `0` and `(1 << r) - 1` bit by bit.
pub proof fn lemma_bits_of_constants(j: u32, r: u32)
    by (bit_vector)
    requires
        j < 32,
        r < 32,
    ensures
        bit(0xffff_ffffu32, j),
        !bit(0u32, j),
        bit(((1u32 << r) - 1u32) as u32, j) == (j < r),
        bit(1u32 << r, j) == (j == r),
{
}

/// Bitwise operators bit by bit.
pub proof fn lemma_bits_of_ops(a: u32, b: u32, j: u32)
    by (bit_vector)
    requires
        j < 32,
    ensures
        bit(a | b, j) == (bit(a, j) || bit(b, j)),
        bit(a & b, j) == (bit(a, j) && bit(b, j)),
        bit(!a, j) == !bit(a, j),
        bit(a ^ b, j) == (bit(a, j) != bit(b, j)),
{
}

} // verus!

verus! {

/// The zero word against any word.
pub proof fn lemma_zero_word(k: u32)
    by (bit_vector)
    ensures
        0u32 & k == 0,
        k & 0u32 == 0,
        0u32 & !k == 0,
        0u32 | k == k,
{
}

} // verus!

verus! {

/// `(1 << r) - 1` does not underflow.
pub proof fn lemma_shift_pos(r: u32)
    by (bit_vector)
    requires
        r < 32,
    ensures
        1u32 << r >= 1,
{
}

/// Clearing a set bit `b` lowers the word and clears exactly that bit.
pub proof fn lemma_clear_bit(m: u32, b: u32, j: u32)
    by (bit_vector)
    requires
        b < 32,
        j < 32,
        (m >> b) & 1u32 == 1u32,
    ensures
        m ^ (1u32 << b) < m,
        ((m ^ (1u32 << b)) >> j) & 1u32 == 1u32 <==> (((m >> j) & 1u32 == 1u32) && j != b),
{
}

} // verus!

verus! {

/// Testing a bit with a one-bit mask.
pub proof fn lemma_bit_test(x: u32, b: u32)
    by (bit_vector)
    requires
        b < 32,
    ensures
        (x & (1u32 << b) != 0) == ((x >> b) & 1u32 == 1u32),
{
}

} // verus!

verus! {

/// The zero word has no bit set.
pub proof fn lemma_zero_bits()
    ensures
        forall|j: u32| j < 32 ==> !bit(0u32, j),
{
    assert forall|j: u32| j < 32 implies !bit(0u32, j) by {
        lemma_bits_of_constants(j, 0);
    }
}

} // verus!

verus! {

/// A bit below `r` lies inside the mask of the low `r` bits.
pub proof fn lemma_low_bit_in_mask(b: u32, r: u32)
    by (bit_vector)
    requires
        b < r,
        r < 32,
    ensures
        (1u32 << b) & !(((1u32 << r) - 1u32) as u32) == 0,
{
}

/// Nothing lies outside the full mask.
pub proof fn lemma_full_mask(x: u32)
    by (bit_vector)
    ensures
        x & !0xffff_ffffu32 == 0,
        x & 0xffff_ffffu32 == x,
{
}

/// Taking the highest set bit (`31 - leading_zeros`) of a nonzero word.
pub proof fn lemma_top_bit(m: u32, lz: u32)
    by (bit_vector)
    requires
        m != 0,
        lz < 32,
        (m >> (31u32 - lz) as u32) & 1u32 != 0u32,
    ensures
        (m >> (31u32 - lz) as u32) & 1u32 == 1u32,
{
}

} // verus!

verus! {

/// A single bit found in a word without bits outside `k` lies inside `k`.
pub proof fn lemma_single_bit_inside(b: u32, x: u32, k: u32)
    by (bit_vector)
    requires
        b < 32,
        x & !k == 0,
        x & (1u32 << b) != 0,
    ensures
        (1u32 << b) & !k == 0,
{
}

} // verus!

verus! {

/// A bit extracted by shift and mask is 0 or 1.
pub proof fn lemma_extracted_bit(x: u32, i: u32)
    by (bit_vector)
    ensures
        (x >> i) & 1u32 <= 1u32,
{
}

} // verus!
