//! The neighbour-count rule of the smoothing step, 32 cells at a time.
use vstd::prelude::*;
use crate::bits::{bit, lemma_bits_of_constants, lemma_bits_of_ops, lemma_extracted_bit, lemma_zero_bits};

verus! {

/// Bit `j` of `x` as a number.
pub open spec fn bitv(x: u32, j: u32) -> int {
    if bit(x, j) {
        1
    } else {
        0
    }
}

/// How many of the eight words have bit `j` set: the number of neighbours
/// of the cell at bit `j` that hold the terrain.
pub open spec fn neighbour_count(
    ml: u32,
    mr: u32,
    ul: u32,
    uc: u32,
    ur: u32,
    dl: u32,
    dc: u32,
    dr: u32,
    j: u32,
) -> int {
    bitv(ml, j) + bitv(mr, j) + bitv(ul, j) + bitv(uc, j) + bitv(ur, j) + bitv(dl, j) + bitv(dc, j)
        + bitv(dr, j)
}

/// The four-bit number that bit `j` of `b0`..`b3` spell.
pub open spec fn nibble(b0: u32, b1: u32, b2: u32, b3: u32, j: u32) -> int {
    bitv(b0, j) + 2 * bitv(b1, j) + 4 * bitv(b2, j) + 8 * bitv(b3, j)
}

spec fn bv(b: bool) -> int {
    if b {
        1
    } else {
        0
    }
}

/// The adder network on single bits counts its eight inputs.
proof fn lemma_adder_network(ml: bool, mr: bool, ul: bool, uc: bool, ur: bool, dl: bool, dc: bool, dr: bool)
    ensures
        ({
            let s0 = ml != mr;
            let c1 = ml && mr;
            let t1 = ul != uc;
            let s1 = t1 != ur;
            let c2 = (ul && uc) || (t1 && ur);
            let t2 = dl != dc;
            let s2 = t2 != dr;
            let c3 = (dl && dc) || (t2 && dr);
            let t3 = s0 != s1;
            let s01 = t3 != s2;
            let c11 = (s0 && s1) || (t3 && s2);
            let t4 = c1 != c2;
            let s10 = t4 != c3;
            let c20 = (c1 && c2) || (t4 && c3);
            let s11 = s10 != c11;
            let c21 = s10 && c11;
            let s20 = c20 != c21;
            let c30 = c20 && c21;
            bv(s01) + 2 * bv(s11) + 4 * bv(s20) + 8 * bv(c30) == bv(ml) + bv(mr) + bv(ul) + bv(uc)
                + bv(ur) + bv(dl) + bv(dc) + bv(dr)
        }),
{
}

/// The two formulas for counts in `[2, 4]` and in `[2, 6]`.
proof fn lemma_range_formulas(b0: bool, b1: bool, b2: bool, b3: bool)
    ensures
        ((!b3 && !b2 && b1) || (!b3 && b2 && !b1 && !b0)) == (2 <= bv(b0) + 2 * bv(b1) + 4 * bv(b2)
            + 8 * bv(b3) <= 4),
        ((!b3 && !b2 && b1) || (!b3 && b2 && !b1) || (!b3 && b2 && b1 && !b0)) == (2 <= bv(b0) + 2
            * bv(b1) + 4 * bv(b2) + 8 * bv(b3) <= 6),
{
}

/// The word formula for counts in `[2, 4]`, bit by bit.
proof fn lemma_mask_2_4(b0: u32, b1: u32, b2: u32, b3: u32, j: u32)
    requires
        j < 32,
    ensures
        bit((!b3 & !b2 & b1) | (!b3 & b2 & !b1 & !b0), j) == (2 <= nibble(b0, b1, b2, b3, j) <= 4),
{
    lemma_bits_of_ops(b3, b2, j);
    lemma_bits_of_ops(b2, b1, j);
    lemma_bits_of_ops(b1, b0, j);
    lemma_bits_of_ops(b0, b3, j);
    lemma_bits_of_ops(!b3, !b2, j);
    lemma_bits_of_ops(!b3 & !b2, b1, j);
    lemma_bits_of_ops(!b3, b2, j);
    lemma_bits_of_ops(!b3 & b2, !b1, j);
    lemma_bits_of_ops(!b3 & b2 & !b1, !b0, j);
    lemma_bits_of_ops(!b3 & !b2 & b1, !b3 & b2 & !b1 & !b0, j);
    lemma_range_formulas(bit(b0, j), bit(b1, j), bit(b2, j), bit(b3, j));
}

/// The word formula for counts in `[2, 6]`, bit by bit.
proof fn lemma_mask_2_6(b0: u32, b1: u32, b2: u32, b3: u32, j: u32)
    requires
        j < 32,
    ensures
        bit((!b3 & !b2 & b1) | (!b3 & b2 & !b1) | (!b3 & b2 & b1 & !b0), j) == (2 <= nibble(
            b0,
            b1,
            b2,
            b3,
            j,
        ) <= 6),
{
    lemma_bits_of_ops(b3, b2, j);
    lemma_bits_of_ops(b2, b1, j);
    lemma_bits_of_ops(b1, b0, j);
    lemma_bits_of_ops(b0, b3, j);
    lemma_bits_of_ops(!b3, !b2, j);
    lemma_bits_of_ops(!b3 & !b2, b1, j);
    lemma_bits_of_ops(!b3, b2, j);
    lemma_bits_of_ops(!b3 & b2, !b1, j);
    lemma_bits_of_ops(!b3 & b2, b1, j);
    lemma_bits_of_ops(!b3 & b2 & b1, !b0, j);
    lemma_bits_of_ops(!b3 & !b2 & b1, !b3 & b2 & !b1, j);
    lemma_bits_of_ops((!b3 & !b2 & b1) | (!b3 & b2 & !b1), !b3 & b2 & b1 & !b0, j);
    lemma_range_formulas(bit(b0, j), bit(b1, j), bit(b2, j), bit(b3, j));
}

/// The cells of a word whose neighbour count lies in `[lo, hi]`, from the
/// eight neighbour views: `ml`/`mr` of the row itself, `ul`/`uc`/`ur` of the
/// row above and `dl`/`dc`/`dr` of the row below.  The count of each bit
/// position is summed by a network of full adders into four bits.
pub fn count_in_range_mask(
    ml: u32,
    mr: u32,
    ul: u32,
    uc: u32,
    ur: u32,
    dl: u32,
    dc: u32,
    dr: u32,
    lo: u32,
    hi: u32,
) -> (r: u32)
    ensures
        forall|j: u32|
            j < 32 ==> (bit(r, j) <==> lo <= #[trigger] neighbour_count(ml, mr, ul, uc, ur, dl, dc, dr, j)
                <= hi),
{
    let (s0, c1) = (ml ^ mr, ml & mr);
    let t1 = ul ^ uc;
    let (s1, c2) = (t1 ^ ur, (ul & uc) | (t1 & ur));
    let t2 = dl ^ dc;
    let (s2, c3) = (t2 ^ dr, (dl & dc) | (t2 & dr));
    let t3 = s0 ^ s1;
    let (s01, c11) = (t3 ^ s2, (s0 & s1) | (t3 & s2));
    let t4 = c1 ^ c2;
    let (s10, c20) = (t4 ^ c3, (c1 & c2) | (t4 & c3));
    let (s11, c21) = (s10 ^ c11, s10 & c11);
    let (s20, c30) = (c20 ^ c21, c20 & c21);
    let (b0, b1, b2, b3) = (s01, s11, s20, c30);
    assert forall|j: u32| j < 32 implies nibble(b0, b1, b2, b3, j) == neighbour_count(
        ml,
        mr,
        ul,
        uc,
        ur,
        dl,
        dc,
        dr,
        j,
    ) by {
        lemma_bits_of_ops(ml, mr, j);
        lemma_bits_of_ops(ul, uc, j);
        lemma_bits_of_ops(t1, ur, j);
        lemma_bits_of_ops(ul & uc, t1 & ur, j);
        lemma_bits_of_ops(dl, dc, j);
        lemma_bits_of_ops(t2, dr, j);
        lemma_bits_of_ops(dl & dc, t2 & dr, j);
        lemma_bits_of_ops(s0, s1, j);
        lemma_bits_of_ops(t3, s2, j);
        lemma_bits_of_ops(s0 & s1, t3 & s2, j);
        lemma_bits_of_ops(c1, c2, j);
        lemma_bits_of_ops(t4, c3, j);
        lemma_bits_of_ops(c1 & c2, t4 & c3, j);
        lemma_bits_of_ops(s10, c11, j);
        lemma_bits_of_ops(c20, c21, j);
        lemma_adder_network(
            bit(ml, j),
            bit(mr, j),
            bit(ul, j),
            bit(uc, j),
            bit(ur, j),
            bit(dl, j),
            bit(dc, j),
            bit(dr, j),
        );
    }
    let ghost same = |j: u32| nibble(b0, b1, b2, b3, j) == neighbour_count(ml, mr, ul, uc, ur, dl, dc, dr, j);
    if lo == 2 && hi == 4 {
        let r = (!b3 & !b2 & b1) | (!b3 & b2 & !b1 & !b0);
        assert forall|j: u32| j < 32 implies (bit(r, j) <==> lo <= #[trigger] neighbour_count(
            ml,
            mr,
            ul,
            uc,
            ur,
            dl,
            dc,
            dr,
            j,
        ) <= hi) by {
            assert(same(j));
            lemma_mask_2_4(b0, b1, b2, b3, j);
        }
        r
    } else if lo == 2 && hi == 6 {
        let r = (!b3 & !b2 & b1) | (!b3 & b2 & !b1) | (!b3 & b2 & b1 & !b0);
        assert forall|j: u32| j < 32 implies (bit(r, j) <==> lo <= #[trigger] neighbour_count(
            ml,
            mr,
            ul,
            uc,
            ur,
            dl,
            dc,
            dr,
            j,
        ) <= hi) by {
            assert(same(j));
            lemma_mask_2_6(b0, b1, b2, b3, j);
        }
        r
    } else if lo == 2 && (hi == 8 || hi == 9) {
        let r = b3 | b2 | b1;
        assert forall|j: u32| j < 32 implies (bit(r, j) <==> lo <= #[trigger] neighbour_count(
            ml,
            mr,
            ul,
            uc,
            ur,
            dl,
            dc,
            dr,
            j,
        ) <= hi) by {
            assert(same(j));
            lemma_bits_of_ops(b3, b2, j);
            lemma_bits_of_ops(b3 | b2, b1, j);
        }
        r
    } else {
        let mut m: u32 = 0;
        let mut i: u32 = 0;
        proof {
            lemma_zero_bits();
        }
        while i < 32
            invariant
                i <= 32,
                forall|j: u32|
                    j < i ==> (bit(m, j) <==> lo <= #[trigger] nibble(b0, b1, b2, b3, j) <= hi),
                forall|j: u32| i <= j < 32 ==> !#[trigger] bit(m, j),
            decreases 32 - i,
        {
            proof {
                lemma_extracted_bit(b3, i);
                lemma_extracted_bit(b2, i);
                lemma_extracted_bit(b1, i);
                lemma_extracted_bit(b0, i);
            }
            let c: u32 = ((b3 >> i) & 1) * 8 + ((b2 >> i) & 1) * 4 + ((b1 >> i) & 1) * 2 + ((b0
                >> i) & 1);
            assert(c == nibble(b0, b1, b2, b3, i));
            if c >= lo && c <= hi {
                let ghost old_m = m;
                m = m | (1u32 << i);
                assert forall|j: u32| j < 32 implies #[trigger] bit(m, j) == (bit(old_m, j) || j
                    == i) by {
                    lemma_bits_of_ops(old_m, 1u32 << i, j);
                    lemma_bits_of_constants(j, i);
                }
            }
            i = i + 1;
        }
        assert forall|j: u32| j < 32 implies (bit(m, j) <==> lo <= #[trigger] neighbour_count(
            ml,
            mr,
            ul,
            uc,
            ur,
            dl,
            dc,
            dr,
            j,
        ) <= hi) by {
            assert(same(j));
            assert(bit(m, j) <==> lo <= nibble(b0, b1, b2, b3, j) <= hi);
        }
        m
    }
}

} // verus!
