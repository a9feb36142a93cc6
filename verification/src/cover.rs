//! Coverage of the map: once the soil has been laid, every cell holds a
//! terrain, and no cell is wet land.  Each way the generator changes the
//! layers keeps this.
use vstd::prelude::*;
use crate::bits::{bit, lemma_bits_of_constants, lemma_bits_of_ops};
use crate::constants::CType;
use crate::map_maker::{
    cell_in, cell_terrain, cell_terrain_from, cell_word, copied, exclusive, filled, flat, is_row_end,
    layer_word, lemma_flat_parts, pad_mask, paint, priority, row_words, smooth_bit, smoothed, BB_WORDS,
};
use crate::terrain::Terrain;

verus! {

/// Cell `(x, y)` holds a terrain of layers `1..=15` other than wet land
/// (layer 8), and is not wet land.
pub open spec fn cell_covered(bb: Seq<u32>, w: int, x: int, y: int) -> bool {
    &&& exists|t: int| 1 <= t <= 15 && t != 8 && #[trigger] cell_in(bb, w, t, x, y)
    &&& !cell_in(bb, w, 8, x, y)
}

/// Every cell of the `w` by `h` map is covered.
pub open spec fn covered(bb: Seq<u32>, w: int, h: int) -> bool {
    forall|x: int, y: int| 0 <= x < w && 0 <= y < h ==> #[trigger] cell_covered(bb, w, x, y)
}

/// The word of a cell lies in the layer, and its bit in the word.
proof fn lemma_cell_place(w: int, h: int, x: int, y: int)
    requires
        1 <= w,
        1 <= h,
        row_words(w) * h <= 1152,
        0 <= x < w,
        0 <= y < h,
    ensures
        0 <= cell_word(w, x, y) < row_words(w) * h,
        0 <= x % 32 < 32,
{
    assert(0 <= y * row_words(w) + x / 32 < row_words(w) * h) by (nonlinear_arith)
        requires
            0 <= x < w,
            0 <= y < h,
            row_words(w) == (w + 31) / 32,
            1 <= w,
    {
        assert(x / 32 < row_words(w));
        assert(y * row_words(w) + x / 32 < (y + 1) * row_words(w));
        assert((y + 1) * row_words(w) <= h * row_words(w));
    }
}

/// Painting with a terrain other than wet land keeps the map covered.
pub proof fn lemma_paint_covered(bb: Seq<u32>, w: int, h: int, t: int, i: int, m: u32)
    requires
        bb.len() == BB_WORDS,
        1 <= t <= 15,
        t != 8,
        0 <= i < 1152,
        1 <= w,
        1 <= h,
        row_words(w) * h <= 1152,
        covered(bb, w, h),
    ensures
        covered(paint(bb, t, i, m), w, h),
{
    let nb = paint(bb, t, i, m);
    assert forall|x: int, y: int| 0 <= x < w && 0 <= y < h implies #[trigger] cell_covered(nb, w, x, y) by {
        lemma_cell_place(w, h, x, y);
        let ci = cell_word(w, x, y);
        let j = (x % 32) as u32;
        assert(cell_covered(bb, w, x, y));
        lemma_bits_of_ops(layer_word(bb, 8, ci), m, j);
        lemma_bits_of_ops(layer_word(bb, 8, ci), !m, j);
        lemma_flat_parts(8, ci);
        if ci == i && bit(m, j) {
            lemma_flat_parts(t, ci);
            lemma_bits_of_ops(layer_word(bb, t, ci), m, j);
            assert(cell_in(nb, w, t, x, y));
        } else {
            let t2 = choose|t2: int| 1 <= t2 <= 15 && t2 != 8 && #[trigger] cell_in(bb, w, t2, x, y);
            lemma_flat_parts(t2, ci);
            lemma_bits_of_ops(layer_word(bb, t2, ci), m, j);
            lemma_bits_of_ops(layer_word(bb, t2, ci), !m, j);
            lemma_bits_of_ops(m, m, j);
            assert(0 <= flat(t2, ci) < BB_WORDS);
            if ci == i {
                assert(!bit(m, j));
                assert(layer_word(nb, t2, ci) == if t2 == t {
                    layer_word(bb, t2, ci) | m
                } else {
                    layer_word(bb, t2, ci) & !m
                });
            } else {
                assert(layer_word(nb, t2, ci) == layer_word(bb, t2, ci));
            }
            assert(cell_in(nb, w, t2, x, y));
        }
    }
}

/// Changing a word of the working layers `16..=19` keeps the map covered.
pub proof fn lemma_scratch_covered(bb: Seq<u32>, w: int, h: int, t: int, i: int, v: u32)
    requires
        bb.len() == BB_WORDS,
        16 <= t < 20,
        0 <= i < 1152,
        1 <= w,
        1 <= h,
        row_words(w) * h <= 1152,
        covered(bb, w, h),
    ensures
        covered(bb.update(flat(t, i), v), w, h),
{
    let nb = bb.update(flat(t, i), v);
    assert forall|x: int, y: int| 0 <= x < w && 0 <= y < h implies #[trigger] cell_covered(nb, w, x, y) by {
        lemma_cell_place(w, h, x, y);
        let ci = cell_word(w, x, y);
        assert(cell_covered(bb, w, x, y));
        let t2 = choose|t2: int| 1 <= t2 <= 15 && t2 != 8 && #[trigger] cell_in(bb, w, t2, x, y);
        crate::map_maker::lemma_flat_injective(t2, ci, t, i);
        crate::map_maker::lemma_flat_injective(8, ci, t, i);
        assert(cell_in(nb, w, t2, x, y));
    }
}

/// A copy into scratch layer 18 keeps the map covered.
pub proof fn lemma_copied_covered(bb: Seq<u32>, w: int, h: int, src: int)
    requires
        bb.len() == BB_WORDS,
        1 <= w,
        1 <= h,
        row_words(w) * h <= 1152,
        covered(bb, w, h),
    ensures
        covered(copied(bb, src), w, h),
{
    let nb = copied(bb, src);
    assert forall|x: int, y: int| 0 <= x < w && 0 <= y < h implies #[trigger] cell_covered(nb, w, x, y) by {
        lemma_cell_place(w, h, x, y);
        let ci = cell_word(w, x, y);
        assert(cell_covered(bb, w, x, y));
        let t2 = choose|t2: int| 1 <= t2 <= 15 && t2 != 8 && #[trigger] cell_in(bb, w, t2, x, y);
        lemma_flat_parts(t2, ci);
        lemma_flat_parts(8, ci);
        assert(cell_in(nb, w, t2, x, y));
    }
}

/// A smoothing step of a terrain other than wet land keeps the map covered.
pub proof fn lemma_smoothed_covered(
    bb0: Seq<u32>,
    bb1: Seq<u32>,
    w: int,
    h: int,
    t: int,
    lo: int,
    hi: int,
    c: CType,
)
    requires
        1 <= t <= 15,
        t != 8,
        1 <= w,
        1 <= h,
        row_words(w) * h <= 1152,
        smoothed(bb0, bb1, w, h, t, lo, hi, c),
        covered(bb0, w, h),
    ensures
        covered(bb1, w, h),
{
    assert forall|x: int, y: int| 0 <= x < w && 0 <= y < h implies #[trigger] cell_covered(bb1, w, x, y) by {
        lemma_cell_place(w, h, x, y);
        let ci = cell_word(w, x, y);
        let j = (x % 32) as u32;
        assert(cell_covered(bb0, w, x, y));
        let t2 = choose|t2: int| 1 <= t2 <= 15 && t2 != 8 && #[trigger] cell_in(bb0, w, t2, x, y);
        assert(ci < row_words(w) * h && j < 32);
        assert(bit(layer_word(bb1, 8, ci), j) == (bit(layer_word(bb0, 8, ci), j) && !(smooth_bit(
            bb0,
            w,
            h,
            t,
            lo,
            hi,
            c,
            ci,
            j,
        ) && !bit(layer_word(bb0, t, ci), j))));
        assert(bit(layer_word(bb1, t, ci), j) == (bit(layer_word(bb0, t, ci), j) || smooth_bit(
            bb0,
            w,
            h,
            t,
            lo,
            hi,
            c,
            ci,
            j,
        )));
        assert(bit(layer_word(bb1, t2, ci), j) == if t2 == t {
            bit(layer_word(bb0, t2, ci), j) || smooth_bit(bb0, w, h, t, lo, hi, c, ci, j)
        } else {
            bit(layer_word(bb0, t2, ci), j) && !(smooth_bit(bb0, w, h, t, lo, hi, c, ci, j) && !bit(
                layer_word(bb0, t, ci),
                j,
            ))
        });
        if cell_in(bb1, w, t2, x, y) {
        } else {
            assert(cell_in(bb1, w, t, x, y));
        }
    }
}

/// Soil laid over every cell covers the map.
pub proof fn lemma_filled_covered(bb: Seq<u32>, w: int, h: int)
    requires
        bb.len() == BB_WORDS,
        1 <= w,
        1 <= h,
        row_words(w) * h <= 1152,
    ensures
        covered(filled(bb, w, 1), w, h),
{
    let nb = filled(bb, w, 1);
    assert forall|x: int, y: int| 0 <= x < w && 0 <= y < h implies #[trigger] cell_covered(nb, w, x, y) by {
        lemma_cell_place(w, h, x, y);
        let ci = cell_word(w, x, y);
        let j = (x % 32) as u32;
        lemma_flat_parts(1, ci);
        lemma_flat_parts(8, ci);
        lemma_bits_of_constants(j, 0);
        if w % 32 != 0 && is_row_end(w, ci) {
            lemma_row_end_bit(w, h, x, y);
        }
        assert(cell_in(nb, w, 1, x, y));
    }
}

/// A cell in the last word of a row lies inside the row's padding mask.
proof fn lemma_row_end_bit(w: int, h: int, x: int, y: int)
    requires
        1 <= w,
        1 <= h,
        row_words(w) * h <= 1152,
        0 <= x < w,
        0 <= y < h,
        w % 32 != 0,
        is_row_end(w, cell_word(w, x, y)),
    ensures
        bit(pad_mask(w), (x % 32) as u32),
{
    crate::map_maker::lemma_cell_word(w, h, x, y);
    crate::map_maker::lemma_cell_bit_inside(w, h, x, y);
    let j = (x % 32) as u32;
    let r = (w % 32) as u32;
    assert(x / 32 == row_words(w) - 1);
    assert(j < r) by (nonlinear_arith)
        requires
            x / 32 == (w + 31) / 32 - 1,
            0 <= x < w,
            w % 32 != 0,
            j == x % 32,
            r == w % 32,
    ;
    lemma_bits_of_constants(j, r);
}

/// On a covered cell with disjoint terrain layers, the grid shows the one
/// terrain that holds it: not `Null` and not wet land.
pub proof fn lemma_covered_terrain(bb: Seq<u32>, w: int, h: int, x: int, y: int)
    requires
        1 <= w,
        1 <= h,
        row_words(w) * h <= 1152,
        0 <= x < w,
        0 <= y < h,
        exclusive(bb, row_words(w) * h),
        cell_covered(bb, w, x, y),
    ensures
        cell_terrain(bb, w, x, y) != Terrain::Null,
        cell_terrain(bb, w, x, y) != Terrain::WetLand,
        cell_in(bb, w, cell_terrain(bb, w, x, y).spec_index() as int, x, y),
        forall|u: int| 1 <= u <= 15 && #[trigger] cell_in(bb, w, u, x, y) ==> u == cell_terrain(
            bb,
            w,
            x,
            y,
        ).spec_index(),
{
    lemma_cell_place(w, h, x, y);
    let ci = cell_word(w, x, y);
    let j = (x % 32) as u32;
    let t = choose|t: int| 1 <= t <= 15 && t != 8 && #[trigger] cell_in(bb, w, t, x, y);
    assert forall|u: int| 1 <= u <= 15 && #[trigger] cell_in(bb, w, u, x, y) implies u == t by {
        if u != t {
            assert(layer_word(bb, u, ci) & layer_word(bb, t, ci) == 0);
            lemma_bits_of_ops(layer_word(bb, u, ci), layer_word(bb, t, ci), j);
            lemma_bits_of_constants(j, 0);
        }
    }
    reveal_with_fuel(cell_terrain_from, 15);
    assert(cell_terrain(bb, w, x, y).spec_index() == t);
}

/// A covered map with disjoint terrain layers: on every cell exactly one
/// terrain layer holds the cell, it is not wet land, and it is the terrain
/// the grid shows there, so no cell shows `Null`.
pub proof fn law_covered_map_cells(bb: Seq<u32>, w: int, h: int)
    requires
        1 <= w,
        1 <= h,
        row_words(w) * h <= 1152,
        exclusive(bb, row_words(w) * h),
        covered(bb, w, h),
    ensures
        forall|x: int, y: int|
            0 <= x < w && 0 <= y < h ==> {
                let t = #[trigger] cell_terrain(bb, w, x, y);
                &&& t != Terrain::Null
                &&& t != Terrain::WetLand
                &&& cell_in(bb, w, t.spec_index() as int, x, y)
                &&& forall|u: int| 1 <= u <= 15 && #[trigger] cell_in(bb, w, u, x, y) ==> u == t.spec_index()
            },
{
    assert forall|x: int, y: int| 0 <= x < w && 0 <= y < h implies {
        let t = #[trigger] cell_terrain(bb, w, x, y);
        &&& t != Terrain::Null
        &&& t != Terrain::WetLand
        &&& cell_in(bb, w, t.spec_index() as int, x, y)
        &&& forall|u: int| 1 <= u <= 15 && #[trigger] cell_in(bb, w, u, x, y) ==> u == t.spec_index()
    } by {
        assert(cell_covered(bb, w, x, y));
        lemma_covered_terrain(bb, w, h, x, y);
    }
}

} // verus!
