//! The map generator.  Each terrain kind owns a bit layer of 1152 words; a
//! row of the map takes `(w + 31) / 32` consecutive words, bit `x % 32` of
//! word `y * ((w + 31) / 32) + x / 32` standing for cell `(x, y)`.
use vstd::prelude::*;
use crate::bits::{
    bit, lemma_bit_test, lemma_bits_of_constants, lemma_bits_of_ops, lemma_clear_bit, lemma_disjoint_after_paint,
    lemma_full_mask, lemma_inside_after_paint, lemma_low_bit_in_mask, lemma_shift_pos,
    lemma_single_bit_inside, lemma_top_bit, lemma_zero_bits,
    lemma_zero_word,
};
use crate::constants::{get_base_around_50, spiral_point, CType, SPIRAL_LEN};
use crate::rng::{next_range_model, normal, seeded, GMathUtl, RandomType, RngModel};
use crate::rounding::{lemma_two_pow_values, round_sig, round_sig_u128, two_pow, two_pow_u128};
use crate::terrain::Terrain;
use crate::cover::{covered, law_covered_map_cells, lemma_copied_covered, lemma_filled_covered, lemma_paint_covered, lemma_scratch_covered};
use crate::stages::{
    born_line_cleared, born_space_copied, fertile_model, first_cleared, ling_model, soil_under, stone_model,
    stone_sources, spread_each, water_model, rock_model, make_map_model, born_lines, born_side,
    rock_fields_model, iron_veins, ore_veins, ore_veins_each, vein_ores, rock_veins, rock_fields, ore_fields,
    ores, rocks, spread_drawn, scale, rock_spread_model, smooth, fertile_run, water_run, rock_run, stone_run,
    ling_run,
};
use crate::neighbours::{count_in_range_mask, neighbour_count};

verus! {

/// Words per layer.
pub const LAYER_WORDS: usize = 1152;

/// Steps after which a mine walk that has not reached the right edge of the
/// map stops.
pub const MINE_WALK_STEPS: u32 = 0x100_0000;

/// Mine-walk keys that the stages after the first accept: what the first
/// stage may record after a start with at most `0x1000_0000`.
pub const DIRS_LIMIT: usize = 0x1300_0000;

/// Number of layers.
pub const LAYERS: usize = 20;

/// Words of all layers.
pub const BB_WORDS: usize = 23040;

pub struct MapMaker {
    pub w: i32,
    pub h: i32,
    pub grid: Vec<Terrain>,
    pub rand: GMathUtl,
    pub dirs: Vec<i32>,
    pub b_space: Vec<bool>,
    pub c_list: Vec<i32>,
    pub b_line: Vec<bool>,
    /// The layers, layer `t` occupying words `t * 1152 .. (t + 1) * 1152`.
    pub bb: Vec<u32>,
    /// The spiral offsets of `get_base_around_50`, computed once.
    pub spiral: Vec<(i32, i32)>,
}

/// Words per map row.
pub open spec fn row_words(w: int) -> int {
    (w + 31) / 32
}

/// Position of word `i` of layer `t` in the flattened layers.
pub open spec fn flat(t: int, i: int) -> int {
    t * 1152 + i
}

/// Word `i` of layer `t`.
pub open spec fn layer_word(bb: Seq<u32>, t: int, i: int) -> u32 {
    bb[flat(t, i)]
}

pub proof fn lemma_flat_injective(t1: int, x1: int, t2: int, x2: int)
    requires
        0 <= x1 < 1152,
        0 <= x2 < 1152,
    ensures
        flat(t1, x1) == flat(t2, x2) <==> (t1 == t2 && x1 == x2),
{
    if flat(t1, x1) == flat(t2, x2) {
        assert(t1 == t2 && x1 == x2) by (nonlinear_arith)
            requires
                t1 * 1152 + x1 == t2 * 1152 + x2,
                0 <= x1 < 1152,
                0 <= x2 < 1152,
        ;
    }
}

/// Layer and word of a flattened position.
pub proof fn lemma_flat_split(j: int)
    requires
        0 <= j,
    ensures
        j == flat(j / 1152, j % 1152),
        0 <= j % 1152 < 1152,
{
    vstd::arithmetic::div_mod::lemma_fundamental_div_mod(j, 1152);
}

pub proof fn lemma_flat_parts(t: int, i: int)
    requires
        0 <= i < 1152,
        0 <= t,
    ensures
        flat(t, i) / 1152 == t,
        flat(t, i) % 1152 == i,
{
    lemma_flat_split(flat(t, i));
    lemma_flat_injective(t, i, flat(t, i) / 1152, flat(t, i) % 1152);
}

/// The bits of the last word of a row that stand for cells.
pub open spec fn pad_mask(w: int) -> u32 {
    if w % 32 != 0 {
        ((1u32 << ((w % 32) as u32)) - 1u32) as u32
    } else {
        0xffff_ffffu32
    }
}

/// Whether word `i` is the last of its row.
pub open spec fn is_row_end(w: int, i: int) -> bool {
    i % row_words(w) == row_words(w) - 1
}

/// No layer has a bit set past the end of a row.
pub open spec fn padding_clear(bb: Seq<u32>, w: int, h: int) -> bool {
    forall|t: int, i: int|
        0 <= t < 20 && 0 <= i < row_words(w) * h && is_row_end(w, i) ==> #[trigger] layer_word(
            bb,
            t,
            i,
        ) & !pad_mask(w) == 0
}

/// The terrain layers `1..=15` are pairwise disjoint on the first `n` words:
/// no cell has two terrains.
pub open spec fn exclusive(bb: Seq<u32>, n: int) -> bool {
    forall|t1: int, t2: int, i: int|
        1 <= t1 <= 15 && 1 <= t2 <= 15 && t1 != t2 && 0 <= i < n ==> #[trigger] layer_word(
            bb,
            t1,
            i,
        ) & #[trigger] layer_word(bb, t2, i) == 0
}

/// `set_mask`: the bits `m` of word `w` go to layer `t` and leave every
/// other terrain layer; other words and layers are unchanged.
pub open spec fn paint(bb: Seq<u32>, t: int, w: int, m: u32) -> Seq<u32> {
    Seq::new(
        bb.len(),
        |j: int|
            if j % 1152 == w && 1 <= j / 1152 <= 15 {
                if j / 1152 == t {
                    bb[j] | m
                } else {
                    bb[j] & !m
                }
            } else {
                bb[j]
            },
    )
}

/// The layers after the cells `o` of the first `n` words are painted with
/// terrain `t`, word by word: a painted cell joins `t` and leaves every
/// other terrain.
pub open spec fn applied(bb: Seq<u32>, t: int, o: Seq<u32>, n: int) -> Seq<u32> {
    Seq::new(
        bb.len(),
        |j: int|
            if j % 1152 < n && 1 <= j / 1152 <= 15 {
                if j / 1152 == t {
                    bb[j] | o[j % 1152]
                } else {
                    bb[j] & !(o[j % 1152] & !bb[flat(t, j % 1152)])
                }
            } else {
                bb[j]
            },
    )
}

proof fn lemma_or_covered(a: u32, m: u32)
    by (bit_vector)
    ensures
        m & !a == 0 ==> a | m == a,
        a & !0u32 == a,
        a | (m & !a) == a | m,
{
}

proof fn lemma_applied_step(
    bb0: Seq<u32>,
    t: int,
    o: Seq<u32>,
    w: int,
    before: Seq<u32>,
    after: Seq<u32>,
    dif: u32,
)
    requires
        bb0.len() == BB_WORDS,
        1 <= t <= 15,
        0 <= w < 1152,
        w < o.len(),
        before == applied(bb0, t, o, w),
        dif == o[w] & !bb0[flat(t, w)],
        dif != 0 ==> after == paint(before, t, w, dif),
        dif == 0 ==> after == before,
    ensures
        after == applied(bb0, t, o, w + 1),
{
    lemma_flat_parts(t, w);
    assert forall|j: int| 0 <= j < bb0.len() implies #[trigger] after[j] == applied(bb0, t, o, w + 1)[j] by {
        lemma_flat_split(j);
        let u = j / 1152;
        let i = j % 1152;
        if i == w && 1 <= u <= 15 {
            assert(before[j] == bb0[j]);
            lemma_or_covered(bb0[j], o[w]);
            if u == t {
                assert(j == flat(t, w));
            }
        }
    }
    assert(after =~= applied(bb0, t, o, w + 1));
}

/// `1` for true, `0` for false.
pub open spec fn b2i(b: bool) -> int {
    if b {
        1
    } else {
        0
    }
}

/// Whether cell `(nx, ny)` counts as a neighbour holding `t` for a cell of
/// row `y`: it lies on the map and holds `t`, and it is not the first cell
/// of the map seen from the second row.
pub open spec fn counts_as_neighbour(
    bb: Seq<u32>,
    w: int,
    h: int,
    t: int,
    y: int,
    nx: int,
    ny: int,
) -> bool {
    &&& 0 <= nx < w
    &&& 0 <= ny < h
    &&& cell_in(bb, w, t, nx, ny)
    &&& !(y == 1 && nx == 0 && ny == 0)
}

/// How many of the eight neighbours of cell `(x, y)` hold `t`.
pub open spec fn nbr_count(bb: Seq<u32>, w: int, h: int, t: int, x: int, y: int) -> int {
    b2i(counts_as_neighbour(bb, w, h, t, y, x - 1, y)) + b2i(counts_as_neighbour(bb, w, h, t, y, x + 1, y))
        + b2i(counts_as_neighbour(bb, w, h, t, y, x - 1, y - 1)) + b2i(
        counts_as_neighbour(bb, w, h, t, y, x, y - 1),
    ) + b2i(counts_as_neighbour(bb, w, h, t, y, x + 1, y - 1)) + b2i(
        counts_as_neighbour(bb, w, h, t, y, x - 1, y + 1),
    ) + b2i(counts_as_neighbour(bb, w, h, t, y, x, y + 1)) + b2i(
        counts_as_neighbour(bb, w, h, t, y, x + 1, y + 1),
    )
}

/// Whether a smoothing step of `t` with counts `[lo, hi]` and kind `c`
/// selects bit `j` of word `i`: the kind allows the cell and its number of
/// `t` neighbours lies in `[lo, hi]`.
pub open spec fn smooth_bit(
    bb: Seq<u32>,
    w: int,
    h: int,
    t: int,
    lo: int,
    hi: int,
    c: CType,
    i: int,
    j: u32,
) -> bool {
    let x = (i % row_words(w)) * 32 + j;
    let y = i / row_words(w);
    bit(ctype_mask(bb, w, i, c), j) && lo <= nbr_count(bb, w, h, t, x, y) <= hi
}

/// `bb1` is `bb0` after one smoothing step of `t` (see `smooth_bit`): the
/// selected cells join `t` and leave every other terrain; the layers up to
/// the birth line are otherwise unchanged (the two scratch layers are not
/// described).
pub open spec fn smoothed(
    bb0: Seq<u32>,
    bb1: Seq<u32>,
    w: int,
    h: int,
    t: int,
    lo: int,
    hi: int,
    c: CType,
) -> bool {
    forall|u: int, i: int, j: u32|
        0 <= u < 18 && 0 <= i < 1152 && j < 32 ==> #[trigger] bit(layer_word(bb1, u, i), j) == if i
            < row_words(w) * h && 1 <= u <= 15 {
            if u == t {
                bit(layer_word(bb0, u, i), j) || smooth_bit(bb0, w, h, t, lo, hi, c, i, j)
            } else {
                bit(layer_word(bb0, u, i), j) && !(smooth_bit(bb0, w, h, t, lo, hi, c, i, j) && !bit(
                    layer_word(bb0, t, i),
                    j,
                ))
            }
        } else {
            bit(layer_word(bb0, u, i), j)
        }
}

proof fn lemma_shift_views(c: u32, p: u32, n: u32, j: u32)
    by (bit_vector)
    requires
        j < 32,
    ensures
        bit((c << 1u32) | (p >> 31u32), j) == (if j == 0 {
            bit(p, 31)
        } else {
            bit(c, (j - 1) as u32)
        }),
        bit(c << 1u32, j) == (j != 0 && bit(c, (j - 1) as u32)),
        bit((c >> 1u32) | (n << 31u32), j) == (if j == 31 {
            bit(n, 0)
        } else {
            bit(c, (j + 1) as u32)
        }),
        bit(c >> 1u32, j) == (j != 31 && bit(c, (j + 1) as u32)),
{
}

proof fn lemma_clear_low(raw: u32, k: u32)
    by (bit_vector)
    requires
        k < 32,
    ensures
        bit(raw & !1u32, k) == (k != 0 && bit(raw, k)),
{
}

/// Word `r * s + xw` of a map with rows of `s` words.
proof fn lemma_row_position(r: int, s: int, xw: int, h: int)
    requires
        0 <= r < h,
        0 <= xw < s,
        s * h <= 1152,
    ensures
        0 <= r * s + xw < s * h,
        r * s + xw < 1152,
        (r * s + xw) % s == xw,
        (r * s + xw) / s == r,
{
    assert(r * s + xw < s * h) by (nonlinear_arith)
        requires
            0 <= r < h,
            0 <= xw < s,
    ;
    assert(0 <= r * s) by (nonlinear_arith)
        requires
            0 <= r,
            0 <= s,
    ;
    vstd::arithmetic::div_mod::lemma_fundamental_div_mod_converse(r * s + xw, s, r, xw);
}

/// Word `y * s + xw`, read back as row and column.
proof fn lemma_word_of_row(y: int, s: int, xw: int)
    requires
        0 <= y,
        0 <= xw < s,
    ensures
        (y * s + xw) % s == xw,
        (y * s + xw) / s == y,
{
    vstd::arithmetic::div_mod::lemma_fundamental_div_mod_converse(y * s + xw, s, y, xw);
}

/// Cell `32 * xw + j` of row `r` is bit `j` of word `r * s + xw`.
proof fn lemma_cell_of_bit(w: int, r: int, s: int, xw: int, j: int)
    requires
        s == row_words(w),
        0 <= xw,
        0 <= j < 32,
    ensures
        cell_word(w, xw * 32 + j, r) == r * s + xw,
        (xw * 32 + j) % 32 == j,
{
    vstd::arithmetic::div_mod::lemma_fundamental_div_mod_converse(xw * 32 + j, 32, xw, j);
}

/// Where cell `32 * xw + k` of word `xw` lies past the end of the row.
proof fn lemma_past_row_end(w: int, s: int, xw: int, k: int)
    requires
        1 <= w,
        s == row_words(w),
        0 <= xw < s,
        0 <= k < 32,
        xw * 32 + k >= w,
    ensures
        xw == s - 1,
        w % 32 != 0,
        k >= w % 32,
{
    vstd::arithmetic::div_mod::lemma_fundamental_div_mod(w + 31, 32);
    vstd::arithmetic::div_mod::lemma_fundamental_div_mod(w, 32);
}

/// A bit past the end of a row is clear in every layer.
proof fn lemma_padding_bit(bb: Seq<u32>, w: int, h: int, d: int, i: int, k: int, r: int, xw: int)
    requires
        1 <= w,
        padding_clear(bb, w, h),
        0 <= d < 20,
        0 <= r < h,
        0 <= xw < row_words(w),
        row_words(w) * h <= 1152,
        i == r * row_words(w) + xw,
        0 <= k < 32,
        xw * 32 + k >= w,
    ensures
        !bit(layer_word(bb, d, i), k as u32),
{
    let s = row_words(w);
    lemma_past_row_end(w, s, xw, k);
    lemma_row_position(r, s, xw, h);
    assert(is_row_end(w, i));
    let word = layer_word(bb, d, i);
    assert(word & !pad_mask(w) == 0);
    lemma_bits_of_constants(k as u32, (w % 32) as u32);
    lemma_bits_of_ops(pad_mask(w), word, k as u32);
    lemma_bits_of_ops(word, !pad_mask(w), k as u32);
    lemma_zero_bits();
}

/// A bit past the end of a row is clear in every kind mask.
proof fn lemma_padding_bit_of_mask(bb: Seq<u32>, w: int, h: int, i: int, k: int, r: int, xw: int, c: CType)
    requires
        1 <= w,
        0 <= r < h,
        0 <= xw < row_words(w),
        row_words(w) * h <= 1152,
        i == r * row_words(w) + xw,
        0 <= k < 32,
        xw * 32 + k >= w,
    ensures
        !bit(ctype_mask(bb, w, i, c), k as u32),
{
    let s = row_words(w);
    lemma_past_row_end(w, s, xw, k);
    lemma_row_position(r, s, xw, h);
    assert(is_row_end(w, i));
    let base = ctype_base(bb, i, c);
    lemma_bits_of_constants(k as u32, (w % 32) as u32);
    lemma_bits_of_ops(base, pad_mask(w), k as u32);
}

/// Kind masks read only the terrain and birth layers.
proof fn lemma_ctype_frame(bb1: Seq<u32>, bb0: Seq<u32>, w: int, i: int, c: CType)
    requires
        forall|u: int| 0 <= u < 19 ==> #[trigger] layer_word(bb1, u, i) == layer_word(bb0, u, i),
    ensures
        ctype_mask(bb1, w, i, c) == ctype_mask(bb0, w, i, c),
{
    assert(layer_word(bb1, 1, i) == layer_word(bb0, 1, i));
    assert(layer_word(bb1, 6, i) == layer_word(bb0, 6, i));
    assert(layer_word(bb1, 7, i) == layer_word(bb0, 7, i));
    assert(layer_word(bb1, 10, i) == layer_word(bb0, 10, i));
    assert(layer_word(bb1, 11, i) == layer_word(bb0, 11, i));
    assert(layer_word(bb1, 12, i) == layer_word(bb0, 12, i));
    assert(layer_word(bb1, 13, i) == layer_word(bb0, 13, i));
    assert(layer_word(bb1, 14, i) == layer_word(bb0, 14, i));
    assert(layer_word(bb1, 15, i) == layer_word(bb0, 15, i));
    assert(layer_word(bb1, 16, i) == layer_word(bb0, 16, i));
    assert(layer_word(bb1, 17, i) == layer_word(bb0, 17, i));
}

/// Storing one scratch word changes that word only.
proof fn lemma_scratch_frame(before: Seq<u32>, after: Seq<u32>, t: int, i: int, v: u32)
    requires
        before.len() == BB_WORDS,
        16 <= t < 20,
        0 <= i < 1152,
        after == before.update(flat(t, i), v),
    ensures
        forall|u: int, k: int|
            0 <= u < 20 && 0 <= k < 1152 ==> #[trigger] layer_word(after, u, k) == if u == t && k == i {
                v
            } else {
                layer_word(before, u, k)
            },
{
    assert forall|u: int, k: int| 0 <= u < 20 && 0 <= k < 1152 implies #[trigger] layer_word(after, u, k)
        == if u == t && k == i {
        v
    } else {
        layer_word(before, u, k)
    } by {
        lemma_flat_injective(u, k, t, i);
        assert(0 <= flat(u, k) < BB_WORDS) by (nonlinear_arith)
            requires
                0 <= u < 20,
                0 <= k < 1152,
        ;
    }
}

/// The three shifted views of a word, bit by bit, as cells of row `r`.
proof fn lemma_row_view_bits(
    bb: Seq<u32>,
    w: int,
    h: int,
    d: int,
    r: int,
    s: int,
    xw: int,
    clear: bool,
    raw: u32,
    c: u32,
    p: u32,
    n: u32,
    left: u32,
    right: u32,
)
    requires
        1 <= w,
        padding_clear(bb, w, h),
        s == row_words(w),
        s * h <= 1152,
        0 <= r < h,
        0 <= xw < s,
        0 <= d < 20,
        clear ==> xw == 0,
        raw == layer_word(bb, d, r * s + xw),
        c == (if clear {
            raw & !1u32
        } else {
            raw
        }),
        xw > 0 ==> p == layer_word(bb, d, r * s + xw - 1),
        xw < s - 1 ==> n == layer_word(bb, d, r * s + xw + 1),
        left == (if xw > 0 {
            (c << 1u32) | (p >> 31u32)
        } else {
            c << 1u32
        }),
        right == (if xw < s - 1 {
            (c >> 1u32) | (n << 31u32)
        } else {
            c >> 1u32
        }),
    ensures
        forall|j: u32|
            j < 32 && xw * 32 + j < w ==> #[trigger] bit(left, j) == (xw * 32 + j >= 1 && cell_in(
                bb,
                w,
                d,
                xw * 32 + j - 1,
                r,
            ) && !(clear && xw * 32 + j - 1 == 0)),
        forall|j: u32|
            j < 32 && xw * 32 + j < w ==> #[trigger] bit(c, j) == (cell_in(bb, w, d, xw * 32 + j, r) && !(clear
                && xw * 32 + j == 0)),
        forall|j: u32|
            j < 32 && xw * 32 + j < w ==> #[trigger] bit(right, j) == (xw * 32 + j + 1 < w && cell_in(
                bb,
                w,
                d,
                xw * 32 + j + 1,
                r,
            )),
{
    assert forall|j: u32| j < 32 && xw * 32 + j < w implies #[trigger] bit(left, j) == (xw * 32 + j >= 1
        && cell_in(bb, w, d, xw * 32 + j - 1, r) && !(clear && xw * 32 + j - 1 == 0)) by {
        lemma_row_view_bit(bb, w, h, d, r, s, xw, clear, raw, c, p, n, left, right, j);
    }
    assert forall|j: u32| j < 32 && xw * 32 + j < w implies #[trigger] bit(c, j) == (cell_in(
        bb,
        w,
        d,
        xw * 32 + j,
        r,
    ) && !(clear && xw * 32 + j == 0)) by {
        lemma_row_view_bit(bb, w, h, d, r, s, xw, clear, raw, c, p, n, left, right, j);
    }
    assert forall|j: u32| j < 32 && xw * 32 + j < w implies #[trigger] bit(right, j) == (xw * 32 + j + 1 < w
        && cell_in(bb, w, d, xw * 32 + j + 1, r)) by {
        lemma_row_view_bit(bb, w, h, d, r, s, xw, clear, raw, c, p, n, left, right, j);
    }
}

/// One bit of `lemma_row_view_bits`.
proof fn lemma_row_view_bit(
    bb: Seq<u32>,
    w: int,
    h: int,
    d: int,
    r: int,
    s: int,
    xw: int,
    clear: bool,
    raw: u32,
    c: u32,
    p: u32,
    n: u32,
    left: u32,
    right: u32,
    j: u32,
)
    requires
        1 <= w,
        padding_clear(bb, w, h),
        s == row_words(w),
        s * h <= 1152,
        0 <= r < h,
        0 <= xw < s,
        0 <= d < 20,
        clear ==> xw == 0,
        raw == layer_word(bb, d, r * s + xw),
        c == (if clear {
            raw & !1u32
        } else {
            raw
        }),
        xw > 0 ==> p == layer_word(bb, d, r * s + xw - 1),
        xw < s - 1 ==> n == layer_word(bb, d, r * s + xw + 1),
        left == (if xw > 0 {
            (c << 1u32) | (p >> 31u32)
        } else {
            c << 1u32
        }),
        right == (if xw < s - 1 {
            (c >> 1u32) | (n << 31u32)
        } else {
            c >> 1u32
        }),
        j < 32,
        xw * 32 + j < w,
    ensures
        bit(left, j) == (xw * 32 + j >= 1 && cell_in(bb, w, d, xw * 32 + j - 1, r) && !(clear && xw * 32 + j
            - 1 == 0)),
        bit(c, j) == (cell_in(bb, w, d, xw * 32 + j, r) && !(clear && xw * 32 + j == 0)),
        bit(right, j) == (xw * 32 + j + 1 < w && cell_in(bb, w, d, xw * 32 + j + 1, r)),
{
    lemma_row_position(r, s, xw, h);
    lemma_shift_views(c, p, n, j);
    lemma_clear_low(raw, j);
    lemma_cell_of_bit(w, r, s, xw, j as int);
    if j > 0 {
        lemma_clear_low(raw, (j - 1) as u32);
        lemma_cell_of_bit(w, r, s, xw, j as int - 1);
    } else if xw > 0 {
        lemma_cell_of_bit(w, r, s, xw - 1, 31);
    }
    if j < 31 {
        lemma_clear_low(raw, (j + 1) as u32);
        lemma_cell_of_bit(w, r, s, xw, j as int + 1);
        if xw * 32 + j + 1 >= w {
            lemma_padding_bit(bb, w, h, d, r * s + xw, j as int + 1, r, xw);
        }
    } else if xw < s - 1 {
        lemma_cell_of_bit(w, r, s, xw + 1, 0);
    }
}

/// A cell of the map reads the same in two layer sets that agree below the
/// scratch layers.
proof fn lemma_cell_frame(bb1: Seq<u32>, bb0: Seq<u32>, w: int, h: int, d: int, x: int, r: int)
    requires
        forall|u: int, i: int|
            0 <= u < 18 && 0 <= i < 1152 ==> #[trigger] layer_word(bb1, u, i) == layer_word(bb0, u, i),
        0 <= d < 18,
        0 <= x < w,
        0 <= r < h,
        row_words(w) * h <= 1152,
    ensures
        cell_in(bb1, w, d, x, r) == cell_in(bb0, w, d, x, r),
{
    vstd::arithmetic::div_mod::lemma_fundamental_div_mod(w + 31, 32);
    vstd::arithmetic::div_mod::lemma_fundamental_div_mod(x, 32);
    lemma_row_position(r, row_words(w), x / 32, h);
    assert(layer_word(bb1, d, cell_word(w, x, r)) == layer_word(bb0, d, cell_word(w, x, r)));
}

/// The count of the eight views is the neighbour count of the cell.
proof fn lemma_count_matches(
    bb: Seq<u32>,
    w: int,
    h: int,
    d: int,
    x: int,
    y: int,
    j: u32,
    ml: u32,
    mr: u32,
    ul: u32,
    uc: u32,
    ur: u32,
    dl: u32,
    dc: u32,
    dr: u32,
)
    requires
        bit(ml, j) == counts_as_neighbour(bb, w, h, d, y, x - 1, y),
        bit(mr, j) == counts_as_neighbour(bb, w, h, d, y, x + 1, y),
        bit(ul, j) == counts_as_neighbour(bb, w, h, d, y, x - 1, y - 1),
        bit(uc, j) == counts_as_neighbour(bb, w, h, d, y, x, y - 1),
        bit(ur, j) == counts_as_neighbour(bb, w, h, d, y, x + 1, y - 1),
        bit(dl, j) == counts_as_neighbour(bb, w, h, d, y, x - 1, y + 1),
        bit(dc, j) == counts_as_neighbour(bb, w, h, d, y, x, y + 1),
        bit(dr, j) == counts_as_neighbour(bb, w, h, d, y, x + 1, y + 1),
    ensures
        neighbour_count(ml, mr, ul, uc, ur, dl, dc, dr, j) == nbr_count(bb, w, h, d, x, y),
{
}

/// The layers after the selected words are painted are `smoothed`.
proof fn lemma_smoothed(
    bb0: Seq<u32>,
    mid: Seq<u32>,
    o: Seq<u32>,
    fin: Seq<u32>,
    w: int,
    h: int,
    t: int,
    lo: int,
    hi: int,
    c: CType,
)
    requires
        mid.len() == BB_WORDS,
        1 <= t <= 15,
        row_words(w) * h <= 1152,
        forall|u: int, i: int| 0 <= u < 18 && 0 <= i < 1152 ==> #[trigger] layer_word(mid, u, i) == layer_word(bb0, u, i),
        forall|i: int, j: u32|
            0 <= i < row_words(w) * h && j < 32 ==> #[trigger] bit(o[i], j) == smooth_bit(
                bb0,
                w,
                h,
                t,
                lo,
                hi,
                c,
                i,
                j,
            ),
        fin == applied(mid, t, o, row_words(w) * h),
    ensures
        smoothed(bb0, fin, w, h, t, lo, hi, c),
{
    let n = row_words(w) * h;
    assert forall|u: int, i: int, j: u32| 0 <= u < 18 && 0 <= i < 1152 && j < 32 implies #[trigger] bit(
        layer_word(fin, u, i),
        j,
    ) == if i < n && 1 <= u <= 15 {
        if u == t {
            bit(layer_word(bb0, u, i), j) || smooth_bit(bb0, w, h, t, lo, hi, c, i, j)
        } else {
            bit(layer_word(bb0, u, i), j) && !(smooth_bit(bb0, w, h, t, lo, hi, c, i, j) && !bit(
                layer_word(bb0, t, i),
                j,
            ))
        }
    } else {
        bit(layer_word(bb0, u, i), j)
    } by {
        lemma_flat_parts(u, i);
        lemma_flat_parts(t, i);
        assert(0 <= flat(u, i) < BB_WORDS) by (nonlinear_arith)
            requires
                0 <= u < 18,
                0 <= i < 1152,
        ;
        let a = layer_word(mid, u, i);
        let b = layer_word(mid, t, i);
        let m = o[i];
        lemma_bits_of_ops(a, m, j);
        lemma_bits_of_ops(m, !b, j);
        lemma_bits_of_ops(b, b, j);
        lemma_bits_of_ops(a, !(m & !b), j);
        lemma_bits_of_ops(m & !b, m & !b, j);
    }
}

/// Two words with the same 32 bits are equal.
proof fn lemma_bits_ext(a: u32, b: u32)
    by (bit_vector)
    requires
        bit(a, 0) == bit(b, 0),
        bit(a, 1) == bit(b, 1),
        bit(a, 2) == bit(b, 2),
        bit(a, 3) == bit(b, 3),
        bit(a, 4) == bit(b, 4),
        bit(a, 5) == bit(b, 5),
        bit(a, 6) == bit(b, 6),
        bit(a, 7) == bit(b, 7),
        bit(a, 8) == bit(b, 8),
        bit(a, 9) == bit(b, 9),
        bit(a, 10) == bit(b, 10),
        bit(a, 11) == bit(b, 11),
        bit(a, 12) == bit(b, 12),
        bit(a, 13) == bit(b, 13),
        bit(a, 14) == bit(b, 14),
        bit(a, 15) == bit(b, 15),
        bit(a, 16) == bit(b, 16),
        bit(a, 17) == bit(b, 17),
        bit(a, 18) == bit(b, 18),
        bit(a, 19) == bit(b, 19),
        bit(a, 20) == bit(b, 20),
        bit(a, 21) == bit(b, 21),
        bit(a, 22) == bit(b, 22),
        bit(a, 23) == bit(b, 23),
        bit(a, 24) == bit(b, 24),
        bit(a, 25) == bit(b, 25),
        bit(a, 26) == bit(b, 26),
        bit(a, 27) == bit(b, 27),
        bit(a, 28) == bit(b, 28),
        bit(a, 29) == bit(b, 29),
        bit(a, 30) == bit(b, 30),
        bit(a, 31) == bit(b, 31),
    ensures
        a == b,
{
}

/// A smoothing step determines every layer up to the birth line: two
/// results of the same step agree there word for word.
pub proof fn law_smoothed_unique(
    bb0: Seq<u32>,
    a: Seq<u32>,
    b: Seq<u32>,
    w: int,
    h: int,
    t: int,
    lo: int,
    hi: int,
    c: CType,
)
    requires
        smoothed(bb0, a, w, h, t, lo, hi, c),
        smoothed(bb0, b, w, h, t, lo, hi, c),
    ensures
        forall|u: int, i: int| 0 <= u < 18 && 0 <= i < 1152 ==> #[trigger] layer_word(a, u, i) == layer_word(b, u, i),
{
    assert forall|u: int, i: int| 0 <= u < 18 && 0 <= i < 1152 implies #[trigger] layer_word(a, u, i)
        == layer_word(b, u, i) by {
        let x = layer_word(a, u, i);
        let y = layer_word(b, u, i);
        assert forall|j: u32| j < 32 implies #[trigger] bit(x, j) == bit(y, j) by {}
        lemma_same_bits(x, y);
    }
}

/// `smoothed`, with the two scratch layers as the step leaves them: layer
/// 18 holds the selected cells and layer 19 the cells the kind allows, on
/// the words of the map; past them both are unchanged.
pub open spec fn smoothed_full(
    bb0: Seq<u32>,
    bb1: Seq<u32>,
    w: int,
    h: int,
    t: int,
    lo: int,
    hi: int,
    c: CType,
) -> bool {
    &&& bb1.len() == bb0.len()
    &&& bb0.len() == BB_WORDS
    &&& smoothed(bb0, bb1, w, h, t, lo, hi, c)
    &&& forall|i: int, j: u32|
        0 <= i < row_words(w) * h && j < 32 ==> #[trigger] bit(layer_word(bb1, 18, i), j)
            == smooth_bit(bb0, w, h, t, lo, hi, c, i, j)
    &&& forall|i: int|
        0 <= i < row_words(w) * h ==> #[trigger] layer_word(bb1, 19, i) == ctype_mask(bb0, w, i, c)
    &&& forall|u: int, i: int|
        18 <= u < 20 && row_words(w) * h <= i < 1152 ==> #[trigger] layer_word(bb1, u, i)
            == layer_word(bb0, u, i)
}

/// The layers after one smoothing step (the one value `smoothed_full`
/// allows, see `lemma_smooth_result`).
pub open spec fn smooth_result(
    bb0: Seq<u32>,
    w: int,
    h: int,
    t: int,
    lo: int,
    hi: int,
    c: CType,
) -> Seq<u32> {
    choose|bb1: Seq<u32>| smoothed_full(bb0, bb1, w, h, t, lo, hi, c)
}

/// `n` smoothing steps.
pub open spec fn optimized(
    bb: Seq<u32>,
    w: int,
    h: int,
    t: int,
    lo: int,
    hi: int,
    c: CType,
    n: nat,
) -> Seq<u32>
    decreases n,
{
    if n == 0 {
        bb
    } else {
        smooth_result(optimized(bb, w, h, t, lo, hi, c, (n - 1) as nat), w, h, t, lo, hi, c)
    }
}

/// Words that agree on every bit are equal (`lemma_bits_ext`, quantified).
proof fn lemma_same_bits(x: u32, y: u32)
    requires
        forall|j: u32| j < 32 ==> #[trigger] bit(x, j) == bit(y, j),
    ensures
        x == y,
{
    assert(bit(x, 0) == bit(y, 0));
    assert(bit(x, 1) == bit(y, 1));
    assert(bit(x, 2) == bit(y, 2));
    assert(bit(x, 3) == bit(y, 3));
    assert(bit(x, 4) == bit(y, 4));
    assert(bit(x, 5) == bit(y, 5));
    assert(bit(x, 6) == bit(y, 6));
    assert(bit(x, 7) == bit(y, 7));
    assert(bit(x, 8) == bit(y, 8));
    assert(bit(x, 9) == bit(y, 9));
    assert(bit(x, 10) == bit(y, 10));
    assert(bit(x, 11) == bit(y, 11));
    assert(bit(x, 12) == bit(y, 12));
    assert(bit(x, 13) == bit(y, 13));
    assert(bit(x, 14) == bit(y, 14));
    assert(bit(x, 15) == bit(y, 15));
    assert(bit(x, 16) == bit(y, 16));
    assert(bit(x, 17) == bit(y, 17));
    assert(bit(x, 18) == bit(y, 18));
    assert(bit(x, 19) == bit(y, 19));
    assert(bit(x, 20) == bit(y, 20));
    assert(bit(x, 21) == bit(y, 21));
    assert(bit(x, 22) == bit(y, 22));
    assert(bit(x, 23) == bit(y, 23));
    assert(bit(x, 24) == bit(y, 24));
    assert(bit(x, 25) == bit(y, 25));
    assert(bit(x, 26) == bit(y, 26));
    assert(bit(x, 27) == bit(y, 27));
    assert(bit(x, 28) == bit(y, 28));
    assert(bit(x, 29) == bit(y, 29));
    assert(bit(x, 30) == bit(y, 30));
    assert(bit(x, 31) == bit(y, 31));
    lemma_bits_ext(x, y);
}

/// A full smoothing step has one result, `smooth_result`.
pub proof fn lemma_smooth_result(
    bb0: Seq<u32>,
    bb1: Seq<u32>,
    w: int,
    h: int,
    t: int,
    lo: int,
    hi: int,
    c: CType,
)
    requires
        smoothed_full(bb0, bb1, w, h, t, lo, hi, c),
    ensures
        bb1 == smooth_result(bb0, w, h, t, lo, hi, c),
{
    let r = smooth_result(bb0, w, h, t, lo, hi, c);
    assert(smoothed_full(bb0, r, w, h, t, lo, hi, c));
    law_smoothed_unique(bb0, bb1, r, w, h, t, lo, hi, c);
    assert forall|j: int| 0 <= j < bb1.len() implies bb1[j] == r[j] by {
        lemma_flat_split(j);
        let u = j / 1152;
        let i = j % 1152;
        assert(u < 20);
        if u == 18 && i < row_words(w) * h {
            assert forall|k: u32| k < 32 implies #[trigger] bit(layer_word(bb1, 18, i), k) == bit(
                layer_word(r, 18, i),
                k,
            ) by {}
            lemma_same_bits(layer_word(bb1, 18, i), layer_word(r, 18, i));
        }
        assert(layer_word(bb1, u, i) == layer_word(r, u, i));
    }
    assert(bb1 =~= r);
}

/// A smoothing step whose count range is empty (`lo > hi`) selects no cell:
/// it leaves every layer up to the birth line as it was.
pub proof fn law_empty_count_range(
    bb0: Seq<u32>,
    bb1: Seq<u32>,
    w: int,
    h: int,
    t: int,
    lo: int,
    hi: int,
    c: CType,
)
    requires
        smoothed(bb0, bb1, w, h, t, lo, hi, c),
        lo > hi,
    ensures
        forall|u: int, i: int| 0 <= u < 18 && 0 <= i < 1152 ==> #[trigger] layer_word(bb1, u, i) == layer_word(bb0, u, i),
{
    assert forall|u: int, i: int| 0 <= u < 18 && 0 <= i < 1152 implies #[trigger] layer_word(bb1, u, i)
        == layer_word(bb0, u, i) by {
        let x = layer_word(bb1, u, i);
        let y = layer_word(bb0, u, i);
        assert forall|j: u32| j < 32 implies #[trigger] bit(x, j) == bit(y, j) by {
            assert(!smooth_bit(bb0, w, h, t, lo, hi, c, i, j));
        }
        lemma_same_bits(x, y);
    }
}

/// Painting a mask found elsewhere (the heterogeneous scanner's GPU
/// kernel), whose bits are those that the smoothing rule selects, is a
/// smoothing step: with `law_smoothed_unique`, `apply_optimized` with such a
/// mask leaves the same layers as `optimize` does.
pub proof fn law_outside_smoothing_agrees(
    bb0: Seq<u32>,
    o: Seq<u32>,
    w: int,
    h: int,
    t: int,
    lo: int,
    hi: int,
    c: CType,
)
    requires
        bb0.len() == BB_WORDS,
        1 <= t <= 15,
        row_words(w) * h <= 1152,
        forall|i: int, j: u32|
            0 <= i < row_words(w) * h && j < 32 ==> #[trigger] bit(o[i], j) == smooth_bit(
                bb0,
                w,
                h,
                t,
                lo,
                hi,
                c,
                i,
                j,
            ),
    ensures
        smoothed(bb0, applied(bb0, t, o, row_words(w) * h), w, h, t, lo, hi, c),
{
    lemma_smoothed(bb0, bb0, o, applied(bb0, t, o, row_words(w) * h), w, h, t, lo, hi, c);
}

/// The rest of a mine walk at column `i` and row `num` after `steps` steps,
/// drawing from `m`: each step moves left with chance 10 in 100 (else
/// right) and moves the row by a draw in `[lo, hi]`, recording the key of
/// the new cell when it lies on the map and is not key 0; the walk ends at
/// the right edge or after `MINE_WALK_STEPS` steps.  The keys recorded and
/// the generator after.
pub open spec fn mine_walk(
    w: int,
    h: int,
    lo: i32,
    hi: i32,
    i: int,
    num: int,
    steps: nat,
    m: RngModel,
) -> (Seq<i32>, RngModel)
    decreases MINE_WALK_STEPS - steps,
{
    if i >= w || steps >= MINE_WALK_STEPS {
        (Seq::empty(), m)
    } else {
        let (turn, m1) = next_range_model(m, 0, 100);
        let i2 = if turn < 10 {
            i - 1
        } else {
            i + 1
        };
        let (step, m2) = next_range_model(m1, lo, hi);
        let num2 = num + step;
        let k = key_of(w, h, i2, num2);
        let rest = mine_walk(w, h, lo, hi, i2, num2, steps + 1, m2);
        (
            if 0 < k < w * h {
                seq![k as i32] + rest.0
            } else {
                rest.0
            },
            rest.1,
        )
    }
}

/// A whole mine walk (see `mine_walk`): the start row is drawn from
/// `[0, h)`, one more draw is discarded, and walks starting in the lower
/// half move rows by `[-fy, fx]`, the others by `[-fx, fy]`.
pub open spec fn mine_walk_from(m: RngModel, w: int, h: int, fx: i32, fy: i32) -> (Seq<i32>, RngModel) {
    let (num, m1) = next_range_model(m, 0, h as i32);
    let (_skip, m2) = next_range_model(m1, 0, h as i32);
    let (lo, hi) = if num > h / 2 {
        (-fy as i32, fx)
    } else {
        (-fx as i32, fy)
    };
    mine_walk(w, h, lo, hi, 0, num as int, 0, m2)
}

/// The three mine walks that begin a map, one after the other.
pub open spec fn mine_walks(m: RngModel, w: int, h: int) -> (Seq<i32>, RngModel) {
    let a = mine_walk_from(m, w, h, 2, 3);
    let b = mine_walk_from(a.1, w, h, 2, 3);
    let c = mine_walk_from(b.1, w, h, 2, 3);
    (a.0 + b.0 + c.0, c.1)
}

/// The layers with layer `src` copied to scratch layer 18.
pub open spec fn copied(bb: Seq<u32>, src: int) -> Seq<u32> {
    Seq::new(bb.len(), |j: int| if j / 1152 == 18 { bb[flat(src, j % 1152)] } else { bb[j] })
}

/// What the spreading step threads from cell to cell: the layers, the
/// generator and the remaining budget of painted cells.
pub type Spread = (Seq<u32>, RngModel, int);

/// The spreading around cell `(cx, cy)` from spiral offset `j` on: each
/// offset whose cell lies on the map draws from `[0, 100]`, and a draw of at
/// most `lv` paints that cell with `tgt` where kind `c` allows it; painting
/// spends the budget, and spending its last unit ends the spreading around
/// this cell.
pub open spec fn spread_offsets(
    st: Spread,
    w: int,
    h: int,
    tgt: int,
    lv: int,
    c: CType,
    cx: int,
    cy: int,
    j: nat,
    lim: nat,
) -> Spread
    decreases lim - j,
{
    if j >= lim {
        st
    } else {
        let nx = cx + spiral_point(j).0;
        let ny = cy + spiral_point(j).1;
        if 0 <= nx < w && 0 <= ny < h {
            let (r, m1) = next_range_model(st.1, 0, 100);
            if r <= lv {
                let nw = cell_word(w, nx, ny);
                let nbit = 1u32 << ((nx % 32) as u32);
                if ctype_mask(st.0, w, nw, c) & nbit != 0 {
                    let bb2 = paint(st.0, tgt, nw, nbit);
                    if st.2 == 1 {
                        (bb2, m1, 0)
                    } else {
                        spread_offsets(
                            (bb2, m1, if st.2 > 0 { st.2 - 1 } else { st.2 }),
                            w,
                            h,
                            tgt,
                            lv,
                            c,
                            cx,
                            cy,
                            j + 1,
                            lim,
                        )
                    }
                } else {
                    spread_offsets((st.0, m1, st.2), w, h, tgt, lv, c, cx, cy, j + 1, lim)
                }
            } else {
                spread_offsets((st.0, m1, st.2), w, h, tgt, lv, c, cx, cy, j + 1, lim)
            }
        } else {
            spread_offsets(st, w, h, tgt, lv, c, cx, cy, j + 1, lim)
        }
    }
}

/// The spreading around the cells of word `word` whose bits are in `mask`,
/// highest bit first.
pub open spec fn spread_bits(
    st: Spread,
    w: int,
    h: int,
    tgt: int,
    lv: int,
    c: CType,
    lim: nat,
    word: int,
    mask: u32,
) -> Spread
    decreases mask,
{
    if mask == 0 {
        st
    } else {
        let b = (31 - mask.leading_zeros()) as u32;
        let rest = mask ^ (1u32 << b);
        let cx = (word % row_words(w)) * 32 + b;
        let cy = word / row_words(w);
        let st2 = if cx < w {
            spread_offsets(st, w, h, tgt, lv, c, cx, cy, 0, lim)
        } else {
            st
        };
        proof {
            vstd::std_specs::bits::axiom_u32_leading_zeros(mask);
            lemma_top_bit(mask, mask.leading_zeros());
            lemma_clear_bit(mask, b, 0);
        }
        spread_bits(st2, w, h, tgt, lv, c, lim, word, rest)
    }
}

/// The spreading around every cell of scratch layer 18 (but the first
/// cell of the map), from word `word - 1` down to word 0.
pub open spec fn spread_words(
    st: Spread,
    w: int,
    h: int,
    tgt: int,
    lv: int,
    c: CType,
    lim: nat,
    word: nat,
) -> Spread
    decreases word,
{
    if word == 0 {
        st
    } else {
        let wd = (word - 1) as nat;
        let mask = layer_word(st.0, 18, wd as int) & (if wd == 0 {
            !1u32
        } else {
            !0u32
        });
        spread_words(spread_bits(st, w, h, tgt, lv, c, lim, wd as int, mask), w, h, tgt, lv, c, lim, wd)
    }
}

/// The spiral offsets that spreading of radius `wr` uses.
pub open spec fn spread_limit(wr: int) -> nat {
    let square = (wr * 2 + 1) * (wr * 2 + 1);
    if square < SPIRAL_LEN {
        square as nat
    } else {
        SPIRAL_LEN as nat
    }
}

/// `out_line(src, tgt, wr, lv, maxc, c)`: layer `src` is copied to scratch
/// layer 18, and every cell of the copy (but the first cell of the map),
/// from the last word to the first and the highest bit to the lowest,
/// spreads `tgt` around it over the first `spread_limit(wr)` spiral offsets
/// (see `spread_offsets`).  The layers, the generator and the budget after.
pub open spec fn out_line_model(
    bb: Seq<u32>,
    m: RngModel,
    w: int,
    h: int,
    src: int,
    tgt: int,
    wr: int,
    lv: int,
    maxc: int,
    c: CType,
) -> Spread {
    spread_words((copied(bb, src), m, maxc), w, h, tgt, lv, c, spread_limit(wr), (row_words(w) * h) as nat)
}

/// The cells `keys[i..]`, one after another, painted with `def` where kind
/// `c` allows each.
pub open spec fn paint_keys(bb: Seq<u32>, w: int, keys: Seq<i32>, def: int, c: CType, i: nat) -> Seq<u32>
    decreases keys.len() - i,
{
    if i >= keys.len() {
        bb
    } else {
        let k = keys[i as int] as int;
        let x = k % w;
        let nw = cell_word(w, x, k / w);
        let nbit = 1u32 << ((x % 32) as u32);
        let bb2 = if ctype_mask(bb, w, nw, c) & nbit != 0 {
            paint(bb, def, nw, nbit)
        } else {
            bb
        };
        paint_keys(bb2, w, keys, def, c, i + 1)
    }
}

/// `expand_cell(def, wd, b, elv, c)`: when bit `b` of word `wd` of layer
/// `def` is a cell on the map, a draw from `[0, 100]` of at most `elv`
/// paints its neighbours (see `paint_keys`).
pub open spec fn expand_cell_model(
    bb: Seq<u32>,
    m: RngModel,
    w: int,
    h: int,
    def: int,
    wd: int,
    b: u32,
    elv: int,
    c: CType,
) -> (Seq<u32>, RngModel) {
    let s = row_words(w);
    let kx = (wd % s) * 32 + b;
    if layer_word(bb, def, wd) & (1u32 << b) != 0 && kx < w {
        let (r, m1) = next_range_model(m, 0, 100);
        if r <= elv {
            (paint_keys(bb, w, neighbors(w, h, (wd / s) * w + kx), def, c, 0), m1)
        } else {
            (bb, m1)
        }
    } else {
        (bb, m)
    }
}

/// The expansion over the bits of word `wd` from the `j`-th on: upward when
/// `fwd`, downward otherwise.
pub open spec fn expand_bits(
    st: (Seq<u32>, RngModel),
    w: int,
    h: int,
    def: int,
    elv: int,
    c: CType,
    wd: int,
    fwd: bool,
    j: nat,
) -> (Seq<u32>, RngModel)
    decreases 32 - j,
{
    if j >= 32 {
        st
    } else {
        let b = if fwd {
            j as u32
        } else {
            (31 - j) as u32
        };
        expand_bits(expand_cell_model(st.0, st.1, w, h, def, wd, b, elv, c), w, h, def, elv, c, wd, fwd, j + 1)
    }
}

/// The expansion over the words of the map from the `i`-th on: first to
/// last when `fwd`, last to first otherwise.
pub open spec fn expand_words(
    st: (Seq<u32>, RngModel),
    w: int,
    h: int,
    def: int,
    elv: int,
    c: CType,
    fwd: bool,
    i: nat,
) -> (Seq<u32>, RngModel)
    decreases row_words(w) * h - i,
{
    let words = row_words(w) * h;
    if i >= words {
        st
    } else {
        let wd = if fwd {
            i as int
        } else {
            words - 1 - i
        };
        expand_words(expand_bits(st, w, h, def, elv, c, wd, fwd, 0), w, h, def, elv, c, fwd, i + 1)
    }
}

/// Expansion rounds `e..n`, the even ones forward and the odd ones backward.
pub open spec fn expand_rounds(
    st: (Seq<u32>, RngModel),
    w: int,
    h: int,
    def: int,
    elv: int,
    c: CType,
    e: nat,
    n: nat,
) -> (Seq<u32>, RngModel)
    decreases n - e,
{
    if e >= n {
        st
    } else {
        expand_rounds(expand_words(st, w, h, def, elv, c, e % 2 == 0, 0), w, h, def, elv, c, e + 1, n)
    }
}

/// `n` random seed cells: each draws `x` from `[0, w]` and `y` from
/// `[0, h]` and paints that cell with `def` where kind `c` allows it.  A
/// cell past the layer stops the seeding: the flag is then false.
pub open spec fn seed_cells(
    bb: Seq<u32>,
    m: RngModel,
    w: int,
    h: int,
    def: int,
    c: CType,
    n: nat,
) -> (Seq<u32>, RngModel, bool)
    decreases n,
{
    if n == 0 {
        (bb, m, true)
    } else {
        let (xr, m1) = next_range_model(m, 0, w as i32);
        let (yr, m2) = next_range_model(m1, 0, h as i32);
        let x = xr as int;
        let nw = yr as int * row_words(w) + x / 32;
        if nw >= 1152 {
            (bb, m2, false)
        } else {
            let bit = 1u32 << ((x % 32) as u32);
            let bb2 = if ctype_mask(bb, w, nw, c) & bit != 0 {
                paint(bb, def, nw, bit)
            } else {
                bb
            };
            seed_cells(bb2, m2, w, h, def, c, (n - 1) as nat)
        }
    }
}

/// `random_and_expand(def, rc, ec, elv, olv, oc, c, ec2)`: `max(rc, 1)` seed
/// cells of kind `c`, `ec` expansion rounds of kind `ec2` and, for
/// `olv > 0`, one smoothing step with counts `[olv, oc]`.  The layers, the
/// generator and whether the seeding went through.
pub open spec fn random_and_expand_model(
    bb: Seq<u32>,
    m: RngModel,
    w: int,
    h: int,
    def: int,
    rc: int,
    ec: int,
    elv: int,
    olv: int,
    oc: int,
    c: CType,
    ec2: CType,
) -> (Seq<u32>, RngModel, bool) {
    let seeds: nat = if rc > 1 {
        rc as nat
    } else {
        1
    };
    let (bb1, m1, ok) = seed_cells(bb, m, w, h, def, c, seeds);
    if !ok {
        (bb1, m1, false)
    } else {
        let rounds: nat = if ec > 0 {
            ec as nat
        } else {
            0
        };
        let (bb2, m2) = expand_rounds((bb1, m1), w, h, def, elv, ec2, 0, rounds);
        let bb3 = if olv > 0 {
            smooth_result(bb2, w, h, def, olv, (oc as u32) as int, ec2)
        } else {
            bb2
        };
        (bb3, m2, true)
    }
}

/// One key of a line laid along the walk `dirs`, at walk position `num`: a
/// position past the end of the walk is drawn afresh from `[0, len]`; the
/// walk key there picks a neighbour drawn from `[0, count]` of its
/// neighbours (the key itself when it has none; a draw past the list picks
/// key 0), and that cell is painted with `def` where kind `c` allows it.
/// The layers, the generator, the next position and whether the key went
/// through: a draw that falls on `len`, or past 7, stops the line.
pub open spec fn line_key(
    bb: Seq<u32>,
    m: RngModel,
    num: int,
    w: int,
    h: int,
    dirs: Seq<i32>,
    def: int,
    c: CType,
) -> (Seq<u32>, RngModel, int, bool) {
    let len = dirs.len() as int;
    let (pos, m1) = if num >= len {
        let (r, mr) = next_range_model(m, 0, len as i32);
        (r as int, mr)
    } else {
        (num, m)
    };
    if pos >= len {
        (bb, m1, pos, false)
    } else {
        let k0 = dirs[pos] as int;
        let nb = neighbors(w, h, k0);
        let (r, m2) = if nb.len() > 0 {
            next_range_model(m1, 0, nb.len() as i32)
        } else {
            (0i32, m1)
        };
        if nb.len() > 0 && r >= 8 {
            (bb, m2, pos + 1, false)
        } else {
            let k = if nb.len() == 0 {
                k0
            } else if r < nb.len() {
                nb[r as int] as int
            } else {
                0
            };
            let x = k % w;
            let nw = cell_word(w, x, k / w);
            let bit = 1u32 << ((x % 32) as u32);
            let bb2 = if 0 <= k < w * h && ctype_mask(bb, w, nw, c) & bit != 0 {
                paint(bb, def, nw, bit)
            } else {
                bb
            };
            (bb2, m2, pos + 1, true)
        }
    }
}

/// `n` keys of a line (see `line_key`) from walk position `num`, stopping
/// at a key that does not go through.
pub open spec fn line_keys(
    bb: Seq<u32>,
    m: RngModel,
    num: int,
    w: int,
    h: int,
    dirs: Seq<i32>,
    def: int,
    c: CType,
    n: nat,
) -> (Seq<u32>, RngModel, bool)
    decreases n,
{
    if n == 0 {
        (bb, m, true)
    } else {
        let (bb2, m2, num2, ok) = line_key(bb, m, num, w, h, dirs, def, c);
        if !ok {
            (bb2, m2, false)
        } else {
            line_keys(bb2, m2, num2, w, h, dirs, def, c, (n - 1) as nat)
        }
    }
}

/// `random_line_from_mine_dir(wr, size, def, c)`: nothing without a walk;
/// otherwise a start position drawn from `[0, len]`, `size` line keys (see
/// `line_keys`) and, when the line went through, the spreading
/// `out_line(def, def, wr, 4, 0, c)`.  The layers, the generator and
/// whether the line went through.
pub open spec fn random_line_model(
    bb: Seq<u32>,
    m: RngModel,
    w: int,
    h: int,
    dirs: Seq<i32>,
    wr: int,
    size: int,
    def: int,
    c: CType,
) -> (Seq<u32>, RngModel, bool) {
    if dirs.len() == 0 {
        (bb, m, true)
    } else {
        let (r, m1) = next_range_model(m, 0, dirs.len() as i32);
        let n: nat = if size > 0 {
            size as nat
        } else {
            0
        };
        let (bb2, m2, ok) = line_keys(bb, m1, r as int, w, h, dirs, def, c, n);
        if !ok {
            (bb2, m2, false)
        } else {
            let o = out_line_model(bb2, m2, w, h, def, def, wr, 4, 0, c);
            (o.0, o.1, true)
        }
    }
}

/// `p2key_safe`: the key `y * w + x` of an in-bounds cell, else -1.
pub open spec fn key_of(w: int, h: int, x: int, y: int) -> int {
    if x < 0 || x >= w || y < 0 || y >= h {
        -1
    } else {
        y * w + x
    }
}

/// One orthogonal step from key `k`: 0 down (`+w`), 1 up (`-w`), 2 left,
/// 3 right; -1 when it leaves the map.  Vertical steps never land on key 0,
/// horizontal ones stay in the row.
pub open spec fn orth_step(w: int, h: int, k: int, d: int) -> int {
    let c = w * h;
    if k < 0 {
        -1
    } else if d == 0 {
        if k + w > 0 && k + w < c {
            k + w
        } else {
            -1
        }
    } else if d == 1 {
        if k - w > 0 && k - w < c {
            k - w
        } else {
            -1
        }
    } else if d == 2 {
        if k - 1 >= 0 && k - 1 < c && k / w == (k - 1) / w {
            k - 1
        } else {
            -1
        }
    } else if d == 3 {
        if k + 1 >= 0 && k + 1 < c && k / w == (k + 1) / w {
            k + 1
        } else {
            -1
        }
    } else {
        -1
    }
}

/// `get_grid`: the neighbour of `k` in direction `d`; directions 4 to 7 are
/// the diagonals, taken as a horizontal step (left for 4 and 6, right for 5
/// and 7) followed by a vertical one (up for 4 and 5, down for 6 and 7).
pub open spec fn grid_step(w: int, h: int, k: int, d: int) -> int {
    if k < 0 {
        -1
    } else if 0 <= d <= 3 {
        orth_step(w, h, k, d)
    } else if 4 <= d <= 7 {
        let first = if d == 4 || d == 6 {
            2int
        } else {
            3int
        };
        let second = if d == 4 || d == 5 {
            1int
        } else {
            0int
        };
        let n = orth_step(w, h, k, first);
        if n != -1 {
            orth_step(w, h, n, second)
        } else {
            -1
        }
    } else {
        -1
    }
}

/// The order in which `get_cpu_neighbor` visits the directions.
pub open spec fn neighbor_dir(i: int) -> int {
    if i == 0 {
        6
    } else if i == 1 {
        4
    } else if i == 2 {
        7
    } else if i == 3 {
        5
    } else if i == 4 {
        1
    } else if i == 5 {
        2
    } else if i == 6 {
        3
    } else {
        0
    }
}

/// The existing neighbours of `k`, over the first `i` directions of
/// `neighbor_dir`, in that order.
pub open spec fn neighbors_upto(w: int, h: int, k: int, i: nat) -> Seq<i32>
    decreases i,
{
    if i == 0 {
        Seq::empty()
    } else {
        let prev = neighbors_upto(w, h, k, (i - 1) as nat);
        let n = grid_step(w, h, k, neighbor_dir(i - 1));
        if n != -1 {
            prev.push(n as i32)
        } else {
            prev
        }
    }
}

/// All existing neighbours of `k`, in the order 6, 4, 7, 5, 1, 2, 3, 0.
pub open spec fn neighbors(w: int, h: int, k: int) -> Seq<i32> {
    neighbors_upto(w, h, k, 8)
}

/// The cells a step of kind `c` may paint, in word `i`, before the row-end
/// padding is cut off.
pub open spec fn ctype_base(bb: Seq<u32>, i: int, c: CType) -> u32 {
    let lw = |t: Terrain| layer_word(bb, t.spec_index() as int, i);
    match c {
        CType::AllTrue => 0xffff_ffffu32,
        CType::NoBorn => (lw(Terrain::Soil) | lw(Terrain::FertileSoil)) & !(lw(Terrain::BornSpace)
            | lw(Terrain::BornLine)),
        CType::CheckCon => lw(Terrain::Soil) | lw(Terrain::FertileSoil) | lw(Terrain::LingSoil),
        CType::CheckCon2 => !(lw(Terrain::IronOre) | lw(Terrain::CopperOre) | lw(
            Terrain::SilverOre,
        ) | lw(Terrain::RockBrown) | lw(Terrain::RockGray) | (lw(Terrain::RockMarble) & !(lw(
            Terrain::BornSpace,
        ) | lw(Terrain::BornLine)))),
    }
}

/// `get_ctype_mask`: `ctype_base` with the padding of a row end cleared.
pub open spec fn ctype_mask(bb: Seq<u32>, w: int, i: int, c: CType) -> u32 {
    if w % 32 != 0 && is_row_end(w, i) {
        ctype_base(bb, i, c) & pad_mask(w)
    } else {
        ctype_base(bb, i, c)
    }
}

/// `fill(def)`: layer `def` covers every cell (every word full, row ends up
/// to the last cell), the other terrain layers are emptied.
pub open spec fn filled(bb: Seq<u32>, w: int, def: int) -> Seq<u32> {
    Seq::new(
        bb.len(),
        |j: int|
            if 1 <= j / 1152 <= 15 {
                if j / 1152 == def {
                    if w % 32 != 0 && is_row_end(w, j % 1152) {
                        pad_mask(w)
                    } else {
                        0xffff_ffffu32
                    }
                } else {
                    0u32
                }
            } else {
                bb[j]
            },
    )
}


/// The word holding cell `(x, y)`.
pub open spec fn cell_word(w: int, x: int, y: int) -> int {
    y * row_words(w) + x / 32
}

/// Whether cell `(x, y)` is set in layer `t`.
pub open spec fn cell_in(bb: Seq<u32>, w: int, t: int, x: int, y: int) -> bool {
    bit(layer_word(bb, t, cell_word(w, x, y)), (x % 32) as u32)
}

/// The order in which `finalize_grid` looks for a cell's terrain.
pub open spec fn priority(i: int) -> Terrain {
    if i == 0 {
        Terrain::LingSoil
    } else if i == 1 {
        Terrain::StoneLand
    } else if i == 2 {
        Terrain::RockBrown
    } else if i == 3 {
        Terrain::RockGray
    } else if i == 4 {
        Terrain::RockMarble
    } else if i == 5 {
        Terrain::IronOre
    } else if i == 6 {
        Terrain::CopperOre
    } else if i == 7 {
        Terrain::SilverOre
    } else if i == 8 {
        Terrain::Mud
    } else if i == 9 {
        Terrain::ShallowWater
    } else if i == 10 {
        Terrain::DepthWater
    } else if i == 11 {
        Terrain::DDepthWater
    } else if i == 12 {
        Terrain::FertileSoil
    } else {
        Terrain::Soil
    }
}

/// The first terrain, in `priority` order from position `i`, whose layer
/// holds the cell; `Null` if none does.
pub open spec fn cell_terrain_from(bb: Seq<u32>, w: int, x: int, y: int, i: nat) -> Terrain
    decreases 14 - i,
{
    if i >= 14 {
        Terrain::Null
    } else if cell_in(bb, w, priority(i as int).spec_index() as int, x, y) {
        priority(i as int)
    } else {
        cell_terrain_from(bb, w, x, y, i + 1)
    }
}

/// The terrain that the final grid shows at `(x, y)`.
pub open spec fn cell_terrain(bb: Seq<u32>, w: int, x: int, y: int) -> Terrain {
    cell_terrain_from(bb, w, x, y, 0)
}

/// Painting a word keeps the terrain layers disjoint and the row padding
/// clear, provided a row-end word is painted only inside the row.
pub proof fn lemma_paint_preserves(bb: Seq<u32>, w: int, h: int, t: int, i: int, m: u32)
    requires
        bb.len() == BB_WORDS,
        1 <= t <= 15,
        0 <= i < 1152,
        1 <= w,
        1 <= h,
        row_words(w) * h <= 1152,
        exclusive(bb, row_words(w) * h),
        padding_clear(bb, w, h),
        i < row_words(w) * h && is_row_end(w, i) ==> m & !pad_mask(w) == 0,
    ensures
        exclusive(paint(bb, t, i, m), row_words(w) * h),
        padding_clear(paint(bb, t, i, m), w, h),
        paint(bb, t, i, m).len() == BB_WORDS,
{
    let nb = paint(bb, t, i, m);
    assert forall|t1: int, t2: int, x: int|
        1 <= t1 <= 15 && 1 <= t2 <= 15 && t1 != t2 && 0 <= x < row_words(w) * h implies #[trigger] layer_word(
        nb,
        t1,
        x,
    ) & #[trigger] layer_word(nb, t2, x) == 0 by {
        lemma_flat_parts(t1, x);
        lemma_flat_parts(t2, x);
        let a = layer_word(bb, t1, x);
        let b = layer_word(bb, t2, x);
        assert(a & b == 0);
        lemma_disjoint_after_paint(a, b, m);
        lemma_disjoint_after_paint(b, a, m);
    }
    assert forall|tt: int, x: int|
        0 <= tt < 20 && 0 <= x < row_words(w) * h && is_row_end(w, x) implies #[trigger] layer_word(
        nb,
        tt,
        x,
    ) & !pad_mask(w) == 0 by {
        lemma_flat_parts(tt, x);
        let a = layer_word(bb, tt, x);
        assert(a & !pad_mask(w) == 0);
        lemma_inside_after_paint(a, m, pad_mask(w));
    }
}

impl MapMaker {
    /// The generator's invariant: a map of at most 1152 words per layer,
    /// storage sized to it, recorded mine-walk keys inside the map, the
    /// spiral table, disjoint terrain layers and clear row padding.
    pub open spec fn wf(&self) -> bool {
        &&& 1 <= self.w && 1 <= self.h
        &&& row_words(self.w as int) * self.h <= 1152
        &&& self.w * self.h <= 36864
        &&& self.grid.len() == self.w * self.h
        &&& self.b_space.len() == self.w * self.h
        &&& self.b_line.len() == self.w * self.h
        &&& self.bb.len() == BB_WORDS
        &&& self.rand.wf()
        &&& forall|i: int|
            0 <= i < self.dirs.len() ==> 0 < #[trigger] self.dirs@[i] < self.w * self.h
        &&& self.spiral.len() == SPIRAL_LEN
        &&& forall|k: int| 0 <= k < SPIRAL_LEN ==> #[trigger] self.spiral@[k] == spiral_point(k as nat)
        &&& exclusive(self.bb@, row_words(self.w as int) * self.h)
        &&& padding_clear(self.bb@, self.w as int, self.h as int)
    }

    /// The part of the invariant that `reset` does not rebuild: the map's
    /// size, the lengths of the cell arrays and the spiral table.
    pub open spec fn shape_ok(&self) -> bool {
        &&& 1 <= self.w && 1 <= self.h
        &&& row_words(self.w as int) * self.h <= 1152
        &&& self.w * self.h <= 36864
        &&& self.grid.len() == self.w * self.h
        &&& self.b_space.len() == self.w * self.h
        &&& self.b_line.len() == self.w * self.h
        &&& self.spiral.len() == SPIRAL_LEN
        &&& forall|k: int| 0 <= k < SPIRAL_LEN ==> #[trigger] self.spiral@[k] == spiral_point(k as nat)
    }

    /// Everything but the layers, the generator and the mine walk is as in
    /// `o`.
    pub open spec fn frame(&self, o: &Self) -> bool {
        &&& self.w == o.w
        &&& self.h == o.h
        &&& self.grid == o.grid
        &&& self.b_space == o.b_space
        &&& self.b_line == o.b_line
        &&& self.c_list == o.c_list
        &&& self.spiral == o.spiral
    }

    /// A generator that was in a normal state (see `rng::normal`) still is.
    pub open spec fn rng_kept(&self, o: &Self) -> bool {
        normal(o.rand@) ==> normal(self.rand@)
    }

    /// A covered map (see `cover::covered`) stays covered, provided the
    /// terrain `t` that was painted is not wet land.
    pub open spec fn cover_kept(&self, o: &Self, t: int) -> bool {
        covered(o.bb@, o.w as int, o.h as int) && t != 8 ==> covered(self.bb@, self.w as int, self.h as int)
    }

    /// Words of one layer that the map uses.
    pub open spec fn words(&self) -> int {
        row_words(self.w as int) * self.h
    }

    /// A generator for a `w` by `h` map seeded with `seed`, all layers
    /// empty and every cell `Null`.
    pub fn new(seed: i32, w: i32, h: i32) -> (r: Self)
        requires
            1 <= w,
            1 <= h,
            row_words(w as int) * h <= 1152,
        ensures
            r.wf(),
            r.w == w,
            r.h == h,
            r.rand@ == seeded(seed),
            r.dirs@.len() == 0,
            r.c_list@.len() == 0,
            forall|j: int| 0 <= j < BB_WORDS ==> #[trigger] r.bb@[j] == 0,
            forall|j: int| 0 <= j < w * h ==> #[trigger] r.grid@[j] == Terrain::Null,
            forall|j: int| 0 <= j < w * h ==> !#[trigger] r.b_space@[j],
            forall|j: int| 0 <= j < w * h ==> !#[trigger] r.b_line@[j],
    {
        proof {
            lemma_area_bound(w as int, h as int);
        }
        let count = (w * h) as usize;
        let grid = terrain_vec(count, Terrain::Null);
        let b_space = bool_vec(count, false);
        let b_line = bool_vec(count, false);
        let bb = zero_words(BB_WORDS);
        let r = Self {
            w,
            h,
            rand: GMathUtl::new(seed),
            grid,
            dirs: Vec::new(),
            b_space,
            c_list: Vec::new(),
            b_line,
            bb,
            spiral: get_base_around_50(),
        };
        proof {
            lemma_zero_layers_wf(r.bb@, w as int, h as int);
        }
        r
    }

    /// Reseeds the generator and clears the mine walk, every layer and the
    /// cell arrays.
    pub fn reset(&mut self, s: i32)
        requires
            old(self).shape_ok(),
        ensures
            final(self).wf(),
            final(self).w == old(self).w,
            final(self).h == old(self).h,
            final(self).rand@ == seeded(s),
            final(self).dirs@.len() == 0,
            final(self).c_list@ == old(self).c_list@,
            forall|j: int| 0 <= j < BB_WORDS ==> #[trigger] final(self).bb@[j] == 0,
            forall|j: int|
                0 <= j < old(self).w * old(self).h ==> #[trigger] final(self).grid@[j]
                    == Terrain::Null,
            forall|j: int| 0 <= j < old(self).w * old(self).h ==> !#[trigger] final(self).b_space@[j],
            forall|j: int| 0 <= j < old(self).w * old(self).h ==> !#[trigger] final(self).b_line@[j],
    {
        self.rand = GMathUtl::new(s);
        self.dirs.clear();
        self.bb = zero_words(BB_WORDS);
        fill_terrain(&mut self.grid, Terrain::Null);
        fill_bool(&mut self.b_space, false);
        fill_bool(&mut self.b_line, false);
        proof {
            lemma_zero_layers_wf(self.bb@, self.w as int, self.h as int);
        }
    }

    /// The key `y * w + x` of cell `(x, y)`, or -1 when it lies outside the
    /// map.
    pub fn p2key_safe(&self, x: i32, y: i32) -> (k: i32)
        requires
            self.wf(),
        ensures
            k == key_of(self.w as int, self.h as int, x as int, y as int),
            k == -1 || (0 <= k < self.w * self.h),
    {
        if x < 0 || x >= self.w || y < 0 || y >= self.h {
            -1
        } else {
            proof {
                lemma_key_bound(self.w as int, self.h as int, x as int, y as int);
            }
            y * self.w + x
        }
    }

    /// Whether `key` names a cell other than the first: `0 < key < w * h`.
    pub fn is_valid_key(&self, key: i32) -> (b: bool)
        requires
            self.wf(),
        ensures
            b == (key > 0 && key < self.w * self.h),
    {
        key > 0 && key < self.w * self.h
    }

    /// The neighbour of key `k` in direction `d` (see `grid_step`), or -1.
    pub fn get_grid(&self, k: i32, d: u8) -> (n: i32)
        requires
            self.wf(),
            d == 0 ==> k <= i32::MAX - self.w,
            d == 3 || d == 5 || d == 7 ==> k < i32::MAX,
        ensures
            n == grid_step(self.w as int, self.h as int, k as int, d as int),
            n == -1 || (0 <= n < self.w * self.h),
        decreases d,
    {
        proof {
            lemma_area_bound(self.w as int, self.h as int);
        }
        if k < 0 {
            return -1;
        }
        let (w, c) = (self.w, self.w * self.h);
        match d {
            0 => {
                let n = k + w;
                if n > 0 && n < c {
                    n
                } else {
                    -1
                }
            },
            1 => {
                let n = k - w;
                if n > 0 && n < c {
                    n
                } else {
                    -1
                }
            },
            2 => {
                let n = k - 1;
                if n >= 0 && n < c && k / w == n / w {
                    n
                } else {
                    -1
                }
            },
            3 => {
                let n = k + 1;
                if n >= 0 && n < c && k / w == n / w {
                    n
                } else {
                    -1
                }
            },
            4 => {
                let n = self.get_grid(k, 2);
                if n != -1 {
                    self.get_grid(n, 1)
                } else {
                    -1
                }
            },
            5 => {
                let n = self.get_grid(k, 3);
                if n != -1 {
                    self.get_grid(n, 1)
                } else {
                    -1
                }
            },
            6 => {
                let n = self.get_grid(k, 2);
                if n != -1 {
                    self.get_grid(n, 0)
                } else {
                    -1
                }
            },
            7 => {
                let n = self.get_grid(k, 3);
                if n != -1 {
                    self.get_grid(n, 0)
                } else {
                    -1
                }
            },
            _ => -1,
        }
    }

    /// Writes the existing neighbours of `k` to the front of `out`, in the
    /// order 6, 4, 7, 5, 1, 2, 3, 0 of `get_grid`'s directions, and returns
    /// their number.
    fn get_cpu_neighbor(&self, k: i32, out: &mut [i32; 8]) -> (c: usize)
        requires
            self.wf(),
            k < i32::MAX - self.w,
        ensures
            c == neighbors(self.w as int, self.h as int, k as int).len(),
            c <= 8,
            forall|i: int| c <= i < 8 ==> #[trigger] final(out)@[i] == old(out)@[i],
            forall|i: int|
                0 <= i < c ==> 0 <= #[trigger] final(out)@[i] < self.w * self.h,
            forall|i: int|
                0 <= i < c ==> #[trigger] final(out)@[i] == neighbors(
                    self.w as int,
                    self.h as int,
                    k as int,
                )[i],
    {
        let order: [u8; 8] = [6, 4, 7, 5, 1, 2, 3, 0];
        let mut c: usize = 0;
        let mut i: usize = 0;
        while i < 8
            invariant
                i <= 8,
                self.wf(),
                k < i32::MAX - self.w,
                order@ == seq![6u8, 4u8, 7u8, 5u8, 1u8, 2u8, 3u8, 0u8],
                c == neighbors_upto(self.w as int, self.h as int, k as int, i as nat).len(),
                c <= i,
                forall|j: int| c <= j < 8 ==> #[trigger] out@[j] == old(out)@[j],
                forall|j: int| 0 <= j < c ==> 0 <= #[trigger] out@[j] < self.w * self.h,
                forall|j: int|
                    0 <= j < c ==> #[trigger] out@[j] == neighbors_upto(
                        self.w as int,
                        self.h as int,
                        k as int,
                        i as nat,
                    )[j],
            decreases 8 - i,
        {
            let d = order[i];
            assert(d as int == neighbor_dir(i as int));
            let n = self.get_grid(k, d);
            if n != -1 {
                out[c] = n;
                c = c + 1;
            }
            i = i + 1;
        }
        c
    }

    /// The cells of word `w` that a step of kind `c` may paint (see
    /// `ctype_mask`).
    fn get_ctype_mask(&self, w: usize, c: CType) -> (r: u32)
        requires
            self.wf(),
            w < LAYER_WORDS,
        ensures
            r == ctype_mask(self.bb@, self.w as int, w as int, c),
    {
        proof {
            lemma_area_bound(self.w as int, self.h as int);
        }
        let s: usize = ((self.w + 31) / 32) as usize;
        let rem: u32 = (self.w % 32) as u32;
        let lw = |t: Terrain| -> (r: u32)
            requires
                self.bb.len() == BB_WORDS,
                w < LAYER_WORDS,
            ensures
                r == layer_word(self.bb@, t.spec_index() as int, w as int),
            { self.bb[t.index() * LAYER_WORDS + w] };
        let mut base = match c {
            CType::AllTrue => 0xffff_ffffu32,
            CType::NoBorn => (lw(Terrain::Soil) | lw(Terrain::FertileSoil)) & !(lw(
                Terrain::BornSpace,
            ) | lw(Terrain::BornLine)),
            CType::CheckCon => lw(Terrain::Soil) | lw(Terrain::FertileSoil) | lw(Terrain::LingSoil),
            CType::CheckCon2 => !(lw(Terrain::IronOre) | lw(Terrain::CopperOre) | lw(
                Terrain::SilverOre,
            ) | lw(Terrain::RockBrown) | lw(Terrain::RockGray) | (lw(Terrain::RockMarble) & !(lw(
                Terrain::BornSpace,
            ) | lw(Terrain::BornLine)))),
        };
        if rem != 0 && w % s == s - 1 {
            proof {
                lemma_shift_pos(rem);
            }
            base = base & ((1u32 << rem) - 1);
        }
        base
    }

    /// Layer `def` covers the whole map and the other terrain layers are
    /// emptied (see `filled`).
    fn fill(&mut self, def: Terrain)
        requires
            old(self).wf(),
            1 <= def.spec_index() <= 15,
        ensures
            final(self).wf(),
            final(self).bb@ == filled(old(self).bb@, old(self).w as int, def.spec_index() as int),
            final(self).w == old(self).w,
            final(self).h == old(self).h,
            final(self).grid == old(self).grid,
            final(self).rand == old(self).rand,
            final(self).dirs == old(self).dirs,
            final(self).b_space == old(self).b_space,
            final(self).c_list == old(self).c_list,
            final(self).b_line == old(self).b_line,
            final(self).spiral == old(self).spiral,
            def.spec_index() == 1 ==> covered(final(self).bb@, final(self).w as int, final(self).h as int),
    {
        proof {
            lemma_area_bound(self.w as int, self.h as int);
        }
        fill_layers(&mut self.bb, self.w, def.index());
        proof {
            lemma_filled_wf(old(self).bb@, self.w as int, self.h as int, def.spec_index() as int);
            if def.spec_index() == 1 {
                lemma_filled_covered(old(self).bb@, self.w as int, self.h as int);
            }
        }
    }

    /// Writes the final cell arrays from the layers: each cell's terrain is
    /// the first of `priority` whose layer holds it (else `Null`); the birth
    /// area and line are read from layers 16 and 17.
    fn finalize_grid(&mut self)
        requires
            old(self).wf(),
        ensures
            final(self).wf(),
            final(self).bb == old(self).bb,
            final(self).w == old(self).w,
            final(self).h == old(self).h,
            final(self).rand == old(self).rand,
            final(self).dirs == old(self).dirs,
            final(self).c_list == old(self).c_list,
            final(self).spiral == old(self).spiral,
            forall|x: int, y: int|
                0 <= x < old(self).w && 0 <= y < old(self).h ==> {
                    &&& #[trigger] final(self).grid@[y * old(self).w + x] == cell_terrain(
                        old(self).bb@,
                        old(self).w as int,
                        x,
                        y,
                    )
                    &&& final(self).b_space@[y * old(self).w + x] == cell_in(
                        old(self).bb@,
                        old(self).w as int,
                        16,
                        x,
                        y,
                    )
                    &&& final(self).b_line@[y * old(self).w + x] == cell_in(
                        old(self).bb@,
                        old(self).w as int,
                        17,
                        x,
                        y,
                    )
                },
    {
        proof {
            lemma_area_bound(self.w as int, self.h as int);
        }
        fill_terrain(&mut self.grid, Terrain::Null);
        fill_bool(&mut self.b_space, false);
        fill_bool(&mut self.b_line, false);
        write_terrain_grid(&self.bb, self.w, self.h, &mut self.grid);
        mark_layer_cells(&self.bb, 16, self.w, self.h, &mut self.b_space);
        mark_layer_cells(&self.bb, 17, self.w, self.h, &mut self.b_line);
    }

    /// Paints bit(s) `m` of word `nw` with `t`, keeping the invariant.
    fn paint_cell(&mut self, t: Terrain, nw: usize, m: u32)
        requires
            old(self).wf(),
            1 <= t.spec_index() <= 15,
            nw < LAYER_WORDS,
            nw < old(self).words() && is_row_end(old(self).w as int, nw as int) ==> m & !pad_mask(
                old(self).w as int,
            ) == 0,
        ensures
            final(self).wf(),
            final(self).frame(old(self)),
            final(self).bb@ == paint(old(self).bb@, t.spec_index() as int, nw as int, m),
            final(self).cover_kept(old(self), t.spec_index() as int),
            final(self).rand == old(self).rand,
            final(self).dirs == old(self).dirs,
    {
        proof {
            if covered(self.bb@, self.w as int, self.h as int) && t.spec_index() != 8 {
                lemma_paint_covered(self.bb@, self.w as int, self.h as int, t.spec_index() as int, nw as int, m);
            }
        }
        proof {
            lemma_paint_preserves(
                self.bb@,
                self.w as int,
                self.h as int,
                t.spec_index() as int,
                nw as int,
                m,
            );
        }
        self.set_mask(t, nw, m);
    }

    /// A random walk across the map from a random row on the left edge to
    /// the right edge, recording the keys it visits (other than key 0) as
    /// mine sites.  Each step goes right, or left with chance 10 in 100,
    /// and moves the row by a draw in `[-fy, fx]` (walks starting in the
    /// lower half) or `[-fx, fy]`.  A walk stops after `MINE_WALK_STEPS`
    /// steps.
    fn make_mine_dir(&mut self, fx: i32, fy: i32)
        requires
            old(self).wf(),
            0 <= fx <= 3,
            0 <= fy <= 3,
        ensures
            final(self).wf(),
            final(self).frame(old(self)),
            final(self).rng_kept(old(self)),
            final(self).bb == old(self).bb,
            final(self).dirs.len() <= old(self).dirs.len() + MINE_WALK_STEPS,
            old(self).dirs@ == final(self).dirs@.subrange(0, old(self).dirs.len() as int),
            final(self).dirs@ == old(self).dirs@ + mine_walk_from(
                old(self).rand@,
                old(self).w as int,
                old(self).h as int,
                fx,
                fy,
            ).0,
            final(self).rand@ == mine_walk_from(
                old(self).rand@,
                old(self).w as int,
                old(self).h as int,
                fx,
                fy,
            ).1,
    {
        let ghost target = mine_walk_from(self.rand@, self.w as int, self.h as int, fx, fy);
        let mut i: i32 = 0;
        let mut num = self.rand.random_range_int(0, self.h, RandomType::EmNone, "");
        let num2 = num;
        let _ = self.rand.random_range_int(0, self.h, RandomType::EmNone, "");
        let (lo, hi) = if num2 > self.h / 2 {
            (-fy, fx)
        } else {
            (-fx, fy)
        };
        let mut steps: u32 = 0;
        proof {
            lemma_area_bound(self.w as int, self.h as int);
            assert(old(self).dirs@ + target.0 =~= self.dirs@ + mine_walk(
                self.w as int,
                self.h as int,
                lo,
                hi,
                0,
                num as int,
                0,
                self.rand@,
            ).0);
        }
        while i < self.w && steps < MINE_WALK_STEPS
            invariant
                self.wf(),
                self.frame(old(self)),
                self.rng_kept(old(self)),
                self.bb == old(self).bb,
                0 <= fx <= 3,
                0 <= fy <= 3,
                steps <= MINE_WALK_STEPS,
                -(steps as int) <= i <= self.w,
                -3 * steps <= num <= self.h + 3 * steps,
                self.w <= 36864,
                self.h <= 1152,
                self.dirs.len() <= old(self).dirs.len() + steps,
                old(self).dirs.len() <= self.dirs.len(),
                old(self).dirs@ == self.dirs@.subrange(0, old(self).dirs.len() as int),
                -3 <= lo <= 0,
                0 <= hi <= 3,
                self.dirs@ + mine_walk(
                    self.w as int,
                    self.h as int,
                    lo,
                    hi,
                    i as int,
                    num as int,
                    steps as nat,
                    self.rand@,
                ).0 == old(self).dirs@ + target.0,
                mine_walk(
                    self.w as int,
                    self.h as int,
                    lo,
                    hi,
                    i as int,
                    num as int,
                    steps as nat,
                    self.rand@,
                ).1 == target.1,
            decreases MINE_WALK_STEPS - steps,
        {
            let ghost walk = mine_walk(
                self.w as int,
                self.h as int,
                lo,
                hi,
                i as int,
                num as int,
                steps as nat,
                self.rand@,
            );
            let turn = self.rand.random_range_int(0, 100, RandomType::EmNone, "");
            i = i + if turn < 10 {
                -1
            } else {
                1
            };
            let step = self.rand.random_range_int(lo, hi, RandomType::EmNone, "");
            num = num + step;
            let k = self.p2key_safe(i, num);
            let ghost before = self.dirs@;
            let ghost rest = mine_walk(
                self.w as int,
                self.h as int,
                lo,
                hi,
                i as int,
                num as int,
                (steps + 1) as nat,
                self.rand@,
            );
            if self.is_valid_key(k) {
                self.dirs.push(k);
                assert(self.dirs@.subrange(0, old(self).dirs.len() as int) =~= before.subrange(
                    0,
                    old(self).dirs.len() as int,
                ));
                assert(walk.0 == seq![k] + rest.0);
                assert(self.dirs@ + rest.0 =~= before + walk.0);
            } else {
                assert(walk.0 == rest.0);
            }
            steps = steps + 1;
        }
    }

    /// Spreads terrain `tgt` around cell `(cx, cy)` over the first `lim`
    /// spiral offsets: each offset whose cell is on the map draws from
    /// `[0, 100]`, and a draw of at most `lv` paints that cell where the kind
    /// `ctype` allows it.  A positive `budget` counts the paintings down, and
    /// the spreading stops when it reaches 0.
    fn spread_around(
        &mut self,
        cx: i32,
        cy: i32,
        lim: usize,
        tgt: Terrain,
        lv: i32,
        ctype: CType,
        budget: &mut i32,
    )
        requires
            old(self).wf(),
            1 <= tgt.spec_index() <= 15,
            lim <= SPIRAL_LEN,
            0 <= cx < old(self).w,
            0 <= cy < old(self).h,
        ensures
            final(self).wf(),
            final(self).frame(old(self)),
            final(self).rng_kept(old(self)),
            final(self).cover_kept(old(self), tgt.spec_index() as int),
            final(self).dirs == old(self).dirs,
            (final(self).bb@, final(self).rand@, *final(budget) as int) == spread_offsets(
                (old(self).bb@, old(self).rand@, *old(budget) as int),
                old(self).w as int,
                old(self).h as int,
                tgt.spec_index() as int,
                lv as int,
                ctype,
                cx as int,
                cy as int,
                0,
                lim as nat,
            ),
    {
        proof {
            lemma_area_bound(self.w as int, self.h as int);
        }
        let ghost goal = spread_offsets(
            (self.bb@, self.rand@, *budget as int),
            self.w as int,
            self.h as int,
            tgt.spec_index() as int,
            lv as int,
            ctype,
            cx as int,
            cy as int,
            0,
            lim as nat,
        );
        let s: usize = ((self.w + 31) / 32) as usize;
        let mut j: usize = 0;
        while j < lim
            invariant_except_break
                j <= lim,
                spread_offsets(
                    (self.bb@, self.rand@, *budget as int),
                    self.w as int,
                    self.h as int,
                    tgt.spec_index() as int,
                    lv as int,
                    ctype,
                    cx as int,
                    cy as int,
                    j as nat,
                    lim as nat,
                ) == goal,
            invariant
                self.wf(),
                self.frame(old(self)),
                self.rng_kept(old(self)),
                self.cover_kept(old(self), tgt.spec_index() as int),
                self.dirs == old(self).dirs,
                1 <= tgt.spec_index() <= 15,
                lim <= SPIRAL_LEN,
                s == row_words(self.w as int),
                0 <= cx < self.w,
                0 <= cy < self.h,
                self.w <= 36864,
                self.h <= 1152,
            ensures
                (self.bb@, self.rand@, *budget as int) == goal,
            decreases lim - j,
        {
            let (dx, dy) = self.spiral[j];
            proof {
                lemma_spiral_point_bounds(j as nat);
            }
            let nx = cx + dx;
            let ny = cy + dy;
            if nx >= 0 && nx < self.w && ny >= 0 && ny < self.h {
                if self.rand.random_range_int(0, 100, RandomType::EmNone, "") <= lv {
                    proof {
                        lemma_cell_word(self.w as int, self.h as int, nx as int, ny as int);
                        lemma_cell_bit_inside(self.w as int, self.h as int, nx as int, ny as int);
                    }
                    let nw: usize = (ny as usize) * s + (nx as usize) / 32;
                    let nbit: u32 = 1u32 << ((nx % 32) as u32);
                    if (self.get_ctype_mask(nw, ctype) & nbit) != 0 {
                        self.paint_cell(tgt, nw, nbit);
                        // a budget that has run out (or was never set) stays put
                        if *budget > 0 {
                            *budget = *budget - 1;
                            if *budget == 0 {
                                break ;
                            }
                        }
                    }
                }
            }
            j = j + 1;
        }
    }

    /// Spreads terrain `tgt` around every cell of layer `src` (except the
    /// first cell of the map): the cells of a copy of `src` are taken from
    /// the last word to the first and the highest bit to the lowest, and each
    /// spreads with `spread_around` over the square of radius `w` (in spiral
    /// order, at most the 101 by 101 square of the spiral table).  A positive
    /// `maxc` is a budget of paintings for the whole call: once spent, it
    /// ends the spreading around the cell that spent it and no longer
    /// counts.
    fn out_line(&mut self, src: Terrain, tgt: Terrain, w: i32, lv: i32, maxc: i32, ctype: CType)
        requires
            old(self).wf(),
            src.spec_index() < LAYERS,
            1 <= tgt.spec_index() <= 15,
            0 <= w <= 1000,
        ensures
            final(self).wf(),
            final(self).frame(old(self)),
            final(self).rng_kept(old(self)),
            final(self).cover_kept(old(self), tgt.spec_index() as int),
            final(self).dirs == old(self).dirs,
            ({
                let r = out_line_model(
                    old(self).bb@,
                    old(self).rand@,
                    old(self).w as int,
                    old(self).h as int,
                    src.spec_index() as int,
                    tgt.spec_index() as int,
                    w as int,
                    lv as int,
                    maxc as int,
                    ctype,
                );
                final(self).bb@ == r.0 && final(self).rand@ == r.1
            }),
    {
        proof {
            lemma_area_bound(self.w as int, self.h as int);
        }
        copy_layer(&mut self.bb, src.index(), Terrain::Tmp1.index());
        proof {
            lemma_copy_layer_wf(old(self).bb@, self.bb@, self.w as int, self.h as int, src.spec_index() as int);
            lemma_copied(old(self).bb@, self.bb@, src.spec_index() as int);
            if covered(old(self).bb@, self.w as int, self.h as int) {
                lemma_copied_covered(old(self).bb@, self.w as int, self.h as int, src.spec_index() as int);
            }
        }
        assert((w * 2 + 1) * (w * 2 + 1) <= 2001 * 2001) by (nonlinear_arith)
            requires
                0 <= w <= 1000,
        ;
        assert((w * 2 + 1) * (w * 2 + 1) >= 1) by (nonlinear_arith)
            requires
                0 <= w <= 1000,
        ;
        // the square of radius `w`, as far as the spiral table reaches
        let square: usize = ((w * 2 + 1) * (w * 2 + 1)) as usize;
        let lim: usize = if square < SPIRAL_LEN {
            square
        } else {
            SPIRAL_LEN
        };
        let s: usize = ((self.w + 31) / 32) as usize;
        let words: usize = s * (self.h as usize);
        let mut budget = maxc;
        let ghost ww = self.w as int;
        let ghost hh = self.h as int;
        let ghost tt = tgt.spec_index() as int;
        let ghost goal = out_line_model(
            old(self).bb@,
            old(self).rand@,
            ww,
            hh,
            src.spec_index() as int,
            tt,
            w as int,
            lv as int,
            maxc as int,
            ctype,
        );
        assert(lim == spread_limit(w as int));
        let mut word = words;
        while word > 0
            invariant
                self.wf(),
                self.frame(old(self)),
                self.rng_kept(old(self)),
                self.cover_kept(old(self), tgt.spec_index() as int),
                self.dirs == old(self).dirs,
                ww == self.w,
                hh == self.h,
                tt == tgt.spec_index(),
                1 <= tgt.spec_index() <= 15,
                lim <= SPIRAL_LEN,
                s == row_words(self.w as int),
                words == self.words(),
                word <= words,
                self.w <= 36864,
                self.h <= 1152,
                spread_words(
                    (self.bb@, self.rand@, budget as int),
                    ww,
                    hh,
                    tt,
                    lv as int,
                    ctype,
                    lim as nat,
                    word as nat,
                ) == goal,
            decreases word,
        {
            word = word - 1;
            let mut m = self.bb[Terrain::Tmp1.index() * LAYER_WORDS + word] & if word == 0 {
                !1u32
            } else {
                !0u32
            };
            while m != 0
                invariant
                    self.wf(),
                    self.frame(old(self)),
                    self.rng_kept(old(self)),
                    self.cover_kept(old(self), tgt.spec_index() as int),
                    self.dirs == old(self).dirs,
                    ww == self.w,
                    hh == self.h,
                    tt == tgt.spec_index(),
                    1 <= tgt.spec_index() <= 15,
                    lim <= SPIRAL_LEN,
                    s == row_words(self.w as int),
                    words == self.words(),
                    word < words,
                    self.w <= 36864,
                    self.h <= 1152,
                    spread_words(
                        spread_bits(
                            (self.bb@, self.rand@, budget as int),
                            ww,
                            hh,
                            tt,
                            lv as int,
                            ctype,
                            lim as nat,
                            word as int,
                            m,
                        ),
                        ww,
                        hh,
                        tt,
                        lv as int,
                        ctype,
                        lim as nat,
                        word as nat,
                    ) == goal,
                decreases m,
            {
                let lz = m.leading_zeros();
                proof {
                    vstd::std_specs::bits::axiom_u32_leading_zeros(m);
                    lemma_top_bit(m, lz);
                    lemma_clear_bit(m, (31 - lz) as u32, 0);
                }
                let b: u32 = 31 - lz;
                m = m ^ (1u32 << b);
                let cx: i32 = ((word % s) * 32 + b as usize) as i32;
                let cy: i32 = (word / s) as i32;
                proof {
                    lemma_word_position(word as int, s as int, self.h as int);
                }
                if cx < self.w {
                    self.spread_around(cx, cy, lim, tgt, lv, ctype, &mut budget);
                }
            }
        }
    }

    /// Lays a line of terrain `def` along the mine walk: from a random
    /// position of the walk, `size` consecutive walk keys (restarting at a
    /// random position at the end of the walk) each paint a random one of
    /// their neighbours where the kind `ctype` allows it; then the line
    /// spreads with `out_line(def, def, w, 4, 0, ctype)`.  Returns false,
    /// with the map as far as it got, when a draw falls past the end of the
    /// walk or of the neighbour list, where no cell could be read (only
    /// possible when the generator is not in a normal state).
    fn random_line_from_mine_dir(&mut self, w: i32, size: i32, def: Terrain, ctype: CType) -> (ok: bool)
        requires
            old(self).wf(),
            1 <= def.spec_index() <= 15,
            0 <= w <= 1000,
            old(self).dirs.len() < 0x8000_0000,
        ensures
            final(self).wf(),
            final(self).frame(old(self)),
            final(self).rng_kept(old(self)),
            final(self).cover_kept(old(self), def.spec_index() as int),
            final(self).dirs == old(self).dirs,
            normal(old(self).rand@) ==> ok,
            ({
                let r = random_line_model(
                    old(self).bb@,
                    old(self).rand@,
                    old(self).w as int,
                    old(self).h as int,
                    old(self).dirs@,
                    w as int,
                    size as int,
                    def.spec_index() as int,
                    ctype,
                );
                final(self).bb@ == r.0 && final(self).rand@ == r.1 && ok == r.2
            }),
    {
        if self.dirs.len() == 0 {
            return true;
        }
        proof {
            lemma_area_bound(self.w as int, self.h as int);
        }
        let s: usize = ((self.w + 31) / 32) as usize;
        let len = self.dirs.len();
        let mut num = self.rand.random_range_int(0, len as i32, RandomType::EmNone, "") as usize;
        let ghost ww = self.w as int;
        let ghost hh = self.h as int;
        let ghost dd = def.spec_index() as int;
        let ghost goal = line_keys(
            self.bb@,
            self.rand@,
            num as int,
            ww,
            hh,
            self.dirs@,
            dd,
            ctype,
            if size > 0 {
                size as nat
            } else {
                0
            },
        );
        let ghost whole = random_line_model(
            old(self).bb@,
            old(self).rand@,
            ww,
            hh,
            old(self).dirs@,
            w as int,
            size as int,
            dd,
            ctype,
        );
        assert(whole == if goal.2 {
            let o = out_line_model(goal.0, goal.1, ww, hh, dd, dd, w as int, 4, 0, ctype);
            (o.0, o.1, true)
        } else {
            goal
        });
        let mut it: i32 = 0;
        while it < size
            invariant
                whole == random_line_model(
                    old(self).bb@,
                    old(self).rand@,
                    ww,
                    hh,
                    old(self).dirs@,
                    w as int,
                    size as int,
                    dd,
                    ctype,
                ),
                whole == if goal.2 {
                    let o = out_line_model(goal.0, goal.1, ww, hh, dd, dd, w as int, 4, 0, ctype);
                    (o.0, o.1, true)
                } else {
                    goal
                },
                self.wf(),
                self.frame(old(self)),
                self.rng_kept(old(self)),
                self.cover_kept(old(self), def.spec_index() as int),
                self.dirs == old(self).dirs,
                len == self.dirs.len(),
                1 <= len < 0x8000_0000,
                1 <= def.spec_index() <= 15,
                s == row_words(self.w as int),
                num <= len,
                self.w <= 36864,
                self.h <= 1152,
                ww == self.w,
                hh == self.h,
                dd == def.spec_index(),
                0 <= it,
                size > 0 ==> it <= size,
                line_keys(
                    self.bb@,
                    self.rand@,
                    num as int,
                    ww,
                    hh,
                    self.dirs@,
                    dd,
                    ctype,
                    if size > it {
                        (size - it) as nat
                    } else {
                        0
                    },
                ) == goal,
            decreases size - it,
        {
            let (next, ok) = self.lay_line_key(num, def, ctype);
            if !ok {
                return false;
            }
            num = next;
            it = it + 1;
        }
        self.out_line(def, def, w, 4, 0, ctype);
        true
    }

    /// One key of a line along the mine walk (see `line_key`): returns the
    /// next walk position and whether the key went through.
    #[verifier::spinoff_prover]
    fn lay_line_key(&mut self, num: usize, def: Terrain, ctype: CType) -> (r: (usize, bool))
        requires
            old(self).wf(),
            1 <= def.spec_index() <= 15,
            1 <= old(self).dirs.len() < 0x8000_0000,
            num <= old(self).dirs.len(),
        ensures
            final(self).wf(),
            final(self).frame(old(self)),
            final(self).rng_kept(old(self)),
            final(self).cover_kept(old(self), def.spec_index() as int),
            final(self).dirs == old(self).dirs,
            r.0 <= old(self).dirs.len(),
            normal(old(self).rand@) ==> r.1,
            (final(self).bb@, final(self).rand@, r.0 as int, r.1) == line_key(
                old(self).bb@,
                old(self).rand@,
                num as int,
                old(self).w as int,
                old(self).h as int,
                old(self).dirs@,
                def.spec_index() as int,
                ctype,
            ),
    {
        proof {
            lemma_area_bound(self.w as int, self.h as int);
        }
        let s: usize = ((self.w + 31) / 32) as usize;
        let len = self.dirs.len();
        let mut num = num;
        if num >= len {
            num = self.rand.random_range_int(0, len as i32, RandomType::EmNone, "") as usize;
        }
        if num >= len {
            return (num, false);
        }
        let mut k = self.dirs[num];
        num = num + 1;
        let mut vk: [i32; 8] = [0; 8];
        let n = self.get_cpu_neighbor(k, &mut vk);
        if n > 0 {
            let idx = self.rand.random_range_int(0, n as i32, RandomType::EmNone, "") as usize;
            if idx >= 8 {
                return (num, false);
            }
            k = vk[idx];
        }
        if k >= 0 && k < self.w * self.h {
            let x = k % self.w;
            let y = k / self.w;
            proof {
                lemma_key_position(self.w as int, self.h as int, k as int);
                lemma_cell_word(self.w as int, self.h as int, x as int, y as int);
                lemma_cell_bit_inside(self.w as int, self.h as int, x as int, y as int);
            }
            let nw: usize = (y as usize) * s + (x as usize) / 32;
            let bit: u32 = 1u32 << ((x % 32) as u32);
            if (self.get_ctype_mask(nw, ctype) & bit) != 0 {
                self.paint_cell(def, nw, bit);
            }
        }
        (num, true)
    }

    /// Stores `v` in word `i` of one of the working layers 16 to 19.
    fn set_scratch(&mut self, t: usize, i: usize, v: u32)
        requires
            old(self).wf(),
            16 <= t < LAYERS,
            i < LAYER_WORDS,
            i < old(self).words() && is_row_end(old(self).w as int, i as int) ==> v & !pad_mask(
                old(self).w as int,
            ) == 0,
        ensures
            final(self).wf(),
            final(self).frame(old(self)),
            final(self).bb@ == old(self).bb@.update(flat(t as int, i as int), v),
            final(self).cover_kept(old(self), 1),
            final(self).rand == old(self).rand,
            final(self).dirs == old(self).dirs,
    {
        proof {
            if covered(self.bb@, self.w as int, self.h as int) {
                lemma_scratch_covered(self.bb@, self.w as int, self.h as int, t as int, i as int, v);
            }
        }
        proof {
            lemma_flat_parts(t as int, i as int);
            let nb = old(self).bb@.update(flat(t as int, i as int), v);
            let w = self.w as int;
            let h = self.h as int;
            assert forall|t1: int, t2: int, x: int|
                1 <= t1 <= 15 && 1 <= t2 <= 15 && t1 != t2 && 0 <= x < row_words(w) * h implies #[trigger] layer_word(
                nb,
                t1,
                x,
            ) & #[trigger] layer_word(nb, t2, x) == 0 by {
                lemma_flat_injective(t1, x, t as int, i as int);
                lemma_flat_injective(t2, x, t as int, i as int);
                assert(layer_word(nb, t1, x) == layer_word(old(self).bb@, t1, x));
                assert(layer_word(nb, t2, x) == layer_word(old(self).bb@, t2, x));
            }
            assert forall|tt: int, x: int|
                0 <= tt < 20 && 0 <= x < row_words(w) * h && is_row_end(w, x) implies #[trigger] layer_word(
                nb,
                tt,
                x,
            ) & !pad_mask(w) == 0 by {
                lemma_flat_injective(tt, x, t as int, i as int);
                if !(tt == t && x == i) {
                    assert(layer_word(nb, tt, x) == layer_word(old(self).bb@, tt, x));
                }
            }
        }
        self.bb.set(t * LAYER_WORDS + i, v);
    }

    /// The three views of word `xw` of row `r` (at word offset `o`) of
    /// layer `d` that the neighbour count needs, bit `j` standing for cell
    /// `x = 32 * xw + j`: the cell to the left of `x`, the cell `x` itself, the
    /// cell to the right of `x`, each 0 off the map.  `clear_first` (only in
    /// the first word of a row) leaves out cell 0 of the row.
    #[verifier::spinoff_prover]
    fn row_views(
        &self,
        d: usize,
        o: usize,
        xw: usize,
        s: usize,
        clear_first: bool,
        Ghost(r): Ghost<int>,
    ) -> (v: (u32, u32, u32))
        requires
            self.wf(),
            d < LAYERS,
            s == row_words(self.w as int),
            xw < s,
            0 <= r < self.h,
            o == r * s,
            clear_first ==> xw == 0,
        ensures
            forall|j: u32|
                j < 32 && xw * 32 + j < self.w ==> #[trigger] bit(v.0, j) == (xw * 32 + j >= 1 && cell_in(
                    self.bb@,
                    self.w as int,
                    d as int,
                    xw * 32 + j - 1,
                    r,
                ) && !(clear_first && xw * 32 + j - 1 == 0)),
            forall|j: u32|
                j < 32 && xw * 32 + j < self.w ==> #[trigger] bit(v.1, j) == (cell_in(
                    self.bb@,
                    self.w as int,
                    d as int,
                    xw * 32 + j,
                    r,
                ) && !(clear_first && xw * 32 + j == 0)),
            forall|j: u32|
                j < 32 && xw * 32 + j < self.w ==> #[trigger] bit(v.2, j) == (xw * 32 + j + 1 < self.w
                    && cell_in(self.bb@, self.w as int, d as int, xw * 32 + j + 1, r)),
    {
        proof {
            lemma_area_bound(self.w as int, self.h as int);
            lemma_row_position(r, s as int, xw as int, self.h as int);
            if xw + 1 < s {
                lemma_row_position(r, s as int, xw as int + 1, self.h as int);
            }
        }
        let raw = self.bb[d * LAYER_WORDS + o + xw];
        let mut c = raw;
        if clear_first {
            c = c & !1u32;
        }
        let p: u32 = if xw > 0 {
            self.bb[d * LAYER_WORDS + o + xw - 1]
        } else {
            0
        };
        let n: u32 = if xw < s - 1 {
            self.bb[d * LAYER_WORDS + o + xw + 1]
        } else {
            0
        };
        let left = if xw > 0 {
            (c << 1u32) | (p >> 31u32)
        } else {
            c << 1u32
        };
        let right = if xw < s - 1 {
            (c >> 1u32) | (n << 31u32)
        } else {
            c >> 1u32
        };
        let v = (left, c, right);
        proof {
            lemma_flat_parts(d as int, o + xw);
            if xw > 0 {
                lemma_flat_parts(d as int, o + xw - 1);
            }
            if xw < s - 1 {
                lemma_flat_parts(d as int, o + xw + 1);
            }
            lemma_row_view_bits(
                self.bb@,
                self.w as int,
                self.h as int,
                d as int,
                r,
                s as int,
                xw as int,
                clear_first,
                raw,
                c,
                p,
                n,
                left,
                right,
            );
        }
        v
    }

    /// Word `y * s + xw` of a smoothing step (see `smooth_bit`), from layer
    /// `d` and the kind mask stored in scratch layer 19.
    fn smooth_word(
        &self,
        d: usize,
        y: usize,
        xw: usize,
        s: usize,
        lo: u32,
        hi: u32,
        ctype: CType,
        Ghost(bb0): Ghost<Seq<u32>>,
    ) -> (v: u32)
        requires
            self.wf(),
            1 <= d <= 15,
            s == row_words(self.w as int),
            y < self.h,
            xw < s,
            forall|u: int, i: int|
                0 <= u < 18 && 0 <= i < 1152 ==> #[trigger] layer_word(self.bb@, u, i) == layer_word(bb0, u, i),
            layer_word(self.bb@, 19, y * s + xw) == ctype_mask(bb0, self.w as int, y * s + xw, ctype),
        ensures
            forall|j: u32|
                j < 32 ==> #[trigger] bit(v, j) == smooth_bit(
                    bb0,
                    self.w as int,
                    self.h as int,
                    d as int,
                    lo as int,
                    hi as int,
                    ctype,
                    y * s + xw,
                    j,
                ),
            is_row_end(self.w as int, y * s + xw) ==> v & !pad_mask(self.w as int) == 0,
    {
        proof {
            lemma_area_bound(self.w as int, self.h as int);
            lemma_row_position(y as int, s as int, xw as int, self.h as int);
            lemma_word_of_row(y as int, s as int, xw as int);
        }
        let ghost ww = self.w as int;
        let ghost hh = self.h as int;
        let h = self.h as usize;
        let w = y * s + xw;
        let m = self.bb[Terrain::Tmp2.index() * LAYER_WORDS + w];
        proof {
            lemma_flat_parts(19, w as int);
            assert(m == layer_word(self.bb@, 19, w as int));
            if is_row_end(ww, w as int) {
                lemma_ctype_mask_padded(bb0, ww, w as int, ctype);
            }
        }
        if m == 0 {
            proof {
                lemma_zero_bits();
                lemma_zero_word(pad_mask(ww));
            }
            return 0;
        }
        let (ml, _mc, mr) = self.row_views(d, y * s, xw, s, false, Ghost(y as int));
        let (ul, uc, ur) = if y > 0 {
            proof {
                lemma_row_position(y as int - 1, s as int, xw as int, hh);
            }
            self.row_views(d, (y - 1) * s, xw, s, y == 1 && xw == 0, Ghost(y as int - 1))
        } else {
            (0u32, 0u32, 0u32)
        };
        let (dl, dc, dr) = if y + 1 < h {
            proof {
                lemma_row_position(y as int + 1, s as int, xw as int, hh);
            }
            self.row_views(d, (y + 1) * s, xw, s, false, Ghost(y as int + 1))
        } else {
            (0u32, 0u32, 0u32)
        };
        let mask = count_in_range_mask(ml, mr, ul, uc, ur, dl, dc, dr, lo, hi);
        let v = mask & m;
        proof {
            if is_row_end(ww, w as int) {
                lemma_inside_after_paint(m, mask, pad_mask(ww));
            }
            assert forall|j: u32| j < 32 implies #[trigger] bit(v, j) == smooth_bit(
                bb0,
                ww,
                hh,
                d as int,
                lo as int,
                hi as int,
                ctype,
                w as int,
                j,
            ) by {
                lemma_bits_of_ops(mask, m, j);
                let x = xw * 32 + j;
                if x < ww {
                    lemma_zero_bits();
                    let yy = y as int;
                    if x >= 1 {
                        lemma_cell_frame(self.bb@, bb0, ww, hh, d as int, x - 1, yy);
                        if yy >= 1 {
                            lemma_cell_frame(self.bb@, bb0, ww, hh, d as int, x - 1, yy - 1);
                        }
                        if yy + 1 < hh {
                            lemma_cell_frame(self.bb@, bb0, ww, hh, d as int, x - 1, yy + 1);
                        }
                    }
                    lemma_cell_frame(self.bb@, bb0, ww, hh, d as int, x, yy);
                    if yy >= 1 {
                        lemma_cell_frame(self.bb@, bb0, ww, hh, d as int, x, yy - 1);
                    }
                    if yy + 1 < hh {
                        lemma_cell_frame(self.bb@, bb0, ww, hh, d as int, x, yy + 1);
                    }
                    if x + 1 < ww {
                        lemma_cell_frame(self.bb@, bb0, ww, hh, d as int, x + 1, yy);
                        if yy >= 1 {
                            lemma_cell_frame(self.bb@, bb0, ww, hh, d as int, x + 1, yy - 1);
                        }
                        if yy + 1 < hh {
                            lemma_cell_frame(self.bb@, bb0, ww, hh, d as int, x + 1, yy + 1);
                        }
                    }
                    assert(bit(ml, j) == counts_as_neighbour(bb0, ww, hh, d as int, yy, x - 1, yy));
                    assert(bit(mr, j) == counts_as_neighbour(bb0, ww, hh, d as int, yy, x + 1, yy));
                    assert(bit(ul, j) == counts_as_neighbour(bb0, ww, hh, d as int, yy, x - 1, yy - 1));
                    assert(bit(uc, j) == counts_as_neighbour(bb0, ww, hh, d as int, yy, x, yy - 1));
                    assert(bit(ur, j) == counts_as_neighbour(bb0, ww, hh, d as int, yy, x + 1, yy - 1));
                    assert(bit(dl, j) == counts_as_neighbour(bb0, ww, hh, d as int, yy, x - 1, yy + 1));
                    assert(bit(dc, j) == counts_as_neighbour(bb0, ww, hh, d as int, yy, x, yy + 1));
                    assert(bit(dr, j) == counts_as_neighbour(bb0, ww, hh, d as int, yy, x + 1, yy + 1));
                    lemma_count_matches(
                        bb0,
                        ww,
                        hh,
                        d as int,
                        x,
                        yy,
                        j,
                        ml,
                        mr,
                        ul,
                        uc,
                        ur,
                        dl,
                        dc,
                        dr,
                    );
                } else {
                    lemma_padding_bit_of_mask(bb0, ww, hh, w as int, j as int, y as int, xw as int, ctype);
                }
            }
        }
        v
    }

    /// One smoothing step: every cell that the kind `ctype` allows and whose
    /// number of `def` neighbours (see `nbr_count`) lies in `[lo, hi]` is
    /// painted with `def` (see `smoothed`).
    fn smooth_step(&mut self, def: Terrain, lo: u32, hi: u32, ctype: CType)
        requires
            old(self).wf(),
            1 <= def.spec_index() <= 15,
        ensures
            final(self).wf(),
            final(self).frame(old(self)),
            final(self).rand == old(self).rand,
            final(self).cover_kept(old(self), def.spec_index() as int),
            final(self).dirs == old(self).dirs,
            smoothed_full(
                old(self).bb@,
                final(self).bb@,
                old(self).w as int,
                old(self).h as int,
                def.spec_index() as int,
                lo as int,
                hi as int,
                ctype,
            ),
    {
        proof {
            lemma_area_bound(self.w as int, self.h as int);
        }
        let ghost bb0 = self.bb@;
        let ghost ww = self.w as int;
        let ghost hh = self.h as int;
        let d = def.index();
        let s: usize = ((self.w + 31) / 32) as usize;
        let h: usize = self.h as usize;
        let words = s * h;
        let t1 = Terrain::Tmp1.index();
        let t2 = Terrain::Tmp2.index();
        let mut w: usize = 0;
        while w < words
            invariant
                self.wf(),
                self.frame(old(self)),
                self.rand == old(self).rand,
                self.cover_kept(old(self), def.spec_index() as int),
                self.dirs == old(self).dirs,
                bb0 == old(self).bb@,
                ww == self.w,
                hh == self.h,
                t2 == 19,
                words == self.words(),
                words <= LAYER_WORDS,
                w <= words,
                forall|u: int, i: int|
                    0 <= u < 19 && 0 <= i < 1152 ==> #[trigger] layer_word(self.bb@, u, i) == layer_word(
                        bb0,
                        u,
                        i,
                    ),
                forall|i: int| 0 <= i < w ==> #[trigger] layer_word(self.bb@, 19, i) == ctype_mask(bb0, ww, i, ctype),
                forall|i: int| words <= i < 1152 ==> #[trigger] layer_word(self.bb@, 19, i) == layer_word(bb0, 19, i),
            decreases words - w,
        {
            let m = self.get_ctype_mask(w, ctype);
            proof {
                lemma_ctype_frame(self.bb@, bb0, ww, w as int, ctype);
                if is_row_end(self.w as int, w as int) {
                    lemma_ctype_mask_padded(self.bb@, self.w as int, w as int, ctype);
                }
            }
            let ghost before = self.bb@;
            self.set_scratch(t2, w, m);
            proof {
                lemma_scratch_frame(before, self.bb@, 19, w as int, m);
            }
            w = w + 1;
        }
        let mut y: usize = 0;
        while y < h
            invariant
                self.wf(),
                self.frame(old(self)),
                self.rand == old(self).rand,
                self.cover_kept(old(self), def.spec_index() as int),
                self.dirs == old(self).dirs,
                bb0 == old(self).bb@,
                ww == self.w,
                hh == self.h,
                1 <= d <= 15,
                d == def.spec_index(),
                t1 == 18,
                t2 == 19,
                s == row_words(self.w as int),
                s >= 1,
                h == self.h,
                words == self.words(),
                words == s * h,
                words <= LAYER_WORDS,
                y <= h,
                forall|u: int, i: int|
                    0 <= u < 18 && 0 <= i < 1152 ==> #[trigger] layer_word(self.bb@, u, i) == layer_word(
                        bb0,
                        u,
                        i,
                    ),
                forall|i: int| 0 <= i < words ==> #[trigger] layer_word(self.bb@, 19, i) == ctype_mask(bb0, ww, i, ctype),
                forall|u: int, i: int|
                    18 <= u < 20 && words <= i < 1152 ==> #[trigger] layer_word(self.bb@, u, i) == layer_word(bb0, u, i),
                forall|i: int, j: u32|
                    0 <= i < y * s && j < 32 ==> #[trigger] bit(layer_word(self.bb@, 18, i), j)
                        == smooth_bit(bb0, ww, hh, d as int, lo as int, hi as int, ctype, i, j),
            decreases h - y,
        {
            proof {
                lemma_row_offsets(y as int, s as int, h as int);
            }
            let ro = y * s;
            let up = if y > 0 {
                (y - 1) * s
            } else {
                0
            };
            let dn = if y + 1 < h {
                (y + 1) * s
            } else {
                (h - 1) * s
            };
            let mut xw: usize = 0;
            while xw < s
                invariant
                    self.wf(),
                    self.frame(old(self)),
                    self.rand == old(self).rand,
                    self.cover_kept(old(self), def.spec_index() as int),
                    self.dirs == old(self).dirs,
                    bb0 == old(self).bb@,
                    ww == self.w,
                    hh == self.h,
                    1 <= d <= 15,
                    d == def.spec_index(),
                    t1 == 18,
                    t2 == 19,
                    s == row_words(self.w as int),
                    s >= 1,
                    h == self.h,
                    words == self.words(),
                    words == s * h,
                    words <= LAYER_WORDS,
                    y < h,
                    ro == y * s,
                    ro + s <= words,
                    y > 0 ==> up == (y - 1) * s,
                    y + 1 < h ==> dn == (y + 1) * s,
                    up + s <= words,
                    dn + s <= words,
                    xw <= s,
                    forall|u: int, i: int|
                        0 <= u < 18 && 0 <= i < 1152 ==> #[trigger] layer_word(self.bb@, u, i)
                            == layer_word(bb0, u, i),
                    forall|i: int| 0 <= i < words ==> #[trigger] layer_word(self.bb@, 19, i) == ctype_mask(bb0, ww, i, ctype),
                    forall|u: int, i: int|
                        18 <= u < 20 && words <= i < 1152 ==> #[trigger] layer_word(self.bb@, u, i) == layer_word(bb0, u, i),
                    forall|i: int, j: u32|
                        0 <= i < y * s + xw && j < 32 ==> #[trigger] bit(layer_word(self.bb@, 18, i), j)
                            == smooth_bit(bb0, ww, hh, d as int, lo as int, hi as int, ctype, i, j),
                decreases s - xw,
            {
                let w = ro + xw;
                proof {
                    lemma_row_position(y as int, s as int, xw as int, h as int);
                }
                let v = self.smooth_word(d, y, xw, s, lo, hi, ctype, Ghost(bb0));
                let ghost before = self.bb@;
                self.set_scratch(t1, w, v);
                proof {
                    lemma_scratch_frame(before, self.bb@, 18, w as int, v);
                }
                xw = xw + 1;
            }
            assert((y + 1) * s == y * s + s) by (nonlinear_arith);
            y = y + 1;
        }
        assert(h * s == s * h) by (nonlinear_arith);
        let ghost mid = self.bb@;
        let ghost o = Seq::new(1152, |i: int| layer_word(mid, 18, i));
        assert(applied(mid, d as int, o, 0) =~= mid);
        let mut w: usize = 0;
        while w < words
            invariant
                self.wf(),
                self.frame(old(self)),
                self.rand == old(self).rand,
                self.cover_kept(old(self), def.spec_index() as int),
                self.dirs == old(self).dirs,
                1 <= d <= 15,
                d == def.spec_index(),
                t1 == 18,
                words == self.words(),
                words <= LAYER_WORDS,
                w <= words,
                mid.len() == BB_WORDS,
                o == Seq::new(1152, |i: int| layer_word(mid, 18, i)),
                self.bb@ == applied(mid, d as int, o, w as int),
            decreases words - w,
        {
            let ghost before = self.bb@;
            proof {
                lemma_flat_parts(18, w as int);
                lemma_flat_parts(d as int, w as int);
                assert(before[flat(18, w as int)] == mid[flat(18, w as int)]);
                assert(before[flat(d as int, w as int)] == mid[flat(d as int, w as int)]);
            }
            let diff = self.bb[t1 * LAYER_WORDS + w] & !self.bb[d * LAYER_WORDS + w];
            if diff != 0 {
                proof {
                    if is_row_end(self.w as int, w as int) {
                        assert(layer_word(self.bb@, 18, w as int) & !pad_mask(self.w as int) == 0);
                        lemma_inside_after_paint(
                            layer_word(self.bb@, 18, w as int),
                            layer_word(self.bb@, d as int, w as int),
                            pad_mask(self.w as int),
                        );
                    }
                }
                self.paint_cell(def, w, diff);
            }
            proof {
                lemma_applied_step(mid, d as int, o, w as int, before, self.bb@, diff);
            }
            w = w + 1;
        }
        proof {
            assert forall|i: int, j: u32| 0 <= i < row_words(ww) * hh && j < 32 implies #[trigger] bit(o[i], j)
                == smooth_bit(bb0, ww, hh, d as int, lo as int, hi as int, ctype, i, j) by {
                assert(o[i] == layer_word(mid, 18, i));
            }
            lemma_smoothed(bb0, mid, o, self.bb@, ww, hh, d as int, lo as int, hi as int, ctype);
            assert forall|u: int, i: int| 18 <= u < 20 && 0 <= i < 1152 implies #[trigger] layer_word(
                self.bb@,
                u,
                i,
            ) == layer_word(mid, u, i) by {
                lemma_flat_parts(u, i);
            }
        }
    }

    /// Grows or trims terrain `def` by neighbour counts, `maxc` times: each
    /// time, every cell that the kind `ctype` allows and whose number of
    /// `def` neighbours lies in `[opt_min, opt_max]` (both read as `u32`, so
    /// a negative bound is a huge one) is painted with `def` (exactly
    /// `smoothed` for one time).
    fn optimize(&mut self, def: Terrain, opt_min: i32, opt_max: i32, maxc: i32, ctype: CType)
        requires
            old(self).wf(),
            1 <= def.spec_index() <= 15,
        ensures
            final(self).wf(),
            final(self).frame(old(self)),
            final(self).rand == old(self).rand,
            final(self).cover_kept(old(self), def.spec_index() as int),
            final(self).dirs == old(self).dirs,
            final(self).bb@ == optimized(
                old(self).bb@,
                old(self).w as int,
                old(self).h as int,
                def.spec_index() as int,
                (opt_min as u32) as int,
                (opt_max as u32) as int,
                ctype,
                if maxc > 0 {
                    maxc as nat
                } else {
                    0
                },
            ),
            maxc <= 0 ==> final(self).bb == old(self).bb,
            opt_min as u32 > opt_max as u32 ==> forall|u: int, i: int|
                0 <= u < 18 && 0 <= i < 1152 ==> #[trigger] layer_word(final(self).bb@, u, i) == layer_word(
                    old(self).bb@,
                    u,
                    i,
                ),
            maxc == 1 ==> smoothed(
                old(self).bb@,
                final(self).bb@,
                old(self).w as int,
                old(self).h as int,
                def.spec_index() as int,
                (opt_min as u32) as int,
                (opt_max as u32) as int,
                ctype,
            ),
    {
        let lo: u32 = opt_min as u32;
        let hi: u32 = opt_max as u32;
        let mut round: i32 = 0;
        while round < maxc
            invariant
                self.wf(),
                self.frame(old(self)),
                self.rand == old(self).rand,
                self.cover_kept(old(self), def.spec_index() as int),
                self.dirs == old(self).dirs,
                1 <= def.spec_index() <= 15,
                lo == opt_min as u32,
                hi == opt_max as u32,
                0 <= round,
                round <= maxc || round == 0,
                self.bb@ == optimized(
                    old(self).bb@,
                    old(self).w as int,
                    old(self).h as int,
                    def.spec_index() as int,
                    lo as int,
                    hi as int,
                    ctype,
                    round as nat,
                ),
                round == 0 ==> self.bb == old(self).bb,
                lo > hi ==> forall|u: int, i: int|
                    0 <= u < 18 && 0 <= i < 1152 ==> #[trigger] layer_word(self.bb@, u, i) == layer_word(
                        old(self).bb@,
                        u,
                        i,
                    ),
                round == 1 ==> smoothed(
                    old(self).bb@,
                    self.bb@,
                    old(self).w as int,
                    old(self).h as int,
                    def.spec_index() as int,
                    lo as int,
                    hi as int,
                    ctype,
                ),
            decreases maxc - round,
        {
            let ghost before = self.bb@;
            self.smooth_step(def, lo, hi, ctype);
            proof {
                lemma_smooth_result(
                    before,
                    self.bb@,
                    self.w as int,
                    self.h as int,
                    def.spec_index() as int,
                    lo as int,
                    hi as int,
                    ctype,
                );
            }
            proof {
                if lo > hi {
                    law_empty_count_range(
                        before,
                        self.bb@,
                        self.w as int,
                        self.h as int,
                        def.spec_index() as int,
                        lo as int,
                        hi as int,
                        ctype,
                    );
                }
            }
            round = round + 1;
        }
    }


    /// One expansion step at bit `b` of word `w` (see `expand_cell_model`):
    /// if that cell holds `def` and lies on the map, with chance `elv + 1`
    /// in 100 its neighbours that the kind `ectype` allows are painted with
    /// `def`.
    fn expand_cell(&mut self, def: Terrain, w: usize, b: u32, elv: i32, ectype: CType)
        requires
            old(self).wf(),
            1 <= def.spec_index() <= 15,
            w < old(self).words(),
            b < 32,
        ensures
            final(self).wf(),
            final(self).frame(old(self)),
            final(self).rng_kept(old(self)),
            final(self).cover_kept(old(self), def.spec_index() as int),
            final(self).dirs == old(self).dirs,
            (final(self).bb@, final(self).rand@) == expand_cell_model(
                old(self).bb@,
                old(self).rand@,
                old(self).w as int,
                old(self).h as int,
                def.spec_index() as int,
                w as int,
                b,
                elv as int,
                ectype,
            ),
    {
        proof {
            lemma_area_bound(self.w as int, self.h as int);
        }
        let s: usize = ((self.w + 31) / 32) as usize;
        let d = def.index();
        let word = self.bb[d * LAYER_WORDS + w];
        proof {
            lemma_shift_pos(b);
            lemma_word_position(w as int, s as int, self.h as int);
        }
        if (word & (1u32 << b)) != 0 && w % s * 32 + (b as usize) < self.w as usize {
            let kx = w % s * 32 + b as usize;
            let ky = w / s;
            proof {
                lemma_key_bound(self.w as int, self.h as int, kx as int, ky as int);
            }
            let k: i32 = (ky * (self.w as usize) + kx) as i32;
            if self.rand.random_range_int(0, 100, RandomType::EmNone, "") <= elv {
                let mut nk: [i32; 8] = [0; 8];
                let n = self.get_cpu_neighbor(k, &mut nk);
                let ghost ww = self.w as int;
                let ghost nb = neighbors(self.w as int, self.h as int, k as int);
                let ghost goal = paint_keys(self.bb@, ww, nb, def.spec_index() as int, ectype, 0);
                let ghost m1 = self.rand@;
                let mut i: usize = 0;
                while i < n
                    invariant
                        self.wf(),
                        self.frame(old(self)),
                        self.rng_kept(old(self)),
                        self.cover_kept(old(self), def.spec_index() as int),
                        self.dirs == old(self).dirs,
                        1 <= def.spec_index() <= 15,
                        n <= 8,
                        s == row_words(self.w as int),
                        self.w <= 36864,
                        self.h <= 1152,
                        ww == self.w,
                        n == nb.len(),
                        forall|j: int| 0 <= j < n ==> 0 <= #[trigger] nk@[j] < self.w * self.h,
                        forall|j: int| 0 <= j < n ==> #[trigger] nk@[j] == nb[j],
                        i <= n,
                        paint_keys(self.bb@, ww, nb, def.spec_index() as int, ectype, i as nat) == goal,
                        self.rand@ == m1,
                    decreases n - i,
                {
                    let key = nk[i];
                    let x = key % self.w;
                    let y = key / self.w;
                    proof {
                        lemma_key_position(self.w as int, self.h as int, key as int);
                        lemma_cell_word(self.w as int, self.h as int, x as int, y as int);
                        lemma_cell_bit_inside(self.w as int, self.h as int, x as int, y as int);
                    }
                    let nw: usize = (y as usize) * s + (x as usize) / 32;
                    let nbit: u32 = 1u32 << ((x % 32) as u32);
                    if (self.get_ctype_mask(nw, ectype) & nbit) != 0 {
                        self.paint_cell(def, nw, nbit);
                    }
                    i = i + 1;
                }
            }
        }
    }

    /// The expansion over the 32 bits of word `w`, upward when `fwd` and
    /// downward otherwise (see `expand_bits`).
    fn expand_word(&mut self, def: Terrain, w: usize, fwd: bool, elv: i32, ectype: CType)
        requires
            old(self).wf(),
            1 <= def.spec_index() <= 15,
            w < old(self).words(),
        ensures
            final(self).wf(),
            final(self).frame(old(self)),
            final(self).rng_kept(old(self)),
            final(self).cover_kept(old(self), def.spec_index() as int),
            final(self).dirs == old(self).dirs,
            (final(self).bb@, final(self).rand@) == expand_bits(
                (old(self).bb@, old(self).rand@),
                old(self).w as int,
                old(self).h as int,
                def.spec_index() as int,
                elv as int,
                ectype,
                w as int,
                fwd,
                0,
            ),
    {
        let ghost goal = expand_bits(
            (self.bb@, self.rand@),
            self.w as int,
            self.h as int,
            def.spec_index() as int,
            elv as int,
            ectype,
            w as int,
            fwd,
            0,
        );
        let mut j: u32 = 0;
        while j < 32
            invariant
                self.wf(),
                self.frame(old(self)),
                self.rng_kept(old(self)),
                self.cover_kept(old(self), def.spec_index() as int),
                self.dirs == old(self).dirs,
                1 <= def.spec_index() <= 15,
                w < self.words(),
                j <= 32,
                expand_bits(
                    (self.bb@, self.rand@),
                    self.w as int,
                    self.h as int,
                    def.spec_index() as int,
                    elv as int,
                    ectype,
                    w as int,
                    fwd,
                    j as nat,
                ) == goal,
            decreases 32 - j,
        {
            let b = if fwd {
                j
            } else {
                31 - j
            };
            self.expand_cell(def, w, b, elv, ectype);
            j = j + 1;
        }
    }

    /// One expansion round over every word of the map, first to last when
    /// `fwd` and last to first otherwise (see `expand_words`).
    fn expand_pass(&mut self, def: Terrain, fwd: bool, elv: i32, ectype: CType)
        requires
            old(self).wf(),
            1 <= def.spec_index() <= 15,
        ensures
            final(self).wf(),
            final(self).frame(old(self)),
            final(self).rng_kept(old(self)),
            final(self).cover_kept(old(self), def.spec_index() as int),
            final(self).dirs == old(self).dirs,
            (final(self).bb@, final(self).rand@) == expand_words(
                (old(self).bb@, old(self).rand@),
                old(self).w as int,
                old(self).h as int,
                def.spec_index() as int,
                elv as int,
                ectype,
                fwd,
                0,
            ),
    {
        proof {
            lemma_area_bound(self.w as int, self.h as int);
        }
        let s: usize = ((self.w + 31) / 32) as usize;
        let words: usize = s * (self.h as usize);
        let ghost goal = expand_words(
            (self.bb@, self.rand@),
            self.w as int,
            self.h as int,
            def.spec_index() as int,
            elv as int,
            ectype,
            fwd,
            0,
        );
        let mut i: usize = 0;
        while i < words
            invariant
                self.wf(),
                self.frame(old(self)),
                self.rng_kept(old(self)),
                self.cover_kept(old(self), def.spec_index() as int),
                self.dirs == old(self).dirs,
                1 <= def.spec_index() <= 15,
                words == self.words(),
                i <= words,
                expand_words(
                    (self.bb@, self.rand@),
                    self.w as int,
                    self.h as int,
                    def.spec_index() as int,
                    elv as int,
                    ectype,
                    fwd,
                    i as nat,
                ) == goal,
            decreases words - i,
        {
            let w = if fwd {
                i
            } else {
                words - 1 - i
            };
            self.expand_word(def, w, fwd, elv, ectype);
            i = i + 1;
        }
    }

    /// Seeds `max(rc, 1)` random cells with `def` (where the kind `ctype`
    /// allows), expands the terrain `ec` times over every cell (alternating
    /// forward and backward rounds, see `expand_pass`), then, for `olv > 0`,
    /// runs `optimize(def, olv, oc, 1, ectype)` (see
    /// `random_and_expand_model`).  Returns false, with the map as far as it
    /// got, when a random cell is drawn off the layer, where no layer word
    /// could be read (only possible when the generator is not in a normal
    /// state).
    fn random_and_expand(
        &mut self,
        def: Terrain,
        rc: i32,
        ec: i32,
        elv: i32,
        olv: i32,
        oc: i32,
        ctype: CType,
        ectype: CType,
    ) -> (ok: bool)
        requires
            old(self).wf(),
            1 <= def.spec_index() <= 15,
        ensures
            final(self).wf(),
            final(self).frame(old(self)),
            final(self).rng_kept(old(self)),
            final(self).cover_kept(old(self), def.spec_index() as int),
            final(self).dirs == old(self).dirs,
            normal(old(self).rand@) ==> ok,
            ({
                let r = random_and_expand_model(
                    old(self).bb@,
                    old(self).rand@,
                    old(self).w as int,
                    old(self).h as int,
                    def.spec_index() as int,
                    rc as int,
                    ec as int,
                    elv as int,
                    olv as int,
                    oc as int,
                    ctype,
                    ectype,
                );
                final(self).bb@ == r.0 && final(self).rand@ == r.1 && ok == r.2
            }),
    {
        proof {
            lemma_area_bound(self.w as int, self.h as int);
        }
        let s: usize = ((self.w + 31) / 32) as usize;
        let words: usize = s * (self.h as usize);
        let seeds: i32 = if rc > 1 {
            rc
        } else {
            1
        };
        let ghost ww = self.w as int;
        let ghost hh = self.h as int;
        let ghost dd = def.spec_index() as int;
        let ghost whole = random_and_expand_model(
            self.bb@,
            self.rand@,
            ww,
            hh,
            dd,
            rc as int,
            ec as int,
            elv as int,
            olv as int,
            oc as int,
            ctype,
            ectype,
        );
        let ghost seeded = seed_cells(self.bb@, self.rand@, ww, hh, dd, ctype, seeds as nat);
        let mut r: i32 = 0;
        while r < seeds
            invariant
                self.wf(),
                self.frame(old(self)),
                self.rng_kept(old(self)),
                self.cover_kept(old(self), def.spec_index() as int),
                self.dirs == old(self).dirs,
                1 <= def.spec_index() <= 15,
                s == row_words(self.w as int),
                words == self.words(),
                self.w <= 36864,
                self.h <= 1152,
                ww == self.w,
                hh == self.h,
                dd == def.spec_index(),
                0 <= r <= seeds,
                seed_cells(self.bb@, self.rand@, ww, hh, dd, ctype, (seeds - r) as nat) == seeded,
                !seeded.2 ==> whole == seeded,
                whole == random_and_expand_model(
                    old(self).bb@,
                    old(self).rand@,
                    ww,
                    hh,
                    dd,
                    rc as int,
                    ec as int,
                    elv as int,
                    olv as int,
                    oc as int,
                    ctype,
                    ectype,
                ),
            decreases seeds - r,
        {
            let ghost pre = (self.bb@, self.rand@);
            let x = self.rand.random_range_int(0, self.w, RandomType::EmNone, "");
            let y = self.rand.random_range_int(0, self.h, RandomType::EmNone, "");
            proof {
                assert((y as usize) * s <= 1152 * 1152) by (nonlinear_arith)
                    requires
                        0 <= y <= 1152,
                        s <= 1152,
                ;
                assert(s * self.h >= s) by (nonlinear_arith)
                    requires
                        self.h >= 1,
                        s >= 1,
                ;
            }
            let nw: usize = (y as usize) * s + (x as usize) / 32;
            proof {
                if normal(old(self).rand@) {
                    assert(x < self.w && y < self.h);
                    lemma_cell_word(self.w as int, self.h as int, x as int, y as int);
                }
            }
            if nw >= LAYER_WORDS {
                proof {
                    assert(seed_cells(pre.0, pre.1, ww, hh, dd, ctype, (seeds - r) as nat) == (
                        self.bb@,
                        self.rand@,
                        false,
                    ));
                }
                return false;
            }
            let bit: u32 = 1u32 << ((x % 32) as u32);
            let m = self.get_ctype_mask(nw, ctype);
            if (m & bit) != 0 {
                proof {
                    if nw < self.words() && is_row_end(self.w as int, nw as int) {
                        lemma_ctype_mask_padded(self.bb@, self.w as int, nw as int, ctype);
                        lemma_single_bit_inside((x % 32) as u32, m, pad_mask(self.w as int));
                    }
                }
                self.paint_cell(def, nw, bit);
            }
            r = r + 1;
        }
        let ghost rounds: nat = if ec > 0 {
            ec as nat
        } else {
            0
        };
        let ghost expanded = expand_rounds((self.bb@, self.rand@), ww, hh, dd, elv as int, ectype, 0, rounds);
        assert(seeded == (self.bb@, self.rand@, true));
        assert(whole == (
            if olv > 0 {
                smooth_result(expanded.0, ww, hh, dd, olv as int, (oc as u32) as int, ectype)
            } else {
                expanded.0
            },
            expanded.1,
            true,
        ));
        let mut forward = true;
        let mut e: i32 = 0;
        while e < ec
            invariant
                self.wf(),
                self.frame(old(self)),
                self.rng_kept(old(self)),
                self.cover_kept(old(self), def.spec_index() as int),
                self.dirs == old(self).dirs,
                1 <= def.spec_index() <= 15,
                words == self.words(),
                ww == self.w,
                hh == self.h,
                dd == def.spec_index(),
                0 <= e,
                ec > 0 ==> e <= ec,
                forward == (e % 2 == 0),
                ec > 0 ==> rounds == ec as nat,
                ec <= 0 ==> rounds == 0,
                expand_rounds((self.bb@, self.rand@), ww, hh, dd, elv as int, ectype, e as nat, rounds) == expanded,
                whole == random_and_expand_model(
                    old(self).bb@,
                    old(self).rand@,
                    ww,
                    hh,
                    dd,
                    rc as int,
                    ec as int,
                    elv as int,
                    olv as int,
                    oc as int,
                    ctype,
                    ectype,
                ),
                whole == (
                    if olv > 0 {
                        smooth_result(expanded.0, ww, hh, dd, olv as int, (oc as u32) as int, ectype)
                    } else {
                        expanded.0
                    },
                    expanded.1,
                    true,
                ),
            decreases ec - e,
        {
            let ghost pre = (self.bb@, self.rand@);
            self.expand_pass(def, forward, elv, ectype);
            proof {
                assert(expand_rounds(pre, ww, hh, dd, elv as int, ectype, e as nat, rounds) == expand_rounds(
                    expand_words(pre, ww, hh, dd, elv as int, ectype, forward, 0),
                    ww,
                    hh,
                    dd,
                    elv as int,
                    ectype,
                    (e + 1) as nat,
                    rounds,
                ));
            }
            forward = !forward;
            e = e + 1;
        }
        if olv > 0 {
            let ghost before = self.bb@;
            self.optimize(def, olv, oc, 1, ectype);
            proof {
                assert(optimized(before, ww, hh, dd, olv as int, (oc as u32) as int, ectype, 1) == smooth_result(
                    optimized(before, ww, hh, dd, olv as int, (oc as u32) as int, ectype, 0),
                    ww,
                    hh,
                    dd,
                    olv as int,
                    (oc as u32) as int,
                    ectype,
                ));
            }
        }
        true
    }

    /// Generates the map: mine walks, the birth area (fertile soil around a
    /// random point in the lower middle), the birth line on the four edges,
    /// water, mud, ores, rocks, stone land and spirit soil, each by
    /// painting, spreading (`out_line`), seeding and expanding
    /// (`random_and_expand`) and smoothing (`optimize`) its layer, then
    /// writes the cell arrays (`finalize_grid`).  Returns false, with a
    /// partly generated map, when a draw falls where no cell or walk entry
    /// could be read (only possible when the generator is not in a normal
    /// state).
    pub fn make_map(&mut self) -> (ok: bool)
        requires
            old(self).wf(),
            old(self).dirs.len() <= 0x1000_0000,
        ensures
            final(self).wf(),
            final(self).w == old(self).w,
            final(self).h == old(self).h,
            final(self).c_list == old(self).c_list,
            final(self).spiral == old(self).spiral,
            final(self).rng_kept(old(self)),
            ok ==> covered(final(self).bb@, final(self).w as int, final(self).h as int),
            ok ==> forall|x: int, y: int|
                0 <= x < final(self).w && 0 <= y < final(self).h ==> {
                    &&& #[trigger] final(self).grid@[y * final(self).w + x] != Terrain::Null
                    &&& final(self).grid@[y * final(self).w + x] != Terrain::WetLand
                    &&& cell_in(
                        final(self).bb@,
                        final(self).w as int,
                        final(self).grid@[y * final(self).w + x].spec_index() as int,
                        x,
                        y,
                    )
                },
            final(self).dirs@ == old(self).dirs@ + mine_walks(old(self).rand@, old(self).w as int, old(self).h as int).0,
            normal(old(self).rand@) ==> ok,
            !ok ==> final(self).grid == old(self).grid && final(self).b_space == old(self).b_space
                && final(self).b_line == old(self).b_line,
            (final(self).bb@, final(self).rand@, ok) == make_map_model(
                old(self).bb@,
                old(self).rand@,
                old(self).w as int,
                old(self).h as int,
                old(self).dirs@,
            ),
            ok ==> forall|x: int, y: int|
                0 <= x < final(self).w && 0 <= y < final(self).h ==> {
                    &&& #[trigger] final(self).grid@[y * final(self).w + x] == cell_terrain(
                        final(self).bb@,
                        final(self).w as int,
                        x,
                        y,
                    )
                    &&& final(self).b_space@[y * final(self).w + x] == cell_in(
                        final(self).bb@,
                        final(self).w as int,
                        16,
                        x,
                        y,
                    )
                    &&& final(self).b_line@[y * final(self).w + x] == cell_in(
                        final(self).bb@,
                        final(self).w as int,
                        17,
                        x,
                        y,
                    )
                },
    {
        let ghost ww = self.w as int;
        let ghost hh = self.h as int;
        let ghost walk = old(self).dirs@ + mine_walks(old(self).rand@, ww, hh).0;
        let ghost model = make_map_model(old(self).bb@, old(self).rand@, ww, hh, old(self).dirs@);
        self.stage_fertile();
        let ghost s1 = smooth((self.bb@, self.rand@, true), ww, hh, Terrain::FertileSoil, 2, 4, CType::AllTrue);
        self.smooth_layer(Terrain::FertileSoil, 2, 4, CType::AllTrue);
        let ghost s2 = water_model(s1, ww, hh);
        if !self.stage_water() {
            return false;
        }
        let ghost s2s = smooth(s2, ww, hh, Terrain::ShallowWater, 2, 6, CType::CheckCon);
        self.smooth_layer(Terrain::ShallowWater, 2, 6, CType::CheckCon);
        let ghost s3 = rock_model(s2s, ww, hh, walk);
        if !self.stage_rock() {
            return false;
        }
        let ghost s3s = smooth(s3, ww, hh, Terrain::RockBrown, 2, 9, CType::NoBorn);
        self.smooth_layer(Terrain::RockBrown, 2, 9, CType::NoBorn);
        let ghost s4 = stone_model(s3s, ww, hh);
        self.stage_stone();
        let ghost s4s = smooth(s4, ww, hh, Terrain::StoneLand, 2, 9, CType::CheckCon);
        self.smooth_layer(Terrain::StoneLand, 2, 9, CType::CheckCon);
        assert(model == ling_model(s4s, ww, hh));
        if !self.stage_ling() {
            return false;
        }
        self.finalize_grid();
        proof {
            law_covered_map_cells(self.bb@, self.w as int, self.h as int);
        }
        true
    }

    /// One smoothing step, `optimize(def, lo, hi, 1, ctype)` (see `smooth`).
    fn smooth_layer(&mut self, def: Terrain, lo: i32, hi: i32, ctype: CType)
        requires
            old(self).wf(),
            1 <= def.spec_index() <= 15,
        ensures
            final(self).wf(),
            final(self).frame(old(self)),
            final(self).rand == old(self).rand,
            final(self).cover_kept(old(self), def.spec_index() as int),
            final(self).dirs == old(self).dirs,
            (final(self).bb@, final(self).rand@, true) == smooth(
                (old(self).bb@, old(self).rand@, true),
                old(self).w as int,
                old(self).h as int,
                def,
                (lo as u32) as int,
                (hi as u32) as int,
                ctype,
            ),
    {
        self.optimize(def, lo, hi, 1, ctype);
        assert(optimized(old(self).bb@, self.w as int, self.h as int, def.spec_index() as int, (lo as u32) as int, (hi as u32) as int, ctype, 0)
            == old(self).bb@);
    }

    /// The first stage of `make_map`: three mine walks, soil everywhere, and the
    /// birth area: fertile soil at a random point of the lower middle, spread
    /// twice.
    pub fn stage_fertile(&mut self)
        requires
            old(self).wf(),
            old(self).dirs.len() <= 0x1000_0000,
        ensures
            final(self).wf(),
            final(self).frame(old(self)),
            final(self).rng_kept(old(self)),
            covered(final(self).bb@, final(self).w as int, final(self).h as int),
            final(self).dirs.len() <= old(self).dirs.len() + 3 * MINE_WALK_STEPS,
            final(self).dirs@ == old(self).dirs@ + mine_walks(old(self).rand@, old(self).w as int, old(self).h as int).0,
            (final(self).bb@, final(self).rand@, true) == fertile_model(
                (old(self).bb@, old(self).rand@, true),
                old(self).w as int,
                old(self).h as int,
            ),
    {
        reveal(fertile_run);
        proof {
            lemma_area_bound(self.w as int, self.h as int);
        }
        let s: usize = ((self.w + 31) / 32) as usize;
        let ghost walks = mine_walks(self.rand@, self.w as int, self.h as int);
        self.make_mine_dir(2, 3);
        self.make_mine_dir(2, 3);
        self.make_mine_dir(2, 3);
        assert(self.dirs@ =~= old(self).dirs@ + walks.0);
        assert(self.rand@ == walks.1);
        self.fill(Terrain::Soil);
        let kx = self.rand.random_range_int(self.w / 10 * 4, self.w / 10 * 7, RandomType::EmNone, "");
        let ky = self.rand.random_range_int(self.h / 10 * 6, self.h / 10 * 7, RandomType::EmNone, "");
        if self.p2key_safe(kx, ky) >= 0 {
            proof {
                lemma_cell_word(self.w as int, self.h as int, kx as int, ky as int);
                lemma_cell_bit_inside(self.w as int, self.h as int, kx as int, ky as int);
            }
            self.paint_cell(
                Terrain::FertileSoil,
                (ky as usize) * s + (kx as usize) / 32,
                1u32 << ((kx % 32) as u32),
            );
        }
        self.out_line(Terrain::FertileSoil, Terrain::FertileSoil, 2, 100, 0, CType::AllTrue);
        self.out_line(Terrain::FertileSoil, Terrain::FertileSoil, 5, 20, 0, CType::AllTrue);
    }

    /// The second stage of `make_map`, after the birth area is smoothed: the
    /// birth space, soil under fertile soil, the birth line on the four edges,
    /// fertile soil and deep water seeded and expanded, and the water spread.
    /// False when a draw falls where nothing could be read (see `make_map`).
    pub fn stage_water(&mut self) -> (ok: bool)
        requires
            old(self).wf(),
            old(self).dirs.len() <= DIRS_LIMIT,
        ensures
            final(self).wf(),
            final(self).frame(old(self)),
            final(self).rng_kept(old(self)),
            final(self).cover_kept(old(self), 1),
            final(self).dirs == old(self).dirs,
            normal(old(self).rand@) ==> ok,
            (final(self).bb@, final(self).rand@, ok) == water_model(
                (old(self).bb@, old(self).rand@, true),
                old(self).w as int,
                old(self).h as int,
            ),
    {
        reveal(water_run);
        proof {
            lemma_area_bound(self.w as int, self.h as int);
        }
        let sc: i32 = if self.w / 64 > 1 {
            self.w / 64
        } else {
            1
        };
        let s: usize = ((self.w + 31) / 32) as usize;
        let words: usize = s * (self.h as usize);
        self.copy_born_space(words);
        self.out_line(Terrain::FertileSoil, Terrain::FertileSoil, 2, 100, 0, CType::AllTrue);
        self.soil_under_fertile(words);
        self.clear_born_line();
        let ghost ww = self.w as int;
        let ghost hh = self.h as int;
        let ghost lines = born_lines((self.bb@, self.rand@, true), ww, hh, 0);
        let mut side: i32 = 0;
        while side < 4
            invariant
                self.wf(),
                self.frame(old(self)),
                self.rng_kept(old(self)),
                self.cover_kept(old(self), 1),
                s == row_words(self.w as int),
                words == self.words(),
                self.w <= 36864,
                self.h <= 1152,
                self.dirs == old(self).dirs,
                sc == (if self.w / 64 > 1 { self.w / 64 } else { 1 }),
                ww == self.w,
                hh == self.h,
                0 <= side <= 4,
                born_lines((self.bb@, self.rand@, true), ww, hh, side as nat) == lines,
            decreases 4 - side,
        {
            let lo = w_times_f32(self.w, 24);
            let hi = w_times_f32(self.w, 23);
            let n = self.rand.random_range_int(lo, hi, RandomType::EmNone, "");
            let ghost side_goal = born_side((self.bb@, self.rand@, true), ww, hh, side as int, n as int, 0, 16);
            let mut j: i32 = 0;
            while j < self.rand.random_range_int(5, 15, RandomType::EmNone, "")
                invariant
                    self.wf(),
                    self.frame(old(self)),
                    self.rng_kept(old(self)),
                    self.cover_kept(old(self), 1),
                    s == row_words(self.w as int),
                    words == self.words(),
                    self.w <= 36864,
                    self.h <= 1152,
                    self.dirs == old(self).dirs,
                    0 <= j <= 15,
                    0 <= n <= 65536,
                    ww == self.w,
                    hh == self.h,
                    0 <= side < 4,
                    born_side((self.bb@, self.rand@, true), ww, hh, side as int, n as int, j as int, (16 - j) as nat)
                        == side_goal,
                decreases 15 - j,
            {
                let k = if side == 0 {
                    self.p2key_safe(0, n + j)
                } else if side == 1 {
                    self.p2key_safe(self.w - 1, n + j)
                } else if side == 2 {
                    self.p2key_safe(n + j, 0)
                } else {
                    self.p2key_safe(n + j, self.w - 1)
                };
                if k >= 0 {
                    let x = k % self.w;
                    let y = k / self.w;
                    proof {
                        lemma_key_position(self.w as int, self.h as int, k as int);
                        lemma_cell_word(self.w as int, self.h as int, x as int, y as int);
                        lemma_cell_bit_inside(self.w as int, self.h as int, x as int, y as int);
                    }
                    let nw: usize = (y as usize) * s + (x as usize) / 32;
                    let bit: u32 = 1u32 << ((x % 32) as u32);
                    let old_word = self.bb[Terrain::BornLine.index() * LAYER_WORDS + nw];
                    proof {
                        lemma_flat_parts(17, nw as int);
                        if is_row_end(self.w as int, nw as int) {
                            assert(layer_word(self.bb@, 17, nw as int) & !pad_mask(self.w as int)
                                == 0);
                            lemma_inside_after_paint(old_word, bit, pad_mask(self.w as int));
                        }
                    }
                    self.set_scratch(Terrain::BornLine.index(), nw, old_word | bit);
                }
                j = j + 1;
            }
            side = side + 1;
        }
        assert(self.bb@ == lines.0 && self.rand@ == lines.1);
        if !self.random_and_expand(
            Terrain::FertileSoil,
            20,
            4,
            30,
            5,
            3,
            CType::AllTrue,
            CType::AllTrue,
        ) {
            return false;
        }
        if !self.random_and_expand(
            Terrain::DDepthWater,
            sc - 1,
            2 * sc - 1,
            13 + 6 * sc,
            5,
            3,
            CType::NoBorn,
            CType::NoBorn,
        ) {
            return false;
        }
        self.out_line(Terrain::DDepthWater, Terrain::DepthWater, 1, 100, 0, CType::CheckCon);
        self.out_line(Terrain::DepthWater, Terrain::DepthWater, 1, 10 + 6 * sc, 0, CType::NoBorn);
        self.out_line(
            Terrain::DepthWater,
            Terrain::ShallowWater,
            4,
            50 + 12 * sc,
            0,
            CType::CheckCon,
        );
        true
    }

    /// The third stage of `make_map`, after the shallow water is smoothed: mud,
    /// iron, copper and silver veins along the mine walks, gray and marble rock,
    /// ores and brown rock seeded and expanded, and rock spread around them.
    /// False when a draw falls where nothing could be read (see `make_map`).
    pub fn stage_rock(&mut self) -> (ok: bool)
        requires
            old(self).wf(),
            old(self).dirs.len() <= DIRS_LIMIT,
        ensures
            final(self).wf(),
            final(self).frame(old(self)),
            final(self).rng_kept(old(self)),
            final(self).cover_kept(old(self), 1),
            final(self).dirs == old(self).dirs,
            normal(old(self).rand@) ==> ok,
            (final(self).bb@, final(self).rand@, ok) == rock_model(
                (old(self).bb@, old(self).rand@, true),
                old(self).w as int,
                old(self).h as int,
                old(self).dirs@,
            ),
    {
        reveal(rock_run);
        proof {
            lemma_area_bound(self.w as int, self.h as int);
        }
        let sc: i32 = if self.w / 64 > 1 {
            self.w / 64
        } else {
            1
        };
        if !self.fields_of_rock(sc) {
            return false;
        }
        self.spread_rock(sc)
    }

    /// The end of `stage_rock` (see `rock_spread_model`): brown rock seeded
    /// and expanded, and brown rock spread around the other rocks and the
    /// ores.  False when a draw falls where nothing could be read (see
    /// `make_map`).
    fn spread_rock(&mut self, sc: i32) -> (ok: bool)
        requires
            old(self).wf(),
            sc == scale(old(self).w as int),
        ensures
            final(self).wf(),
            final(self).frame(old(self)),
            final(self).rng_kept(old(self)),
            final(self).cover_kept(old(self), 1),
            final(self).dirs == old(self).dirs,
            normal(old(self).rand@) ==> ok,
            (final(self).bb@, final(self).rand@, ok) == rock_spread_model(
                (old(self).bb@, old(self).rand@, true),
                old(self).w as int,
                old(self).h as int,
            ),
    {
        proof {
            lemma_area_bound(self.w as int, self.h as int);
        }
        let rb1 = self.rand.random_range_int(2, sc + 1, RandomType::EmNone, "");
        let rb2 = sc + 1;
        if !self.random_and_expand(
            Terrain::RockBrown,
            rb1,
            rb2,
            13 + sc * 4,
            0,
            3,
            CType::NoBorn,
            CType::NoBorn,
        ) {
            return false;
        }
        self.out_line(Terrain::RockGray, Terrain::RockBrown, 1, 50 + 12 * sc, 0, CType::NoBorn);
        self.out_line(Terrain::RockMarble, Terrain::RockBrown, 1, 50 + 12 * sc, 0, CType::NoBorn);
        let ores3: [Terrain; 3] = [Terrain::IronOre, Terrain::CopperOre, Terrain::SilverOre];
        assert(ores3@ == ores());
        self.out_line_each(&ores3, Terrain::RockBrown, 1, 50 + 12 * sc, CType::NoBorn);
        self.out_line_drawn(&ores3, Terrain::RockBrown, 1, 2, 8 + 8 * sc, CType::NoBorn);
        let rocks3: [Terrain; 3] = [Terrain::RockBrown, Terrain::RockGray, Terrain::RockMarble];
        assert(rocks3@ == rocks());
        self.out_line_drawn(&rocks3, Terrain::RockBrown, 1, sc, 8 + 8 * sc, CType::NoBorn);
        true
    }

    /// `out_line(srcs[i], tgt, wr, lv, 0, c)` for each source in turn (see
    /// `spread_each`).
    fn out_line_each(&mut self, srcs: &[Terrain], tgt: Terrain, wr: i32, lv: i32, c: CType)
        requires
            old(self).wf(),
            1 <= tgt.spec_index() <= 15,
            0 <= wr <= 1000,
            forall|i: int| 0 <= i < srcs@.len() ==> (#[trigger] srcs@[i]).spec_index() < LAYERS,
        ensures
            final(self).wf(),
            final(self).frame(old(self)),
            final(self).rng_kept(old(self)),
            final(self).cover_kept(old(self), tgt.spec_index() as int),
            final(self).dirs == old(self).dirs,
            (final(self).bb@, final(self).rand@, true) == spread_each(
                (old(self).bb@, old(self).rand@, true),
                old(self).w as int,
                old(self).h as int,
                srcs@,
                tgt,
                wr as int,
                lv as int,
                c,
                0,
            ),
    {
        let ghost goal = spread_each(
            (self.bb@, self.rand@, true),
            self.w as int,
            self.h as int,
            srcs@,
            tgt,
            wr as int,
            lv as int,
            c,
            0,
        );
        let mut i: usize = 0;
        while i < srcs.len()
            invariant
                self.wf(),
                self.frame(old(self)),
                self.rng_kept(old(self)),
                self.cover_kept(old(self), tgt.spec_index() as int),
                self.dirs == old(self).dirs,
                1 <= tgt.spec_index() <= 15,
                0 <= wr <= 1000,
                forall|i: int| 0 <= i < srcs@.len() ==> (#[trigger] srcs@[i]).spec_index() < LAYERS,
                i <= srcs.len(),
                spread_each(
                    (self.bb@, self.rand@, true),
                    self.w as int,
                    self.h as int,
                    srcs@,
                    tgt,
                    wr as int,
                    lv as int,
                    c,
                    i as nat,
                ) == goal,
            decreases srcs.len() - i,
        {
            self.out_line(srcs[i], tgt, wr, lv, 0, c);
            i = i + 1;
        }
    }

    /// For each source in turn, a radius drawn from `[lo, hi]`, then
    /// `out_line(srcs[i], tgt, radius, lv, 0, c)` (see `spread_drawn`).
    fn out_line_drawn(&mut self, srcs: &[Terrain], tgt: Terrain, lo: i32, hi: i32, lv: i32, c: CType)
        requires
            old(self).wf(),
            1 <= tgt.spec_index() <= 15,
            0 <= lo <= hi <= 1000,
            forall|i: int| 0 <= i < srcs@.len() ==> (#[trigger] srcs@[i]).spec_index() < LAYERS,
        ensures
            final(self).wf(),
            final(self).frame(old(self)),
            final(self).rng_kept(old(self)),
            final(self).cover_kept(old(self), tgt.spec_index() as int),
            final(self).dirs == old(self).dirs,
            (final(self).bb@, final(self).rand@, true) == spread_drawn(
                (old(self).bb@, old(self).rand@, true),
                old(self).w as int,
                old(self).h as int,
                srcs@,
                tgt,
                lo as int,
                hi as int,
                lv as int,
                c,
                0,
            ),
    {
        let ghost goal = spread_drawn(
            (self.bb@, self.rand@, true),
            self.w as int,
            self.h as int,
            srcs@,
            tgt,
            lo as int,
            hi as int,
            lv as int,
            c,
            0,
        );
        let mut i: usize = 0;
        while i < srcs.len()
            invariant
                self.wf(),
                self.frame(old(self)),
                self.rng_kept(old(self)),
                self.cover_kept(old(self), tgt.spec_index() as int),
                self.dirs == old(self).dirs,
                1 <= tgt.spec_index() <= 15,
                0 <= lo <= hi <= 1000,
                forall|i: int| 0 <= i < srcs@.len() ==> (#[trigger] srcs@[i]).spec_index() < LAYERS,
                i <= srcs.len(),
                spread_drawn(
                    (self.bb@, self.rand@, true),
                    self.w as int,
                    self.h as int,
                    srcs@,
                    tgt,
                    lo as int,
                    hi as int,
                    lv as int,
                    c,
                    i as nat,
                ) == goal,
            decreases srcs.len() - i,
        {
            let r = self.rand.random_range_int(lo, hi, RandomType::EmNone, "");
            self.out_line(srcs[i], tgt, r, lv, 0, c);
            i = i + 1;
        }
    }

    /// The first part of `stage_rock` (see `rock_fields_model`): shallow
    /// water seeded and expanded, mud, the iron, copper, silver and rock veins
    /// along the mine walks, and the gray, marble and ore fields.  False when
    /// a draw falls where nothing could be read (see `make_map`).
    fn fields_of_rock(&mut self, sc: i32) -> (ok: bool)
        requires
            old(self).wf(),
            old(self).dirs.len() <= DIRS_LIMIT,
            sc == scale(old(self).w as int),
        ensures
            final(self).wf(),
            final(self).frame(old(self)),
            final(self).rng_kept(old(self)),
            final(self).cover_kept(old(self), 1),
            final(self).dirs == old(self).dirs,
            normal(old(self).rand@) ==> ok,
            (final(self).bb@, final(self).rand@, ok) == rock_fields_model(
                (old(self).bb@, old(self).rand@, true),
                old(self).w as int,
                old(self).h as int,
                old(self).dirs@,
            ),
    {
        proof {
            lemma_area_bound(self.w as int, self.h as int);
        }
        if !self.random_and_expand(
            Terrain::ShallowWater,
            3,
            3,
            20,
            5,
            3,
            CType::NoBorn,
            CType::NoBorn,
        ) {
            return false;
        }
        self.out_line(Terrain::ShallowWater, Terrain::Mud, 4, 90, 0, CType::CheckCon);
        if !self.lay_iron_veins(sc) {
            return false;
        }
        if !self.lay_ore_veins(sc) {
            return false;
        }
        if !self.lay_rock_veins() {
            return false;
        }
        if !self.seed_rock_fields(sc) {
            return false;
        }
        self.seed_ore_fields(sc)
    }

    /// The iron veins along the mine walks (see `iron_veins`).
    fn lay_iron_veins(&mut self, sc: i32) -> (ok: bool)
        requires
            old(self).wf(),
            old(self).dirs.len() <= DIRS_LIMIT,
            sc == scale(old(self).w as int),
        ensures
            final(self).wf(),
            final(self).frame(old(self)),
            final(self).rng_kept(old(self)),
            final(self).cover_kept(old(self), 1),
            final(self).dirs == old(self).dirs,
            normal(old(self).rand@) ==> ok,
            (final(self).bb@, final(self).rand@, ok) == iron_veins(
                (old(self).bb@, old(self).rand@, true),
                old(self).w as int,
                old(self).h as int,
                old(self).dirs@,
                sc as int,
                0,
                (sc + 3) as nat,
            ),
    {
        proof {
            lemma_area_bound(self.w as int, self.h as int);
        }
        let ghost ww = self.w as int;
        let ghost hh = self.h as int;
        let ghost dirs = self.dirs@;
        let ghost goal = iron_veins((self.bb@, self.rand@, true), ww, hh, dirs, sc as int, 0, (sc + 3) as nat);
        let mut idx1: i32 = 0;
        while idx1 < self.rand.random_range_int(sc, sc + 2, RandomType::EmNone, "")
            invariant
                goal == iron_veins((old(self).bb@, old(self).rand@, true), ww, hh, dirs, sc as int, 0, (sc + 3) as nat),
                self.wf(),
                self.frame(old(self)),
                self.rng_kept(old(self)),
                self.cover_kept(old(self), 1),
                self.w <= 36864,
                self.dirs == old(self).dirs,
                old(self).dirs.len() <= DIRS_LIMIT,
                1 <= sc <= 576,
                0 <= idx1 <= sc + 2,
                ww == self.w,
                hh == self.h,
                dirs == self.dirs@,
                iron_veins((self.bb@, self.rand@, true), ww, hh, dirs, sc as int, idx1 as int, (sc + 3 - idx1) as nat)
                    == goal,
            decreases sc + 2 - idx1,
        {
            let sz = self.rand.random_range_int(0, sc, RandomType::EmNone, "");
            let x = self.rand.random_range_int(5 + sc, 10 + sc, RandomType::EmNone, "");
            if !self.random_line_from_mine_dir(sz, x, Terrain::IronOre, CType::NoBorn) {
                assert(iron_veins(
                    (self.bb@, self.rand@, false),
                    ww,
                    hh,
                    dirs,
                    sc as int,
                    idx1 + 1,
                    (sc + 2 - idx1) as nat,
                ) == (self.bb@, self.rand@, false));
                return false;
            }
            idx1 = idx1 + 1;
        }
        true
    }

    /// The copper and silver veins along the mine walks (see
    /// `ore_veins_each`).
    fn lay_ore_veins(&mut self, sc: i32) -> (ok: bool)
        requires
            old(self).wf(),
            old(self).dirs.len() <= DIRS_LIMIT,
            sc == scale(old(self).w as int),
        ensures
            final(self).wf(),
            final(self).frame(old(self)),
            final(self).rng_kept(old(self)),
            final(self).cover_kept(old(self), 1),
            final(self).dirs == old(self).dirs,
            normal(old(self).rand@) ==> ok,
            (final(self).bb@, final(self).rand@, ok) == ore_veins_each(
                (old(self).bb@, old(self).rand@, true),
                old(self).w as int,
                old(self).h as int,
                old(self).dirs@,
                sc as int,
                vein_ores(),
                (1 + sc) as nat,
                0,
            ),
    {
        proof {
            lemma_area_bound(self.w as int, self.h as int);
        }
        let ghost ww = self.w as int;
        let ghost hh = self.h as int;
        let ghost dirs = self.dirs@;
        let ores: [Terrain; 2] = [Terrain::CopperOre, Terrain::SilverOre];
        assert(ores@ == vein_ores());
        let ghost goal = ore_veins_each(
            (self.bb@, self.rand@, true),
            ww,
            hh,
            dirs,
            sc as int,
            vein_ores(),
            (1 + sc) as nat,
            0,
        );
        let mut oi: usize = 0;
        while oi < 2
            invariant
                goal == ore_veins_each((old(self).bb@, old(self).rand@, true), ww, hh, dirs, sc as int, vein_ores(), (1 + sc) as nat, 0),
                self.wf(),
                self.frame(old(self)),
                self.rng_kept(old(self)),
                self.cover_kept(old(self), 1),
                self.w <= 36864,
                self.dirs == old(self).dirs,
                old(self).dirs.len() <= DIRS_LIMIT,
                1 <= sc <= 576,
                ores@ == vein_ores(),
                oi <= 2,
                ww == self.w,
                hh == self.h,
                dirs == self.dirs@,
                ore_veins_each((self.bb@, self.rand@, true), ww, hh, dirs, sc as int, vein_ores(), (1 + sc) as nat, oi as nat)
                    == goal,
            decreases 2 - oi,
        {
            let t = ores[oi];
            let mut r: i32 = 0;
            while r < 1 + sc
                invariant
                    goal == ore_veins_each((old(self).bb@, old(self).rand@, true), ww, hh, dirs, sc as int, vein_ores(), (1 + sc) as nat, 0),
                    self.wf(),
                    self.frame(old(self)),
                    self.rng_kept(old(self)),
                    self.cover_kept(old(self), 1),
                    self.dirs == old(self).dirs,
                    old(self).dirs.len() <= DIRS_LIMIT,
                    1 <= sc <= 576,
                    1 <= t.spec_index() <= 15,
                    0 <= r <= 1 + sc,
                    oi < 2,
                    t == vein_ores()[oi as int],
                    ww == self.w,
                    hh == self.h,
                    dirs == self.dirs@,
                    ore_veins_each(
                        ore_veins((self.bb@, self.rand@, true), ww, hh, dirs, sc as int, t, (1 + sc - r) as nat),
                        ww,
                        hh,
                        dirs,
                        sc as int,
                        vein_ores(),
                        (1 + sc) as nat,
                        (oi + 1) as nat,
                    ) == goal,
                decreases 1 + sc - r,
            {
                let wr = self.rand.random_range_int(0, 1, RandomType::EmNone, "");
                let x = self.rand.random_range_int(3 + sc, 5 + sc, RandomType::EmNone, "");
                if !self.random_line_from_mine_dir(wr, x, t, CType::NoBorn) {
                    let ghost failed = (self.bb@, self.rand@, false);
                    assert(ore_veins(failed, ww, hh, dirs, sc as int, t, (sc - r) as nat) == failed);
                    assert(ore_veins_each(failed, ww, hh, dirs, sc as int, vein_ores(), (1 + sc) as nat, (oi + 1) as nat)
                        == failed);
                    return false;
                }
                r = r + 1;
            }
            oi = oi + 1;
        }
        true
    }

    /// The gray and marble rock veins along the mine walks (see
    /// `rock_veins`).
    fn lay_rock_veins(&mut self) -> (ok: bool)
        requires
            old(self).wf(),
            old(self).dirs.len() <= DIRS_LIMIT,
        ensures
            final(self).wf(),
            final(self).frame(old(self)),
            final(self).rng_kept(old(self)),
            final(self).cover_kept(old(self), 1),
            final(self).dirs == old(self).dirs,
            normal(old(self).rand@) ==> ok,
            (final(self).bb@, final(self).rand@, ok) == rock_veins(
                (old(self).bb@, old(self).rand@, true),
                old(self).w as int,
                old(self).h as int,
                old(self).dirs@,
                0,
                4,
            ),
    {
        let ghost ww = self.w as int;
        let ghost hh = self.h as int;
        let ghost dirs = self.dirs@;
        let ghost goal = rock_veins((self.bb@, self.rand@, true), ww, hh, dirs, 0, 4);
        let mut idx4: i32 = 0;
        while idx4 < self.rand.random_range_int(1, 3, RandomType::EmNone, "")
            invariant
                goal == rock_veins((old(self).bb@, old(self).rand@, true), ww, hh, dirs, 0, 4),
                self.wf(),
                self.frame(old(self)),
                self.rng_kept(old(self)),
                self.cover_kept(old(self), 1),
                self.dirs == old(self).dirs,
                old(self).dirs.len() <= DIRS_LIMIT,
                0 <= idx4 <= 3,
                ww == self.w,
                hh == self.h,
                dirs == self.dirs@,
                rock_veins((self.bb@, self.rand@, true), ww, hh, dirs, idx4 as int, (4 - idx4) as nat) == goal,
            decreases 3 - idx4,
        {
            let wr = self.rand.random_range_int(0, 1, RandomType::EmNone, "");
            let x = self.rand.random_range_int(8, 16, RandomType::EmNone, "");
            let st = if self.rand.random_range_int(1, 3, RandomType::EmNone, "") == 1 {
                Terrain::RockGray
            } else {
                Terrain::RockMarble
            };
            if !self.random_line_from_mine_dir(wr, x, st, CType::NoBorn) {
                assert(rock_veins((self.bb@, self.rand@, false), ww, hh, dirs, idx4 + 1, (3 - idx4) as nat) == (
                    self.bb@,
                    self.rand@,
                    false,
                ));
                return false;
            }
            idx4 = idx4 + 1;
        }
        true
    }

    /// The gray and marble rock fields (see `rock_fields`).
    fn seed_rock_fields(&mut self, sc: i32) -> (ok: bool)
        requires
            old(self).wf(),
            sc == scale(old(self).w as int),
        ensures
            final(self).wf(),
            final(self).frame(old(self)),
            final(self).rng_kept(old(self)),
            final(self).cover_kept(old(self), 1),
            final(self).dirs == old(self).dirs,
            normal(old(self).rand@) ==> ok,
            (final(self).bb@, final(self).rand@, ok) == rock_fields(
                (old(self).bb@, old(self).rand@, true),
                old(self).w as int,
                old(self).h as int,
                sc as int,
                1,
                3,
            ),
    {
        proof {
            lemma_area_bound(self.w as int, self.h as int);
        }
        let ghost ww = self.w as int;
        let ghost hh = self.h as int;
        let ghost goal = rock_fields((self.bb@, self.rand@, true), ww, hh, sc as int, 1, 3);
        let mut m: i32 = 1;
        while m < self.rand.random_range_int(1, 3, RandomType::EmNone, "")
            invariant
                goal == rock_fields((old(self).bb@, old(self).rand@, true), ww, hh, sc as int, 1, 3),
                self.wf(),
                self.frame(old(self)),
                self.rng_kept(old(self)),
                self.cover_kept(old(self), 1),
                self.dirs == old(self).dirs,
                1 <= sc <= 576,
                1 <= m <= 3,
                ww == self.w,
                hh == self.h,
                rock_fields((self.bb@, self.rand@, true), ww, hh, sc as int, m as int, (4 - m) as nat) == goal,
            decreases 3 - m,
        {
            let rc = self.rand.random_range_int(0, 3, RandomType::EmNone, "");
            if !self.random_and_expand(
                if m == 1 {
                    Terrain::RockGray
                } else {
                    Terrain::RockMarble
                },
                rc,
                3,
                15 + 3 * sc,
                0,
                3,
                CType::NoBorn,
                CType::NoBorn,
            ) {
                assert(rock_fields((self.bb@, self.rand@, false), ww, hh, sc as int, m + 1, (3 - m) as nat) == (
                    self.bb@,
                    self.rand@,
                    false,
                ));
                return false;
            }
            m = m + 1;
        }
        true
    }

    /// The iron, copper and silver fields (see `ore_fields`).
    fn seed_ore_fields(&mut self, sc: i32) -> (ok: bool)
        requires
            old(self).wf(),
            sc == scale(old(self).w as int),
        ensures
            final(self).wf(),
            final(self).frame(old(self)),
            final(self).rng_kept(old(self)),
            final(self).cover_kept(old(self), 1),
            final(self).dirs == old(self).dirs,
            normal(old(self).rand@) ==> ok,
            (final(self).bb@, final(self).rand@, ok) == ore_fields(
                (old(self).bb@, old(self).rand@, true),
                old(self).w as int,
                old(self).h as int,
                sc as int,
                ores(),
                0,
            ),
    {
        proof {
            lemma_area_bound(self.w as int, self.h as int);
        }
        let ghost ww = self.w as int;
        let ghost hh = self.h as int;
        let ores3: [Terrain; 3] = [Terrain::IronOre, Terrain::CopperOre, Terrain::SilverOre];
        assert(ores3@ == ores());
        let ghost goal = ore_fields((self.bb@, self.rand@, true), ww, hh, sc as int, ores(), 0);
        let mut oi: usize = 0;
        while oi < 3
            invariant
                goal == ore_fields((old(self).bb@, old(self).rand@, true), ww, hh, sc as int, ores(), 0),
                self.wf(),
                self.frame(old(self)),
                self.rng_kept(old(self)),
                self.cover_kept(old(self), 1),
                self.dirs == old(self).dirs,
                1 <= sc <= 576,
                ores3@ == ores(),
                oi <= 3,
                ww == self.w,
                hh == self.h,
                ore_fields((self.bb@, self.rand@, true), ww, hh, sc as int, ores(), oi as nat) == goal,
            decreases 3 - oi,
        {
            let t = ores3[oi];
            let a = self.rand.random_range_int(0, sc + 1, RandomType::EmNone, "");
            let b = self.rand.random_range_int(1, sc + 1, RandomType::EmNone, "");
            let c = self.rand.random_range_int(1, 4, RandomType::EmNone, "");
            assert(sc * c <= 576 * 4) by (nonlinear_arith)
                requires
                    1 <= sc <= 576,
                    1 <= c <= 4,
            ;
            if !self.random_and_expand(t, a, b, 13 + sc * c, 0, 3, CType::NoBorn, CType::NoBorn) {
                assert(ore_fields((self.bb@, self.rand@, false), ww, hh, sc as int, ores(), (oi + 1) as nat) == (
                    self.bb@,
                    self.rand@,
                    false,
                ));
                return false;
            }
            oi = oi + 1;
        }
        true
    }

    /// The fourth stage of `make_map`, after the brown rock is smoothed: stone
    /// land around rock and ores, spread once more.
    pub fn stage_stone(&mut self)
        requires
            old(self).wf(),
            old(self).dirs.len() <= DIRS_LIMIT,
        ensures
            final(self).wf(),
            final(self).frame(old(self)),
            final(self).rng_kept(old(self)),
            final(self).cover_kept(old(self), 1),
            final(self).dirs == old(self).dirs,
            (final(self).bb@, final(self).rand@, true) == stone_model(
                (old(self).bb@, old(self).rand@, true),
                old(self).w as int,
                old(self).h as int,
            ),
    {
        reveal(stone_run);
        let stones: [Terrain; 5] = [
            Terrain::RockBrown,
            Terrain::IronOre,
            Terrain::SilverOre,
            Terrain::CopperOre,
            Terrain::RockBrown,
        ];
        let ghost ww = self.w as int;
        let ghost hh = self.h as int;
        let ghost goal = spread_each(
            (self.bb@, self.rand@, true),
            ww,
            hh,
            stone_sources(),
            Terrain::StoneLand,
            1,
            30,
            CType::CheckCon2,
            0,
        );
        assert(stones@ == stone_sources());
        let mut si: usize = 0;
        while si < 5
            invariant
                self.wf(),
                self.frame(old(self)),
                self.rng_kept(old(self)),
                self.cover_kept(old(self), 1),
                self.dirs == old(self).dirs,
                ww == self.w,
                hh == self.h,
                si <= 5,
                spread_each(
                    (self.bb@, self.rand@, true),
                    ww,
                    hh,
                    stone_sources(),
                    Terrain::StoneLand,
                    1,
                    30,
                    CType::CheckCon2,
                    si as nat,
                ) == goal,
                goal == spread_each(
                    (old(self).bb@, old(self).rand@, true),
                    ww,
                    hh,
                    stone_sources(),
                    Terrain::StoneLand,
                    1,
                    30,
                    CType::CheckCon2,
                    0,
                ),
                stones@ == seq![
                    Terrain::RockBrown,
                    Terrain::IronOre,
                    Terrain::SilverOre,
                    Terrain::CopperOre,
                    Terrain::RockBrown,
                ],
            decreases 5 - si,
        {
            self.out_line(stones[si], Terrain::StoneLand, 1, 30, 0, CType::CheckCon2);
            si = si + 1;
        }
        self.out_line(Terrain::StoneLand, Terrain::StoneLand, 1, 5, 0, CType::CheckCon);
    }

    /// The last stage of `make_map` before the cell arrays are written, after
    /// the stone land is smoothed: spirit soil seeded and expanded.
    /// False when a draw falls where nothing could be read (see `make_map`).
    pub fn stage_ling(&mut self) -> (ok: bool)
        requires
            old(self).wf(),
            old(self).dirs.len() <= DIRS_LIMIT,
        ensures
            final(self).wf(),
            final(self).frame(old(self)),
            final(self).rng_kept(old(self)),
            final(self).cover_kept(old(self), 1),
            final(self).dirs == old(self).dirs,
            normal(old(self).rand@) ==> ok,
            (final(self).bb@, final(self).rand@, ok) == ling_model(
                (old(self).bb@, old(self).rand@, true),
                old(self).w as int,
                old(self).h as int,
            ),
    {
        reveal(ling_run);
        proof {
            lemma_area_bound(self.w as int, self.h as int);
        }
        let sc: i32 = if self.w / 64 > 1 {
            self.w / 64
        } else {
            1
        };
        if !self.random_and_expand(
            Terrain::LingSoil,
            sc,
            6,
            33,
            5,
            3,
            CType::CheckCon,
            CType::CheckCon,
        ) {
            return false;
        }
        true
    }


    /// Words `0..1152` of layer `t`.
    pub fn layer_words(&self, t: Terrain) -> (r: Vec<u32>)
        requires
            self.bb.len() == BB_WORDS,
        ensures
            r.len() == LAYER_WORDS,
            forall|i: int| 0 <= i < 1152 ==> #[trigger] r@[i] == layer_word(self.bb@, t.spec_index() as int, i),
    {
        let base = t.index() * LAYER_WORDS;
        let mut r: Vec<u32> = Vec::new();
        let mut i: usize = 0;
        while i < LAYER_WORDS
            invariant
                self.bb.len() == BB_WORDS,
                base == t.spec_index() * 1152,
                t.spec_index() < 20,
                i <= LAYER_WORDS,
                r.len() == i,
                forall|x: int| 0 <= x < i ==> #[trigger] r@[x] == layer_word(self.bb@, t.spec_index() as int, x),
            decreases LAYER_WORDS - i,
        {
            r.push(self.bb[base + i]);
            i = i + 1;
        }
        r
    }

    /// The masks of kind `c` (see `ctype_mask`) of words `0..1152`.
    pub fn ctype_words(&self, c: CType) -> (r: Vec<u32>)
        requires
            self.wf(),
        ensures
            r.len() == LAYER_WORDS,
            forall|i: int| 0 <= i < 1152 ==> #[trigger] r@[i] == ctype_mask(self.bb@, self.w as int, i, c),
    {
        let mut r: Vec<u32> = Vec::new();
        let mut i: usize = 0;
        while i < LAYER_WORDS
            invariant
                self.wf(),
                i <= LAYER_WORDS,
                r.len() == i,
                forall|x: int| 0 <= x < i ==> #[trigger] r@[x] == ctype_mask(self.bb@, self.w as int, x, c),
            decreases LAYER_WORDS - i,
        {
            let m = self.get_ctype_mask(i, c);
            r.push(m);
            i = i + 1;
        }
        r
    }

    /// One smoothing step whose new cells `o` were found elsewhere (the
    /// mask that `optimize` computes into its scratch layer): the cells of
    /// `o` that are not yet `t` are painted with `t`, word by word.
    pub fn apply_optimized(&mut self, t: Terrain, o: &Vec<u32>)
        requires
            old(self).wf(),
            1 <= t.spec_index() <= 15,
            o.len() >= old(self).words(),
            forall|i: int|
                0 <= i < old(self).words() && is_row_end(old(self).w as int, i) ==> #[trigger] o@[i]
                    & !pad_mask(old(self).w as int) == 0,
        ensures
            final(self).wf(),
            final(self).frame(old(self)),
            final(self).rand == old(self).rand,
            final(self).dirs == old(self).dirs,
            final(self).bb@ == applied(old(self).bb@, t.spec_index() as int, o@, old(self).words()),
    {
        proof {
            lemma_area_bound(self.w as int, self.h as int);
        }
        let d = t.index();
        let s: usize = ((self.w + 31) / 32) as usize;
        let words: usize = s * (self.h as usize);
        assert(applied(old(self).bb@, d as int, o@, 0) =~= old(self).bb@);
        let mut w: usize = 0;
        while w < words
            invariant
                self.wf(),
                self.frame(old(self)),
                self.rand == old(self).rand,
                self.dirs == old(self).dirs,
                old(self).wf(),
                1 <= d <= 15,
                d == t.spec_index(),
                words == self.words(),
                words == old(self).words(),
                words <= LAYER_WORDS,
                o.len() >= words,
                w <= words,
                forall|i: int|
                    0 <= i < old(self).words() && is_row_end(old(self).w as int, i) ==> #[trigger] o@[i]
                        & !pad_mask(old(self).w as int) == 0,
                self.bb@ == applied(old(self).bb@, d as int, o@, w as int),
            decreases words - w,
        {
            let ghost before = self.bb@;
            let cur = self.bb[d * LAYER_WORDS + w];
            let dif = o[w] & !cur;
            proof {
                lemma_flat_parts(d as int, w as int);
                assert(cur == old(self).bb@[flat(d as int, w as int)]);
                if is_row_end(self.w as int, w as int) {
                    lemma_inside_after_paint(o@[w as int], cur, pad_mask(self.w as int));
                }
            }
            if dif != 0 {
                self.paint_cell(t, w, dif);
            }
            proof {
                lemma_applied_step(old(self).bb@, d as int, o@, w as int, before, self.bb@, dif);
            }
            w = w + 1;
        }
    }

    /// The birth area (layer 16) becomes a copy of the fertile soil, without
    /// the first cell of the map.
    fn copy_born_space(&mut self, words: usize)
        requires
            old(self).wf(),
            words == old(self).words(),
        ensures
            final(self).wf(),
            final(self).frame(old(self)),
            final(self).rand == old(self).rand,
            final(self).cover_kept(old(self), 1),
            final(self).dirs == old(self).dirs,
            final(self).bb@ == born_space_copied(old(self).bb@, words as int),
    {
        let mut i: usize = 0;
        while i < words
            invariant
                self.wf(),
                self.frame(old(self)),
                self.rand == old(self).rand,
                self.cover_kept(old(self), 1),
                self.dirs == old(self).dirs,
                words == self.words(),
                words <= LAYER_WORDS,
                i <= words,
                forall|t: int, x: int|
                    0 <= t < 20 && 0 <= x < 1152 ==> #[trigger] layer_word(self.bb@, t, x) == if t == 16
                        && x < i {
                        layer_word(old(self).bb@, 6, x) & first_cleared(x)
                    } else {
                        layer_word(old(self).bb@, t, x)
                    },
            decreases words - i,
        {
            let mut m = self.bb[Terrain::FertileSoil.index() * LAYER_WORDS + i];
            proof {
                lemma_flat_parts(6, i as int);
                if is_row_end(self.w as int, i as int) {
                    assert(layer_word(self.bb@, 6, i as int) & !pad_mask(self.w as int) == 0);
                    lemma_inside_after_paint(m, 1u32, pad_mask(self.w as int));
                }
            }
            if i == 0 {
                m = m & !1u32;
            }
            proof {
                lemma_or_covered(layer_word(self.bb@, 6, i as int), 0);
                assert(m == layer_word(old(self).bb@, 6, i as int) & first_cleared(i as int));
            }
            let ghost before = self.bb@;
            self.set_scratch(Terrain::BornSpace.index(), i, m);
            proof {
                lemma_scratch_frame(before, self.bb@, 16, i as int, m);
            }
            i = i + 1;
        }
        proof {
            let want = born_space_copied(old(self).bb@, words as int);
            assert forall|t: int, x: int| 0 <= t < 20 && 0 <= x < 1152 implies #[trigger] layer_word(
                self.bb@,
                t,
                x,
            ) == layer_word(want, t, x) by {
                lemma_flat_parts(t, x);
            }
            lemma_layers_ext(self.bb@, want);
        }
    }

    /// Under the fertile soil (except the first cell of the map) the terrain
    /// becomes soil.
    fn soil_under_fertile(&mut self, words: usize)
        requires
            old(self).wf(),
            words == old(self).words(),
        ensures
            final(self).wf(),
            final(self).frame(old(self)),
            final(self).rand == old(self).rand,
            final(self).cover_kept(old(self), 1),
            final(self).dirs == old(self).dirs,
            final(self).bb@ == soil_under(old(self).bb@, 0, words as nat),
    {
        let mut i: usize = 0;
        while i < words
            invariant
                self.wf(),
                self.frame(old(self)),
                self.rand == old(self).rand,
                self.cover_kept(old(self), 1),
                self.dirs == old(self).dirs,
                words == self.words(),
                words <= LAYER_WORDS,
                i <= words,
                soil_under(self.bb@, i as nat, words as nat) == soil_under(old(self).bb@, 0, words as nat),
            decreases words - i,
        {
            let mut m = self.bb[Terrain::FertileSoil.index() * LAYER_WORDS + i];
            proof {
                lemma_flat_parts(6, i as int);
                if is_row_end(self.w as int, i as int) {
                    assert(layer_word(self.bb@, 6, i as int) & !pad_mask(self.w as int) == 0);
                    lemma_inside_after_paint(m, 1u32, pad_mask(self.w as int));
                }
            }
            if i == 0 {
                m = m & !1u32;
            }
            proof {
                lemma_or_covered(layer_word(self.bb@, 6, i as int), 0);
                assert(m == layer_word(self.bb@, 6, i as int) & first_cleared(i as int));
            }
            if m != 0 {
                self.paint_cell(Terrain::Soil, i, m);
            }
            i = i + 1;
        }
    }

    /// Empties the birth line (layer 17).
    fn clear_born_line(&mut self)
        requires
            old(self).wf(),
        ensures
            final(self).wf(),
            final(self).frame(old(self)),
            final(self).rand == old(self).rand,
            final(self).cover_kept(old(self), 1),
            final(self).dirs == old(self).dirs,
            final(self).bb@ == born_line_cleared(old(self).bb@),
    {
        let mut i: usize = 0;
        while i < LAYER_WORDS
            invariant
                self.wf(),
                self.frame(old(self)),
                self.rand == old(self).rand,
                self.cover_kept(old(self), 1),
                self.dirs == old(self).dirs,
                i <= LAYER_WORDS,
                forall|t: int, x: int|
                    0 <= t < 20 && 0 <= x < 1152 ==> #[trigger] layer_word(self.bb@, t, x) == if t == 17
                        && x < i {
                        0u32
                    } else {
                        layer_word(old(self).bb@, t, x)
                    },
            decreases LAYER_WORDS - i,
        {
            proof {
                lemma_zero_word(pad_mask(self.w as int));
            }
            let ghost before = self.bb@;
            self.set_scratch(Terrain::BornLine.index(), i, 0);
            proof {
                lemma_scratch_frame(before, self.bb@, 17, i as int, 0);
            }
            i = i + 1;
        }
        proof {
            let want = born_line_cleared(old(self).bb@);
            assert forall|t: int, x: int| 0 <= t < 20 && 0 <= x < 1152 implies #[trigger] layer_word(
                self.bb@,
                t,
                x,
            ) == layer_word(want, t, x) by {
                lemma_flat_parts(t, x);
            }
            lemma_layers_ext(self.bb@, want);
        }
    }

    /// Paints the bits `m` of word `w` with terrain `t` (see `paint`).
    fn set_mask(&mut self, t: Terrain, w: usize, m: u32)
        requires
            old(self).bb.len() == BB_WORDS,
            1 <= t.spec_index() <= 15,
            w < LAYER_WORDS,
        ensures
            final(self).bb@ == paint(old(self).bb@, t.spec_index() as int, w as int, m),
            final(self).w == old(self).w,
            final(self).h == old(self).h,
            final(self).grid == old(self).grid,
            final(self).rand == old(self).rand,
            final(self).dirs == old(self).dirs,
            final(self).b_space == old(self).b_space,
            final(self).c_list == old(self).c_list,
            final(self).b_line == old(self).b_line,
            final(self).spiral == old(self).spiral,
    {
        paint_word(&mut self.bb, t.index(), w, m);
    }
}


/// Exec form of `filled`.
fn fill_layers(bb: &mut Vec<u32>, w: i32, def: usize)
    requires
        old(bb).len() == BB_WORDS,
        1 <= w <= 36864,
        1 <= def <= 15,
    ensures
        final(bb)@ == filled(old(bb)@, w as int, def as int),
{
    let s: usize = ((w + 31) / 32) as usize;
    let rem: u32 = (w % 32) as u32;
    let ghost target = filled(old(bb)@, w as int, def as int);
    proof {
        lemma_shift_pos(rem);
    }
    let mut t: usize = 1;
    while t <= 15
        invariant
            1 <= t <= 16,
            bb.len() == BB_WORDS,
            1 <= def <= 15,
            s == row_words(w as int),
            s >= 1,
            rem == w % 32,
            rem < 32,
            1u32 << rem >= 1,
            target == filled(old(bb)@, w as int, def as int),
            target.len() == BB_WORDS,
            forall|tt: int, x: int|
                0 <= tt < 20 && 0 <= x < 1152 ==> #[trigger] bb@[flat(tt, x)] == if 1 <= tt < t {
                    target[flat(tt, x)]
                } else {
                    old(bb)@[flat(tt, x)]
                },
        decreases 16 - t,
    {
        let mut x: usize = 0;
        while x < LAYER_WORDS
            invariant
                1 <= t <= 15,
                x <= LAYER_WORDS,
                bb.len() == BB_WORDS,
                1 <= def <= 15,
                s == row_words(w as int),
                s >= 1,
                rem == w % 32,
                rem < 32,
                1u32 << rem >= 1,
                target == filled(old(bb)@, w as int, def as int),
                target.len() == BB_WORDS,
                forall|tt: int, y: int|
                    0 <= tt < 20 && 0 <= y < 1152 ==> #[trigger] bb@[flat(tt, y)] == if 1 <= tt < t
                        || (tt == t && y < x) {
                        target[flat(tt, y)]
                    } else {
                        old(bb)@[flat(tt, y)]
                    },
            decreases LAYER_WORDS - x,
        {
            let v: u32 = if t == def {
                if rem != 0 && x % s == s - 1 {
                    (1u32 << rem) - 1
                } else {
                    0xffff_ffffu32
                }
            } else {
                0
            };
            let idx = t * LAYER_WORDS + x;
            proof {
                lemma_flat_parts(t as int, x as int);
                assert(idx == flat(t as int, x as int));
                if t == def {
                    if rem != 0 && x % s == s - 1 {
                        assert(w % 32 != 0);
                        assert(is_row_end(w as int, x as int));
                        assert(rem == ((w % 32) as u32));
                        assert(v == pad_mask(w as int));
                    } else {
                        assert(!(w % 32 != 0 && is_row_end(w as int, x as int)));
                    }
                }
                assert(v == target[flat(t as int, x as int)]);
                assert forall|tt: int, y: int|
                    0 <= tt < 20 && 0 <= y < 1152 && #[trigger] flat(tt, y) == idx implies tt == t
                    && y == x by {
                    lemma_flat_injective(tt, y, t as int, x as int);
                }
            }
            bb.set(idx, v);
            x = x + 1;
        }
        t = t + 1;
    }
    assert forall|j: int| 0 <= j < BB_WORDS implies #[trigger] bb@[j] == target[j] by {
        lemma_flat_split(j);
        assert(bb@[flat(j / 1152, j % 1152)] == bb@[j]);
    }
    assert(bb@ =~= target);
}

proof fn lemma_filled_wf(bb: Seq<u32>, w: int, h: int, def: int)
    requires
        bb.len() == BB_WORDS,
        1 <= w,
        1 <= h,
        row_words(w) * h <= 1152,
        1 <= def <= 15,
        padding_clear(bb, w, h),
    ensures
        exclusive(filled(bb, w, def), row_words(w) * h),
        padding_clear(filled(bb, w, def), w, h),
        filled(bb, w, def).len() == BB_WORDS,
{
    let nb = filled(bb, w, def);
    assert forall|t1: int, t2: int, x: int|
        1 <= t1 <= 15 && 1 <= t2 <= 15 && t1 != t2 && 0 <= x < row_words(w) * h implies #[trigger] layer_word(
        nb,
        t1,
        x,
    ) & #[trigger] layer_word(nb, t2, x) == 0 by {
        lemma_flat_parts(t1, x);
        lemma_flat_parts(t2, x);
        lemma_zero_word(layer_word(nb, t1, x));
        lemma_zero_word(layer_word(nb, t2, x));
    }
    assert forall|tt: int, x: int|
        0 <= tt < 20 && 0 <= x < row_words(w) * h && is_row_end(w, x) implies #[trigger] layer_word(
        nb,
        tt,
        x,
    ) & !pad_mask(w) == 0 by {
        lemma_flat_parts(tt, x);
        lemma_zero_word(pad_mask(w));
        lemma_inside_after_paint(0u32, 0u32, pad_mask(w));
        if !(1 <= tt <= 15) {
            assert(layer_word(nb, tt, x) == layer_word(bb, tt, x));
        } else if tt != def {
            assert(layer_word(nb, tt, x) == 0);
        } else {
            if w % 32 != 0 {
                assert(layer_word(nb, tt, x) == pad_mask(w));
            } else {
                assert(pad_mask(w) == 0xffff_ffffu32);
                assert(0xffff_ffffu32 & !0xffff_ffffu32 == 0) by (bit_vector);
            }
        }
    }
}

/// Where cell `(x, y)` sits: its word is in the map, in row `y` at column
/// word `x / 32`, and the cell is bit `x % 32` of it.
pub proof fn lemma_cell_word(w: int, h: int, x: int, y: int)
    requires
        1 <= w,
        1 <= h,
        row_words(w) * h <= 1152,
        0 <= x < w,
        0 <= y < h,
    ensures
        0 <= cell_word(w, x, y) < row_words(w) * h,
        cell_word(w, x, y) / row_words(w) == y,
        cell_word(w, x, y) % row_words(w) == x / 32,
        (cell_word(w, x, y) % row_words(w)) * 32 + x % 32 == x,
        0 <= y * w + x < w * h,
{
    let s = row_words(w);
    vstd::arithmetic::div_mod::lemma_fundamental_div_mod(w + 31, 32);
    vstd::arithmetic::div_mod::lemma_fundamental_div_mod(x, 32);
    assert(x / 32 < s);
    assert(0 <= y * s) by (nonlinear_arith)
        requires
            0 <= y,
            1 <= s,
    ;
    assert(y * s + x / 32 < s * h) by (nonlinear_arith)
        requires
            x / 32 < s,
            0 <= x / 32,
            y < h,
    ;
    vstd::arithmetic::div_mod::lemma_fundamental_div_mod(y * s + x / 32, s);
    assert(cell_word(w, x, y) / s == y && cell_word(w, x, y) % s == x / 32) by {
        vstd::arithmetic::div_mod::lemma_div_multiples_vanish_fancy(y, x / 32, s);
        vstd::arithmetic::div_mod::lemma_mod_multiples_vanish(y, x / 32, s);
        vstd::arithmetic::div_mod::lemma_small_mod((x / 32) as nat, s as nat);
        assert(s * y == y * s) by (nonlinear_arith);
    }
    assert(y * w + x < w * h) by (nonlinear_arith)
        requires
            0 <= x < w,
            0 <= y < h,
    ;
    assert(y * w >= 0) by (nonlinear_arith)
        requires
            0 <= y,
            0 <= w,
    ;
}

/// The terrain of the cell at bit `b` of word `nw`: the first layer of
/// `priority` that holds it.
fn terrain_at(bb: &Vec<u32>, nw: usize, b: u32) -> (t: Terrain)
    requires
        bb.len() == BB_WORDS,
        nw < LAYER_WORDS,
        b < 32,
    ensures
        forall|w: int, x: int, y: int|
            cell_word(w, x, y) == nw && x % 32 == b ==> t == #[trigger] cell_terrain(bb@, w, x, y),
{
    let order: [Terrain; 14] = [
        Terrain::LingSoil,
        Terrain::StoneLand,
        Terrain::RockBrown,
        Terrain::RockGray,
        Terrain::RockMarble,
        Terrain::IronOre,
        Terrain::CopperOre,
        Terrain::SilverOre,
        Terrain::Mud,
        Terrain::ShallowWater,
        Terrain::DepthWater,
        Terrain::DDepthWater,
        Terrain::FertileSoil,
        Terrain::Soil,
    ];
    assert forall|i: int| 0 <= i < 14 implies #[trigger] order@[i] == priority(i) by {}
    let mut i: usize = 14;
    let mut found = Terrain::Null;
    while i > 0
        invariant
            i <= 14,
            bb.len() == BB_WORDS,
            nw < LAYER_WORDS,
            b < 32,
            forall|j: int| 0 <= j < 14 ==> #[trigger] order@[j] == priority(j),
            forall|w: int, x: int, y: int|
                cell_word(w, x, y) == nw && x % 32 == b ==> found == #[trigger] cell_terrain_from(
                    bb@,
                    w,
                    x,
                    y,
                    i as nat,
                ),
        decreases i,
    {
        i = i - 1;
        let t = order[i];
        let word = bb[t.index() * LAYER_WORDS + nw];
        proof {
            lemma_bit_test(word, b);
            lemma_flat_parts(t.spec_index() as int, nw as int);
        }
        let ghost prev = found;
        if word & (1u32 << b) != 0 {
            found = t;
        }
        proof {
            assert forall|w: int, x: int, y: int|
                cell_word(w, x, y) == nw && x % 32 == b implies found
                == #[trigger] cell_terrain_from(bb@, w, x, y, i as nat) by {
                assert(prev == cell_terrain_from(bb@, w, x, y, (i + 1) as nat));
                assert(layer_word(bb@, t.spec_index() as int, cell_word(w, x, y)) == word);
                assert(cell_in(bb@, w, t.spec_index() as int, x, y) == bit(word, b));
                assert(priority(i as int) == t);
            }
        }
    }
    found
}

/// Every cell of the grid gets its terrain (see `cell_terrain`).
fn write_terrain_grid(bb: &Vec<u32>, w: i32, h: i32, grid: &mut Vec<Terrain>)
    requires
        bb.len() == BB_WORDS,
        1 <= w,
        1 <= h,
        row_words(w as int) * h <= 1152,
        w * h <= 36864,
        old(grid).len() == w * h,
    ensures
        final(grid).len() == w * h,
        forall|x: int, y: int|
            0 <= x < w && 0 <= y < h ==> #[trigger] final(grid)@[y * w + x] == cell_terrain(
                bb@,
                w as int,
                x,
                y,
            ),
{
    proof {
        lemma_area_bound(w as int, h as int);
    }
    let s: usize = ((w + 31) / 32) as usize;
    let wu = w as usize;
    let hu = h as usize;
    let mut y: usize = 0;
    while y < hu
        invariant
            y <= hu,
            hu == h,
            wu == w,
            s == row_words(w as int),
            bb.len() == BB_WORDS,
            1 <= w,
            1 <= h,
            row_words(w as int) * h <= 1152,
            w * h <= 36864,
            grid.len() == w * h,
            forall|x: int, yy: int|
                0 <= x < w && 0 <= yy < y ==> #[trigger] grid@[yy * w + x] == cell_terrain(
                    bb@,
                    w as int,
                    x,
                    yy,
                ),
        decreases hu - y,
    {
        let mut x: usize = 0;
        while x < wu
            invariant
                x <= wu,
                y < hu,
                hu == h,
                wu == w,
                s == row_words(w as int),
                bb.len() == BB_WORDS,
                1 <= w,
                1 <= h,
                row_words(w as int) * h <= 1152,
                w * h <= 36864,
                grid.len() == w * h,
                forall|xx: int, yy: int|
                    0 <= xx < w && 0 <= yy < h && (yy < y || (yy == y && xx < x))
                        ==> #[trigger] grid@[yy * w + xx] == cell_terrain(bb@, w as int, xx, yy),
            decreases wu - x,
        {
            proof {
                lemma_cell_word(w as int, h as int, x as int, y as int);
            }
            let k = y * wu + x;
            let nw = y * s + x / 32;
            let t = terrain_at(bb, nw, (x % 32) as u32);
            proof {
                assert(nw == cell_word(w as int, x as int, y as int));
                assert(t == cell_terrain(bb@, w as int, x as int, y as int));
            }
            let ghost before = grid@;
            grid.set(k, t);
            proof {
                assert forall|xx: int, yy: int|
                    0 <= xx < w && 0 <= yy < h && (yy < y || (yy == y && xx < x + 1))
                        implies #[trigger] grid@[yy * w + xx] == cell_terrain(
                    bb@,
                    w as int,
                    xx,
                    yy,
                ) by {
                    lemma_cell_word(w as int, h as int, xx, yy);
                    if xx == x && yy == y {
                    } else {
                        if yy * w + xx == k {
                            lemma_key_unique(w as int, xx, yy, x as int, y as int);
                        }
                        assert(grid@[yy * w + xx] == before[yy * w + xx]);
                    }
                }
            }
            x = x + 1;
        }
        y = y + 1;
    }
}

proof fn lemma_key_unique(w: int, x1: int, y1: int, x2: int, y2: int)
    requires
        0 <= x1 < w,
        0 <= x2 < w,
        y1 * w + x1 == y2 * w + x2,
    ensures
        x1 == x2 && y1 == y2,
{
    assert(x1 == x2 && y1 == y2) by (nonlinear_arith)
        requires
            0 <= x1 < w,
            0 <= x2 < w,
            y1 * w + x1 == y2 * w + x2,
    ;
}

/// Sets `out` at every cell that layer `t` holds (`out` starts all false).
fn mark_layer_cells(bb: &Vec<u32>, t: usize, w: i32, h: i32, out: &mut Vec<bool>)
    requires
        bb.len() == BB_WORDS,
        t < LAYERS,
        1 <= w,
        1 <= h,
        row_words(w as int) * h <= 1152,
        w * h <= 36864,
        old(out).len() == w * h,
        forall|j: int| 0 <= j < w * h ==> !#[trigger] old(out)@[j],
    ensures
        final(out).len() == w * h,
        forall|x: int, y: int|
            0 <= x < w && 0 <= y < h ==> #[trigger] final(out)@[y * w + x] == cell_in(
                bb@,
                w as int,
                t as int,
                x,
                y,
            ),
{
    proof {
        lemma_area_bound(w as int, h as int);
    }
    let s: usize = ((w + 31) / 32) as usize;
    let wu = w as usize;
    let words = s * (h as usize);
    assert forall|x: int, y: int| 0 <= x < w && 0 <= y < h implies !#[trigger] out@[y * w + x] by {
        lemma_cell_word(w as int, h as int, x, y);
    }
    let mut nw: usize = 0;
    while nw < words
        invariant
            nw <= words,
            words == row_words(w as int) * h,
            wu == w,
            s == row_words(w as int),
            s >= 1,
            bb.len() == BB_WORDS,
            t < LAYERS,
            1 <= w,
            1 <= h,
            row_words(w as int) * h <= 1152,
            w * h <= 36864,
            out.len() == w * h,
            forall|x: int, y: int|
                0 <= x < w && 0 <= y < h ==> #[trigger] out@[y * w + x] == (cell_word(
                    w as int,
                    x,
                    y,
                ) < nw && cell_in(bb@, w as int, t as int, x, y)),
        decreases words - nw,
    {
        let word = bb[t * LAYER_WORDS + nw];
        let mut m = word;
        while m != 0
            invariant
                nw < words,
                words == row_words(w as int) * h,
                wu == w,
                s == row_words(w as int),
                s >= 1,
                bb.len() == BB_WORDS,
                t < LAYERS,
                word == layer_word(bb@, t as int, nw as int),
                1 <= w,
                1 <= h,
                row_words(w as int) * h <= 1152,
                w * h <= 36864,
                out.len() == w * h,
                forall|j: u32| j < 32 ==> (bit(m, j) ==> bit(word, j)),
                forall|x: int, y: int|
                    0 <= x < w && 0 <= y < h ==> #[trigger] out@[y * w + x] == ((cell_word(
                        w as int,
                        x,
                        y,
                    ) < nw && cell_in(bb@, w as int, t as int, x, y)) || (cell_word(w as int, x, y)
                        == nw && bit(word, (x % 32) as u32) && !bit(m, (x % 32) as u32))),
            decreases m,
        {
            let b = m.trailing_zeros();
            proof {
                vstd::std_specs::bits::axiom_u32_trailing_zeros(m);
                assert(bit(m, b));
                assert forall|j: u32| j < 32 implies bit(m ^ (1u32 << b), j) == (bit(m, j) && j
                    != b) by {
                    lemma_clear_bit(m, b, j);
                }
                lemma_clear_bit(m, b, 0);
            }
            let ghost old_m = m;
            let ghost before = out@;
            m = m ^ (1u32 << b);
            let cx = nw % s * 32 + b as usize;
            if cx < wu {
                let y = nw / s;
                proof {
                    lemma_word_position(nw as int, s as int, h as int);
                    lemma_cell_word(w as int, h as int, cx as int, y as int);
                    assert(cx / 32 == nw % s);
                    assert(cell_word(w as int, cx as int, y as int) == nw);
                    assert(cx % 32 == b);
                }
                out.set(y * wu + cx, true);
                proof {
                    assert forall|xx: int, yy: int| 0 <= xx < w && 0 <= yy < h implies #[trigger] out@[yy
                        * w + xx] == ((cell_word(w as int, xx, yy) < nw && cell_in(
                        bb@,
                        w as int,
                        t as int,
                        xx,
                        yy,
                    )) || (cell_word(w as int, xx, yy) == nw && bit(word, (xx % 32) as u32) && !bit(
                        m,
                        (xx % 32) as u32,
                    ))) by {
                        lemma_cell_word(w as int, h as int, xx, yy);
                        if xx == cx && yy == y {
                        } else {
                            if yy * w + xx == y * w + cx {
                                lemma_key_unique(w as int, xx, yy, cx as int, y as int);
                            }
                            assert(out@[yy * w + xx] == before[yy * w + xx]);
                            if cell_word(w as int, xx, yy) == nw {
                                // same word, other bit
                                assert((xx % 32) as u32 != b) by {
                                    lemma_cell_word(w as int, h as int, cx as int, y as int);
                                }
                            }
                        }
                    }
                }
            } else {
                proof {
                    // no cell of the map sits at this bit: it is row padding
                    assert forall|xx: int, yy: int| 0 <= xx < w && 0 <= yy < h implies #[trigger] out@[yy
                        * w + xx] == ((cell_word(w as int, xx, yy) < nw && cell_in(
                        bb@,
                        w as int,
                        t as int,
                        xx,
                        yy,
                    )) || (cell_word(w as int, xx, yy) == nw && bit(word, (xx % 32) as u32) && !bit(
                        m,
                        (xx % 32) as u32,
                    ))) by {
                        lemma_cell_word(w as int, h as int, xx, yy);
                        if cell_word(w as int, xx, yy) == nw {
                            assert((xx % 32) as u32 != b);
                        }
                    }
                }
            }
        }
        proof {
            assert forall|x: int, y: int|
                0 <= x < w && 0 <= y < h && cell_word(w as int, x, y) == nw implies #[trigger] cell_in(
                bb@,
                w as int,
                t as int,
                x,
                y,
            ) == bit(word, (x % 32) as u32) by {}
            lemma_zero_bits();
        }
        nw = nw + 1;
    }
    assert forall|x: int, y: int| 0 <= x < w && 0 <= y < h implies #[trigger] out@[y * w + x]
        == cell_in(bb@, w as int, t as int, x, y) by {
        lemma_cell_word(w as int, h as int, x, y);
    }
}

/// Row and column word of a word index.
proof fn lemma_word_position(nw: int, s: int, h: int)
    requires
        0 <= nw < s * h,
        s >= 1,
    ensures
        0 <= nw / s < h,
        nw == (nw / s) * s + nw % s,
        0 <= nw % s < s,
{
    vstd::arithmetic::div_mod::lemma_fundamental_div_mod(nw, s);
    assert(s * (nw / s) == (nw / s) * s) by (nonlinear_arith);
    assert(nw / s < h) by (nonlinear_arith)
        requires
            nw < s * h,
            nw == s * (nw / s) + nw % s,
            0 <= nw % s,
            s >= 1,
    ;
    assert(nw / s >= 0) by (nonlinear_arith)
        requires
            nw >= 0,
            s >= 1,
    ;
}

/// The cell's bit lies inside its word's row.
pub proof fn lemma_cell_bit_inside(w: int, h: int, x: int, y: int)
    requires
        1 <= w,
        1 <= h,
        row_words(w) * h <= 1152,
        0 <= x < w,
        0 <= y < h,
    ensures
        is_row_end(w, cell_word(w, x, y)) ==> (1u32 << ((x % 32) as u32)) & !pad_mask(w) == 0,
        (x % 32) < 32,
{
    lemma_cell_word(w, h, x, y);
    vstd::arithmetic::div_mod::lemma_fundamental_div_mod(w + 31, 32);
    vstd::arithmetic::div_mod::lemma_fundamental_div_mod(x, 32);
    vstd::arithmetic::div_mod::lemma_fundamental_div_mod(w, 32);
    if is_row_end(w, cell_word(w, x, y)) {
        if w % 32 != 0 {
            assert(x / 32 == row_words(w) - 1);
            assert(row_words(w) - 1 == w / 32);
            assert(x % 32 < w % 32);
            lemma_low_bit_in_mask((x % 32) as u32, (w % 32) as u32);
        } else {
            lemma_full_mask(1u32 << ((x % 32) as u32));
        }
    }
}

/// Column and row of a key.
proof fn lemma_key_position(w: int, h: int, k: int)
    requires
        1 <= w,
        1 <= h,
        0 <= k < w * h,
    ensures
        0 <= k % w < w,
        0 <= k / w < h,
        k == (k / w) * w + k % w,
{
    vstd::arithmetic::div_mod::lemma_fundamental_div_mod(k, w);
    assert(w * (k / w) == (k / w) * w) by (nonlinear_arith);
    assert(k / w < h) by (nonlinear_arith)
        requires
            k < w * h,
            k == w * (k / w) + k % w,
            0 <= k % w,
            w >= 1,
    ;
    assert(k / w >= 0) by (nonlinear_arith)
        requires
            k >= 0,
            w >= 1,
    ;
}

proof fn lemma_spiral_point_bounds(k: nat)
    requires
        k < SPIRAL_LEN,
    ensures
        -10201 <= spiral_point(k).0 <= 10201,
        -10201 <= spiral_point(k).1 <= 10201,
{
    crate::constants::lemma_spiral_walk_bounds(k);
}

/// Layer `to` becomes a copy of layer `from`.
fn copy_layer(bb: &mut Vec<u32>, from: usize, to: usize)
    requires
        old(bb).len() == BB_WORDS,
        from < LAYERS,
        to < LAYERS,
    ensures
        final(bb).len() == BB_WORDS,
        forall|t: int, i: int|
            0 <= t < 20 && 0 <= i < 1152 ==> #[trigger] final(bb)@[flat(t, i)] == if t == to {
                old(bb)@[flat(from as int, i)]
            } else {
                old(bb)@[flat(t, i)]
            },
{
    let mut i: usize = 0;
    while i < LAYER_WORDS
        invariant
            i <= LAYER_WORDS,
            bb.len() == BB_WORDS,
            from < LAYERS,
            to < LAYERS,
            forall|t: int, x: int|
                0 <= t < 20 && 0 <= x < 1152 ==> #[trigger] bb@[flat(t, x)] == if t == to && x
                    < i {
                    old(bb)@[flat(from as int, x)]
                } else if t == from && from == to {
                    old(bb)@[flat(t, x)]
                } else {
                    old(bb)@[flat(t, x)]
                },
            forall|x: int| i <= x < 1152 ==> #[trigger] bb@[flat(from as int, x)] == old(bb)@[flat(
                from as int,
                x,
            )],
        decreases LAYER_WORDS - i,
    {
        let v = bb[from * LAYER_WORDS + i];
        proof {
            lemma_flat_parts(from as int, i as int);
            lemma_flat_parts(to as int, i as int);
            assert forall|t: int, x: int|
                0 <= t < 20 && 0 <= x < 1152 && #[trigger] flat(t, x) == flat(to as int, i as int)
                    implies t == to && x == i by {
                lemma_flat_injective(t, x, to as int, i as int);
            }
        }
        bb.set(to * LAYER_WORDS + i, v);
        i = i + 1;
    }
}

/// Two layer sequences with the same words in every layer are equal.
pub proof fn lemma_layers_ext(a: Seq<u32>, b: Seq<u32>)
    requires
        a.len() == BB_WORDS,
        b.len() == BB_WORDS,
        forall|t: int, x: int| 0 <= t < 20 && 0 <= x < 1152 ==> #[trigger] layer_word(a, t, x) == layer_word(b, t, x),
    ensures
        a == b,
{
    assert forall|j: int| 0 <= j < a.len() implies a[j] == b[j] by {
        lemma_flat_split(j);
        assert(layer_word(a, j / 1152, j % 1152) == layer_word(b, j / 1152, j % 1152));
    }
    assert(a =~= b);
}

/// A copy into layer 18, as `copy_layer` states it, is `copied`.
proof fn lemma_copied(old_bb: Seq<u32>, bb: Seq<u32>, from: int)
    requires
        old_bb.len() == BB_WORDS,
        bb.len() == BB_WORDS,
        0 <= from < 20,
        forall|t: int, i: int|
            0 <= t < 20 && 0 <= i < 1152 ==> #[trigger] bb[flat(t, i)] == if t == 18 {
                old_bb[flat(from, i)]
            } else {
                old_bb[flat(t, i)]
            },
    ensures
        bb == copied(old_bb, from),
{
    assert forall|j: int| 0 <= j < BB_WORDS implies bb[j] == #[trigger] copied(old_bb, from)[j] by {
        lemma_flat_split(j);
        assert(j / 1152 < 20);
    }
    assert(bb =~= copied(old_bb, from));
}

/// A copy into layer 18 keeps the invariant (that layer holds no terrain
/// and a copy of a padded layer is padded).
proof fn lemma_copy_layer_wf(old_bb: Seq<u32>, bb: Seq<u32>, w: int, h: int, from: int)
    requires
        old_bb.len() == BB_WORDS,
        bb.len() == BB_WORDS,
        0 <= from < 20,
        1 <= w,
        1 <= h,
        row_words(w) * h <= 1152,
        exclusive(old_bb, row_words(w) * h),
        padding_clear(old_bb, w, h),
        forall|t: int, i: int|
            0 <= t < 20 && 0 <= i < 1152 ==> #[trigger] bb[flat(t, i)] == if t == 18 {
                old_bb[flat(from, i)]
            } else {
                old_bb[flat(t, i)]
            },
    ensures
        exclusive(bb, row_words(w) * h),
        padding_clear(bb, w, h),
{
    assert forall|t1: int, t2: int, x: int|
        1 <= t1 <= 15 && 1 <= t2 <= 15 && t1 != t2 && 0 <= x < row_words(w) * h implies #[trigger] layer_word(
        bb,
        t1,
        x,
    ) & #[trigger] layer_word(bb, t2, x) == 0 by {
        assert(layer_word(bb, t1, x) == layer_word(old_bb, t1, x));
        assert(layer_word(bb, t2, x) == layer_word(old_bb, t2, x));
    }
    assert forall|t: int, x: int|
        0 <= t < 20 && 0 <= x < row_words(w) * h && is_row_end(w, x) implies #[trigger] layer_word(
        bb,
        t,
        x,
    ) & !pad_mask(w) == 0 by {
        if t == 18 {
            assert(layer_word(bb, t, x) == layer_word(old_bb, from, x));
        } else {
            assert(layer_word(bb, t, x) == layer_word(old_bb, t, x));
        }
    }
}

/// The masks of `get_ctype_mask` have no bits past a row end.
proof fn lemma_ctype_mask_padded(bb: Seq<u32>, w: int, i: int, c: CType)
    requires
        is_row_end(w, i),
    ensures
        ctype_mask(bb, w, i, c) & !pad_mask(w) == 0,
{
    let base = ctype_base(bb, i, c);
    if w % 32 != 0 {
        lemma_mask_and_inside(base, pad_mask(w));
    } else {
        lemma_full_mask(base);
    }
}

proof fn lemma_mask_and_inside(a: u32, k: u32)
    by (bit_vector)
    ensures
        (a & k) & !k == 0,
{
}

/// Word offsets of a row and its neighbours stay inside the map.
proof fn lemma_row_offsets(y: int, s: int, h: int)
    requires
        0 <= y < h,
        1 <= s,
        s * h <= 1152,
    ensures
        y * s + s <= s * h,
        y > 0 ==> (y - 1) * s + s <= s * h,
        (y + 1 < h ==> (y + 1) * s + s <= s * h),
        (h - 1) * s + s <= s * h,
        0 <= y * s,
{
    assert(y * s + s <= s * h) by (nonlinear_arith)
        requires
            0 <= y < h,
            1 <= s,
    ;
    assert(y > 0 ==> (y - 1) * s + s <= s * h) by (nonlinear_arith)
        requires
            0 <= y < h,
            1 <= s,
    ;
    assert(y + 1 < h ==> (y + 1) * s + s <= s * h) by (nonlinear_arith)
        requires
            0 <= y < h,
            1 <= s,
    ;
    assert((h - 1) * s + s <= s * h) by (nonlinear_arith);
    assert(0 <= y * s) by (nonlinear_arith)
        requires
            0 <= y,
            1 <= s,
    ;
}

/// `(w as f32 * 0.3) as i32` for `e == 24` and `(w as f32 * 0.6) as i32`
/// for `e == 23`: the constants are `5033165 / 2^24` and `5033165 / 2^23` in
/// `f32`, and the product is rounded to 24 bits before truncation.
pub open spec fn w_times_f32_spec(w: nat, e: nat) -> nat {
    round_sig(w * 5033165, 24) / two_pow(e)
}

/// Exec form of `w_times_f32_spec`.
pub fn w_times_f32(w: i32, e: u32) -> (r: i32)
    requires
        0 <= w <= 36864,
        e == 23 || e == 24,
    ensures
        r == w_times_f32_spec(w as nat, e as nat),
        0 <= r <= 65536,
{
    proof {
        lemma_two_pow_values();
    }
    let x = round_sig_u128((w as u128) * 5033165, 24);
    let p = two_pow_u128(e);
    proof {
        assert(x <= 2 * 36864 * 5033165);
        assert(x / p <= x / 0x80_0000) by {
            vstd::arithmetic::div_mod::lemma_div_is_ordered_by_denominator(
                x as int,
                0x80_0000,
                p as int,
            );
        }
        assert(x / 0x80_0000 <= 2 * 36864 * 5033165 / 0x80_0000) by {
            vstd::arithmetic::div_mod::lemma_div_is_ordered(
                x as int,
                2 * 36864 * 5033165int,
                0x80_0000,
            );
        }
    }
    (x / p) as i32
}

/// `n` zero words.
fn zero_words(n: usize) -> (v: Vec<u32>)
    ensures
        v.len() == n,
        forall|j: int| 0 <= j < n ==> #[trigger] v@[j] == 0,
{
    let mut v: Vec<u32> = Vec::new();
    let mut j: usize = 0;
    while j < n
        invariant
            j <= n,
            v.len() == j,
            forall|x: int| 0 <= x < j ==> #[trigger] v@[x] == 0,
        decreases n - j,
    {
        v.push(0);
        j = j + 1;
    }
    v
}

fn terrain_vec(n: usize, t: Terrain) -> (v: Vec<Terrain>)
    ensures
        v.len() == n,
        forall|j: int| 0 <= j < n ==> #[trigger] v@[j] == t,
{
    let mut v: Vec<Terrain> = Vec::new();
    let mut j: usize = 0;
    while j < n
        invariant
            j <= n,
            v.len() == j,
            forall|x: int| 0 <= x < j ==> #[trigger] v@[x] == t,
        decreases n - j,
    {
        v.push(t);
        j = j + 1;
    }
    v
}

fn bool_vec(n: usize, b: bool) -> (v: Vec<bool>)
    ensures
        v.len() == n,
        forall|j: int| 0 <= j < n ==> #[trigger] v@[j] == b,
{
    let mut v: Vec<bool> = Vec::new();
    let mut j: usize = 0;
    while j < n
        invariant
            j <= n,
            v.len() == j,
            forall|x: int| 0 <= x < j ==> #[trigger] v@[x] == b,
        decreases n - j,
    {
        v.push(b);
        j = j + 1;
    }
    v
}

/// Sets every element of `v` to `t`.
fn fill_terrain(v: &mut Vec<Terrain>, t: Terrain)
    ensures
        final(v).len() == old(v).len(),
        forall|j: int| 0 <= j < old(v).len() ==> #[trigger] final(v)@[j] == t,
{
    let n = v.len();
    let mut i: usize = 0;
    while i < n
        invariant
            i <= n,
            n == v.len(),
            forall|x: int| 0 <= x < i ==> #[trigger] v@[x] == t,
        decreases n - i,
    {
        v.set(i, t);
        i = i + 1;
    }
}

/// Sets every element of `v` to `b`.
fn fill_bool(v: &mut Vec<bool>, b: bool)
    ensures
        final(v).len() == old(v).len(),
        forall|j: int| 0 <= j < old(v).len() ==> #[trigger] final(v)@[j] == b,
{
    let n = v.len();
    let mut i: usize = 0;
    while i < n
        invariant
            i <= n,
            n == v.len(),
            forall|x: int| 0 <= x < i ==> #[trigger] v@[x] == b,
        decreases n - i,
    {
        v.set(i, b);
        i = i + 1;
    }
}

/// Word `w` of layer `t` gains the bits `m`, which leave layers `1..=15`
/// otherwise.
fn paint_word(bb: &mut Vec<u32>, t: usize, w: usize, m: u32)
    requires
        old(bb).len() == BB_WORDS,
        1 <= t <= 15,
        w < LAYER_WORDS,
    ensures
        final(bb)@ == paint(old(bb)@, t as int, w as int, m),
{
    let ghost target = paint(old(bb)@, t as int, w as int, m);
    let mut i: usize = 1;
    while i <= 15
        invariant
            1 <= i <= 16,
            bb.len() == BB_WORDS,
            w < LAYER_WORDS,
            1 <= t <= 15,
            forall|tt: int, x: int|
                0 <= tt < 20 && 0 <= x < 1152 ==> #[trigger] bb@[flat(tt, x)] == if 1 <= tt < i
                    && x == w {
                    if tt == t {
                        old(bb)@[flat(tt, x)] | m
                    } else {
                        old(bb)@[flat(tt, x)] & !m
                    }
                } else {
                    old(bb)@[flat(tt, x)]
                },
        decreases 16 - i,
    {
        let idx = i * LAYER_WORDS + w;
        proof {
            assert(idx == flat(i as int, w as int));
            assert forall|tt: int, x: int|
                0 <= tt < 20 && 0 <= x < 1152 && #[trigger] flat(tt, x) == idx implies tt == i
                && x == w by {
                lemma_flat_injective(tt, x, i as int, w as int);
            }
        }
        if i == t {
            bb.set(idx, bb[idx] | m);
        } else {
            bb.set(idx, bb[idx] & !m);
        }
        i = i + 1;
    }
    assert forall|j: int| 0 <= j < BB_WORDS implies #[trigger] bb@[j] == target[j] by {
        vstd::arithmetic::div_mod::lemma_fundamental_div_mod(j, 1152);
        let tt = j / 1152;
        let x = j % 1152;
        assert(j == flat(tt, x));
        assert(bb@[flat(tt, x)] == bb@[j]);
    }
    assert(bb@ =~= target);
}

proof fn lemma_area_bound(w: int, h: int)
    requires
        1 <= w,
        1 <= h,
        row_words(w) * h <= 1152,
    ensures
        w * h <= 36864,
        w <= 36864,
        h <= 1152,
        row_words(w) >= 1,
{
    vstd::arithmetic::div_mod::lemma_fundamental_div_mod(w + 31, 32);
    assert(w <= 32 * row_words(w));
    assert(w * h <= 32 * (row_words(w) * h)) by (nonlinear_arith)
        requires
            w <= 32 * row_words(w),
            h >= 1,
    ;
    assert(row_words(w) * h >= h) by (nonlinear_arith)
        requires
            row_words(w) >= 1,
            h >= 1,
    ;
    assert(w * h >= w) by (nonlinear_arith)
        requires
            h >= 1,
            w >= 1,
    ;
}

proof fn lemma_key_bound(w: int, h: int, x: int, y: int)
    requires
        1 <= w,
        1 <= h,
        w * h <= 36864,
        0 <= x < w,
        0 <= y < h,
    ensures
        0 <= y * w + x < w * h,
{
    assert(y * w + x < w * h) by (nonlinear_arith)
        requires
            0 <= x < w,
            0 <= y < h,
    ;
    assert(y * w >= 0) by (nonlinear_arith)
        requires
            0 <= y,
            0 <= w,
    ;
}

/// All-zero layers are exclusive and padded.
proof fn lemma_zero_layers_wf(bb: Seq<u32>, w: int, h: int)
    requires
        bb.len() == BB_WORDS,
        forall|j: int| 0 <= j < BB_WORDS ==> #[trigger] bb[j] == 0,
        1 <= w,
        1 <= h,
        row_words(w) * h <= 1152,
    ensures
        exclusive(bb, row_words(w) * h),
        padding_clear(bb, w, h),
{
    assert forall|t1: int, t2: int, i: int|
        1 <= t1 <= 15 && 1 <= t2 <= 15 && t1 != t2 && 0 <= i < row_words(w) * h implies #[trigger] layer_word(
        bb,
        t1,
        i,
    ) & #[trigger] layer_word(bb, t2, i) == 0 by {
        assert(bb[t1 * 1152 + i] == 0);
        lemma_zero_word(layer_word(bb, t2, i));
    }
    assert forall|t: int, i: int|
        0 <= t < 20 && 0 <= i < row_words(w) * h && is_row_end(w, i) implies #[trigger] layer_word(
        bb,
        t,
        i,
    ) & !pad_mask(w) == 0 by {
        assert(bb[t * 1152 + i] == 0);
        lemma_zero_word(pad_mask(w));
    }
}

} // verus!
