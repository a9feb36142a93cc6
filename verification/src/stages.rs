//! The stages of map generation as functions of the layers and the
//! generator: what `MapMaker::make_map` and its stages leave, step by step.
use vstd::prelude::*;
use crate::constants::CType;
use crate::map_maker::{
    cell_word, filled, flat, key_of, layer_word, mine_walks, out_line_model, paint,
    random_and_expand_model, random_line_model, row_words, smooth_result, w_times_f32_spec,
};
use crate::rng::{next_range_model, seeded, RngModel};
use crate::terrain::Terrain;

verus! {

/// The layers and the generator between two steps of generation, and
/// whether every step so far went through.  A step that did not stops the
/// generation: every later step hands its state on unchanged.
pub type Gen = (Seq<u32>, RngModel, bool);

/// The layer of terrain `t`.
pub open spec fn layer_of(t: Terrain) -> int {
    t.spec_index() as int
}

/// `max(1, w / 64)`: the scale of a map `w` cells wide.
pub open spec fn scale(w: int) -> int {
    if w / 64 > 1 {
        w / 64
    } else {
        1
    }
}

/// `out_line(src, tgt, wr, lv, 0, c)`.
pub open spec fn spread(st: Gen, w: int, h: int, src: Terrain, tgt: Terrain, wr: int, lv: int, c: CType) -> Gen {
    if !st.2 {
        st
    } else {
        let o = out_line_model(st.0, st.1, w, h, layer_of(src), layer_of(tgt), wr, lv, 0, c);
        (o.0, o.1, true)
    }
}

/// `random_and_expand(def, rc, ec, elv, olv, oc, c, ec2)`.
pub open spec fn expand(
    st: Gen,
    w: int,
    h: int,
    def: Terrain,
    rc: int,
    ec: int,
    elv: int,
    olv: int,
    oc: int,
    c: CType,
    ec2: CType,
) -> Gen {
    if !st.2 {
        st
    } else {
        random_and_expand_model(st.0, st.1, w, h, layer_of(def), rc, ec, elv, olv, oc, c, ec2)
    }
}

/// `random_line_from_mine_dir(wr, size, def, c)` along the walk `dirs`.
pub open spec fn lay_line(st: Gen, w: int, h: int, dirs: Seq<i32>, wr: int, size: int, def: Terrain, c: CType) -> Gen {
    if !st.2 {
        st
    } else {
        random_line_model(st.0, st.1, w, h, dirs, wr, size, layer_of(def), c)
    }
}

/// `optimize(t, lo, hi, 1, c)`.
pub open spec fn smooth(st: Gen, w: int, h: int, t: Terrain, lo: int, hi: int, c: CType) -> Gen {
    if !st.2 {
        st
    } else {
        (smooth_result(st.0, w, h, layer_of(t), lo, hi, c), st.1, true)
    }
}

/// `out_line(srcs[i], tgt, wr, lv, 0, c)` for each source from the `i`-th
/// on.
pub open spec fn spread_each(
    st: Gen,
    w: int,
    h: int,
    srcs: Seq<Terrain>,
    tgt: Terrain,
    wr: int,
    lv: int,
    c: CType,
    i: nat,
) -> Gen
    decreases srcs.len() - i,
{
    if i >= srcs.len() || !st.2 {
        st
    } else {
        spread_each(spread(st, w, h, srcs[i as int], tgt, wr, lv, c), w, h, srcs, tgt, wr, lv, c, i + 1)
    }
}

/// For each source from the `i`-th on: a radius drawn from `[lo, hi]`, then
/// `out_line(srcs[i], tgt, radius, lv, 0, c)`.
pub open spec fn spread_drawn(
    st: Gen,
    w: int,
    h: int,
    srcs: Seq<Terrain>,
    tgt: Terrain,
    lo: int,
    hi: int,
    lv: int,
    c: CType,
    i: nat,
) -> Gen
    decreases srcs.len() - i,
{
    if i >= srcs.len() || !st.2 {
        st
    } else {
        let (r, m1) = next_range_model(st.1, lo as i32, hi as i32);
        spread_drawn(
            spread((st.0, m1, true), w, h, srcs[i as int], tgt, r as int, lv, c),
            w,
            h,
            srcs,
            tgt,
            lo,
            hi,
            lv,
            c,
            i + 1,
        )
    }
}

/// Layer 16 (the birth area), on the first `n` words, becomes a copy of
/// the fertile soil without the first cell of the map.
pub open spec fn born_space_copied(bb: Seq<u32>, n: int) -> Seq<u32> {
    Seq::new(
        bb.len(),
        |j: int|
            if j / 1152 == 16 && j % 1152 < n {
                layer_word(bb, 6, j % 1152) & first_cleared(j % 1152)
            } else {
                bb[j]
            },
    )
}

/// The mask that leaves out the first cell of the map in word `i`.
pub open spec fn first_cleared(i: int) -> u32 {
    if i == 0 {
        !1u32
    } else {
        !0u32
    }
}

/// Words `i..n`, one after another: the fertile soil of the word (without
/// the first cell of the map) is painted with soil.
pub open spec fn soil_under(bb: Seq<u32>, i: nat, n: nat) -> Seq<u32>
    decreases n - i,
{
    if i >= n {
        bb
    } else {
        let m = layer_word(bb, 6, i as int) & first_cleared(i as int);
        soil_under(
            if m != 0 {
                paint(bb, 1, i as int, m)
            } else {
                bb
            },
            i + 1,
            n,
        )
    }
}

/// Layer 17 (the birth line) emptied.
pub open spec fn born_line_cleared(bb: Seq<u32>) -> Seq<u32> {
    Seq::new(bb.len(), |j: int| if j / 1152 == 17 { 0u32 } else { bb[j] })
}

/// Cell `k` joins the birth line.
pub open spec fn born_marked(bb: Seq<u32>, w: int, k: int) -> Seq<u32> {
    let x = k % w;
    let nw = cell_word(w, x, k / w);
    bb.update(flat(17, nw), layer_word(bb, 17, nw) | (1u32 << ((x % 32) as u32)))
}

/// The cell of the birth line on side `side` at offset `j` from `n`: the
/// left and right columns, then the top row and the row `w - 1`.
pub open spec fn born_key(w: int, h: int, side: int, n: int, j: int) -> int {
    if side == 0 {
        key_of(w, h, 0, n + j)
    } else if side == 1 {
        key_of(w, h, w - 1, n + j)
    } else if side == 2 {
        key_of(w, h, n + j, 0)
    } else {
        key_of(w, h, n + j, w - 1)
    }
}

/// The birth line on one side, from offset `j` on: while the offset is
/// below a fresh draw from `[5, 15]`, the cell at that offset (if on the
/// map) joins the line.  `fuel` bounds the offsets (the draws do).
pub open spec fn born_side(st: Gen, w: int, h: int, side: int, n: int, j: int, fuel: nat) -> Gen
    decreases fuel,
{
    let (r, m1) = next_range_model(st.1, 5, 15);
    if !st.2 {
        st
    } else if fuel == 0 || j >= r {
        (st.0, m1, true)
    } else {
        let k = born_key(w, h, side, n, j);
        let bb2 = if k >= 0 {
            born_marked(st.0, w, k)
        } else {
            st.0
        };
        born_side((bb2, m1, true), w, h, side, n, j + 1, (fuel - 1) as nat)
    }
}

/// The birth line on the sides from `side` on: each draws its start from
/// `[(w * 0.3) as i32, (w * 0.6) as i32]` in `f32`.
pub open spec fn born_lines(st: Gen, w: int, h: int, side: nat) -> Gen
    decreases 4 - side,
{
    if side >= 4 || !st.2 {
        st
    } else {
        let lo = w_times_f32_spec(w as nat, 24) as i32;
        let hi = w_times_f32_spec(w as nat, 23) as i32;
        let (n, m1) = next_range_model(st.1, lo, hi);
        born_lines(born_side((st.0, m1, true), w, h, side as int, n as int, 0, 16), w, h, side + 1)
    }
}

/// `stage_fertile`, but for the mine walks it records (see `fertile_run`).
pub open spec fn fertile_model(st: Gen, w: int, h: int) -> Gen {
    if !st.2 {
        st
    } else {
        fertile_run(st.0, st.1, w, h)
    }
}

/// Soil everywhere, fertile soil at a point drawn from the lower middle,
/// spread twice.
#[verifier::opaque]
pub open spec fn fertile_run(bb: Seq<u32>, m: RngModel, w: int, h: int) -> Gen {
    let st: Gen = (bb, m, true);
    let m1 = mine_walks(st.1, w, h).1;
    let bb1 = filled(st.0, w, layer_of(Terrain::Soil));
    let (kx, m2) = next_range_model(m1, (w / 10 * 4) as i32, (w / 10 * 7) as i32);
    let (ky, m3) = next_range_model(m2, (h / 10 * 6) as i32, (h / 10 * 7) as i32);
    let bb2 = if key_of(w, h, kx as int, ky as int) >= 0 {
        paint(bb1, 6, cell_word(w, kx as int, ky as int), 1u32 << ((kx % 32) as u32))
    } else {
        bb1
    };
    let s1 = spread((bb2, m3, true), w, h, Terrain::FertileSoil, Terrain::FertileSoil, 2, 100, CType::AllTrue);
    spread(s1, w, h, Terrain::FertileSoil, Terrain::FertileSoil, 5, 20, CType::AllTrue)
}

/// `stage_water` (see `water_run`).
pub open spec fn water_model(st: Gen, w: int, h: int) -> Gen {
    if !st.2 {
        st
    } else {
        water_run(st.0, st.1, w, h)
    }
}

/// The birth space, the birth area spread, soil under it, the birth line,
/// fertile soil and deep water seeded and expanded, and the water spread.
#[verifier::opaque]
pub open spec fn water_run(bb: Seq<u32>, m: RngModel, w: int, h: int) -> Gen {
    let st: Gen = (bb, m, true);
    let sc = scale(w);
    let words = row_words(w) * h;
    let bb1 = born_space_copied(st.0, words);
    let s1 = spread((bb1, st.1, true), w, h, Terrain::FertileSoil, Terrain::FertileSoil, 2, 100, CType::AllTrue);
    let bb2 = born_line_cleared(soil_under(s1.0, 0, words as nat));
    let s2 = born_lines((bb2, s1.1, true), w, h, 0);
    let s3 = expand(s2, w, h, Terrain::FertileSoil, 20, 4, 30, 5, 3, CType::AllTrue, CType::AllTrue);
    let s4 = expand(
        s3,
        w,
        h,
        Terrain::DDepthWater,
        sc - 1,
        2 * sc - 1,
        13 + 6 * sc,
        5,
        3,
        CType::NoBorn,
        CType::NoBorn,
    );
    let s5 = spread(s4, w, h, Terrain::DDepthWater, Terrain::DepthWater, 1, 100, CType::CheckCon);
    let s6 = spread(s5, w, h, Terrain::DepthWater, Terrain::DepthWater, 1, 10 + 6 * sc, CType::NoBorn);
    spread(s6, w, h, Terrain::DepthWater, Terrain::ShallowWater, 4, 50 + 12 * sc, CType::CheckCon)
}

/// The iron veins, from count `i` on: while the count is below a fresh
/// draw from `[sc, sc + 2]`, a vein of width drawn from `[0, sc]` and
/// length drawn from `[5 + sc, 10 + sc]`.  `fuel` bounds the count.
pub open spec fn iron_veins(st: Gen, w: int, h: int, dirs: Seq<i32>, sc: int, i: int, fuel: nat) -> Gen
    decreases fuel,
{
    let (r, m1) = next_range_model(st.1, sc as i32, (sc + 2) as i32);
    if !st.2 {
        st
    } else if fuel == 0 || i >= r {
        (st.0, m1, true)
    } else {
        let (wr, m2) = next_range_model(m1, 0, sc as i32);
        let (len, m3) = next_range_model(m2, (5 + sc) as i32, (10 + sc) as i32);
        iron_veins(
            lay_line((st.0, m3, true), w, h, dirs, wr as int, len as int, Terrain::IronOre, CType::NoBorn),
            w,
            h,
            dirs,
            sc,
            i + 1,
            (fuel - 1) as nat,
        )
    }
}

/// `n` veins of ore `t`: each of width drawn from `[0, 1]` and length drawn
/// from `[3 + sc, 5 + sc]`.
pub open spec fn ore_veins(st: Gen, w: int, h: int, dirs: Seq<i32>, sc: int, t: Terrain, n: nat) -> Gen
    decreases n,
{
    if n == 0 || !st.2 {
        st
    } else {
        let (wr, m1) = next_range_model(st.1, 0, 1);
        let (len, m2) = next_range_model(m1, (3 + sc) as i32, (5 + sc) as i32);
        ore_veins(
            lay_line((st.0, m2, true), w, h, dirs, wr as int, len as int, t, CType::NoBorn),
            w,
            h,
            dirs,
            sc,
            t,
            (n - 1) as nat,
        )
    }
}

/// `n` veins (see `ore_veins`) of each ore of `ts` from the `i`-th on.
pub open spec fn ore_veins_each(st: Gen, w: int, h: int, dirs: Seq<i32>, sc: int, ts: Seq<Terrain>, n: nat, i: nat) -> Gen
    decreases ts.len() - i,
{
    if i >= ts.len() || !st.2 {
        st
    } else {
        ore_veins_each(ore_veins(st, w, h, dirs, sc, ts[i as int], n), w, h, dirs, sc, ts, n, i + 1)
    }
}

/// The two ores whose veins follow the iron veins.
pub open spec fn vein_ores() -> Seq<Terrain> {
    seq![Terrain::CopperOre, Terrain::SilverOre]
}

/// The rock veins, from count `i` on: while the count is below a fresh
/// draw from `[1, 3]`, a vein of width drawn from `[0, 1]`, length drawn
/// from `[8, 16]`, of gray rock when a draw from `[1, 3]` is 1 and of
/// marble otherwise.  `fuel` bounds the count.
pub open spec fn rock_veins(st: Gen, w: int, h: int, dirs: Seq<i32>, i: int, fuel: nat) -> Gen
    decreases fuel,
{
    let (r, m1) = next_range_model(st.1, 1, 3);
    if !st.2 {
        st
    } else if fuel == 0 || i >= r {
        (st.0, m1, true)
    } else {
        let (wr, m2) = next_range_model(m1, 0, 1);
        let (len, m3) = next_range_model(m2, 8, 16);
        let (pick, m4) = next_range_model(m3, 1, 3);
        let t = if pick == 1 {
            Terrain::RockGray
        } else {
            Terrain::RockMarble
        };
        rock_veins(
            lay_line((st.0, m4, true), w, h, dirs, wr as int, len as int, t, CType::NoBorn),
            w,
            h,
            dirs,
            i + 1,
            (fuel - 1) as nat,
        )
    }
}

/// The rock fields, from count `k` on: while the count is below a fresh
/// draw from `[1, 3]`, gray rock (count 1) or marble, seeded `[0, 3]`
/// times and expanded.  `fuel` bounds the count.
pub open spec fn rock_fields(st: Gen, w: int, h: int, sc: int, k: int, fuel: nat) -> Gen
    decreases fuel,
{
    let (r, m1) = next_range_model(st.1, 1, 3);
    if !st.2 {
        st
    } else if fuel == 0 || k >= r {
        (st.0, m1, true)
    } else {
        let (rc, m2) = next_range_model(m1, 0, 3);
        let t = if k == 1 {
            Terrain::RockGray
        } else {
            Terrain::RockMarble
        };
        rock_fields(
            expand((st.0, m2, true), w, h, t, rc as int, 3, 15 + 3 * sc, 0, 3, CType::NoBorn, CType::NoBorn),
            w,
            h,
            sc,
            k + 1,
            (fuel - 1) as nat,
        )
    }
}

/// The ore fields of `ts` from the `i`-th on: seeds drawn from `[0, sc + 1]`,
/// rounds from `[1, sc + 1]` and a level factor from `[1, 4]`.
pub open spec fn ore_fields(st: Gen, w: int, h: int, sc: int, ts: Seq<Terrain>, i: nat) -> Gen
    decreases ts.len() - i,
{
    if i >= ts.len() || !st.2 {
        st
    } else {
        let (a, m1) = next_range_model(st.1, 0, (sc + 1) as i32);
        let (b, m2) = next_range_model(m1, 1, (sc + 1) as i32);
        let (c, m3) = next_range_model(m2, 1, 4);
        ore_fields(
            expand(
                (st.0, m3, true),
                w,
                h,
                ts[i as int],
                a as int,
                b as int,
                13 + sc * c,
                0,
                3,
                CType::NoBorn,
                CType::NoBorn,
            ),
            w,
            h,
            sc,
            ts,
            i + 1,
        )
    }
}

/// The three ores, in the order the rock stage takes them.
pub open spec fn ores() -> Seq<Terrain> {
    seq![Terrain::IronOre, Terrain::CopperOre, Terrain::SilverOre]
}

/// The three rocks, in the order the rock stage spreads them.
pub open spec fn rocks() -> Seq<Terrain> {
    seq![Terrain::RockBrown, Terrain::RockGray, Terrain::RockMarble]
}

/// What stone land grows around, in order.
pub open spec fn stone_sources() -> Seq<Terrain> {
    seq![Terrain::RockBrown, Terrain::IronOre, Terrain::SilverOre, Terrain::CopperOre, Terrain::RockBrown]
}

/// `stage_rock` up to its expansions: shallow water seeded and expanded,
/// mud, the veins along the walk `dirs` and the rock and ore fields.
pub open spec fn rock_fields_model(st: Gen, w: int, h: int, dirs: Seq<i32>) -> Gen {
    let sc = scale(w);
    let s1 = expand(st, w, h, Terrain::ShallowWater, 3, 3, 20, 5, 3, CType::NoBorn, CType::NoBorn);
    let s2 = spread(s1, w, h, Terrain::ShallowWater, Terrain::Mud, 4, 90, CType::CheckCon);
    let s3 = iron_veins(s2, w, h, dirs, sc, 0, (sc + 3) as nat);
    let s5 = ore_veins_each(s3, w, h, dirs, sc, vein_ores(), (1 + sc) as nat, 0);
    let s6 = rock_veins(s5, w, h, dirs, 0, 4);
    let s7 = rock_fields(s6, w, h, sc, 1, 3);
    ore_fields(s7, w, h, sc, ores(), 0)
}

/// `stage_rock` (see `rock_run`).
pub open spec fn rock_model(st: Gen, w: int, h: int, dirs: Seq<i32>) -> Gen {
    if !st.2 {
        st
    } else {
        rock_run(st.0, st.1, w, h, dirs)
    }
}

/// `rock_fields_model`, then `rock_spread_model`.
#[verifier::opaque]
pub open spec fn rock_run(bb: Seq<u32>, m: RngModel, w: int, h: int, dirs: Seq<i32>) -> Gen {
    rock_spread_model(rock_fields_model((bb, m, true), w, h, dirs), w, h)
}

/// The end of `stage_rock`: brown rock seeded `[2, sc + 1]` times and
/// expanded, and brown rock spread around the other rocks and the ores.
pub open spec fn rock_spread_model(s1: Gen, w: int, h: int) -> Gen {
    if !s1.2 {
        s1
    } else {
        rock_spread_run(s1.0, s1.1, w, h)
    }
}

/// `rock_spread_model` from a state that went through.
pub open spec fn rock_spread_run(bb: Seq<u32>, m: RngModel, w: int, h: int) -> Gen {
    let sc = scale(w);
    let (rb, m1) = next_range_model(m, 2, (sc + 1) as i32);
    let s2 = expand(
        (bb, m1, true),
        w,
        h,
        Terrain::RockBrown,
        rb as int,
        sc + 1,
        13 + sc * 4,
        0,
        3,
        CType::NoBorn,
        CType::NoBorn,
    );
    let s3 = spread(s2, w, h, Terrain::RockGray, Terrain::RockBrown, 1, 50 + 12 * sc, CType::NoBorn);
    let s4 = spread(s3, w, h, Terrain::RockMarble, Terrain::RockBrown, 1, 50 + 12 * sc, CType::NoBorn);
    let s5 = spread_each(s4, w, h, ores(), Terrain::RockBrown, 1, 50 + 12 * sc, CType::NoBorn, 0);
    let s6 = spread_drawn(s5, w, h, ores(), Terrain::RockBrown, 1, 2, 8 + 8 * sc, CType::NoBorn, 0);
    spread_drawn(s6, w, h, rocks(), Terrain::RockBrown, 1, sc, 8 + 8 * sc, CType::NoBorn, 0)
}

/// `stage_stone` (see `stone_run`).
pub open spec fn stone_model(st: Gen, w: int, h: int) -> Gen {
    if !st.2 {
        st
    } else {
        stone_run(st.0, st.1, w, h)
    }
}

/// Stone land around rock and ores, spread once more.
#[verifier::opaque]
pub open spec fn stone_run(bb: Seq<u32>, m: RngModel, w: int, h: int) -> Gen {
    let s1 = spread_each((bb, m, true), w, h, stone_sources(), Terrain::StoneLand, 1, 30, CType::CheckCon2, 0);
    spread(s1, w, h, Terrain::StoneLand, Terrain::StoneLand, 1, 5, CType::CheckCon)
}

/// `stage_ling` (see `ling_run`).
pub open spec fn ling_model(st: Gen, w: int, h: int) -> Gen {
    if !st.2 {
        st
    } else {
        ling_run(st.0, st.1, w, h)
    }
}

/// Spirit soil seeded and expanded.
#[verifier::opaque]
pub open spec fn ling_run(bb: Seq<u32>, m: RngModel, w: int, h: int) -> Gen {
    let sc = scale(w);
    expand((bb, m, true), w, h, Terrain::LingSoil, sc, 6, 33, 5, 3, CType::CheckCon, CType::CheckCon)
}

/// `make_map` on layers `bb` and generator `m` of a `w` by `h` map whose
/// walk holds `dirs`: the stages with their smoothing steps between them.
pub open spec fn make_map_model(bb: Seq<u32>, m: RngModel, w: int, h: int, dirs: Seq<i32>) -> Gen {
    let walk = dirs + mine_walks(m, w, h).0;
    let s1 = smooth(fertile_model((bb, m, true), w, h), w, h, Terrain::FertileSoil, 2, 4, CType::AllTrue);
    let s2 = smooth(water_model(s1, w, h), w, h, Terrain::ShallowWater, 2, 6, CType::CheckCon);
    let s3 = smooth(rock_model(s2, w, h, walk), w, h, Terrain::RockBrown, 2, 9, CType::NoBorn);
    let s4 = smooth(stone_model(s3, w, h), w, h, Terrain::StoneLand, 2, 9, CType::CheckCon);
    ling_model(s4, w, h)
}

/// Every layer empty.
pub open spec fn empty_layers() -> Seq<u32> {
    Seq::new(23040, |j: int| 0u32)
}

/// What `make_map` leaves for `seed` on a `w` by `h` map from a generator
/// just reset (empty layers, no walk): the layers, the generator and
/// whether the map was made.
pub open spec fn seed_run(seed: i32, w: int, h: int) -> Gen {
    make_map_model(empty_layers(), seeded(seed), w, h, Seq::empty())
}

/// The layers of the map that `make_map` generates for `seed` (see
/// `seed_run`).
pub open spec fn seed_map(seed: i32, w: int, h: int) -> Seq<u32> {
    seed_run(seed, w, h).0
}

/// A map is fixed by its seed and its size: generation from empty layers,
/// no walk and a generator seeded with `seed` (what `MapMaker::new` and
/// `MapMaker::reset` leave) gives `seed_map(seed, w, h)`, whatever the
/// generator held before.
pub proof fn law_seed_fixes_map(bb: Seq<u32>, dirs: Seq<i32>, seed: i32, w: int, h: int)
    requires
        bb == empty_layers(),
        dirs.len() == 0,
    ensures
        make_map_model(bb, seeded(seed), w, h, dirs) == seed_run(seed, w, h),
{
    assert(dirs =~= Seq::<i32>::empty());
}

} // verus!
