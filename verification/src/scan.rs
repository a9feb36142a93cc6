//! Seed scanning: generate the map of each seed, count its spirit-soil
//! cells, keep the seeds at or above a threshold and rank them by count.
use vstd::prelude::*;
use crate::map_maker::{cell_in, cell_terrain, cell_terrain_from, priority, MapMaker};
use crate::rng::normal;
use crate::stages::{empty_layers, seed_map, seed_run};
use crate::terrain::Terrain;

verus! {

broadcast use {vstd::seq_lib::group_to_multiset_ensures, vstd::multiset::group_multiset_axioms};

/// How a scan is computed.
#[derive(Clone, Copy, Debug, PartialEq, Eq, Default, Structural)]
pub enum ComputeMode {
    CpuRayon,
    AmdGpuArchitecture,
    #[default]
    HeterogeneousPipeline,
}

/// Number of cells of `g` with terrain `t`.
pub open spec fn count_of(g: Seq<Terrain>, t: Terrain) -> nat
    decreases g.len(),
{
    if g.len() == 0 {
        0
    } else {
        count_of(g.drop_last(), t) + if g.last() == t {
            1nat
        } else {
            0nat
        }
    }
}

/// Number of spirit-soil cells of a grid.
pub fn count_lingsoil(grid: &Vec<Terrain>) -> (c: usize)
    ensures
        c == count_of(grid@, Terrain::LingSoil),
{
    let mut c: usize = 0;
    let mut i: usize = 0;
    while i < grid.len()
        invariant
            i <= grid.len(),
            c == count_of(grid@.take(i as int), Terrain::LingSoil),
            c <= i,
        decreases grid.len() - i,
    {
        assert(grid@.take(i as int + 1).drop_last() =~= grid@.take(i as int));
        if grid[i] == Terrain::LingSoil {
            c = c + 1;
        }
        i = i + 1;
    }
    assert(grid@.take(grid.len() as int) =~= grid@);
    c
}

/// The outcome of scanning one seed: `None` where the game's generator
/// would have failed (see `MapMaker::make_map`), otherwise the seed with
/// its spirit-soil count when that count reaches the threshold.
pub type SeedOutcome = Option<Option<(i32, usize)>>;

/// Generates the map of `seed` with the generator `m` (reset first) and
/// counts its spirit-soil cells; keeps `(seed, count)` when the count is at
/// least `th`.
pub fn scan_seed(m: &mut MapMaker, seed: i32, th: usize) -> (r: SeedOutcome)
    requires
        old(m).wf(),
    ensures
        final(m).wf(),
        final(m).w == old(m).w,
        final(m).h == old(m).h,
        normal(crate::rng::seeded(seed)) ==> r is Some,
        final(m).bb@ == seed_map(seed, old(m).w as int, old(m).h as int),
        r is Some <==> seed_run(seed, old(m).w as int, old(m).h as int).2,
        r matches Some(kept) ==> {
            let c = count_of(final(m).grid@, Terrain::LingSoil);
            &&& kept is Some <==> c >= th
            &&& kept matches Some(p) ==> p == (seed, c as usize)
            &&& forall|x: int, y: int|
                0 <= x < final(m).w && 0 <= y < final(m).h ==> #[trigger] final(m).grid@[y
                    * final(m).w + x] == cell_terrain(final(m).bb@, final(m).w as int, x, y)
        },
{
    m.reset(seed);
    assert(m.bb@ == empty_layers());
    assert(m.dirs@ == Seq::<i32>::empty());
    if !m.make_map() {
        return None;
    }
    let c = count_lingsoil(&m.grid);
    if c >= th {
        Some(Some((seed, c)))
    } else {
        Some(None)
    }
}

/// Counts ordered from highest to lowest.
pub open spec fn sorted_by_count_desc(s: Seq<(i32, usize)>) -> bool {
    forall|i: int, j: int| 0 <= i < j < s.len() ==> s[i].1 >= s[j].1
}

fn merge_desc(a: Vec<(i32, usize)>, b: Vec<(i32, usize)>) -> (r: Vec<(i32, usize)>)
    requires
        sorted_by_count_desc(a@),
        sorted_by_count_desc(b@),
    ensures
        sorted_by_count_desc(r@),
        r@.to_multiset() == a@.to_multiset().add(b@.to_multiset()),
        r.len() == a.len() + b.len(),
{
    let mut r: Vec<(i32, usize)> = Vec::new();
    let mut i: usize = 0;
    let mut j: usize = 0;
    while i < a.len() || j < b.len()
        invariant
            i <= a.len(),
            j <= b.len(),
            sorted_by_count_desc(a@),
            sorted_by_count_desc(b@),
            sorted_by_count_desc(r@),
            r.len() == i + j,
            r@.to_multiset() == a@.subrange(0, i as int).to_multiset().add(
                b@.subrange(0, j as int).to_multiset(),
            ),
            forall|k: int|
                0 <= k < r.len() ==> (i < a.len() ==> #[trigger] r@[k].1 >= a@[i as int].1) && (j
                    < b.len() ==> r@[k].1 >= b@[j as int].1),
        decreases a.len() + b.len() - i - j,
    {
        let take_a = j == b.len() || (i < a.len() && a[i].1 >= b[j].1);
        if take_a {
            let x = a[i];
            assert(a@.subrange(0, i as int + 1) =~= a@.subrange(0, i as int).push(x));
            r.push(x);
            i = i + 1;
        } else {
            let x = b[j];
            assert(b@.subrange(0, j as int + 1) =~= b@.subrange(0, j as int).push(x));
            r.push(x);
            j = j + 1;
        }
    }
    assert(a@.subrange(0, a.len() as int) =~= a@);
    assert(b@.subrange(0, b.len() as int) =~= b@);
    r
}

fn sort_range_desc(v: &Vec<(i32, usize)>, lo: usize, hi: usize) -> (r: Vec<(i32, usize)>)
    requires
        lo <= hi <= v.len(),
    ensures
        sorted_by_count_desc(r@),
        r@.to_multiset() == v@.subrange(lo as int, hi as int).to_multiset(),
        r.len() == hi - lo,
    decreases hi - lo,
{
    if hi - lo <= 1 {
        let mut r: Vec<(i32, usize)> = Vec::new();
        if hi - lo == 1 {
            r.push(v[lo]);
        }
        assert(r@ =~= v@.subrange(lo as int, hi as int));
        r
    } else {
        let mid = lo + (hi - lo) / 2;
        let left = sort_range_desc(v, lo, mid);
        let right = sort_range_desc(v, mid, hi);
        proof {
            vstd::seq_lib::lemma_multiset_commutative(
                v@.subrange(lo as int, mid as int),
                v@.subrange(mid as int, hi as int),
            );
            assert(v@.subrange(lo as int, mid as int) + v@.subrange(mid as int, hi as int)
                =~= v@.subrange(lo as int, hi as int));
        }
        merge_desc(left, right)
    }
}

/// The same entries ranked by count, highest first (entries with equal
/// counts in no promised order).
pub fn rank_by_count(v: &Vec<(i32, usize)>) -> (r: Vec<(i32, usize)>)
    ensures
        sorted_by_count_desc(r@),
        r@.to_multiset() == v@.to_multiset(),
        r.len() == v.len(),
{
    let r = sort_range_desc(v, 0, v.len());
    assert(v@.subrange(0, v.len() as int) =~= v@);
    r
}

/// Past the first place of the priority order no cell shows spirit soil.
proof fn lemma_later_not_spirit_soil(bb: Seq<u32>, w: int, x: int, y: int, i: nat)
    requires
        i >= 1,
    ensures
        cell_terrain_from(bb, w, x, y, i) != Terrain::LingSoil,
    decreases 14 - i,
{
    if i < 14 && !cell_in(bb, w, priority(i as int).spec_index() as int, x, y) {
        lemma_later_not_spirit_soil(bb, w, x, y, i + 1);
    }
}

/// A cell of the grid is spirit soil exactly when its bit in the
/// spirit-soil layer is set: counting the grid's spirit soil (the CPU scan)
/// and counting the layer's bits (the GPU kernels) count the same cells.
pub proof fn law_spirit_soil_is_its_layer(bb: Seq<u32>, w: int, x: int, y: int)
    ensures
        (cell_terrain(bb, w, x, y) == Terrain::LingSoil) == cell_in(bb, w, 7, x, y),
{
    if !cell_in(bb, w, 7, x, y) {
        lemma_later_not_spirit_soil(bb, w, x, y, 1);
    }
}

} // verus!
