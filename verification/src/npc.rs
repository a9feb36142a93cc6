//! The elders of the thirteen sects: names, talismans and inventories,
//! derived from the world seed and the game's item tables.
use vstd::prelude::*;
use crate::rng::{
    advance_model, next_range_strict_model, sample_at_most_two_fifths_exec, sample_step, seeded,
    wrap_i32, wrap_i32_exec, DotNetRandom, RngModel,
};
use crate::text::{decimal, push_decimal, push_signed_decimal, push_str, signed_decimal};

verus! {

broadcast use vstd::string::group_string_axioms;

/// The item and name tables read from the game's settings.
pub struct GameData {
    pub clothes: Vec<String>,
    pub pants: Vec<String>,
    pub weapons: Vec<String>,
    pub stuffs: Vec<String>,
    pub spells: Vec<String>,
    pub tools: Vec<String>,
    pub names_prefix: Vec<String>,
    pub names_m_suffix: Vec<String>,
    pub names_f_suffix: Vec<String>,
    pub loaded: bool,
}

impl GameData {
    /// Every table is empty.
    pub open spec fn tables_empty(&self) -> bool {
        &&& self.clothes.len() == 0
        &&& self.pants.len() == 0
        &&& self.weapons.len() == 0
        &&& self.stuffs.len() == 0
        &&& self.spells.len() == 0
        &&& self.tools.len() == 0
        &&& self.names_prefix.len() == 0
        &&& self.names_m_suffix.len() == 0
        &&& self.names_f_suffix.len() == 0
    }

    /// Tables with nothing in them.
    pub fn new() -> (d: Self)
        ensures
            d.clothes.len() == 0,
            d.pants.len() == 0,
            d.weapons.len() == 0,
            d.stuffs.len() == 0,
            d.spells.len() == 0,
            d.tools.len() == 0,
            d.names_prefix.len() == 0,
            d.names_m_suffix.len() == 0,
            d.names_f_suffix.len() == 0,
            !d.loaded,
    {
        GameData {
            clothes: Vec::new(),
            pants: Vec::new(),
            weapons: Vec::new(),
            stuffs: Vec::new(),
            spells: Vec::new(),
            tools: Vec::new(),
            names_prefix: Vec::new(),
            names_m_suffix: Vec::new(),
            names_f_suffix: Vec::new(),
            loaded: false,
        }
    }
}

impl Default for GameData {
    fn default() -> (d: Self)
        ensures
            d.clothes.len() == 0,
            d.pants.len() == 0,
            d.weapons.len() == 0,
            d.stuffs.len() == 0,
            d.spells.len() == 0,
            d.tools.len() == 0,
            d.names_prefix.len() == 0,
            d.names_m_suffix.len() == 0,
            d.names_f_suffix.len() == 0,
            !d.loaded,
    {
        Self::new()
    }
}

/// The elders of one sect.
pub struct SectData {
    pub sect_name: String,
    pub elders: Vec<ElderData>,
}

/// One elder: name, realm, three talismans and five inventory items.
pub struct ElderData {
    pub name: String,
    pub level_name: String,
    pub talismans: Vec<String>,
    pub inventory: Vec<String>,
}

/// What the floating-point part of an elder's generation left behind: the
/// age is drawn from a normal distribution (Box-Muller with logarithms and
/// square roots), which consumes `samples` draws of the elder's generator,
/// and whether the age came out above 30.
#[derive(Clone, Copy, Debug, PartialEq, Eq, Structural)]
pub struct AgeDraw {
    pub samples: u32,
    pub over_30: bool,
}

/// Number of sects.
pub const SECTS: usize = 13;

/// Elders per realm in a sect.
pub const ELDERS_PER_LEVEL: usize = 15;

/// Elders per sect (two realms).
pub const ELDERS_PER_SECT: usize = 30;

/// Elders in all.
pub const ELDERS: usize = 390;

/// The views of a list of strings.
pub open spec fn strs(v: Seq<String>) -> Seq<Seq<char>> {
    v.map_values(|s: String| s@)
}

/// Whether every table is short enough to be counted in an `i32` with room
/// for one more.
pub open spec fn tables_fit(d: &GameData) -> bool {
    &&& d.spells.len() <= 0x7fff_fffd
    &&& d.tools.len() <= 0x7fff_fffd
    &&& d.names_prefix.len() <= 0x7fff_fffd
    &&& d.names_m_suffix.len() <= 0x7fff_fffd
    &&& d.names_f_suffix.len() <= 0x7fff_fffd
}

/// Whether every table is short enough for the draws (see `tables_fit`).
pub fn tables_fit_exec(d: &GameData) -> (b: bool)
    ensures
        b == tables_fit(d),
{
    d.spells.len() <= 0x7fff_fffd && d.tools.len() <= 0x7fff_fffd && d.names_prefix.len() <= 0x7fff_fffd
        && d.names_m_suffix.len() <= 0x7fff_fffd && d.names_f_suffix.len() <= 0x7fff_fffd
}

/// Entry `index` of `pool`, or a placeholder naming the index.
pub open spec fn safe_item(pool: Seq<Seq<char>>, index: nat) -> Seq<char> {
    if index < pool.len() {
        pool[index as int]
    } else {
        "未知物品_#"@ + decimal(index)
    }
}

/// Entry `index` of `pool`, or "未知物品_#" followed by the index when there
/// is no such entry.
pub fn get_safe_item(pool: &[String], index: usize) -> (r: String)
    ensures
        r@ == safe_item(strs(pool@), index as nat),
{
    if index < pool.len() {
        pool[index].clone()
    } else {
        let mut s = String::new();
        push_str(&mut s, "未知物品_#");
        push_decimal(&mut s, index as u64);
        s
    }
}

/// Name of the `i`-th sect.
pub open spec fn sect_name(i: int) -> Seq<char> {
    if i == 0 {
        "丹霞洞天"@
    } else if i == 1 {
        "昆仑宫"@
    } else if i == 2 {
        "极天宫"@
    } else if i == 3 {
        "紫霄宗"@
    } else if i == 4 {
        "玄一道"@
    } else if i == 5 {
        "青莲剑宗"@
    } else if i == 6 {
        "栖霞洞天"@
    } else if i == 7 {
        "百蛮山"@
    } else if i == 8 {
        "七仟坞"@
    } else if i == 9 {
        "七杀魔宫"@
    } else if i == 10 {
        "合欢派"@
    } else if i == 11 {
        "万妖殿"@
    } else {
        "武当派"@
    }
}

fn sect_name_exec(i: usize) -> (r: &'static str)
    ensures
        r@ == sect_name(i as int),
{
    if i == 0 {
        "丹霞洞天"
    } else if i == 1 {
        "昆仑宫"
    } else if i == 2 {
        "极天宫"
    } else if i == 3 {
        "紫霄宗"
    } else if i == 4 {
        "玄一道"
    } else if i == 5 {
        "青莲剑宗"
    } else if i == 6 {
        "栖霞洞天"
    } else if i == 7 {
        "百蛮山"
    } else if i == 8 {
        "七仟坞"
    } else if i == 9 {
        "七杀魔宫"
    } else if i == 10 {
        "合欢派"
    } else if i == 11 {
        "万妖殿"
    } else {
        "武当派"
    }
}

/// The realm (4 or 5) of the `j`-th elder of a sect.
pub open spec fn elder_level(j: int) -> int {
    if j < 15 {
        4
    } else {
        5
    }
}

/// The generator seed of the `j`-th elder of the `i`-th sect: the world
/// seed plus `sect_id * 1000 + realm * 100 + index`, wrapping.
pub open spec fn elder_seed(world_seed: i32, i: int, j: int) -> i32 {
    wrap_i32(world_seed + (i + 1) * 1000 + elder_level(j) * 100 + j % 15)
}

/// The realm's title.
pub open spec fn level_title(rlevel: int) -> Seq<char> {
    if rlevel == 4 {
        "元神期 (God1)"@
    } else {
        "在世真仙 (God2)"@
    }
}

/// The name of an elder with generator seed `base` in realm `rlevel`,
/// whose age took `age.samples` draws: after the age, the sex (1 or 2) and
/// the hair are drawn and one draw is skipped; then, where the tables are
/// not empty, a prefix and (from the male or female table) a suffix.
/// Without either the name is a placeholder naming the realm and the seed.
pub open spec fn elder_name(d: &GameData, base: i32, rlevel: int, age: AgeDraw) -> Seq<char> {
    let m0 = advance_model(seeded(base), age.samples as nat);
    let (sex, m1) = next_range_strict_model(m0, 1, 3);
    let (_hair, m2) = next_range_strict_model(m1, 1, if sex != 1 { 6 } else { 11 });
    let m3 = sample_step(m2, true).1;
    let np = strs(d.names_prefix@);
    let (prefix, m4) = if np.len() > 0 {
        let (pi, mm) = next_range_strict_model(m3, 1, (np.len() + 1) as i32);
        (np[pi - 1], mm)
    } else {
        (Seq::<char>::empty(), m3)
    };
    let suf = if sex == 1 {
        strs(d.names_m_suffix@)
    } else {
        strs(d.names_f_suffix@)
    };
    let suffix = if suf.len() > 0 {
        let (si, _m5) = next_range_strict_model(m4, 1, (suf.len() + 1) as i32);
        suf[si - 1]
    } else {
        Seq::<char>::empty()
    };
    if prefix.len() > 0 || suffix.len() > 0 {
        prefix + suffix
    } else {
        "未解析大能 ["@ + (if rlevel == 4 {
            "元神长老"@
        } else {
            "在世真仙"@
        }) + " #"@ + signed_decimal(base as int) + "]"@
    }
}

/// The `k`-th talisman draw (0 to 2) of an elder: after three discarded
/// samples, each draw picks an index in `[0, max(1, spells))`.
pub open spec fn talisman_draw(base: i32, spells: nat, k: nat) -> (i32, RngModel)
    decreases k,
{
    let bound = (if spells > 1 { spells } else { 1 }) as i32;
    if k == 0 {
        next_range_strict_model(advance_model(seeded(base), 3), 0, bound)
    } else {
        next_range_strict_model(talisman_draw(base, spells, (k - 1) as nat).1, 0, bound)
    }
}

/// The talismans of an elder.
pub open spec fn elder_talismans(d: &GameData, base: i32) -> Seq<Seq<char>> {
    let sp = strs(d.spells@);
    Seq::new(3, |k: int| safe_item(sp, talisman_draw(base, sp.len(), k as nat).0 as nat))
}

/// The generator seed of the `i`-th inventory slot: the elder's seed plus
/// `8888 + i`, wrapping.
pub open spec fn inventory_seed(base: i32, i: int) -> i32 {
    wrap_i32(base + 8888 + i)
}

/// The inventory of an elder: slot `i` draws an index in
/// `[0, max(1, tools))` from a generator of its own.
pub open spec fn elder_inventory(d: &GameData, base: i32) -> Seq<Seq<char>> {
    let tl = strs(d.tools@);
    let bound = (if tl.len() > 1 { tl.len() } else { 1 }) as i32;
    Seq::new(
        5,
        |i: int| safe_item(tl, next_range_strict_model(seeded(inventory_seed(base, i)), 0, bound).0 as nat),
    )
}

/// The elder's data as the contract speaks of it.
pub open spec fn elder_matches(
    e: &ElderData,
    d: &GameData,
    world_seed: i32,
    i: int,
    j: int,
    age: AgeDraw,
) -> bool {
    let base = elder_seed(world_seed, i, j);
    &&& e.name@ == elder_name(d, base, elder_level(j), age)
    &&& e.level_name@ == level_title(elder_level(j))
    &&& strs(e.talismans@) == elder_talismans(d, base)
    &&& strs(e.inventory@) == elder_inventory(d, base)
}

/// The generator seeds of all elders, sect by sect, realm 4 then realm 5,
/// index 0 to 14: entry `i * 30 + j` is `elder_seed(world_seed, i, j)`.
pub fn elder_seeds(world_seed: i32) -> (r: Vec<i32>)
    ensures
        r.len() == ELDERS,
        forall|i: int, j: int|
            0 <= i < 13 && 0 <= j < 30 ==> #[trigger] r@[i * 30 + j] == elder_seed(world_seed, i, j),
{
    let mut r: Vec<i32> = Vec::new();
    let mut i: usize = 0;
    while i < SECTS
        invariant
            i <= SECTS,
            r.len() == i * 30,
            forall|a: int, b: int|
                0 <= a < i && 0 <= b < 30 ==> #[trigger] r@[a * 30 + b] == elder_seed(world_seed, a, b),
        decreases SECTS - i,
    {
        let mut j: usize = 0;
        while j < ELDERS_PER_SECT
            invariant
                i < SECTS,
                j <= ELDERS_PER_SECT,
                r.len() == i * 30 + j,
                forall|a: int, b: int|
                    0 <= a < 13 && 0 <= b < 30 && (a < i || (a == i && b < j)) ==> #[trigger] r@[a
                        * 30 + b] == elder_seed(world_seed, a, b),
            decreases ELDERS_PER_SECT - j,
        {
            let rlevel: i64 = if j < 15 {
                4
            } else {
                5
            };
            let loc: i64 = (i as i64 + 1) * 1000 + rlevel * 100 + (j % 15) as i64;
            r.push(wrap_i32_exec(world_seed as i64 + loc));
            proof {
                assert forall|a: int, b: int|
                    0 <= a < 13 && 0 <= b < 30 && (a < i || (a == i && b < j + 1)) implies #[trigger] r@[a
                        * 30 + b] == elder_seed(world_seed, a, b) by {
                    lemma_pair_index(a, b, i as int, j as int);
                }
            }
            j = j + 1;
        }
        i = i + 1;
    }
    r
}

proof fn lemma_pair_index(a: int, b: int, i: int, j: int)
    requires
        0 <= b < 30,
        0 <= j < 30,
    ensures
        a * 30 + b == i * 30 + j <==> (a == i && b == j),
        (a < i || (a == i && b < j)) ==> a * 30 + b < i * 30 + j,
{
    if a * 30 + b == i * 30 + j {
        assert(a == i && b == j) by (nonlinear_arith)
            requires
                a * 30 + b == i * 30 + j,
                0 <= b < 30,
                0 <= j < 30,
        ;
    }
    if a < i {
        assert(a * 30 + b < i * 30 + j) by (nonlinear_arith)
            requires
                a < i,
                0 <= b < 30,
                0 <= j,
        ;
    }
}

/// The name of an elder (see `elder_name`).
fn draw_elder_name(d: &GameData, base: i32, rlevel: i64, age: AgeDraw) -> (r: String)
    requires
        tables_fit(d),
        rlevel == 4 || rlevel == 5,
    ensures
        r@ == elder_name(d, base, rlevel as int, age),
{
    let mut prng = DotNetRandom::new(base);
    prng.advance(age.samples as usize);
    let sex = prng.next_range_strict(1, 3);
    let _hair = prng.next_range_strict(1, if sex != 1 {
        6
    } else {
        11
    });
    let _scale = prng.next_sample();
    let mut prefix = String::new();
    let mut suffix = String::new();
    let ghost np = strs(d.names_prefix@);
    if d.names_prefix.len() > 0 {
        let pi = prng.next_range_strict(1, d.names_prefix.len() as i32 + 1) - 1;
        prefix = d.names_prefix[pi as usize].clone();
    }
    let suffixes = if sex == 1 {
        &d.names_m_suffix
    } else {
        &d.names_f_suffix
    };
    if suffixes.len() > 0 {
        let si = prng.next_range_strict(1, suffixes.len() as i32 + 1) - 1;
        suffix = suffixes[si as usize].clone();
    }
    if sex == 1 && age.over_30 {
        let n = prng.next_sample();
        if sample_at_most_two_fifths_exec(n) {
            let _ = prng.next_range_strict(1, 6);
        }
    }
    if !prefix.as_str().is_empty() || !suffix.as_str().is_empty() {
        let mut name = prefix.clone();
        push_str(&mut name, suffix.as_str());
        name
    } else {
        let mut name = String::new();
        push_str(&mut name, "未解析大能 [");
        push_str(
            &mut name,
            if rlevel == 4 {
                "元神长老"
            } else {
                "在世真仙"
            },
        );
        push_str(&mut name, " #");
        push_signed_decimal(&mut name, base);
        push_str(&mut name, "]");
        name
    }
}

/// The talismans of an elder (see `elder_talismans`).
fn draw_talismans(d: &GameData, base: i32) -> (r: Vec<String>)
    requires
        tables_fit(d),
    ensures
        strs(r@) == elder_talismans(d, base),
{
    let mut prng = DotNetRandom::new(base);
    prng.advance(3);
    let bound: i32 = if d.spells.len() as i32 > 1 {
        d.spells.len() as i32
    } else {
        1
    };
    let ghost sp = strs(d.spells@);
    let mut r: Vec<String> = Vec::new();
    let mut k: usize = 0;
    while k < 3
        invariant
            k <= 3,
            prng.wf(),
            tables_fit(d),
            sp == strs(d.spells@),
            bound == (if sp.len() > 1 { sp.len() } else { 1 }) as i32,
            r.len() == k,
            k == 0 ==> prng@ == advance_model(seeded(base), 3),
            k > 0 ==> prng@ == talisman_draw(base, sp.len(), (k - 1) as nat).1,
            forall|x: int| 0 <= x < k ==> #[trigger] r@[x]@ == safe_item(sp, talisman_draw(base, sp.len(), x as nat).0 as nat),
        decreases 3 - k,
    {
        let idx = prng.next_range_strict(0, bound);
        assert(idx == talisman_draw(base, sp.len(), k as nat).0);
        r.push(get_safe_item(d.spells.as_slice(), idx as usize));
        k = k + 1;
    }
    assert(strs(r@) =~= elder_talismans(d, base));
    r
}

/// The inventory of an elder (see `elder_inventory`).
fn draw_inventory(d: &GameData, base: i32) -> (r: Vec<String>)
    requires
        tables_fit(d),
    ensures
        strs(r@) == elder_inventory(d, base),
{
    let bound: i32 = if d.tools.len() as i32 > 1 {
        d.tools.len() as i32
    } else {
        1
    };
    let ghost tl = strs(d.tools@);
    let mut r: Vec<String> = Vec::new();
    let mut i: usize = 0;
    while i < 5
        invariant
            i <= 5,
            tables_fit(d),
            tl == strs(d.tools@),
            bound == (if tl.len() > 1 { tl.len() } else { 1 }) as i32,
            r.len() == i,
            forall|x: int|
                0 <= x < i ==> #[trigger] r@[x]@ == safe_item(
                    tl,
                    next_range_strict_model(seeded(inventory_seed(base, x)), 0, bound).0 as nat,
                ),
        decreases 5 - i,
    {
        let seed = wrap_i32_exec(base as i64 + 8888 + i as i64);
        let mut prng = DotNetRandom::new(seed);
        let idx = prng.next_range_strict(0, bound);
        r.push(get_safe_item(d.tools.as_slice(), idx as usize));
        i = i + 1;
    }
    assert(strs(r@) =~= elder_inventory(d, base));
    r
}

/// The thirteen sects in order, each with its name and its thirty elders
/// as `elder_matches` describes them.
pub open spec fn roster_matches(r: Seq<SectData>, d: &GameData, world_seed: i32, ages: Seq<AgeDraw>) -> bool {
    &&& r.len() == SECTS
    &&& forall|i: int|
        0 <= i < 13 ==> {
            &&& (#[trigger] r[i]).sect_name@ == sect_name(i)
            &&& r[i].elders.len() == ELDERS_PER_SECT
            &&& forall|j: int|
                0 <= j < 30 ==> elder_matches(
                    &#[trigger] r[i].elders@[j],
                    d,
                    world_seed,
                    i,
                    j,
                    ages[i * 30 + j],
                )
        }
}

/// The elders of all thirteen sects for `world_seed`.  `ages[i * 30 + j]`
/// is the age draw (see `AgeDraw`) of the `j`-th elder of the `i`-th sect,
/// whose generator seed is entry `i * 30 + j` of `elder_seeds(world_seed)`;
/// the first fifteen elders of a sect are of realm 4, the others of realm 5.
pub fn extract_all_sect_elders(world_seed: i32, d: &GameData, ages: &Vec<AgeDraw>) -> (r: Vec<
    SectData,
>)
    requires
        tables_fit(d),
        ages.len() == ELDERS,
    ensures
        roster_matches(r@, d, world_seed, ages@),
{
    let mut results: Vec<SectData> = Vec::new();
    let mut i: usize = 0;
    while i < SECTS
        invariant
            i <= SECTS,
            tables_fit(d),
            ages.len() == ELDERS,
            results.len() == i,
            forall|a: int|
                0 <= a < i ==> {
                    &&& (#[trigger] results@[a]).sect_name@ == sect_name(a)
                    &&& results@[a].elders.len() == ELDERS_PER_SECT
                    &&& forall|j: int|
                        0 <= j < 30 ==> elder_matches(
                            &#[trigger] results@[a].elders@[j],
                            d,
                            world_seed,
                            a,
                            j,
                            ages@[a * 30 + j],
                        )
                },
        decreases SECTS - i,
    {
        let mut elders: Vec<ElderData> = Vec::new();
        let mut j: usize = 0;
        while j < ELDERS_PER_SECT
            invariant
                i < SECTS,
                j <= ELDERS_PER_SECT,
                tables_fit(d),
                ages.len() == ELDERS,
                elders.len() == j,
                forall|b: int|
                    0 <= b < j ==> elder_matches(
                        &#[trigger] elders@[b],
                        d,
                        world_seed,
                        i as int,
                        b,
                        ages@[i * 30 + b],
                    ),
            decreases ELDERS_PER_SECT - j,
        {
            let rlevel: i64 = if j < 15 {
                4
            } else {
                5
            };
            let loc: i64 = (i as i64 + 1) * 1000 + rlevel * 100 + (j % 15) as i64;
            let base = wrap_i32_exec(world_seed as i64 + loc);
            assert(base == elder_seed(world_seed, i as int, j as int));
            let age = ages[i * ELDERS_PER_SECT + j];
            let name = draw_elder_name(d, base, rlevel, age);
            let mut level_name = String::new();
            push_str(
                &mut level_name,
                if rlevel == 4 {
                    "元神期 (God1)"
                } else {
                    "在世真仙 (God2)"
                },
            );
            let talismans = draw_talismans(d, base);
            let inventory = draw_inventory(d, base);
            elders.push(ElderData { name, level_name, talismans, inventory });
            j = j + 1;
        }
        let mut sect_name_s = String::new();
        push_str(&mut sect_name_s, sect_name_exec(i));
        results.push(SectData { sect_name: sect_name_s, elders });
        i = i + 1;
    }
    results
}

/// Wrapping twice is wrapping once: `wrap(wrap(a) + b) == wrap(a + b)`.
proof fn lemma_wrap_add(a: int, b: int)
    ensures
        wrap_i32(wrap_i32(a) + b) == wrap_i32(a + b),
{
    let m = 0x1_0000_0000int;
    let r = (a - i32::MIN) % m;
    vstd::arithmetic::div_mod::lemma_mod_bound(a - i32::MIN, m);
    assert(wrap_i32(a) as int == r + i32::MIN);
    vstd::arithmetic::div_mod::lemma_add_mod_noop(a - i32::MIN, b, m);
    vstd::arithmetic::div_mod::lemma_mod_twice(a - i32::MIN, m);
    vstd::arithmetic::div_mod::lemma_add_mod_noop(r, b, m);
}

/// Elder `j` of sect `i + 1` of world `world_seed` has the generator seed
/// of elder `j` of sect `i` of world `world_seed + 1000` (wrapping).
pub proof fn law_elder_seed_shift(world_seed: i32, i: int, j: int)
    ensures
        elder_seed(wrap_i32(world_seed + 1000), i, j) == elder_seed(world_seed, i + 1, j),
{
    lemma_wrap_add(world_seed + 1000, (i + 1) * 1000 + elder_level(j) * 100 + j % 15);
    assert(world_seed + 1000 + ((i + 1) * 1000 + elder_level(j) * 100 + j % 15) == world_seed + (i + 2)
        * 1000 + elder_level(j) * 100 + j % 15);
}

/// Shifting the world seed by 1000 (wrapping) shifts the rosters by one
/// sect: given the same age draws for elders with the same generator seed,
/// elder `j` of sect `i` of the shifted world has the name, realm,
/// talismans and inventory of elder `j` of sect `i + 1` of the other.
pub proof fn law_roster_shift(
    r1: Seq<SectData>,
    r2: Seq<SectData>,
    d: &GameData,
    world_seed: i32,
    ages1: Seq<AgeDraw>,
    ages2: Seq<AgeDraw>,
)
    requires
        roster_matches(r1, d, wrap_i32(world_seed + 1000), ages1),
        roster_matches(r2, d, world_seed, ages2),
        forall|k: int| 0 <= k < 360 ==> #[trigger] ages1[k] == ages2[k + 30],
    ensures
        forall|i: int, j: int|
            0 <= i < 12 && 0 <= j < 30 ==> {
                &&& (#[trigger] r1[i].elders@[j]).name@ == r2[i + 1].elders@[j].name@
                &&& r1[i].elders@[j].level_name@ == r2[i + 1].elders@[j].level_name@
                &&& strs(r1[i].elders@[j].talismans@) == strs(r2[i + 1].elders@[j].talismans@)
                &&& strs(r1[i].elders@[j].inventory@) == strs(r2[i + 1].elders@[j].inventory@)
            },
{
    assert forall|i: int, j: int| 0 <= i < 12 && 0 <= j < 30 implies {
        &&& (#[trigger] r1[i].elders@[j]).name@ == r2[i + 1].elders@[j].name@
        &&& r1[i].elders@[j].level_name@ == r2[i + 1].elders@[j].level_name@
        &&& strs(r1[i].elders@[j].talismans@) == strs(r2[i + 1].elders@[j].talismans@)
        &&& strs(r1[i].elders@[j].inventory@) == strs(r2[i + 1].elders@[j].inventory@)
    } by {
        law_elder_seed_shift(world_seed, i, j);
        assert(0 <= i * 30 + j < 360) by (nonlinear_arith)
            requires
                0 <= i < 12,
                0 <= j < 30,
        ;
        assert(ages1[i * 30 + j] == ages2[(i + 1) * 30 + j]) by {
            assert(i * 30 + j + 30 == (i + 1) * 30 + j);
        }
        let a = r1[i];
        let b = r2[i + 1];
        assert(elder_matches(&a.elders@[j], d, wrap_i32(world_seed + 1000), i, j, ages1[i * 30 + j]));
        assert(elder_matches(&b.elders@[j], d, world_seed, i + 1, j, ages2[(i + 1) * 30 + j]));
    }
}

} // verus!
