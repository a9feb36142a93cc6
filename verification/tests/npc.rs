use seed_finder::npc::{elder_seeds, extract_all_sect_elders, get_safe_item, AgeDraw, GameData};
use seed_finder::rng::DotNetRandom;
use seed_finder::task::NpcTabState;
use seed_finder::utils::{find_chinese_collision, string_hash};

struct FloatDotNet {
    inext: usize,
    inextp: usize,
    seed_array: [i32; 56],
}

impl FloatDotNet {
    fn new(seed: i32) -> Self {
        let mut r = Self { inext: 0, inextp: 31, seed_array: [0; 56] };
        let mut mj = 161803398i32.wrapping_sub(seed.saturating_abs());
        r.seed_array[55] = mj;
        let mut mk = 1i32;
        for i in 1..55 {
            let ii = (21 * i) % 55;
            r.seed_array[ii] = mk;
            mk = mj.wrapping_sub(mk);
            if mk < 0 {
                mk = mk.wrapping_add(i32::MAX);
            }
            mj = r.seed_array[ii];
        }
        for _ in 1..5 {
            for k in 1..56 {
                let mut val = r.seed_array[k].wrapping_sub(r.seed_array[1 + (k + 30) % 55]);
                if val < 0 {
                    val = val.wrapping_add(i32::MAX);
                }
                r.seed_array[k] = val;
            }
        }
        r
    }
    fn next_double(&mut self) -> f64 {
        self.inext = if self.inext + 1 == 56 { 1 } else { self.inext + 1 };
        self.inextp = if self.inextp + 1 == 56 { 1 } else { self.inextp + 1 };
        let mut n = self.seed_array[self.inext].wrapping_sub(self.seed_array[self.inextp]);
        if n == i32::MAX {
            n -= 1;
        }
        if n < 0 {
            n = n.wrapping_add(i32::MAX);
        }
        self.seed_array[self.inext] = n;
        n as f64 * 4.656612875245797e-10
    }
    fn next_range_strict(&mut self, mut mi: i32, mut ma: i32) -> i32 {
        if mi > ma {
            std::mem::swap(&mut mi, &mut ma);
        }
        ((self.next_double() * (ma as i64 - mi as i64) as f64) as i64 + mi as i64) as i32
    }
}

struct Elder {
    name: String,
    level_name: String,
    talismans: Vec<String>,
    inventory: Vec<String>,
}

fn safe(pool: &[String], i: usize) -> String {
    pool.get(i).cloned().unwrap_or_else(|| format!("未知物品_#{}", i))
}

/// The game's age draw, returning the generator after it and how many
/// samples it took.
fn age_draw(base: i32) -> (FloatDotNet, f64, u32) {
    let mut p = FloatDotNet::new(base);
    let mut used = 0u32;
    let mut age = 0.0;
    let mut num = 0;
    while (age < 14.0 || age > 60.0) && num < 100 {
        let mut num3;
        let mut num1;
        loop {
            num1 = (p.next_double() * 2.0) - 1.0;
            let num2 = (p.next_double() * 2.0) - 1.0;
            used += 2;
            num3 = num1 * num1 + num2 * num2;
            if num3 > 0.0 && num3 < 1.0 {
                break;
            }
        }
        let num4 = (-2.0 * num3.ln() / num3).sqrt();
        age = (22.2 + num1 * num4 * 9.0f64).trunc();
        used += 1;
        if p.next_double() <= 0.1 {
            age = p.next_range_strict(1, 10) as f64;
            used += 1;
        }
        num += 1;
    }
    age -= p.next_double() * 0.8 + 0.1;
    used += 1;
    (p, age, used)
}

fn game_roster(world_seed: i32, d: &GameData) -> (Vec<(String, Vec<Elder>)>, Vec<AgeDraw>) {
    let names = [
        "丹霞洞天", "昆仑宫", "极天宫", "紫霄宗", "玄一道", "青莲剑宗", "栖霞洞天", "百蛮山", "七仟坞", "七杀魔宫", "合欢派", "万妖殿",
        "武当派",
    ];
    let mut out = vec![];
    let mut ages = vec![];
    for (si, sect_name) in names.iter().enumerate() {
        let sect_id = si as i32 + 1;
        let mut elders = vec![];
        for rlevel in 4..=5 {
            for index in 0..15 {
                let base = world_seed.wrapping_add(sect_id * 1000 + rlevel * 100 + index);
                let (mut p, age, used) = age_draw(base);
                ages.push(AgeDraw { samples: used, over_30: age > 30.0 });
                let sex = p.next_range_strict(1, 3);
                p.next_range_strict(1, if sex != 1 { 6 } else { 11 });
                p.next_double();
                let mut prefix = String::new();
                let mut suffix = String::new();
                if !d.names_prefix.is_empty() {
                    let i = p.next_range_strict(1, d.names_prefix.len() as i32 + 1) - 1;
                    prefix = d.names_prefix[i as usize].clone();
                }
                let suffixes = if sex == 1 { &d.names_m_suffix } else { &d.names_f_suffix };
                if !suffixes.is_empty() {
                    let i = p.next_range_strict(1, suffixes.len() as i32 + 1) - 1;
                    suffix = suffixes[i as usize].clone();
                }
                let name = if !prefix.is_empty() || !suffix.is_empty() {
                    format!("{}{}", prefix, suffix)
                } else {
                    let t = if rlevel == 4 { "元神长老" } else { "在世真仙" };
                    format!("未解析大能 [{} #{}]", t, base)
                };
                let level_name = if rlevel == 4 { "元神期 (God1)" } else { "在世真仙 (God2)" }.to_string();
                let mut q = FloatDotNet::new(base);
                for _ in 0..3 {
                    q.next_double();
                }
                let talismans = (0..3)
                    .map(|_| safe(&d.spells, q.next_range_strict(0, 1.max(d.spells.len() as i32)) as usize))
                    .collect();
                let scalar = base.wrapping_add(8888) as u32;
                let inventory = (0..5u32)
                    .map(|i| {
                        let mut c = FloatDotNet::new(scalar.wrapping_add(i) as i32);
                        safe(&d.tools, c.next_range_strict(0, 1.max(d.tools.len() as i32)) as usize)
                    })
                    .collect();
                elders.push(Elder { name, level_name, talismans, inventory });
            }
        }
        out.push((sect_name.to_string(), elders));
    }
    (out, ages)
}

fn strings(v: &[&str]) -> Vec<String> {
    v.iter().map(|s| s.to_string()).collect()
}

fn sample_data() -> GameData {
    let mut d = GameData::new();
    d.spells = strings(&["火球符", "冰锥符", "雷击符", "护体符", "遁地符"]);
    d.tools = strings(&["铁锹", "斧头", "镐", "锄头"]);
    d.names_prefix = strings(&["张", "李", "王", "赵", "钱", "孙"]);
    d.names_m_suffix = strings(&["三", "四", "五"]);
    d.names_f_suffix = strings(&["灵儿", "月", "雪", "梅"]);
    d.clothes = strings(&["布衣"]);
    d.loaded = true;
    d
}

fn compare_roster(seed: i32, d: &GameData) {
    let (game, ages) = game_roster(seed, d);
    let lib = extract_all_sect_elders(seed, d, &ages);
    assert_eq!(lib.len(), 13);
    for (s, (name, elders)) in lib.iter().zip(game.iter()) {
        assert_eq!(&s.sect_name, name);
        assert_eq!(s.elders.len(), 30);
        for (a, b) in s.elders.iter().zip(elders.iter()) {
            assert_eq!(a.name, b.name, "seed {seed}");
            assert_eq!(a.level_name, b.level_name);
            assert_eq!(a.talismans, b.talismans);
            assert_eq!(a.inventory, b.inventory);
        }
    }
}

#[test]
fn elders_match_the_game() {
    let d = sample_data();
    for seed in [0, 1, 123456, -99, i32::MAX - 5000, i32::MIN] {
        compare_roster(seed, &d);
    }
}

#[test]
fn elders_with_empty_tables() {
    let d = GameData::new();
    compare_roster(42, &d);
    let (_, ages) = game_roster(42, &d);
    let lib = extract_all_sect_elders(42, &d, &ages);
    let first = &lib[0].elders[0];
    assert_eq!(first.name, format!("未解析大能 [元神长老 #{}]", 42 + 1000 + 400));
    assert_eq!(first.talismans, vec!["未知物品_#0".to_string(); 3]);
    assert_eq!(lib[12].elders[29].level_name, "在世真仙 (God2)");
}

#[test]
fn elder_seed_layout() {
    let s = elder_seeds(10);
    assert_eq!(s.len(), 390);
    assert_eq!(s[0], 10 + 1000 + 400);
    assert_eq!(s[14], 10 + 1000 + 414);
    assert_eq!(s[15], 10 + 1000 + 500);
    assert_eq!(s[389], 10 + 13000 + 514);
    let w = elder_seeds(i32::MAX);
    assert_eq!(w[0], i32::MAX.wrapping_add(1400));
}

#[test]
fn safe_item_lookup() {
    let pool = strings(&["a", "b"]);
    assert_eq!(get_safe_item(&pool, 1), "b");
    assert_eq!(get_safe_item(&pool, 2), "未知物品_#2");
    assert_eq!(get_safe_item(&[], 1234567), "未知物品_#1234567");
}

#[test]
fn string_hash_values() {
    assert_eq!(string_hash(""), 0);
    assert_eq!(string_hash("a"), 97);
    assert_eq!(string_hash("ab"), 97 * 31 + 98);
    assert_eq!(string_hash("玄"), 0x7384);
    // A character outside the basic plane hashes as its two UTF-16 units.
    let h = string_hash("😀");
    assert_eq!(h, (0xD83Di32.wrapping_mul(31)).wrapping_add(0xDE00));
    let long = "the quick brown fox jumps over the lazy dog";
    let mut e: i32 = 0;
    for u in long.encode_utf16() {
        e = e.wrapping_shl(5).wrapping_sub(e).wrapping_add(u as i32);
    }
    assert_eq!(string_hash(long), e);
}

#[test]
fn collision_strings_hash_back() {
    for s in [0, 1, -1, 42, 5950, i32::MAX, i32::MIN, 123456789, -987654321] {
        let c = find_chinese_collision(s).unwrap();
        assert!(c.starts_with("玄黎曰"));
        assert_eq!(c.chars().count(), 8);
        assert_eq!(string_hash(&c), s, "{c}");
    }
}

#[test]
fn npc_tab_state() {
    let mut t = NpcTabState::new();
    assert!(!t.is_busy());
    assert_eq!(t.target_seed, 0);
    t.settings_loaded("/games/settings".to_string(), sample_data());
    assert_eq!(t.status_msg, "✅ 解析成功! 衣:1 材:0 符:5 具:4");
    assert_eq!(t.settings_path, "/games/settings");
    t.target_seed = 7;
    let (_, ages) = game_roster(7, &t.game_data);
    t.show_elders(&ages);
    assert_eq!(t.sect_results.len(), 13);
    assert_eq!(t.status_msg, "✅ 13 门派双层级大能数据溯源完毕！");
    let direct = extract_all_sect_elders(7, &t.game_data, &ages);
    assert_eq!(direct[3].elders[4].name, t.sect_results[3].elders[4].name);
}

#[test]
fn age_draw_samples_are_what_the_generator_used() {
    // The library's generator advanced by the counted samples continues
    // exactly as the floating-point one does.
    for base in [1400, 99999, -5] {
        let (mut p, _, used) = age_draw(base);
        let mut lib = DotNetRandom::new(base);
        lib.advance(used as usize);
        for _ in 0..10 {
            assert_eq!(lib.next_sample() as f64 * 4.656612875245797e-10, p.next_double());
        }
    }
}

#[test]
fn shifting_the_world_seed_shifts_the_sects() {
    let d = sample_data();
    for seed in [5, -2000, i32::MAX - 400] {
        let shifted = seed.wrapping_add(1000);
        let (_, ages_a) = game_roster(shifted, &d);
        let (_, ages_b) = game_roster(seed, &d);
        let a = extract_all_sect_elders(shifted, &d, &ages_a);
        let b = extract_all_sect_elders(seed, &d, &ages_b);
        for i in 0..12 {
            for j in 0..30 {
                let (x, y) = (&a[i].elders[j], &b[i + 1].elders[j]);
                assert_eq!(x.name, y.name);
                assert_eq!(x.level_name, y.level_name);
                assert_eq!(x.talismans, y.talismans);
                assert_eq!(x.inventory, y.inventory);
            }
        }
    }
}
