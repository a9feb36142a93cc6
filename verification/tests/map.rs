use seed_finder::constants::{get_base_around_50, CType};
use seed_finder::map_maker::MapMaker;
use seed_finder::neighbours::count_in_range_mask;
use seed_finder::scan::{count_lingsoil, rank_by_count, scan_seed};
use seed_finder::terrain::Terrain;

// ---------------------------------------------------------------------
// The game's generator, as plain Rust with floating point, to compare with.
// ---------------------------------------------------------------------

struct FloatDotNet {
    inext: usize,
    inextp: usize,
    seed_array: [i32; 56],
}

impl FloatDotNet {
    fn new(seed: i32) -> Self {
        let mut r = Self { inext: 0, inextp: 31, seed_array: [0; 56] };
        let mut mj = 161803398i32.wrapping_sub(seed.saturating_abs());
        r.seed_array[55] = mj;
        let mut mk = 1i32;
        for i in 1..55 {
            let ii = (21 * i) % 55;
            r.seed_array[ii] = mk;
            mk = mj.wrapping_sub(mk);
            if mk < 0 {
                mk = mk.wrapping_add(i32::MAX);
            }
            mj = r.seed_array[ii];
        }
        for _ in 1..5 {
            for k in 1..56 {
                let mut val = r.seed_array[k].wrapping_sub(r.seed_array[1 + (k + 30) % 55]);
                if val < 0 {
                    val = val.wrapping_add(i32::MAX);
                }
                r.seed_array[k] = val;
            }
        }
        r
    }

    fn next_range(&mut self, mut mi: i32, mut ma: i32) -> i32 {
        if mi > ma {
            std::mem::swap(&mut mi, &mut ma);
        }
        let diff = ma as i64 - mi as i64;
        if diff <= 1 {
            return mi;
        }
        self.inext = if self.inext + 1 == 56 { 1 } else { self.inext + 1 };
        self.inextp = if self.inextp + 1 == 56 { 1 } else { self.inextp + 1 };
        let mut n = self.seed_array[self.inext].wrapping_sub(self.seed_array[self.inextp]);
        if n < 0 {
            n = n.wrapping_add(i32::MAX);
        }
        self.seed_array[self.inext] = n;
        ((n as f64 * 4.656612875245797e-10 * diff as f64) as u32).wrapping_add(mi as u32) as i32
    }
}

fn spiral() -> Vec<(i32, i32)> {
    let (mut r, mut x, mut y, mut d, mut s) = (vec![(0, 0)], 0, 0, 1, 1);
    while r.len() < 10201 {
        for _ in 0..2 {
            for _ in 0..s {
                match d {
                    0 => x += 1,
                    1 => y -= 1,
                    2 => x -= 1,
                    _ => y += 1,
                };
                r.push((x, y));
                if r.len() == 10201 {
                    return r;
                }
            }
            d = (d + 1) % 4;
        }
        s += 1;
    }
    r
}

const SOIL: usize = 1;
const DEPTH_WATER: usize = 2;
const DDEPTH_WATER: usize = 3;
const SHALLOW_WATER: usize = 4;
const MUD: usize = 5;
const FERTILE_SOIL: usize = 6;
const LING_SOIL: usize = 7;
const STONE_LAND: usize = 9;
const ROCK_BROWN: usize = 10;
const ROCK_GRAY: usize = 11;
const ROCK_MARBLE: usize = 12;
const IRON_ORE: usize = 13;
const COPPER_ORE: usize = 14;
const SILVER_ORE: usize = 15;
const BORN_SPACE: usize = 16;
const BORN_LINE: usize = 17;
const TMP1: usize = 18;
const TMP2: usize = 19;

#[derive(Clone, Copy, PartialEq)]
enum Kind {
    AllTrue,
    NoBorn,
    CheckCon,
    CheckCon2,
}

struct Game {
    w: i32,
    h: i32,
    rand: FloatDotNet,
    dirs: Vec<i32>,
    bb: Vec<[u32; 1152]>,
    base: Vec<(i32, i32)>,
}

impl Game {
    fn new(seed: i32, w: i32, h: i32) -> Self {
        Self { w, h, rand: FloatDotNet::new(seed), dirs: vec![], bb: vec![[0; 1152]; 20], base: spiral() }
    }
    fn r(&mut self, a: i32, b: i32) -> i32 {
        self.rand.next_range(a, b)
    }
    fn p2key_safe(&self, x: i32, y: i32) -> i32 {
        if x < 0 || x >= self.w || y < 0 || y >= self.h {
            -1
        } else {
            y * self.w + x
        }
    }
    fn is_valid_key(&self, key: i32) -> bool {
        key > 0 && key < self.w * self.h
    }
    fn set_mask(&mut self, t: usize, w: usize, m: u32) {
        for i in 1..=15 {
            if i == t {
                self.bb[i][w] |= m;
            } else {
                self.bb[i][w] &= !m;
            }
        }
    }
    fn get_ctype_mask(&self, w: usize, c: Kind) -> u32 {
        let (s, rem) = (((self.w + 31) / 32) as usize, self.w as u32 % 32);
        let b = &self.bb;
        let mut base = match c {
            Kind::AllTrue => !0,
            Kind::NoBorn => (b[SOIL][w] | b[FERTILE_SOIL][w]) & !(b[BORN_SPACE][w] | b[BORN_LINE][w]),
            Kind::CheckCon => b[SOIL][w] | b[FERTILE_SOIL][w] | b[LING_SOIL][w],
            Kind::CheckCon2 => !(b[IRON_ORE][w]
                | b[COPPER_ORE][w]
                | b[SILVER_ORE][w]
                | b[ROCK_BROWN][w]
                | b[ROCK_GRAY][w]
                | (b[ROCK_MARBLE][w] & !(b[BORN_SPACE][w] | b[BORN_LINE][w]))),
        };
        if rem != 0 && w % s == s - 1 {
            base &= (1 << rem) - 1;
        }
        base
    }
    fn get_grid(&self, k: i32, d: u8) -> i32 {
        if k < 0 {
            return -1;
        }
        let (w, c) = (self.w, self.w * self.h);
        match d {
            0 => {
                let n = k + w;
                if n > 0 && n < c { n } else { -1 }
            }
            1 => {
                let n = k - w;
                if n > 0 && n < c { n } else { -1 }
            }
            2 => {
                let n = k - 1;
                if n >= 0 && n < c && k / w == n / w { n } else { -1 }
            }
            3 => {
                let n = k + 1;
                if n >= 0 && n < c && k / w == n / w { n } else { -1 }
            }
            4 => {
                let n = self.get_grid(k, 2);
                if n != -1 { self.get_grid(n, 1) } else { -1 }
            }
            5 => {
                let n = self.get_grid(k, 3);
                if n != -1 { self.get_grid(n, 1) } else { -1 }
            }
            6 => {
                let n = self.get_grid(k, 2);
                if n != -1 { self.get_grid(n, 0) } else { -1 }
            }
            7 => {
                let n = self.get_grid(k, 3);
                if n != -1 { self.get_grid(n, 0) } else { -1 }
            }
            _ => -1,
        }
    }
    fn neighbors(&self, k: i32) -> Vec<i32> {
        [6, 4, 7, 5, 1, 2, 3, 0].into_iter().map(|d| self.get_grid(k, d)).filter(|&n| n != -1).collect()
    }
    fn fill(&mut self, def: usize) {
        let (s, rem) = (((self.w + 31) / 32) as usize, self.w as u32 % 32);
        for t in 1..=15 {
            if t == def {
                for w in 0..1152 {
                    self.bb[t][w] = if rem != 0 && w % s == s - 1 { (1 << rem) - 1 } else { !0 };
                }
            } else {
                self.bb[t] = [0; 1152];
            }
        }
    }
    fn make_mine_dir(&mut self, fx: i32, fy: i32) {
        let h = self.h;
        let (mut i, mut num) = (0, self.r(0, h));
        let num2 = num;
        let _ = self.r(0, h);
        while i < self.w {
            i += if self.r(0, 100) < 10 { -1 } else { 1 };
            num += if num2 > self.h / 2 { self.r(-fy, fx) } else { self.r(-fx, fy) };
            let k = self.p2key_safe(i, num);
            if self.is_valid_key(k) {
                self.dirs.push(k);
            }
        }
    }
    fn random_line(&mut self, w: i32, size: i32, def: usize, c: Kind) {
        if self.dirs.is_empty() {
            return;
        }
        let s = ((self.w + 31) / 32) as usize;
        let len = self.dirs.len() as i32;
        let mut num = self.r(0, len) as usize;
        for _ in 0..size {
            if num >= self.dirs.len() {
                num = self.r(0, len) as usize;
            }
            let mut k = self.dirs[num];
            num += 1;
            let vk = self.neighbors(k);
            if !vk.is_empty() {
                k = vk[self.r(0, vk.len() as i32) as usize];
            }
            if k >= 0 && k < self.w * self.h {
                let (nw, bit) = ((k / self.w) as usize * s + (k % self.w) as usize / 32, 1 << (k % self.w % 32));
                if (self.get_ctype_mask(nw, c) & bit) != 0 {
                    self.set_mask(def, nw, bit);
                }
            }
        }
        self.out_line(def, def, w, 4, 0, c);
    }
    fn out_line(&mut self, src: usize, tgt: usize, w: i32, lv: i32, mut maxc: i32, c: Kind) {
        self.bb[TMP1] = self.bb[src];
        let (lim, s) = (((w * 2 + 1).pow(2)) as usize, ((self.w + 31) / 32) as usize);
        for word in (0..s * self.h as usize).rev() {
            let mut m = self.bb[TMP1][word] & if word == 0 { !1 } else { !0 };
            while m != 0 {
                let b = 31 - m.leading_zeros();
                m ^= 1 << b;
                let (cx, cy) = (((word % s) * 32 + b as usize) as i32, (word / s) as i32);
                if cx >= self.w {
                    continue;
                }
                for idx in 0..lim {
                    let (dx, dy) = self.base[idx];
                    let (nx, ny) = (cx + dx, cy + dy);
                    if nx >= 0 && nx < self.w && ny >= 0 && ny < self.h {
                        if self.r(0, 100) <= lv {
                            let (nw, nbit) = (ny as usize * s + nx as usize / 32, 1 << (nx % 32));
                            if (self.get_ctype_mask(nw, c) & nbit) != 0 {
                                self.set_mask(tgt, nw, nbit);
                                maxc -= 1;
                                if maxc == 0 {
                                    break;
                                }
                            }
                        }
                    }
                }
            }
        }
    }
    /// The smoothing step, cell by cell: a cell joins `def` where the kind
    /// allows it and the number of its neighbours in `def` lies in
    /// `[lo, hi]` (the cell at the top left corner does not count for the
    /// second row).
    fn smooth_mask(&self, def: usize, lo: i32, hi: i32, c: Kind) -> Vec<u32> {
        let s = ((self.w + 31) / 32) as usize;
        let has = |x: i32, y: i32| -> bool {
            x >= 0 && x < self.w && y >= 0 && y < self.h && {
                let w = y as usize * s + x as usize / 32;
                (self.bb[def][w] >> (x % 32)) & 1 == 1
            }
        };
        let mut out = vec![0u32; 1152];
        for y in 0..self.h {
            for x in 0..self.w {
                let mut n = 0;
                for (dx, dy) in [(-1, -1), (0, -1), (1, -1), (-1, 0), (1, 0), (-1, 1), (0, 1), (1, 1)] {
                    let (nx, ny) = (x + dx, y + dy);
                    if y == 1 && ny == 0 && nx == 0 {
                        continue;
                    }
                    if has(nx, ny) {
                        n += 1;
                    }
                }
                let w = y as usize * s + x as usize / 32;
                if n >= lo && n <= hi && (self.get_ctype_mask(w, c) >> (x % 32)) & 1 == 1 {
                    out[w] |= 1 << (x % 32);
                }
            }
        }
        out
    }
    fn optimize(&mut self, def: usize, lo: i32, hi: i32, c: Kind) {
        let s = ((self.w + 31) / 32) as usize;
        let o = self.smooth_mask(def, lo, hi, c);
        for w in 0..s * self.h as usize {
            let diff = o[w] & !self.bb[def][w];
            if diff != 0 {
                self.set_mask(def, w, diff);
            }
        }
    }
    fn random_and_expand(&mut self, def: usize, rc: i32, ec: i32, elv: i32, c: Kind, ec_kind: Kind) {
        let (s, words) = (((self.w + 31) / 32) as usize, ((self.w + 31) / 32 * self.h) as usize);
        for _ in 0..rc.max(1) {
            let (x, y) = (self.r(0, self.w), self.r(0, self.h));
            let nw = y as usize * s + x as usize / 32;
            let bit = 1 << (x % 32);
            if (self.get_ctype_mask(nw, c) & bit) != 0 {
                self.set_mask(def, nw, bit);
            }
        }
        let mut flag = true;
        for _ in 0..ec {
            let order: Vec<(usize, usize)> = if flag {
                (0..words).flat_map(|w| (0..32).map(move |b| (w, b))).collect()
            } else {
                (0..words).rev().flat_map(|w| (0..32).rev().map(move |b| (w, b))).collect()
            };
            for (w, b) in order {
                if (self.bb[def][w] & (1 << b)) != 0 && w % s * 32 + b < self.w as usize {
                    let k = (w / s * self.w as usize + w % s * 32 + b) as i32;
                    if self.r(0, 100) <= elv {
                        for n in self.neighbors(k) {
                            let (nw, nbit) = ((n / self.w) as usize * s + (n % self.w) as usize / 32, 1 << (n % self.w % 32));
                            if (self.get_ctype_mask(nw, ec_kind) & nbit) != 0 {
                                self.set_mask(def, nw, nbit);
                            }
                        }
                    }
                }
            }
            flag = !flag;
        }
    }
    fn grid(&self) -> Vec<usize> {
        let s = ((self.w + 31) / 32) as usize;
        let order = [
            LING_SOIL, STONE_LAND, ROCK_BROWN, ROCK_GRAY, ROCK_MARBLE, IRON_ORE, COPPER_ORE, SILVER_ORE, MUD,
            SHALLOW_WATER, DEPTH_WATER, DDEPTH_WATER, FERTILE_SOIL, SOIL,
        ];
        let mut g = vec![0; (self.w * self.h) as usize];
        for y in 0..self.h as usize {
            for x in 0..self.w as usize {
                let (nw, bit) = (y * s + x / 32, 1u32 << (x % 32));
                g[y * self.w as usize + x] = order.into_iter().find(|&t| self.bb[t][nw] & bit != 0).unwrap_or(0);
            }
        }
        g
    }
    fn make_map(&mut self) {
        let (sc, s) = (1.max(self.w / 64), ((self.w + 31) / 32) as usize);
        for _ in 0..3 {
            self.make_mine_dir(2, 3);
        }
        self.fill(SOIL);
        let (kx, ky) = (self.r(self.w / 10 * 4, self.w / 10 * 7), self.r(self.h / 10 * 6, self.h / 10 * 7));
        if self.p2key_safe(kx, ky) >= 0 {
            self.set_mask(FERTILE_SOIL, ky as usize * s + kx as usize / 32, 1 << (kx % 32));
        }
        self.out_line(FERTILE_SOIL, FERTILE_SOIL, 2, 100, 0, Kind::AllTrue);
        self.out_line(FERTILE_SOIL, FERTILE_SOIL, 5, 20, 0, Kind::AllTrue);
        self.optimize(FERTILE_SOIL, 2, 4, Kind::AllTrue);
        for i in 0..s * self.h as usize {
            let mut m = self.bb[FERTILE_SOIL][i];
            if i == 0 {
                m &= !1;
            }
            self.bb[BORN_SPACE][i] = m;
        }
        self.out_line(FERTILE_SOIL, FERTILE_SOIL, 2, 100, 0, Kind::AllTrue);
        for i in 0..s * self.h as usize {
            let mut m = self.bb[FERTILE_SOIL][i];
            if i == 0 {
                m &= !1;
            }
            if m != 0 {
                self.set_mask(SOIL, i, m);
            }
        }
        self.bb[BORN_LINE] = [0; 1152];
        for i in 0..4 {
            let n = self.r((self.w as f32 * 0.3) as i32, (self.w as f32 * 0.6) as i32);
            let mut j = 0;
            while j < self.r(5, 15) {
                let k = match i {
                    0 => self.p2key_safe(0, n + j),
                    1 => self.p2key_safe(self.w - 1, n + j),
                    2 => self.p2key_safe(n + j, 0),
                    _ => self.p2key_safe(n + j, self.w - 1),
                };
                if k >= 0 {
                    let w_u = self.w as usize;
                    self.bb[BORN_LINE][(k as usize / w_u) * s + (k as usize % w_u) / 32] |= 1u32 << (((k as usize % w_u) as u32) % 32);
                }
                j += 1;
            }
        }
        self.random_and_expand(FERTILE_SOIL, 20, 4, 30, Kind::AllTrue, Kind::AllTrue);
        self.random_and_expand(DDEPTH_WATER, sc - 1, 2 * sc - 1, 13 + 6 * sc, Kind::NoBorn, Kind::NoBorn);
        self.out_line(DDEPTH_WATER, DEPTH_WATER, 1, 100, 0, Kind::CheckCon);
        self.out_line(DEPTH_WATER, DEPTH_WATER, 1, 10 + 6 * sc, 0, Kind::NoBorn);
        self.out_line(DEPTH_WATER, SHALLOW_WATER, 4, 50 + 12 * sc, 0, Kind::CheckCon);
        self.optimize(SHALLOW_WATER, 2, 6, Kind::CheckCon);
        self.random_and_expand(SHALLOW_WATER, 3, 3, 20, Kind::NoBorn, Kind::NoBorn);
        self.out_line(SHALLOW_WATER, MUD, 4, 90, 0, Kind::CheckCon);
        let mut idx1 = 0;
        while idx1 < self.r(sc, sc + 2) {
            let (sz, x) = (self.r(0, sc), self.r(5 + sc, 10 + sc));
            self.random_line(sz, x, IRON_ORE, Kind::NoBorn);
            idx1 += 1;
        }
        for t in [COPPER_ORE, SILVER_ORE] {
            for _ in 0..1 + sc {
                let (wr, x) = (self.r(0, 1), self.r(3 + sc, 5 + sc));
                self.random_line(wr, x, t, Kind::NoBorn);
            }
        }
        let mut idx4 = 0;
        while idx4 < self.r(1, 3) {
            let (wr, x) = (self.r(0, 1), self.r(8, 16));
            let st = if self.r(1, 3) == 1 { ROCK_GRAY } else { ROCK_MARBLE };
            self.random_line(wr, x, st, Kind::NoBorn);
            idx4 += 1;
        }
        let mut m = 1;
        while m < self.r(1, 3) {
            let rc = self.r(0, 3);
            self.random_and_expand(if m == 1 { ROCK_GRAY } else { ROCK_MARBLE }, rc, 3, 15 + 3 * sc, Kind::NoBorn, Kind::NoBorn);
            m += 1;
        }
        for t in [IRON_ORE, COPPER_ORE, SILVER_ORE] {
            let (a, b, c) = (self.r(0, sc + 1), self.r(1, sc + 1), self.r(1, 4));
            self.random_and_expand(t, a, b, 13 + sc * c, Kind::NoBorn, Kind::NoBorn);
        }
        let rb1 = self.r(2, sc + 1);
        self.random_and_expand(ROCK_BROWN, rb1, sc + 1, 13 + sc * 4, Kind::NoBorn, Kind::NoBorn);
        for t in [ROCK_GRAY, ROCK_MARBLE, IRON_ORE, COPPER_ORE, SILVER_ORE] {
            self.out_line(t, ROCK_BROWN, 1, 50 + 12 * sc, 0, Kind::NoBorn);
        }
        for t in [IRON_ORE, COPPER_ORE, SILVER_ORE] {
            let r = self.r(1, 2);
            self.out_line(t, ROCK_BROWN, r, 8 + 8 * sc, 0, Kind::NoBorn);
        }
        for t in [ROCK_BROWN, ROCK_GRAY, ROCK_MARBLE] {
            let r = self.r(1, sc);
            self.out_line(t, ROCK_BROWN, r, 8 + 8 * sc, 0, Kind::NoBorn);
        }
        self.optimize(ROCK_BROWN, 2, 9, Kind::NoBorn);
        for t in [ROCK_BROWN, IRON_ORE, SILVER_ORE, COPPER_ORE, ROCK_BROWN] {
            self.out_line(t, STONE_LAND, 1, 30, 0, Kind::CheckCon2);
        }
        self.out_line(STONE_LAND, STONE_LAND, 1, 5, 0, Kind::CheckCon);
        self.optimize(STONE_LAND, 2, 9, Kind::CheckCon);
        self.random_and_expand(LING_SOIL, sc, 6, 33, Kind::CheckCon, Kind::CheckCon);
    }
}

fn kind(c: CType) -> Kind {
    match c {
        CType::AllTrue => Kind::AllTrue,
        CType::NoBorn => Kind::NoBorn,
        CType::CheckCon => Kind::CheckCon,
        CType::CheckCon2 => Kind::CheckCon2,
    }
}

fn layer(m: &MapMaker, t: usize) -> Vec<u32> {
    m.bb[t * 1152..(t + 1) * 1152].to_vec()
}

// ---------------------------------------------------------------------

#[test]
fn spiral_table_matches() {
    let b = get_base_around_50();
    assert_eq!(b, spiral());
    assert_eq!(b.len(), 10201);
    assert_eq!(&b[..10], &[(0, 0), (0, -1), (-1, -1), (-1, 0), (-1, 1), (0, 1), (1, 1), (1, 0), (1, -1), (1, -2)]);
    // The first (2w+1)^2 offsets fill the square of radius w.
    for w in 0..=50i32 {
        let lim = ((2 * w + 1) * (2 * w + 1)) as usize;
        assert!(b[..lim].iter().all(|&(x, y)| x.abs() <= w && y.abs() <= w));
    }
}

#[test]
fn keys_and_neighbours() {
    let m = MapMaker::new(0, 100, 50);
    assert_eq!(m.p2key_safe(0, 0), 0);
    assert_eq!(m.p2key_safe(99, 49), 4999);
    assert_eq!(m.p2key_safe(100, 0), -1);
    assert_eq!(m.p2key_safe(-1, 3), -1);
    assert_eq!(m.p2key_safe(3, 50), -1);
    assert!(!m.is_valid_key(0));
    assert!(m.is_valid_key(1));
    assert!(m.is_valid_key(4999));
    assert!(!m.is_valid_key(5000));
    let g = Game::new(0, 100, 50);
    for k in [-5, 0, 1, 99, 100, 101, 2550, 4899, 4900, 4999] {
        for d in 0..=8u8 {
            assert_eq!(m.get_grid(k, d), g.get_grid(k, d), "key {k} direction {d}");
        }
    }
    // Key 0 has no neighbour above or below through directions 0 and 1
    // when the result would be key 0.
    assert_eq!(m.get_grid(100, 1), -1);
    assert_eq!(m.get_grid(0, 0), 100);
    assert_eq!(m.get_grid(99, 3), -1);
    assert_eq!(m.get_grid(100, 2), -1);
}

#[test]
fn new_map_is_empty() {
    let m = MapMaker::new(5, 96, 96);
    assert_eq!(m.w, 96);
    assert_eq!(m.h, 96);
    assert!(m.grid.iter().all(|&t| t == Terrain::Null));
    assert!(m.bb.iter().all(|&w| w == 0));
    assert!(m.dirs.is_empty());
}

fn compare_maps(seed: i32, size: i32) {
    let mut lib = MapMaker::new(0, size, size);
    lib.reset(seed);
    assert!(lib.make_map());
    let mut game = Game::new(seed, size, size);
    game.make_map();
    for t in 1..=17 {
        assert_eq!(layer(&lib, t), game.bb[t].to_vec(), "seed {seed} size {size} layer {t}");
    }
    let g = game.grid();
    for (i, &t) in lib.grid.iter().enumerate() {
        assert_eq!(t.index(), g[i], "seed {seed} size {size} cell {i}");
    }
    assert_eq!(lib.dirs, game.dirs);
}

#[test]
fn make_map_matches_the_game_192() {
    for seed in [0, 1, 20240601] {
        compare_maps(seed, 192);
    }
}

#[test]
fn make_map_matches_the_game_small_sizes() {
    for seed in [3, -42] {
        compare_maps(seed, 96);
        compare_maps(seed, 128);
    }
}

#[test]
fn make_map_on_a_map_with_row_padding() {
    compare_maps(77, 100);
    compare_maps(8, 70);
}

#[test]
fn make_map_keeps_one_terrain_per_cell() {
    let mut m = MapMaker::new(11, 192, 192);
    assert!(m.make_map());
    for i in 0..1152 {
        for a in 1..=15 {
            for b in (a + 1)..=15 {
                assert_eq!(m.bb[a * 1152 + i] & m.bb[b * 1152 + i], 0);
            }
        }
    }
}

#[test]
fn staged_generation_with_outside_smoothing_matches_make_map() {
    // The stages with the smoothing masks computed elsewhere (as the GPU
    // does) give the layers of `make_map`.
    for seed in [0, 9, 31337] {
        let mut whole = MapMaker::new(seed, 192, 192);
        assert!(whole.make_map());
        let mut staged = MapMaker::new(seed, 192, 192);
        let smooth = |m: &mut MapMaker, t: Terrain, lo: i32, hi: i32, c: CType| {
            let mut g = Game::new(0, 192, 192);
            for l in 0..20 {
                g.bb[l].copy_from_slice(&layer(m, l));
            }
            let o = g.smooth_mask(t.index(), lo, hi, kind(c));
            let before = m.layer_words(t);
            assert_eq!(before, layer(m, t.index()));
            m.apply_optimized(t, &o);
        };
        staged.stage_fertile();
        smooth(&mut staged, Terrain::FertileSoil, 2, 4, CType::AllTrue);
        assert!(staged.stage_water());
        smooth(&mut staged, Terrain::ShallowWater, 2, 6, CType::CheckCon);
        assert!(staged.stage_rock());
        smooth(&mut staged, Terrain::RockBrown, 2, 9, CType::NoBorn);
        staged.stage_stone();
        smooth(&mut staged, Terrain::StoneLand, 2, 9, CType::CheckCon);
        assert!(staged.stage_ling());
        for t in 1..=17 {
            assert_eq!(layer(&staged, t), layer(&whole, t), "seed {seed} layer {t}");
        }
    }
}

#[test]
fn ctype_words_are_the_kind_masks() {
    let mut m = MapMaker::new(4, 100, 40);
    assert!(m.make_map());
    let mut g = Game::new(0, 100, 40);
    for l in 0..20 {
        g.bb[l].copy_from_slice(&layer(&m, l));
    }
    for c in [CType::AllTrue, CType::NoBorn, CType::CheckCon, CType::CheckCon2] {
        let v = m.ctype_words(c);
        assert_eq!(v.len(), 1152);
        for w in 0..(4 * 40) {
            assert_eq!(v[w], g.get_ctype_mask(w, kind(c)), "word {w}");
        }
    }
}

#[test]
fn apply_optimized_paints_and_clears() {
    let mut m = MapMaker::new(1, 64, 2);
    let mut o = vec![0u32; 1152];
    o[0] = 0b1011;
    o[3] = 0x8000_0001;
    m.apply_optimized(Terrain::Mud, &o);
    assert_eq!(m.bb[5 * 1152], 0b1011);
    assert_eq!(m.bb[5 * 1152 + 3], 0x8000_0001);
    o[0] = 0b0110;
    m.apply_optimized(Terrain::Soil, &o);
    assert_eq!(m.bb[1152], 0b0110);
    assert_eq!(m.bb[5 * 1152], 0b1001);
    assert_eq!(m.bb[5 * 1152 + 3], 0);
    assert_eq!(m.bb[1152 + 3], 0x8000_0001);
}

#[test]
fn count_in_range_mask_counts_neighbours() {
    let words: [u32; 8] = [0xF0F0_1234, 0x0FF0_AAAA, 0x1357_9BDF, 0xFFFF_0000, 0x0000_FFFF, 0x8421_8421, 0xDEAD_BEEF, 0x0F0F_F0F0];
    for (lo, hi) in [(2, 4), (2, 6), (2, 8), (2, 9), (0, 8), (3, 3), (5, 3), (1, 7), (8, 8), (0, 0)] {
        let r = count_in_range_mask(words[0], words[1], words[2], words[3], words[4], words[5], words[6], words[7], lo, hi);
        for j in 0..32 {
            let c: u32 = words.iter().map(|w| (w >> j) & 1).sum();
            assert_eq!((r >> j) & 1 == 1, lo <= c && c <= hi, "bit {j} range {lo}..{hi}");
        }
    }
}

#[test]
fn scan_seed_counts_spirit_soil() {
    let mut m = MapMaker::new(0, 96, 96);
    let r = scan_seed(&mut m, 12345, 0).unwrap().unwrap();
    assert_eq!(r.0, 12345);
    assert_eq!(r.1, count_lingsoil(&m.grid));
    assert_eq!(r.1, m.grid.iter().filter(|&&t| t == Terrain::LingSoil).count());
    let high = scan_seed(&mut m, 12345, r.1 + 1).unwrap();
    assert!(high.is_none());
}

#[test]
fn ranking_sorts_by_count() {
    let v = vec![(1, 5), (2, 9), (3, 1), (4, 9), (5, 7)];
    let r = rank_by_count(&v);
    let counts: Vec<usize> = r.iter().map(|p| p.1).collect();
    assert_eq!(counts, vec![9, 9, 7, 5, 1]);
    let mut seeds: Vec<i32> = r.iter().map(|p| p.0).collect();
    seeds.sort();
    assert_eq!(seeds, vec![1, 2, 3, 4, 5]);
    assert!(rank_by_count(&vec![]).is_empty());
}

#[test]
fn spirit_soil_cells_are_the_layer_bits() {
    for seed in [5, 600] {
        let mut m = MapMaker::new(seed, 192, 192);
        assert!(m.make_map());
        let layer_bits: u32 = m.layer_words(Terrain::LingSoil).iter().map(|w| w.count_ones()).sum();
        assert_eq!(layer_bits as usize, count_lingsoil(&m.grid));
        for y in 0..192usize {
            for x in 0..192usize {
                let set = (m.bb[7 * 1152 + y * 6 + x / 32] >> (x % 32)) & 1 == 1;
                assert_eq!(m.grid[y * 192 + x] == Terrain::LingSoil, set);
            }
        }
    }
}

#[test]
fn every_cell_has_a_terrain() {
    for &(seed, w, h) in &[(1, 192, 192), (77, 96, 96), (-5, 70, 100)] {
        let mut m = MapMaker::new(seed, w, h);
        assert!(m.make_map());
        assert_eq!(m.grid.len(), (w * h) as usize);
        for t in &m.grid {
            assert!(*t != Terrain::Null && *t != Terrain::WetLand);
        }
    }
}

#[test]
fn map_depends_only_on_seed() {
    let mut a = MapMaker::new(4242, 128, 128);
    assert!(a.make_map());
    let mut b = MapMaker::new(9, 128, 128);
    assert!(b.make_map());
    b.reset(4242);
    assert!(b.make_map());
    assert!(a.grid == b.grid);
    assert!(a.b_space == b.b_space);
    assert!(a.b_line == b.b_line);
}

#[test]
fn spiral_covers_each_square_once() {
    let b = get_base_around_50();
    for r in [0i32, 1, 2, 5, 50] {
        let n = ((2 * r + 1) * (2 * r + 1)) as usize;
        let mut seen = std::collections::HashSet::new();
        for &(x, y) in &b[..n] {
            assert!(x.abs() <= r && y.abs() <= r);
            assert!(seen.insert((x, y)));
        }
        assert_eq!(seen.len(), n);
    }
    for k in 0..b.len() - 1 {
        let (dx, dy) = (b[k + 1].0 - b[k].0, b[k + 1].1 - b[k].1);
        assert_eq!(dx.abs() + dy.abs(), 1);
    }
}
