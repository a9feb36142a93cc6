use seed_finder::rng::{DotNetRandom, GMathUtl, GRandom, RandomType};

/// The game's subtractive generator with its floating-point scaling.
struct FloatDotNet {
    inext: usize,
    inextp: usize,
    seed_array: [i32; 56],
}

impl FloatDotNet {
    fn new(seed: i32) -> Self {
        let mut r = Self { inext: 0, inextp: 31, seed_array: [0; 56] };
        let mut mj = 161803398i32.wrapping_sub(seed.saturating_abs());
        r.seed_array[55] = mj;
        let mut mk = 1i32;
        for i in 1..55 {
            let ii = (21 * i) % 55;
            r.seed_array[ii] = mk;
            mk = mj.wrapping_sub(mk);
            if mk < 0 {
                mk = mk.wrapping_add(i32::MAX);
            }
            mj = r.seed_array[ii];
        }
        for _ in 1..5 {
            for k in 1..56 {
                let mut val = r.seed_array[k].wrapping_sub(r.seed_array[1 + (k + 30) % 55]);
                if val < 0 {
                    val = val.wrapping_add(i32::MAX);
                }
                r.seed_array[k] = val;
            }
        }
        r
    }

    fn step(&mut self, guard: bool) -> i32 {
        self.inext = if self.inext + 1 == 56 { 1 } else { self.inext + 1 };
        self.inextp = if self.inextp + 1 == 56 { 1 } else { self.inextp + 1 };
        let mut n = self.seed_array[self.inext].wrapping_sub(self.seed_array[self.inextp]);
        if guard && n == i32::MAX {
            n -= 1;
        }
        if n < 0 {
            n = n.wrapping_add(i32::MAX);
        }
        self.seed_array[self.inext] = n;
        n
    }

    fn next_double(&mut self) -> f64 {
        self.step(true) as f64 * 4.656612875245797e-10
    }

    fn next_range(&mut self, mut mi: i32, mut ma: i32) -> i32 {
        if mi > ma {
            std::mem::swap(&mut mi, &mut ma);
        }
        let diff = ma as i64 - mi as i64;
        if diff <= 1 {
            return mi;
        }
        let n = self.step(false);
        ((n as f64 * 4.656612875245797e-10 * diff as f64) as u32).wrapping_add(mi as u32) as i32
    }

    fn next_range_strict(&mut self, mut mi: i32, mut ma: i32) -> i32 {
        if mi > ma {
            std::mem::swap(&mut mi, &mut ma);
        }
        ((self.next_double() * (ma as i64 - mi as i64) as f64) as i64 + mi as i64) as i32
    }
}

/// The game's linear congruential generator with its floating-point scaling.
struct FloatGRandom {
    seed: u32,
}

impl FloatGRandom {
    fn rand(&mut self) -> u32 {
        self.seed = (self.seed as u64).wrapping_mul(1103515245).wrapping_add(12345) as u32;
        self.seed = (self.seed << 16) | (self.seed >> 16);
        self.seed
    }

    fn rand_range(&mut self, mut min: i32, mut max: i32) -> i32 {
        if min > max {
            std::mem::swap(&mut min, &mut max);
        }
        let num2 = ((self.rand() as f64 / 4294967295.0) * (max as f64 - min as f64 + 1.0)) as u32;
        let mut num3 = num2.wrapping_add(min as u32) as i32;
        if num3 > max {
            num3 = max;
        }
        num3
    }
}

const SEEDS: [i32; 10] = [0, 1, 2, 42, -7, 123456789, -987654321, i32::MAX, i32::MIN, 161803398];

const RANGES: [(i32, i32); 14] = [
    (0, 100),
    (0, 192),
    (-3, 2),
    (-2, 3),
    (76, 133),
    (5, 15),
    (1, 3),
    (7, 7),
    (10, 3),
    (0, 1),
    (i32::MIN, i32::MAX),
    (-1_000_000_000, 1_500_000_000),
    (0, i32::MAX),
    (i32::MAX, i32::MIN),
];

#[test]
fn next_range_matches_floating_point() {
    for &seed in SEEDS.iter() {
        let mut lib = DotNetRandom::new(seed);
        let mut float_gen = FloatDotNet::new(seed);
        for k in 0..600 {
            let (mi, ma) = RANGES[k % RANGES.len()];
            assert_eq!(lib.next_range(mi, ma), float_gen.next_range(mi, ma), "seed {seed} draw {k}");
        }
    }
}

#[test]
fn next_range_strict_matches_floating_point() {
    for &seed in SEEDS.iter() {
        let mut lib = DotNetRandom::new(seed);
        let mut float_gen = FloatDotNet::new(seed);
        for k in 0..600 {
            let (mi, ma) = RANGES[k % RANGES.len()];
            assert_eq!(
                lib.next_range_strict(mi, ma),
                float_gen.next_range_strict(mi, ma),
                "seed {seed} draw {k}"
            );
        }
    }
}

#[test]
fn next_sample_scales_to_next_double() {
    for &seed in SEEDS.iter() {
        let mut lib = DotNetRandom::new(seed);
        let mut float_gen = FloatDotNet::new(seed);
        for _ in 0..300 {
            let d = lib.next_sample() as f64 * 4.656612875245797e-10;
            assert_eq!(d, float_gen.next_double());
            assert!((0.0..1.0).contains(&d));
        }
    }
}

#[test]
fn advance_discards_samples() {
    let mut a = DotNetRandom::new(2024);
    let mut b = DotNetRandom::new(2024);
    a.advance(3);
    for _ in 0..3 {
        b.next_sample();
    }
    for _ in 0..50 {
        assert_eq!(a.next_range(0, 1000), b.next_range(0, 1000));
    }
}

#[test]
fn next_range_stays_in_bounds() {
    for &seed in SEEDS.iter() {
        let mut r = DotNetRandom::new(seed);
        for k in 0..2000 {
            let (mi, ma) = RANGES[k % RANGES.len()];
            let (lo, hi) = if mi <= ma { (mi, ma) } else { (ma, mi) };
            let v = r.next_range(mi, ma);
            assert!(lo <= v && v <= hi);
            if (hi as i64) - (lo as i64) > 1 {
                assert!(v < hi, "{v} reached the upper bound {hi}");
            } else {
                assert_eq!(v, lo);
            }
        }
    }
}

#[test]
fn next_range_strict_stays_below_the_bound() {
    for &seed in SEEDS.iter() {
        let mut r = DotNetRandom::new(seed);
        for k in 0..2000 {
            let lo = (k as i32 % 50) - 25;
            let hi = lo + 1 + (k as i32 % 97);
            let v = r.next_range_strict(lo, hi);
            assert!(lo <= v && v < hi);
        }
        assert_eq!(r.next_range_strict(9, 9), 9);
    }
}

#[test]
fn gmathutl_draws_like_next_range() {
    for &seed in SEEDS.iter() {
        let mut g = GMathUtl::new(seed);
        let mut d = DotNetRandom::new(seed);
        for k in 0..300 {
            let (mi, ma) = RANGES[k % RANGES.len()];
            let kind = if k % 2 == 0 { RandomType::EmNone } else { RandomType::EmJianghu };
            assert_eq!(g.random_range_int(mi, ma, kind, "tag"), d.next_range(mi, ma));
        }
    }
}

#[test]
fn grandom_rand_is_rotated_lcg() {
    let mut g = GRandom::new(1);
    let s = 1u32.wrapping_mul(1103515245).wrapping_add(12345);
    assert_eq!(g.rand(), s.rotate_left(16));
    assert_eq!(g.seed, s.rotate_left(16));
}

#[test]
fn grandom_rand_range_matches_floating_point() {
    for &seed in [0u32, 1, 7, 12345, 0xdead_beef, u32::MAX, 0x8000_0000].iter() {
        let mut lib = GRandom::new(seed);
        let mut float_gen = FloatGRandom { seed };
        for k in 0..3000 {
            let (mi, ma) = RANGES[k % RANGES.len()];
            assert_eq!(lib.rand_range(mi, ma), float_gen.rand_range(mi, ma), "seed {seed} draw {k}");
        }
    }
}

#[test]
fn grandom_rand_range_within_bounds() {
    let mut g = GRandom::new(99);
    for k in 0..5000 {
        let lo = (k % 200) - 100;
        let hi = lo + (k % 13);
        let v = g.rand_range(hi, lo);
        assert!(lo <= v && v <= hi);
    }
}

#[test]
fn grandom_largest_draw_at_the_top_of_the_range() {
    // The state 0x0dbdbb1e draws u32::MAX next: the ratio is exactly 1, so
    // the scaled draw is the whole width of the range.  Below i32::MAX the
    // clamp keeps it at the upper bound; at i32::MAX it wraps around.
    let mut g = GRandom::new(0x0dbd_bb1e);
    assert_eq!(g.rand_range(5, 10), 10);
    let mut g = GRandom::new(0x0dbd_bb1e);
    assert_eq!(g.rand_range(-100, 1_000_000), 1_000_000);
    let mut g = GRandom::new(0x0dbd_bb1e);
    let mut f = FloatGRandom { seed: 0x0dbd_bb1e };
    assert_eq!(g.rand_range(0, i32::MAX), i32::MIN);
    assert_eq!(f.rand_range(0, i32::MAX), i32::MIN);
}

#[test]
fn grandom_range_ignores_bound_order() {
    let mut g1 = seed_finder::rng::GRandom::new(0);
    let mut g2 = seed_finder::rng::GRandom::new(0);
    assert_eq!(g1.rand_range(0, 9), 1);
    assert_eq!(g2.rand_range(9, 0), 1);
    assert_eq!(g1.seed, g2.seed);
    for _ in 0..50 {
        assert_eq!(g1.rand_range(-7, 40), g2.rand_range(40, -7));
    }
}

#[test]
fn advances_add_up() {
    let mut a = seed_finder::rng::DotNetRandom::new(1234);
    let mut b = seed_finder::rng::DotNetRandom::new(1234);
    a.advance(3);
    a.advance(5);
    b.advance(8);
    assert_eq!(a.next_sample(), b.next_sample());
}

#[test]
fn strict_draw_agrees_with_range_draw() {
    let mut a = seed_finder::rng::DotNetRandom::new(99);
    let mut b = seed_finder::rng::DotNetRandom::new(99);
    for k in 2..40 {
        assert_eq!(a.next_range_strict(-k, 3 * k), b.next_range(-k, 3 * k));
    }
}
