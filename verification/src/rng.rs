//! The game's two pseudo-random generators: a rotated linear congruential
//! generator (`GRandom`) and the subtractive generator of .NET's
//! `System.Random` (`DotNetRandom`), wrapped by `GMathUtl`.
//!
//! Where the game scales a sample by floating-point arithmetic, the scaling is
//! computed exactly in integers (see `crate::rounding`), so every result here
//! is the bit-exact value the game obtains.
use vstd::prelude::*;
use crate::rounding::{
    bit_length, lemma_bit_length_above, lemma_bit_length_below, lemma_bit_length_mono,
    lemma_round_div_le_multiple, lemma_round_sig_bounds, lemma_round_sig_le_multiple,
    lemma_two_pow_adds, lemma_two_pow_mono, lemma_two_pow_pos, lemma_two_pow_values,
    round_half_even_div, round_ratio_sig, round_ratio_sig_u128, round_sig, round_sig_u128, two_pow,
};

verus! {

/// `int.MaxValue`, the modulus of the subtractive generator.
pub const MBIG: i32 = 2147483647;

/// The seed constant of the subtractive generator.
pub const MSEED: i32 = 161803398;

/// Callers tag each draw with a category; the draw does not depend on it.
#[derive(Clone, Copy, Debug, PartialEq, Eq, Hash, Structural)]
pub enum RandomType {
    EmNone,
    EmJianghu,
}

/// `x` reduced to the `i32` with the same value modulo `2^32`.
pub open spec fn wrap_i32(x: int) -> i32 {
    (((x - i32::MIN) % 0x1_0000_0000) + i32::MIN) as i32
}

/// Exec form of `wrap_i32`.
pub fn wrap_i32_exec(x: i64) -> (r: i32)
    requires
        -0x100_0000_0000 < x < 0x100_0000_0000,
    ensures
        r == wrap_i32(x as int),
{
    let y: i64 = x + 0x100_0000_0000 + 0x8000_0000;
    let m: i64 = y % 0x1_0000_0000;
    assert(m == (x - i32::MIN) % 0x1_0000_0000) by {
        assert(y == (x - i32::MIN) + 256 * 0x1_0000_0000);
    }
    (m - 0x8000_0000) as i32
}

/// `x` as a `u32`, with values above `u32::MAX` clamped (Rust's saturating
/// float-to-integer conversion).
pub open spec fn saturate_u32(x: nat) -> nat {
    if x > u32::MAX {
        u32::MAX as nat
    } else {
        x
    }
}

// ------------------------------------------------------------------
// GRandom
// ------------------------------------------------------------------

/// A linear congruential generator whose output halves are swapped.
pub struct GRandom {
    pub seed: u32,
}

/// The successor of a `GRandom` state: `seed * 1103515245 + 12345` modulo
/// `2^32`, then its 16-bit halves swapped.
pub open spec fn grandom_next(seed: u32) -> u32 {
    let s = (seed as nat * 1103515245 + 12345) % 0x1_0000_0000;
    ((s % 0x1_0000) * 0x1_0000 + s / 0x1_0000) as u32
}

/// `4294967295.0` as a divisor.
pub open spec fn u32_max_nat() -> nat {
    0xffff_ffff
}

/// `(r / 4294967295.0) * g` in `f64`, truncated toward zero, for an integer
/// sample `r` and an integer factor `g`: the quotient rounded to 53 bits,
/// then the product rounded to 53 bits (both at scale `2^-86`).
pub open spec fn unit_ratio_times(r: nat, g: nat) -> nat {
    if r == 0 {
        0
    } else {
        round_sig(round_ratio_sig(r, u32_max_nat(), 86, 53) * g, 53) / two_pow(86)
    }
}

/// The value of `GRandom::rand_range(min, max)` for the draw `r`.
pub open spec fn grandom_range_value(r: u32, min: i32, max: i32) -> i32 {
    let lo = if min > max { max } else { min };
    let hi = if min > max { min } else { max };
    let g = hi - lo + 1;
    let v = wrap_i32(saturate_u32(unit_ratio_times(r as nat, g as nat)) + lo);
    if v > hi {
        hi
    } else {
        v
    }
}

/// The scaled draw never exceeds the factor: `(r / 4294967295.0) * g` in
/// `f64` is at most `g` for every 32-bit `r`.
proof fn lemma_unit_ratio_times_le(r: nat, g: nat)
    requires
        r <= 0xffff_ffff,
        1 <= g <= 0x1_0000_0000,
    ensures
        unit_ratio_times(r, g) <= g,
{
    if r > 0 {
        lemma_two_pow_values();
        let b = u32_max_nat();
        let p86 = two_pow(86);
        let n = r * p86;
        assert(n <= b * p86) by (nonlinear_arith)
            requires
                r <= b,
                n == r * p86,
        ;
        assert(n >= p86) by (nonlinear_arith)
            requires
                r >= 1,
                n == r * p86,
        ;
        let qd = n / b;
        vstd::arithmetic::div_mod::lemma_div_is_ordered(n as int, (b * p86) as int, b as int);
        vstd::arithmetic::div_mod::lemma_div_by_multiple(p86 as int, b as int);
        assert((b * p86) / b == p86) by {
            vstd::arithmetic::mul::lemma_mul_is_commutative(b as int, p86 as int);
        }
        assert(qd <= p86);
        lemma_two_pow_adds(86, 1);
        lemma_bit_length_below(qd, 87);
        vstd::arithmetic::div_mod::lemma_div_is_ordered(p86 as int, n as int, b as int);
        assert(p86 / b >= 0x40_0000_0000_0000);
        lemma_two_pow_adds(32, 22);
        lemma_two_pow_adds(16, 6);
        assert(two_pow(54) == 0x40_0000_0000_0000);
        lemma_bit_length_above(qd, 54);
        let s1 = (bit_length(qd) - 53) as nat;
        assert(s1 <= 34);
        let d1 = two_pow(s1);
        lemma_two_pow_pos(s1);
        let k1 = two_pow((86 - s1) as nat);
        lemma_two_pow_adds((86 - s1) as nat, s1);
        assert(k1 * d1 == p86);
        assert(n <= k1 * (b * d1)) by (nonlinear_arith)
            requires
                n <= b * p86,
                k1 * d1 == p86,
        ;
        lemma_round_div_le_multiple(n, b * d1, k1);
        let q = round_ratio_sig(r, b, 86, 53);
        assert(q == round_half_even_div(n, b * d1) * d1);
        assert(q <= p86) by (nonlinear_arith)
            requires
                q == round_half_even_div(n, b * d1) * d1,
                round_half_even_div(n, b * d1) <= k1,
                k1 * d1 == p86,
        ;
        let x = q * g;
        let y = g * p86;
        assert(x <= y) by (nonlinear_arith)
            requires
                q <= p86,
                x == q * g,
                y == g * p86,
        ;
        lemma_two_pow_adds(86, 33);
        assert(two_pow(33) == 0x2_0000_0000) by {
            lemma_two_pow_adds(32, 1);
        }
        assert(y < two_pow(119)) by (nonlinear_arith)
            requires
                g <= 0x1_0000_0000,
                y == g * p86,
                p86 > 0,
                two_pow(119) == p86 * 0x2_0000_0000,
        ;
        lemma_bit_length_mono(x, y);
        lemma_bit_length_below(y, 119);
        if bit_length(x) > 53 {
            let s2 = (bit_length(x) - 53) as nat;
            assert(s2 <= 66);
            lemma_two_pow_adds((86 - s2) as nat, s2);
            let m = g * two_pow((86 - s2) as nat);
            assert(y == m * two_pow(s2)) by (nonlinear_arith)
                requires
                    y == g * p86,
                    p86 == two_pow((86 - s2) as nat) * two_pow(s2),
                    m == g * two_pow((86 - s2) as nat),
            ;
            vstd::arithmetic::div_mod::lemma_mod_multiples_basic(m as int, two_pow(s2) as int);
        }
        lemma_round_sig_le_multiple(x, 53, y);
        vstd::arithmetic::div_mod::lemma_div_is_ordered(round_sig(x, 53) as int, y as int, p86 as int);
        vstd::arithmetic::div_mod::lemma_div_by_multiple(g as int, p86 as int);
    }
}

/// The order of the bounds does not matter to a range draw: the draw is
/// scaled into the same span either way.
pub proof fn law_rand_range_symmetric(r: u32, a: i32, b: i32)
    ensures
        grandom_range_value(r, a, b) == grandom_range_value(r, b, a),
{
}

/// `GRandom::rand_range` stays within its bounds when the upper bound is
/// below `i32::MAX` (at `i32::MAX` the largest draw wraps past it).
pub proof fn law_rand_range_within(r: u32, min: i32, max: i32)
    requires
        min < i32::MAX,
        max < i32::MAX,
    ensures
        ({
            let v = grandom_range_value(r, min, max);
            &&& min <= max ==> min <= v <= max
            &&& max < min ==> max <= v <= min
        }),
{
    let lo = if min > max { max } else { min };
    let hi = if min > max { min } else { max };
    let g = hi - lo + 1;
    lemma_unit_ratio_times_le(r as nat, g as nat);
    let t = saturate_u32(unit_ratio_times(r as nat, g as nat));
    let z = t + lo;
    assert(lo <= z <= hi + 1);
    assert(wrap_i32(z) == z) by {
        vstd::arithmetic::div_mod::lemma_small_mod((z - i32::MIN) as nat, 0x1_0000_0000);
    }
}

impl GRandom {
    pub fn new(seed: u32) -> (r: Self)
        ensures
            r.seed == seed,
    {
        Self { seed }
    }

    /// Advances the generator and returns the new state.
    pub fn rand(&mut self) -> (r: u32)
        ensures
            r == grandom_next(old(self).seed),
            final(self).seed == r,
    {
        let s: u64 = ((self.seed as u64) * 1103515245 + 12345) % 0x1_0000_0000;
        let rotated: u64 = (s % 0x1_0000) * 0x1_0000 + s / 0x1_0000;
        self.seed = rotated as u32;
        self.seed
    }

    /// A draw scaled into `[min, max]` (the bounds are swapped when given in
    /// reverse order).
    pub fn rand_range(&mut self, min: i32, max: i32) -> (r: i32)
        ensures
            final(self).seed == grandom_next(old(self).seed),
            r == grandom_range_value(final(self).seed, min, max),
            min <= max < i32::MAX ==> min <= r <= max,
            max < min < i32::MAX ==> max <= r <= min,
    {
        proof {
            if min < i32::MAX && max < i32::MAX {
                law_rand_range_within(grandom_next(self.seed), min, max);
            }
        }
        let (lo, hi) = if min > max {
            (max, min)
        } else {
            (min, max)
        };
        let r = self.rand();
        let g: u64 = (hi as i64 - lo as i64 + 1) as u64;
        let t = unit_ratio_times_exec(r, g);
        let sat: u64 = if t > 0xffff_ffff {
            0xffff_ffff
        } else {
            t as u64
        };
        let v = wrap_i32_exec(sat as i64 + lo as i64);
        if v > hi {
            hi
        } else {
            v
        }
    }
}

fn unit_ratio_times_exec(r: u32, g: u64) -> (t: u128)
    requires
        1 <= g <= 0x1_0000_0000,
    ensures
        t == unit_ratio_times(r as nat, g as nat),
{
    if r == 0 {
        return 0;
    }
    proof {
        lemma_two_pow_values();
        let n: nat = r as nat * two_pow(86);
        assert(n >= two_pow(86));
        assert(n / u32_max_nat() >= two_pow(86) / u32_max_nat()) by {
            vstd::arithmetic::div_mod::lemma_div_is_ordered(
                two_pow(86) as int,
                n as int,
                u32_max_nat() as int,
            );
        }
        assert(two_pow(86) / u32_max_nat() >= 0x40_0000_0000_0000);
        lemma_two_pow_adds(32, 22);
        lemma_two_pow_adds(16, 6);
        assert(two_pow(54) == 0x40_0000_0000_0000);
        lemma_bit_length_above(n / u32_max_nat(), 54);
        assert(r as nat * two_pow(86) < 0x8000_0000_0000_0000_0000_0000_0000_0000) by (
        nonlinear_arith)
            requires
                r <= 0xffff_ffff,
                two_pow(86) == 0x40_0000_0000_0000_0000_0000,
        ;
    }
    let q = round_ratio_sig_u128(r as u128, 0xffff_ffff, 86, 53);
    proof {
        assert(q <= 0x80_0000_0000_0000_0000_0000) by (nonlinear_arith)
            requires
                q * 0xffff_ffff <= 2 * (r as nat * two_pow(86)),
                r <= 0xffff_ffff,
                two_pow(86) == 0x40_0000_0000_0000_0000_0000,
        ;
        assert(q * g <= 0x80_0000_0000_0000_0000_0000 * 0x1_0000_0000) by (nonlinear_arith)
            requires
                q <= 0x80_0000_0000_0000_0000_0000,
                g <= 0x1_0000_0000,
        ;
    }
    let x = round_sig_u128(q * (g as u128), 53);
    x / 0x40_0000_0000_0000_0000_0000
}

// ------------------------------------------------------------------
// DotNetRandom
// ------------------------------------------------------------------

/// The subtractive generator of .NET's `System.Random`.
pub struct DotNetRandom {
    inext: usize,
    inextp: usize,
    seed_array: Vec<i32>,
}

/// Abstract state of a `DotNetRandom`.
pub struct RngModel {
    pub sa: Seq<i32>,
    pub inext: int,
    pub inextp: int,
}

impl View for DotNetRandom {
    type V = RngModel;

    closed spec fn view(&self) -> RngModel {
        RngModel { sa: self.seed_array@, inext: self.inext as int, inextp: self.inextp as int }
    }
}

impl RngModel {
    /// A state the generator can be in: 56 cells and two cursors into them.
    pub open spec fn wf(self) -> bool {
        &&& self.sa.len() == 56
        &&& 0 <= self.inext < 56
        &&& 0 <= self.inextp < 56
    }
}

/// `|seed|`, with `i32::MIN` mapped to `i32::MAX`.
pub open spec fn saturating_abs(seed: i32) -> int {
    if seed == i32::MIN {
        i32::MAX as int
    } else if seed < 0 {
        -seed
    } else {
        seed as int
    }
}

/// First seeding pass: cells `21 * i % 55` for `i` in `i..55` receive the
/// running differences.
pub open spec fn seed_fill(sa: Seq<i32>, mj: int, mk: int, i: nat) -> Seq<i32>
    decreases 55 - i,
{
    if i >= 55 {
        sa
    } else {
        let ii = ((21 * i) % 55) as int;
        let nk = if mj - mk < 0 {
            mj - mk + MBIG
        } else {
            mj - mk
        };
        seed_fill(sa.update(ii, mk as i32), mk, nk, i + 1)
    }
}

/// One mixing step: cell `k` minus cell `1 + (k + 30) % 55` (wrapping),
/// brought back to nonnegative by adding `MBIG`.
pub open spec fn mix_value(sa: Seq<i32>, k: int) -> i32 {
    let v = vstd::wrapping::i32_specs::wrapping_sub(sa[k], sa[1 + (k + 30) % 55]);
    if v < 0 {
        (v + MBIG) as i32
    } else {
        v
    }
}

/// Mixing of cells `k..56` in order.
pub open spec fn mix_pass(sa: Seq<i32>, k: nat) -> Seq<i32>
    decreases 56 - k,
{
    if k >= 56 {
        sa
    } else {
        mix_pass(sa.update(k as int, mix_value(sa, k as int)), k + 1)
    }
}

/// `rounds` full mixing passes over cells `1..56`.
pub open spec fn mix_rounds(sa: Seq<i32>, rounds: nat) -> Seq<i32>
    decreases rounds,
{
    if rounds == 0 {
        sa
    } else {
        mix_rounds(mix_pass(sa, 1), (rounds - 1) as nat)
    }
}

/// The cells after seeding with `seed`.
pub open spec fn seeded_cells(seed: i32) -> Seq<i32> {
    let mj = MSEED - saturating_abs(seed);
    let init = Seq::new(56, |j: int| if j == 55 { mj as i32 } else { 0i32 });
    mix_rounds(seed_fill(init, mj, 1, 1), 4)
}

/// The state of a generator freshly seeded with `seed`.
pub open spec fn seeded(seed: i32) -> RngModel {
    RngModel { sa: seeded_cells(seed), inext: 0, inextp: 31 }
}

pub open spec fn next_index(i: int) -> int {
    if i + 1 == 56 {
        1
    } else {
        i + 1
    }
}

/// One step of the generator: both cursors advance (cycling over `1..56`),
/// the difference of their cells (wrapping) is brought into range, stored in
/// the first cursor's cell and returned.  `guard_max` selects the variant of
/// `Sample()` that maps `MBIG` to `MBIG - 1`; the range draw omits it.
pub open spec fn sample_step(m: RngModel, guard_max: bool) -> (i32, RngModel) {
    let i = next_index(m.inext);
    let p = next_index(m.inextp);
    let n0 = vstd::wrapping::i32_specs::wrapping_sub(m.sa[i], m.sa[p]) as int;
    let n1 = if guard_max && n0 == MBIG {
        n0 - 1
    } else {
        n0
    };
    let n = if n1 < 0 {
        n1 + MBIG
    } else {
        n1
    };
    (n as i32, RngModel { sa: m.sa.update(i, n as i32), inext: i, inextp: p })
}

/// The state after `k` samples.
pub open spec fn advance_model(m: RngModel, k: nat) -> RngModel
    decreases k,
{
    if k == 0 {
        m
    } else {
        advance_model(sample_step(m, true).1, (k - 1) as nat)
    }
}

/// The significand of the sample scale `4.656612875245797e-10`, which is
/// exactly `2147483649 / 2^62`.
pub open spec fn sample_scale() -> nat {
    2147483649
}

/// `(n * 4.656612875245797e-10) * d` in `f64`, truncated toward zero, for
/// integers `n` and `d`: the first product rounded to 53 bits, then the
/// second, at scale `2^-62`.
pub open spec fn scaled_sample(n: nat, d: nat) -> nat {
    round_sig(round_sig(n * sample_scale(), 53) * d, 53) / two_pow(62)
}

/// The same for a sample of either sign (truncation is symmetric).
pub open spec fn scaled_sample_signed(n: int, d: nat) -> int {
    if n >= 0 {
        scaled_sample(n as nat, d) as int
    } else {
        -(scaled_sample((-n) as nat, d) as int)
    }
}

/// `Next(mi, ma)`: the bounds ordered; for a range of at most one the lower
/// bound without a draw; otherwise one range step whose sample is scaled by
/// the range and added (wrapping) to the lower bound.  A negative sample
/// scales to 0.
pub open spec fn next_range_model(m: RngModel, mi: i32, ma: i32) -> (i32, RngModel) {
    let lo = if mi > ma { ma } else { mi };
    let hi = if mi > ma { mi } else { ma };
    let d = hi - lo;
    if d <= 1 {
        (lo, m)
    } else {
        let (n, m2) = sample_step(m, false);
        let t = if n < 0 {
            0
        } else {
            saturate_u32(scaled_sample(n as nat, d as nat))
        };
        (wrap_i32(t + lo), m2)
    }
}

/// `((NextDouble() * (ma - mi)) as i64 + mi) as i32` with the bounds ordered.
pub open spec fn next_range_strict_model(m: RngModel, mi: i32, ma: i32) -> (i32, RngModel) {
    let lo = if mi > ma { ma } else { mi };
    let hi = if mi > ma { mi } else { ma };
    let (n, m2) = sample_step(m, true);
    (wrap_i32(scaled_sample_signed(n as int, (hi - lo) as nat) + lo), m2)
}

proof fn lemma_scaled_sample_bound(n: nat, d: nat)
    requires
        n <= 0x8000_0000,
        d <= 0x2_0000_0000,
    ensures
        round_sig(n * sample_scale(), 53) <= 0x1_0000_0000_0000_0000,
        round_sig(n * sample_scale(), 53) * d <= 0x2_0000_0000_0000_0000_0000_0000,
        scaled_sample(n, d) <= 0x10_0000_0000,
{
    lemma_round_sig_bounds(n * sample_scale(), 53);
    let x1 = round_sig(n * sample_scale(), 53);
    assert(n * sample_scale() <= 0x8000_0000 * 2147483649) by (nonlinear_arith)
        requires
            n <= 0x8000_0000,
    ;
    assert(x1 * d <= 0x1_0000_0000_0000_0000 * 0x2_0000_0000) by (nonlinear_arith)
        requires
            x1 <= 0x1_0000_0000_0000_0000,
            d <= 0x2_0000_0000,
    ;
    lemma_round_sig_bounds(x1 * d, 53);
    lemma_two_pow_values();
}

/// Exec form of `scaled_sample`.
fn scaled_sample_exec(n: u32, d: u64) -> (r: u64)
    requires
        n <= 0x8000_0000,
        d <= 0x2_0000_0000,
    ensures
        r == scaled_sample(n as nat, d as nat),
        r <= 0x10_0000_0000,
{
    proof {
        lemma_scaled_sample_bound(n as nat, d as nat);
        lemma_two_pow_values();
    }
    let x1 = round_sig_u128((n as u128) * 2147483649, 53);
    let x2 = round_sig_u128(x1 * (d as u128), 53);
    (x2 / 0x4000_0000_0000_0000) as u64
}

impl DotNetRandom {
    pub open spec fn wf(&self) -> bool {
        self@.wf()
    }

    /// Seeds the generator as `new System.Random(seed)` does.
    pub fn new(seed: i32) -> (r: Self)
        ensures
            r.wf(),
            r@ == seeded(seed),
    {
        let abs: i32 = if seed == i32::MIN {
            MBIG
        } else if seed < 0 {
            -seed
        } else {
            seed
        };
        let mj0: i32 = MSEED - abs;
        let mut sa: Vec<i32> = Vec::new();
        let mut j: usize = 0;
        while j < 56
            invariant
                j <= 56,
                sa.len() == j,
                forall|x: int| 0 <= x < j ==> sa@[x] == 0i32,
            decreases 56 - j,
        {
            sa.push(0);
            j = j + 1;
        }
        sa.set(55, mj0);
        let ghost init = sa@;
        assert(init =~= Seq::new(56, |x: int| if x == 55 { mj0 as i32 } else { 0i32 }));
        let mut mj: i32 = mj0;
        let mut mk: i32 = 1;
        let mut i: usize = 1;
        while i < 55
            invariant
                1 <= i <= 55,
                sa.len() == 56,
                0 <= mk < MBIG,
                i == 1 ==> mk == 1 && mj == mj0,
                i > 1 ==> 0 <= mj < MBIG,
                mj0 == MSEED - saturating_abs(seed),
                seed_fill(sa@, mj as int, mk as int, i as nat) == seed_fill(
                    init,
                    mj0 as int,
                    1,
                    1,
                ),
            decreases 55 - i,
        {
            let ii = (21 * i) % 55;
            sa.set(ii, mk);
            let old_mk = mk;
            mk = mj - mk;
            if mk < 0 {
                mk = mk + MBIG;
            }
            mj = sa[ii];
            assert(mj == old_mk);
            i = i + 1;
        }
        let ghost filled = sa@;
        let mut round: usize = 0;
        while round < 4
            invariant
                round <= 4,
                sa.len() == 56,
                mix_rounds(sa@, (4 - round) as nat) == mix_rounds(filled, 4),
            decreases 4 - round,
        {
            let ghost before = sa@;
            let mut k: usize = 1;
            while k < 56
                invariant
                    1 <= k <= 56,
                    sa.len() == 56,
                    mix_pass(sa@, k as nat) == mix_pass(before, 1),
                decreases 56 - k,
            {
                let other = sa[1 + (k + 30) % 55];
                let mut val = sa[k].wrapping_sub(other);
                if val < 0 {
                    val = val + MBIG;
                }
                assert(val == mix_value(sa@, k as int));
                sa.set(k, val);
                k = k + 1;
            }
            assert(mix_pass(sa@, 56) == sa@);
            round = round + 1;
        }
        assert(mix_rounds(sa@, 0) == sa@);
        DotNetRandom { inext: 0, inextp: 31, seed_array: sa }
    }

    /// One step of the generator (see `sample_step`).
    fn step(&mut self, guard_max: bool) -> (n: i32)
        requires
            old(self).wf(),
        ensures
            final(self).wf(),
            (n, final(self)@) == sample_step(old(self)@, guard_max),
    {
        self.inext = if self.inext + 1 == 56 {
            1
        } else {
            self.inext + 1
        };
        self.inextp = if self.inextp + 1 == 56 {
            1
        } else {
            self.inextp + 1
        };
        let mut n = self.seed_array[self.inext].wrapping_sub(self.seed_array[self.inextp]);
        if guard_max && n == MBIG {
            n = n - 1;
        }
        if n < 0 {
            n = n + MBIG;
        }
        self.seed_array.set(self.inext, n);
        n
    }

    /// The integer sample behind `NextDouble()`: the double is this value
    /// times `4.656612875245797e-10`.
    pub fn next_sample(&mut self) -> (n: i32)
        requires
            old(self).wf(),
        ensures
            final(self).wf(),
            (n, final(self)@) == sample_step(old(self)@, true),
            -1 <= n < MBIG,
    {
        self.step(true)
    }

    /// `Next(mi, ma)` of .NET's generator (see `next_range_model`).
    pub fn next_range(&mut self, mi: i32, ma: i32) -> (r: i32)
        requires
            old(self).wf(),
        ensures
            final(self).wf(),
            (r, final(self)@) == next_range_model(old(self)@, mi, ma),
    {
        let (lo, hi) = if mi > ma {
            (ma, mi)
        } else {
            (mi, ma)
        };
        let diff: i64 = hi as i64 - lo as i64;
        if diff <= 1 {
            return lo;
        }
        let n = self.step(false);
        let t: u64 = if n < 0 {
            0
        } else {
            let s = scaled_sample_exec(n as u32, diff as u64);
            if s > 0xffff_ffff {
                0xffff_ffff
            } else {
                s
            }
        };
        wrap_i32_exec(t as i64 + lo as i64)
    }

    /// `((NextDouble() * (ma - mi)) as i64 + mi) as i32` with the bounds
    /// ordered (see `next_range_strict_model`).
    pub fn next_range_strict(&mut self, mi: i32, ma: i32) -> (r: i32)
        requires
            old(self).wf(),
        ensures
            final(self).wf(),
            (r, final(self)@) == next_range_strict_model(old(self)@, mi, ma),
            mi <= ma && 0 < ma - mi <= 0x7fff_fffe ==> mi <= r < ma,
            ma <= mi && 0 < mi - ma <= 0x7fff_fffe ==> ma <= r < mi,
            mi == ma ==> r == mi,
            final(self)@ == sample_step(old(self)@, true).1,
            normal(old(self)@) ==> normal(final(self)@),
            normal(old(self)@) && mi < ma ==> mi <= r < ma,
            normal(old(self)@) && ma < mi ==> ma <= r < mi,
    {
        proof {
            law_next_range_strict_within(old(self)@, mi, ma);
            if normal(old(self)@) {
                law_next_range_strict_in_bounds(old(self)@, mi, ma);
            }
        }
        let (lo, hi) = if mi > ma {
            (ma, mi)
        } else {
            (mi, ma)
        };
        let d: i64 = hi as i64 - lo as i64;
        let n = self.step(true);
        let t: i64 = if n >= 0 {
            scaled_sample_exec(n as u32, d as u64) as i64
        } else {
            -(scaled_sample_exec((-(n as i64)) as u32, d as u64) as i64)
        };
        wrap_i32_exec(t + lo as i64)
    }

    /// Discards `steps` samples.
    pub fn advance(&mut self, steps: usize)
        requires
            old(self).wf(),
        ensures
            final(self).wf(),
            final(self)@ == advance_model(old(self)@, steps as nat),
    {
        let ghost start = self@;
        let mut i: usize = 0;
        while i < steps
            invariant
                i <= steps,
                self.wf(),
                advance_model(self@, (steps - i) as nat) == advance_model(start, steps as nat),
            decreases steps - i,
        {
            self.step(true);
            i = i + 1;
        }
    }
}

// ------------------------------------------------------------------
// GMathUtl
// ------------------------------------------------------------------

/// The game's math utility: a `DotNetRandom` behind the game's draw API.
pub struct GMathUtl {
    sys_random: DotNetRandom,
}

impl View for GMathUtl {
    type V = RngModel;

    closed spec fn view(&self) -> RngModel {
        self.sys_random@
    }
}

impl GMathUtl {
    pub open spec fn wf(&self) -> bool {
        self@.wf()
    }

    pub fn new(s: i32) -> (r: Self)
        ensures
            r.wf(),
            r@ == seeded(s),
    {
        Self { sys_random: DotNetRandom::new(s) }
    }

    /// `Next(mi, ma)` of the underlying generator; the category and the tag
    /// do not affect the draw.
    pub fn random_range_int(&mut self, mi: i32, ma: i32, _kind: RandomType, _tag: &str) -> (r: i32)
        requires
            old(self).wf(),
        ensures
            final(self).wf(),
            (r, final(self)@) == next_range_model(old(self)@, mi, ma),
            mi <= ma ==> mi <= r <= ma,
            ma < mi ==> ma <= r <= mi,
            mi <= ma && ma - mi <= 1 ==> r == mi,
            normal(old(self)@) ==> normal(final(self)@),
            normal(old(self)@) && mi + 1 < ma ==> r < ma,
    {
        proof {
            law_next_range_within(old(self)@, mi, ma);
            if normal(old(self)@) {
                law_next_range_in_bounds(old(self)@, mi, ma);
            }
        }
        self.sys_random.next_range(mi, ma)
    }
}

} // verus!

verus! {

// ------------------------------------------------------------------
// Laws of the subtractive generator
// ------------------------------------------------------------------

/// Every cell holds a value in `[0, MBIG)`: the states reached from seeds of
/// magnitude at most `MSEED`.
pub open spec fn normal(m: RngModel) -> bool {
    &&& m.wf()
    &&& forall|k: int| 0 <= k < 56 ==> 0 <= #[trigger] m.sa[k] < MBIG
}

proof fn lemma_scaled_sample_below(n: nat, d: nat)
    requires
        n <= 0x7fff_fffe,
        d <= 0x1_0000_0000,
    ensures
        d >= 1 ==> scaled_sample(n, d) < d,
        d == 0 ==> scaled_sample(n, d) == 0,
{
    lemma_two_pow_values();
    let x0 = n * sample_scale();
    assert(x0 <= 0x7fff_fffe * 2147483649) by (nonlinear_arith)
        requires
            n <= 0x7fff_fffe,
            x0 == n * 2147483649,
    ;
    lemma_round_sig_bounds(x0, 53);
    let x1 = round_sig(x0, 53);
    if bit_length(x0) > 53 {
        let u = two_pow((bit_length(x0) - 53) as nat);
        assert(u <= 0x400) by (nonlinear_arith)
            requires
                u * 0x10_0000_0000_0000 <= x0,
                x0 <= 0x7fff_fffe * 2147483649,
        ;
    }
    assert(x1 <= 0x3fff_ffff_c000_0000);
    let y = x1 * d;
    lemma_round_sig_bounds(y, 53);
    let x2 = round_sig(y, 53);
    if d == 0 {
        assert(y == 0);
        assert(bit_length(0) == 0);
    } else {
        assert(y <= 0x3fff_ffff_c000_0000 * d) by (nonlinear_arith)
            requires
                x1 <= 0x3fff_ffff_c000_0000,
                y == x1 * d,
        ;
        if bit_length(y) > 53 {
            let u = two_pow((bit_length(y) - 53) as nat);
            assert(u <= 0x400 * d) by (nonlinear_arith)
                requires
                    u * 0x10_0000_0000_0000 <= y,
                    y <= 0x3fff_ffff_c000_0000 * d,
            ;
        }
        assert(x2 < 0x4000_0000_0000_0000 * d);
        assert(x2 / 0x4000_0000_0000_0000 < d) by (nonlinear_arith)
            requires
                x2 < 0x4000_0000_0000_0000 * d,
        ;
    }
}

proof fn lemma_scaled_sample_at_most(n: nat, d: nat)
    requires
        n <= 0x7fff_ffff,
        d <= 0x1_0000_0000,
    ensures
        scaled_sample(n, d) <= d,
{
    lemma_two_pow_values();
    let x0 = n * sample_scale();
    assert(x0 <= 0x3fff_ffff_ffff_ffff) by (nonlinear_arith)
        requires
            n <= 0x7fff_ffff,
            x0 == n * 2147483649,
    ;
    crate::rounding::lemma_round_sig_le_pow(x0, 53, 62);
    let x1 = round_sig(x0, 53);
    let y = x1 * d;
    assert(y <= 0x4000_0000_0000_0000 * d) by (nonlinear_arith)
        requires
            x1 <= 0x4000_0000_0000_0000,
            y == x1 * d,
    ;
    lemma_round_sig_bounds(y, 53);
    if bit_length(y) > 53 {
        let u = two_pow((bit_length(y) - 53) as nat);
        assert(u <= 0x400 * d) by (nonlinear_arith)
            requires
                u * 0x10_0000_0000_0000 <= y,
                y <= 0x4000_0000_0000_0000 * d,
        ;
    }
    let x2 = round_sig(y, 53);
    assert(x2 < 0x4000_0000_0000_0000 * (d + 1));
    assert(x2 / 0x4000_0000_0000_0000 <= d) by (nonlinear_arith)
        requires
            x2 < 0x4000_0000_0000_0000 * (d + 1),
    ;
}

/// Law: from any state, `Next(mi, ma)` lies between the ordered bounds
/// (inclusive), and is the lower bound when they differ by at most one.
pub proof fn law_next_range_within(m: RngModel, mi: i32, ma: i32)
    requires
        m.wf(),
    ensures
        ({
            let lo = if mi > ma { ma } else { mi };
            let hi = if mi > ma { mi } else { ma };
            let (r, m2) = next_range_model(m, mi, ma);
            &&& m2.wf()
            &&& lo <= r <= hi
            &&& hi - lo <= 1 ==> r == lo
        }),
{
    let lo = if mi > ma { ma } else { mi };
    let hi = if mi > ma { mi } else { ma };
    let d = hi - lo;
    if d > 1 {
        let (n, m2) = sample_step(m, false);
        if n >= 0 {
            lemma_scaled_sample_at_most(n as nat, d as nat);
        }
    }
}

/// A step from a normal state yields a sample in `[0, MBIG)` and a normal
/// state.
pub proof fn lemma_sample_step_normal(m: RngModel, guard_max: bool)
    requires
        normal(m),
    ensures
        normal(sample_step(m, guard_max).1),
        0 <= sample_step(m, guard_max).0 < MBIG,
{
    let i = next_index(m.inext);
    let p = next_index(m.inextp);
    assert(0 <= m.sa[i] < MBIG);
    assert(0 <= m.sa[p] < MBIG);
    let m2 = sample_step(m, guard_max).1;
    assert forall|k: int| 0 <= k < 56 implies 0 <= #[trigger] m2.sa[k] < MBIG by {
        if k != i {
            assert(m2.sa[k] == m.sa[k]);
        }
    }
}

/// Law: from a normal state, `Next(mi, ma)` returns the lower bound when the
/// (ordered) bounds differ by at most one, and otherwise a value in
/// `[lo, hi)`; the state stays normal.
pub proof fn law_next_range_in_bounds(m: RngModel, mi: i32, ma: i32)
    requires
        normal(m),
    ensures
        ({
            let lo = if mi > ma { ma } else { mi };
            let hi = if mi > ma { mi } else { ma };
            let (r, m2) = next_range_model(m, mi, ma);
            &&& normal(m2)
            &&& hi - lo <= 1 ==> r == lo
            &&& hi - lo > 1 ==> lo <= r < hi
        }),
{
    let lo = if mi > ma { ma } else { mi };
    let hi = if mi > ma { mi } else { ma };
    let d = hi - lo;
    if d > 1 {
        lemma_sample_step_normal(m, false);
        let (n, m2) = sample_step(m, false);
        lemma_scaled_sample_below(n as nat, d as nat);
    }
}

/// Law: from a normal state, the strict draw lies in `[lo, hi)` when the
/// ordered bounds differ, and is `lo` when they are equal; the state stays
/// normal.
pub proof fn law_next_range_strict_in_bounds(m: RngModel, mi: i32, ma: i32)
    requires
        normal(m),
    ensures
        ({
            let lo = if mi > ma { ma } else { mi };
            let hi = if mi > ma { mi } else { ma };
            let (r, m2) = next_range_strict_model(m, mi, ma);
            &&& normal(m2)
            &&& hi == lo ==> r == lo
            &&& hi > lo ==> lo <= r < hi
        }),
{
    let lo = if mi > ma { ma } else { mi };
    let hi = if mi > ma { mi } else { ma };
    lemma_sample_step_normal(m, true);
    let (n, m2) = sample_step(m, true);
    lemma_scaled_sample_below(n as nat, (hi - lo) as nat);
}

/// In a normal state, a strict range draw over a span of at least 2 gives
/// what the range draw gives, and leaves the same state: one sample, scaled
/// alike.
pub proof fn law_strict_agrees_with_range(m: RngModel, mi: i32, ma: i32)
    requires
        normal(m),
        mi + 2 <= ma || ma + 2 <= mi,
    ensures
        next_range_strict_model(m, mi, ma) == next_range_model(m, mi, ma),
{
    let lo = if mi > ma { ma } else { mi };
    let hi = if mi > ma { mi } else { ma };
    lemma_sample_step_normal(m, true);
    let i = next_index(m.inext);
    let p = next_index(m.inextp);
    assert(0 <= m.sa[i] < MBIG);
    assert(0 <= m.sa[p] < MBIG);
    assert(sample_step(m, true) == sample_step(m, false));
    let (n, m2) = sample_step(m, true);
    lemma_scaled_sample_below(n as nat, (hi - lo) as nat);
}

/// Advancing `a` samples and then `b` is advancing `a + b`.
pub proof fn law_advance_adds(m: RngModel, a: nat, b: nat)
    ensures
        advance_model(advance_model(m, a), b) == advance_model(m, a + b),
    decreases a,
{
    if a > 0 {
        law_advance_adds(sample_step(m, true).1, (a - 1) as nat, b);
        assert((a - 1) as nat + b == (a + b - 1) as nat);
    }
}

proof fn lemma_seed_fill_normal(sa: Seq<i32>, mj: int, mk: int, i: nat)
    requires
        sa.len() == 56,
        forall|k: int| 0 <= k < 56 ==> 0 <= #[trigger] sa[k] < MBIG,
        0 <= mj < MBIG,
        0 <= mk < MBIG,
    ensures
        seed_fill(sa, mj, mk, i).len() == 56,
        forall|k: int| 0 <= k < 56 ==> 0 <= #[trigger] seed_fill(sa, mj, mk, i)[k] < MBIG,
    decreases 55 - i,
{
    if i < 55 {
        let ii = ((21 * i) % 55) as int;
        let nk = if mj - mk < 0 {
            mj - mk + MBIG
        } else {
            mj - mk
        };
        let sa2 = sa.update(ii, mk as i32);
        assert forall|k: int| 0 <= k < 56 implies 0 <= #[trigger] sa2[k] < MBIG by {
            if k != ii {
                assert(sa2[k] == sa[k]);
            }
        }
        lemma_seed_fill_normal(sa2, mk, nk, i + 1);
    }
}

proof fn lemma_mix_pass_normal(sa: Seq<i32>, k: nat)
    requires
        sa.len() == 56,
        1 <= k,
        forall|j: int| 0 <= j < 56 ==> 0 <= #[trigger] sa[j] < MBIG,
    ensures
        mix_pass(sa, k).len() == 56,
        forall|j: int| 0 <= j < 56 ==> 0 <= #[trigger] mix_pass(sa, k)[j] < MBIG,
    decreases 56 - k,
{
    if k < 56 {
        let kk = k as int;
        let o = 1 + (kk + 30) % 55;
        assert(0 <= sa[kk] < MBIG);
        assert(0 <= sa[o] < MBIG);
        let sa2 = sa.update(kk, mix_value(sa, kk));
        assert forall|j: int| 0 <= j < 56 implies 0 <= #[trigger] sa2[j] < MBIG by {
            if j != kk {
                assert(sa2[j] == sa[j]);
            }
        }
        lemma_mix_pass_normal(sa2, k + 1);
    }
}

proof fn lemma_mix_rounds_normal(sa: Seq<i32>, r: nat)
    requires
        sa.len() == 56,
        forall|j: int| 0 <= j < 56 ==> 0 <= #[trigger] sa[j] < MBIG,
    ensures
        mix_rounds(sa, r).len() == 56,
        forall|j: int| 0 <= j < 56 ==> 0 <= #[trigger] mix_rounds(sa, r)[j] < MBIG,
    decreases r,
{
    if r > 0 {
        lemma_mix_pass_normal(sa, 1);
        lemma_mix_rounds_normal(mix_pass(sa, 1), (r - 1) as nat);
    }
}

/// Law: a generator seeded with a value of magnitude at most `MSEED` starts
/// in a normal state (so every draw it makes obeys the range laws).
pub proof fn law_seeded_normal(seed: i32)
    requires
        saturating_abs(seed) <= MSEED,
    ensures
        normal(seeded(seed)),
{
    let mj = MSEED - saturating_abs(seed);
    let init = Seq::new(56, |j: int| if j == 55 { mj as i32 } else { 0i32 });
    lemma_seed_fill_normal(init, mj, 1, 1);
    lemma_mix_rounds_normal(seed_fill(init, mj, 1, 1), 4);
}

/// Law: the state after `k` samples from a normal state is normal.
pub proof fn law_advance_normal(m: RngModel, k: nat)
    requires
        normal(m),
    ensures
        normal(advance_model(m, k)),
    decreases k,
{
    if k > 0 {
        lemma_sample_step_normal(m, true);
        law_advance_normal(sample_step(m, true).1, (k - 1) as nat);
    }
}

proof fn lemma_scaled_one_small(d: nat)
    requires
        d <= 0x7fff_fffe,
    ensures
        scaled_sample(1, d) == 0,
{
    lemma_two_pow_values();
    assert(bit_length(2147483649) <= 53) by {
        crate::rounding::lemma_bit_length_below(2147483649, 32);
    }
    assert(round_sig(1 * sample_scale(), 53) == 2147483649);
    let y = 2147483649 * d;
    assert(y <= 0x3fff_ffff_7fff_fffe) by (nonlinear_arith)
        requires
            d <= 0x7fff_fffe,
            y == 2147483649 * d,
    ;
    lemma_round_sig_bounds(y, 53);
    if bit_length(y) > 53 {
        let u = two_pow((bit_length(y) - 53) as nat);
        assert(u <= 0x400) by (nonlinear_arith)
            requires
                u * 0x10_0000_0000_0000 <= y,
                y <= 0x3fff_ffff_7fff_fffe,
        ;
    }
    assert(round_sig(y, 53) < 0x4000_0000_0000_0000);
}

/// A sample of the `NextDouble()` kind lies in `[-1, MBIG)` from any state.
pub proof fn lemma_double_sample_range(m: RngModel)
    requires
        m.wf(),
    ensures
        -1 <= sample_step(m, true).0 < MBIG,
        sample_step(m, true).1.wf(),
{
}

/// Law: from any state, the strict draw lies in `[lo, hi)` when the ordered
/// bounds differ by at least one and at most `0x7fff_fffe`.
pub proof fn law_next_range_strict_within(m: RngModel, mi: i32, ma: i32)
    requires
        m.wf(),
    ensures
        ({
            let lo = if mi > ma { ma } else { mi };
            let hi = if mi > ma { mi } else { ma };
            let (r, m2) = next_range_strict_model(m, mi, ma);
            &&& m2.wf()
            &&& 0 < hi - lo <= 0x7fff_fffe ==> lo <= r < hi
            &&& hi == lo ==> r == lo
        }),
{
    let lo = if mi > ma { ma } else { mi };
    let hi = if mi > ma { mi } else { ma };
    let d = hi - lo;
    lemma_double_sample_range(m);
    let (n, m2) = sample_step(m, true);
    if 0 < d <= 0x7fff_fffe {
        if n >= 0 {
            lemma_scaled_sample_below(n as nat, d as nat);
        } else {
            lemma_scaled_one_small(d as nat);
        }
    }
    if d == 0 {
        if n >= 0 {
            lemma_scaled_sample_below(n as nat, 0);
        } else {
            lemma_scaled_sample_below(1, 0);
        }
    }
}

/// `n * 4.656612875245797e-10 <= 0.4` in `f64`: the product rounded to 53
/// bits against `0.4`, which is `3602879701896397 / 2^53` in `f64`.
pub open spec fn sample_at_most_two_fifths(n: int) -> bool {
    n < 0 || round_sig((n * sample_scale()) as nat, 53) <= 3602879701896397 * 0x200
}

/// Exec form of `sample_at_most_two_fifths`.
pub fn sample_at_most_two_fifths_exec(n: i32) -> (b: bool)
    requires
        n < MBIG,
    ensures
        b == sample_at_most_two_fifths(n as int),
{
    if n < 0 {
        true
    } else {
        let x = round_sig_u128((n as u128) * 2147483649, 53);
        x <= 3602879701896397 * 0x200
    }
}

} // verus!
