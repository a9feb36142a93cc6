//! Exact integer model of binary floating-point rounding.
//!
//! The generators of this crate reproduce arithmetic that the game performs in
//! `f64` (53 significant bits) and `f32` (24 significant bits), always on
//! nonnegative finite values that are products or quotients of integers.  Such
//! a value is held here as an integer at a fixed power-of-two scale, and the
//! round-to-nearest, ties-to-even step of IEEE 754 becomes `round_sig`.
use vstd::prelude::*;

verus! {

/// `2^n` as a natural number.
pub open spec fn two_pow(n: nat) -> nat
    decreases n,
{
    if n == 0 {
        1
    } else {
        2 * two_pow((n - 1) as nat)
    }
}

/// Number of binary digits of `x` (0 for 0).
pub open spec fn bit_length(x: nat) -> nat
    decreases x,
{
    if x == 0 {
        0
    } else {
        1 + bit_length(x / 2)
    }
}

/// `x / d` rounded to the nearest integer, ties to the even one.
pub open spec fn round_half_even_div(x: nat, d: nat) -> nat {
    let q = x / d;
    let r = x % d;
    if 2 * r > d || (2 * r == d && q % 2 == 1) {
        q + 1
    } else {
        q
    }
}

/// `x` rounded to `p` significant binary digits, to nearest, ties to even:
/// the value that IEEE 754 arithmetic with a `p`-bit significand yields for
/// an exact result `x` (given at any power-of-two scale).
pub open spec fn round_sig(x: nat, p: nat) -> nat {
    if bit_length(x) <= p {
        x
    } else {
        let s = (bit_length(x) - p) as nat;
        round_half_even_div(x, two_pow(s)) * two_pow(s)
    }
}

/// The quotient `a * 2^t / b` rounded to `p` significant binary digits, at
/// scale `2^-t`; meaningful when the integer part of the quotient has more
/// than `p` digits (see `ratio_in_range`).
pub open spec fn round_ratio_sig(a: nat, b: nat, t: nat, p: nat) -> nat {
    let n = a * two_pow(t);
    let s = (bit_length(n / b) - p) as nat;
    round_half_even_div(n, b * two_pow(s)) * two_pow(s)
}

pub open spec fn ratio_in_range(a: nat, b: nat, t: nat, p: nat) -> bool {
    b > 0 && bit_length(a * two_pow(t) / b) > p
}

pub proof fn lemma_two_pow_pos(n: nat)
    ensures
        two_pow(n) >= 1,
    decreases n,
{
    if n > 0 {
        lemma_two_pow_pos((n - 1) as nat);
    }
}

pub proof fn lemma_two_pow_adds(a: nat, b: nat)
    ensures
        two_pow(a + b) == two_pow(a) * two_pow(b),
    decreases a,
{
    if a > 0 {
        let a1 = (a - 1) as nat;
        lemma_two_pow_adds(a1, b);
        assert(two_pow(a + b) == 2 * two_pow(a1 + b));
        assert(two_pow(a) == 2 * two_pow(a1));
        let x = two_pow(a1);
        let y = two_pow(b);
        assert(2 * (x * y) == (2 * x) * y) by (nonlinear_arith);
        assert(two_pow(a + b) == two_pow(a) * two_pow(b));
    } else {
        assert(two_pow(a) == 1);
        assert(a + b == b);
    }
}

pub proof fn lemma_two_pow_mono(a: nat, b: nat)
    requires
        a <= b,
    ensures
        two_pow(a) <= two_pow(b),
    decreases b,
{
    if a < b {
        lemma_two_pow_mono(a, (b - 1) as nat);
        lemma_two_pow_pos((b - 1) as nat);
    }
}

/// `2^(L-1) <= x < 2^L` for `L` the bit length of a positive `x`.
pub proof fn lemma_bit_length_bounds(x: nat)
    ensures
        x < two_pow(bit_length(x)),
        x > 0 ==> bit_length(x) >= 1 && two_pow((bit_length(x) - 1) as nat) <= x,
    decreases x,
{
    if x > 0 {
        lemma_bit_length_bounds(x / 2);
        if x / 2 > 0 {
            assert(two_pow((bit_length(x) - 1) as nat) == 2 * two_pow(
                (bit_length(x / 2) - 1) as nat,
            ));
        }
    }
}

/// Bit length only grows with its argument.
pub proof fn lemma_bit_length_mono(x: nat, y: nat)
    requires
        x <= y,
    ensures
        bit_length(x) <= bit_length(y),
    decreases y,
{
    if x > 0 {
        lemma_bit_length_mono(x / 2, y / 2);
    }
}

/// A value below `2^k` has at most `k` bits.
pub proof fn lemma_bit_length_below(x: nat, k: nat)
    requires
        x < two_pow(k),
    ensures
        bit_length(x) <= k,
    decreases k,
{
    if x > 0 {
        if k == 0 {
            assert(false);
        } else {
            lemma_bit_length_below(x / 2, (k - 1) as nat);
        }
    }
}

/// A value of at least `2^k` has more than `k` bits.
pub proof fn lemma_bit_length_above(x: nat, k: nat)
    requires
        x >= two_pow(k),
    ensures
        bit_length(x) > k,
{
    lemma_bit_length_bounds(x);
    if bit_length(x) <= k {
        lemma_two_pow_mono(bit_length(x), k);
    }
}

proof fn lemma_div_bounds(x: nat, d: nat)
    requires
        d > 0,
    ensures
        (x / d) * d <= x,
        x < (x / d) * d + d,
        x % d < d,
        x == (x / d) * d + x % d,
{
    vstd::arithmetic::div_mod::lemma_fundamental_div_mod(x as int, d as int);
    vstd::arithmetic::mul::lemma_mul_is_commutative((x / d) as int, d as int);
}

/// Rounding a positive value never moves it by more than one unit of its
/// last kept place, which is at most `x / 2^(p-1)`.
pub proof fn lemma_round_sig_bounds(x: nat, p: nat)
    requires
        p >= 1,
    ensures
        round_sig(x, p) + two_pow(if bit_length(x) > p { (bit_length(x) - p) as nat } else { 0 })
            >= x,
        round_sig(x, p) <= x + (if bit_length(x) > p {
            two_pow((bit_length(x) - p) as nat)
        } else {
            0
        }),
        bit_length(x) > p ==> two_pow((bit_length(x) - p) as nat) * two_pow((p - 1) as nat)
            <= x,
        round_sig(x, p) <= 2 * x,
{
    if bit_length(x) > p {
        let s = (bit_length(x) - p) as nat;
        let d = two_pow(s);
        lemma_two_pow_pos(s);
        lemma_div_bounds(x, d);
        lemma_bit_length_bounds(x);
        lemma_two_pow_adds(s, (p - 1) as nat);
        assert(s + (p - 1) == bit_length(x) - 1);
        lemma_two_pow_pos((p - 1) as nat);
        assert(d <= d * two_pow((p - 1) as nat)) by (nonlinear_arith)
            requires
                two_pow((p - 1) as nat) >= 1,
        ;
        let q = x / d;
        let r = round_half_even_div(x, d);
        assert(r <= q + 1);
        assert(r * d <= q * d + d) by (nonlinear_arith)
            requires
                r <= q + 1,
        ;
        assert(r >= q);
        assert(r * d >= q * d) by (nonlinear_arith)
            requires
                r >= q,
        ;
    }
}

/// Rounding never carries a value that is at most `2^k` above `2^k`.
pub proof fn lemma_round_sig_le_pow(x: nat, p: nat, k: nat)
    requires
        p >= 1,
        x <= two_pow(k),
    ensures
        round_sig(x, p) <= two_pow(k),
{
    if bit_length(x) > p {
        let s = (bit_length(x) - p) as nat;
        let d = two_pow(s);
        lemma_two_pow_pos(s);
        lemma_div_bounds(x, d);
        lemma_bit_length_bounds(x);
        lemma_bit_length_mono(x, two_pow(k));
        lemma_bit_length_bounds(two_pow(k));
        // s <= k, so 2^k is a multiple of d
        if s > k {
            lemma_two_pow_mono(k, (bit_length(x) - 1) as nat);
            lemma_two_pow_adds(s, (p - 1) as nat);
            lemma_two_pow_pos((p - 1) as nat);
            lemma_two_pow_mono((k + 1) as nat, s);
            assert(two_pow((k + 1) as nat) == 2 * two_pow(k));
            assert(two_pow((bit_length(x) - 1) as nat) >= two_pow(s)) by {
                lemma_two_pow_mono(s, (bit_length(x) - 1) as nat);
            }
            assert(false);
        }
        lemma_two_pow_adds((k - s) as nat, s);
        let m = two_pow((k - s) as nat);
        assert(two_pow(k) == m * d);
        let q = x / d;
        if x == two_pow(k) {
            vstd::arithmetic::div_mod::lemma_div_by_multiple(m as int, d as int);
            vstd::arithmetic::div_mod::lemma_mod_multiples_basic(m as int, d as int);
            assert(q == m);
        } else {
            assert(q * d < m * d);
            assert(q < m) by (nonlinear_arith)
                requires
                    q * d < m * d,
                    d > 0,
            ;
            let r = round_half_even_div(x, d);
            assert(r <= m);
            assert(r * d <= m * d) by (nonlinear_arith)
                requires
                    r <= m,
            ;
        }
    }
}

/// Rounding `x / d` never passes a whole number `k` with `x <= k * d`.
pub proof fn lemma_round_div_le_multiple(x: nat, d: nat, k: nat)
    requires
        d > 0,
        x <= k * d,
    ensures
        round_half_even_div(x, d) <= k,
{
    lemma_div_bounds(x, d);
    let q = x / d;
    if q > k {
        assert(q * d >= (k + 1) * d) by (nonlinear_arith)
            requires
                q >= k + 1,
                d > 0,
        ;
        assert((k + 1) * d == k * d + d) by (nonlinear_arith);
    }
    if q == k {
        assert(x % d == 0);
    }
}

/// Rounding to `p` digits never passes a bound `y >= x` that is a multiple
/// of the rounding unit.
pub proof fn lemma_round_sig_le_multiple(x: nat, p: nat, y: nat)
    requires
        p >= 1,
        x <= y,
        bit_length(x) > p ==> y % two_pow((bit_length(x) - p) as nat) == 0,
    ensures
        round_sig(x, p) <= y,
{
    if bit_length(x) > p {
        let s = (bit_length(x) - p) as nat;
        let d = two_pow(s);
        lemma_two_pow_pos(s);
        lemma_div_bounds(y, d);
        let k = y / d;
        assert(y == k * d);
        lemma_round_div_le_multiple(x, d, k);
        assert(round_half_even_div(x, d) * d <= k * d) by (nonlinear_arith)
            requires
                round_half_even_div(x, d) <= k,
        ;
    }
}

/// Exec: `2^n` for `n < 128`.
pub fn two_pow_u128(n: u32) -> (r: u128)
    requires
        n < 128,
    ensures
        r == two_pow(n as nat),
{
    let mut r: u128 = 1;
    let mut i: u32 = 0;
    while i < n
        invariant
            i <= n,
            n < 128,
            r == two_pow(i as nat),
        decreases n - i,
    {
        proof {
            lemma_two_pow_mono((i + 1) as nat, 127);
            assert(two_pow(127) < 0x1_0000_0000_0000_0000_0000_0000_0000_0000) by {
                lemma_two_pow_127();
            }
        }
        r = r * 2;
        i = i + 1;
    }
    r
}

/// The powers of two that the scales of this crate use.
pub proof fn lemma_two_pow_values()
    ensures
        two_pow(8) == 0x100,
        two_pow(16) == 0x1_0000,
        two_pow(23) == 0x80_0000,
        two_pow(24) == 0x100_0000,
        two_pow(31) == 0x8000_0000,
        two_pow(32) == 0x1_0000_0000,
        two_pow(52) == 0x10_0000_0000_0000,
        two_pow(62) == 0x4000_0000_0000_0000,
        two_pow(64) == 0x1_0000_0000_0000_0000,
        two_pow(86) == 0x40_0000_0000_0000_0000_0000,
        two_pow(127) == 0x8000_0000_0000_0000_0000_0000_0000_0000,
        two_pow(128) == 0x1_0000_0000_0000_0000_0000_0000_0000_0000,
{
    reveal_with_fuel(two_pow, 9);
    lemma_two_pow_adds(8, 8);
    lemma_two_pow_adds(16, 8);
    lemma_two_pow_adds(16, 16);
    lemma_two_pow_adds(16, 7);
    lemma_two_pow_adds(24, 7);
    lemma_two_pow_adds(32, 32);
    lemma_two_pow_adds(32, 30);
    lemma_two_pow_adds(32, 20);
    assert(two_pow(20) == 0x10_0000) by {
        lemma_two_pow_adds(16, 4);
        reveal_with_fuel(two_pow, 5);
    }
    assert(two_pow(30) == 0x4000_0000) by {
        lemma_two_pow_adds(16, 14);
        lemma_two_pow_adds(8, 6);
    }
    lemma_two_pow_adds(64, 22);
    assert(two_pow(22) == 0x40_0000) by {
        lemma_two_pow_adds(16, 6);
    }
    lemma_two_pow_adds(64, 63);
    assert(two_pow(63) == 0x8000_0000_0000_0000) by {
        lemma_two_pow_adds(32, 31);
    }
    lemma_two_pow_adds(64, 64);
}

proof fn lemma_two_pow_127()
    ensures
        two_pow(127) == 0x8000_0000_0000_0000_0000_0000_0000_0000,
        two_pow(128) == 0x1_0000_0000_0000_0000_0000_0000_0000_0000,
{
    lemma_two_pow_values();
}

/// Exec: bit length of `x`.
pub fn bit_length_u128(x: u128) -> (r: u32)
    ensures
        r == bit_length(x as nat),
        r <= 128,
{
    let mut y = x;
    let mut l: u32 = 0;
    proof {
        lemma_two_pow_127();
        lemma_bit_length_below(x as nat, 128);
    }
    while y > 0
        invariant
            l + bit_length(y as nat) == bit_length(x as nat),
            l + bit_length(y as nat) <= 128,
        decreases y,
    {
        y = y / 2;
        l = l + 1;
    }
    l
}

/// Exec: `x / d` rounded to nearest, ties to even.
pub fn round_half_even_div_u128(x: u128, d: u128) -> (r: u128)
    requires
        d > 0,
    ensures
        r == round_half_even_div(x as nat, d as nat),
{
    let q = x / d;
    let rem = x % d;
    proof {
        lemma_div_bounds(x as nat, d as nat);
    }
    if rem > d - rem || (rem == d - rem && q % 2 == 1) {
        proof {
            // here rem >= 1, so d >= 2 and q <= x / 2: q + 1 cannot overflow
            assert(rem >= 1);
            assert(d >= 2);
            assert(q * 2 <= q * d) by (nonlinear_arith)
                requires
                    d >= 2,
            ;
        }
        q + 1
    } else {
        q
    }
}

/// Exec: `x` rounded to `p` significant bits (see `round_sig`).
pub fn round_sig_u128(x: u128, p: u32) -> (r: u128)
    requires
        1 <= p,
        x < 0x8000_0000_0000_0000_0000_0000_0000_0000,
    ensures
        r == round_sig(x as nat, p as nat),
        r <= 2 * x,
{
    proof {
        lemma_round_sig_bounds(x as nat, p as nat);
    }
    let l = bit_length_u128(x);
    if l <= p {
        x
    } else {
        let s = l - p;
        proof {
            lemma_two_pow_127();
            lemma_bit_length_below(x as nat, 127);
        }
        let d = two_pow_u128(s);
        let q = round_half_even_div_u128(x, d);
        proof {
            lemma_two_pow_pos(s as nat);
            assert(q * d <= 2 * x);
        }
        q * d
    }
}

/// Exec: `a * 2^t / b` rounded to `p` significant bits, at scale `2^-t`
/// (see `round_ratio_sig`).
pub fn round_ratio_sig_u128(a: u128, b: u128, t: u32, p: u32) -> (r: u128)
    requires
        1 <= p,
        t < 128,
        ratio_in_range(a as nat, b as nat, t as nat, p as nat),
        a * two_pow(t as nat) < 0x8000_0000_0000_0000_0000_0000_0000_0000,
    ensures
        r == round_ratio_sig(a as nat, b as nat, t as nat, p as nat),
        r * b <= 2 * (a * two_pow(t as nat)),
{
    let pt = two_pow_u128(t);
    let n = a * pt;
    let f = n / b;
    let l = bit_length_u128(f);
    let s = l - p;
    let ds = two_pow_u128(s);
    proof {
        lemma_div_bounds(n as nat, b as nat);
        lemma_bit_length_bounds(f as nat);
        lemma_two_pow_pos(s as nat);
        lemma_two_pow_mono(s as nat, (l - 1) as nat);
        assert(ds <= f);
        assert(b * ds <= b * f) by (nonlinear_arith)
            requires
                ds <= f,
        ;
        assert(b * f <= n) by (nonlinear_arith)
            requires
                f * b <= n,
        ;
        assert(b * ds >= 1) by (nonlinear_arith)
            requires
                b >= 1,
                ds >= 1,
        ;
    }
    let bd = b * ds;
    let q = round_half_even_div_u128(n, bd);
    proof {
        let bdn: nat = bd as nat;
        let nn: nat = n as nat;
        lemma_div_bounds(nn, bdn);
        let fl = nn / bdn;
        assert(q <= fl + 1);
        assert(q * bdn <= nn + bdn) by (nonlinear_arith)
            requires
                q <= fl + 1,
                fl * bdn <= nn,
        ;
        assert(q * ds <= q * bdn) by (nonlinear_arith)
            requires
                b >= 1,
                bdn == b * ds,
        ;
        assert((q * ds) * b == q * bdn) by (nonlinear_arith)
            requires
                bdn == b * ds,
        ;
    }
    q * ds
}

} // verus!
