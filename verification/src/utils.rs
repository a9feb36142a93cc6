//! The game's string hash and a generator of strings with a given hash.
use vstd::prelude::*;
use crate::rng::{wrap_i32, wrap_i32_exec};
use crate::text::{char_from_u32, is_scalar_value, push_char};

verus! {

broadcast use vstd::string::group_string_axioms;

/// The UTF-16 code units of `c` (one unit inside the basic plane, a
/// surrogate pair outside it).
pub open spec fn utf16_units(c: char) -> Seq<u16> {
    let v = c as u32 as int;
    if v < 0x10000 {
        seq![v as u16]
    } else {
        seq![(0xD800 + (v - 0x10000) / 1024) as u16, (0xDC00 + (v - 0x10000) % 1024) as u16]
    }
}

/// One hashing step: `h * 31 + u` with 32-bit wrap-around.
pub open spec fn hash_step(h: i32, u: u16) -> i32 {
    wrap_i32(31 * h + u)
}

/// Hash state after the code units of `c`.
pub open spec fn hash_char(h: i32, c: char) -> i32 {
    let us = utf16_units(c);
    if us.len() == 1 {
        hash_step(h, us[0])
    } else {
        hash_step(hash_step(h, us[0]), us[1])
    }
}

/// Hash state after the characters `cs`, starting from `h`.
pub open spec fn hash_chars_from(h: i32, cs: Seq<char>) -> i32
    decreases cs.len(),
{
    if cs.len() == 0 {
        h
    } else {
        hash_char(hash_chars_from(h, cs.drop_last()), cs.last())
    }
}

/// The game's string hash: `h = h * 31 + unit` over the UTF-16 code units,
/// from 0, wrapping at 32 bits.
pub open spec fn string_hash_spec(cs: Seq<char>) -> i32 {
    hash_chars_from(0, cs)
}

fn hash_char_exec(h: i32, c: char) -> (r: i32)
    ensures
        r == hash_char(h, c),
{
    let v: u32 = c as u32;
    if v < 0x10000 {
        wrap_i32_exec(31 * (h as i64) + v as i64)
    } else {
        let hi: u16 = (0xD800 + (v - 0x10000) / 1024) as u16;
        let lo: u16 = (0xDC00 + (v - 0x10000) % 1024) as u16;
        let h1 = wrap_i32_exec(31 * (h as i64) + hi as i64);
        wrap_i32_exec(31 * (h1 as i64) + lo as i64)
    }
}

/// Hash of a string: `h * 31 + unit` over its UTF-16 code units, starting at
/// 0, with 32-bit wrap-around.
pub fn string_hash(s: &str) -> (r: i32)
    ensures
        r == string_hash_spec(s@),
{
    let mut h: i32 = 0;
    for c in it: s.chars()
        invariant
            it.seq() == s@,
            h == hash_chars_from(0, s@.take(it.index() as int)),
    {
        proof {
            let i = it.index() as int;
            assert(s@.take(i + 1).drop_last() =~= s@.take(i));
            assert(s@.take(i + 1).last() == c);
        }
        h = hash_char_exec(h, c);
    }
    proof {
        assert(s@.take(s@.len() as int) =~= s@);
    }
    h
}

/// The fixed prefix of generated strings.
pub open spec fn collision_prefix() -> Seq<char> {
    seq!['玄', '黎', '曰']
}

/// The base-31 places of the five generated characters.
pub open spec fn place(i: int) -> nat {
    if i == 0 {
        923521
    } else if i == 1 {
        29791
    } else if i == 2 {
        961
    } else if i == 3 {
        31
    } else {
        1
    }
}

/// What remains of `r` after the digits before position `i` are taken.
pub open spec fn digit_rest(r: nat, i: nat) -> nat
    decreases i,
{
    if i == 0 {
        r
    } else {
        digit_rest(r, (i - 1) as nat) % place(i - 1)
    }
}

/// The digit of `r` at position `i` (0 is the most significant and is not
/// bounded by 31).
pub open spec fn digit(r: nat, i: nat) -> nat {
    digit_rest(r, i) / place(i as int)
}

/// The value that the five generated characters must contribute:
/// `s - H * 31^5 - 2450903684` modulo `2^32`, where `H` is the 32-bit hash of
/// the prefix and 2450903684 is the contribution of five characters U+7384.
pub open spec fn collision_target(s: i32, prefix_hash: u32) -> nat {
    let us: int = if s < 0 {
        s + 0x1_0000_0000
    } else {
        s as int
    };
    let mul = (prefix_hash as int * 28629151) % 0x1_0000_0000;
    (((us - mul - 2450903684) % 0x1_0000_0000) + 0x1_0000_0000) as nat % 0x1_0000_0000
}

/// 32-bit unsigned hash of a character sequence (`h * 31 + unit` modulo
/// `2^32`), from `h`.
pub open spec fn hash_u32_from(h: nat, cs: Seq<char>) -> nat
    decreases cs.len(),
{
    if cs.len() == 0 {
        h
    } else {
        let h0 = hash_u32_from(h, cs.drop_last());
        let us = utf16_units(cs.last());
        if us.len() == 1 {
            ((31 * h0 + us[0]) % 0x1_0000_0000) as nat
        } else {
            ((31 * ((31 * h0 + us[0]) % 0x1_0000_0000) + us[1]) % 0x1_0000_0000) as nat
        }
    }
}

/// The string generated for `s`: the prefix and five characters
/// `U+7384 + digit`, the digits being those of `collision_target` in base 31.
pub open spec fn collision_string(s: i32) -> Seq<char> {
    let r = collision_target(s, hash_u32_from(0, collision_prefix()) as u32);
    collision_prefix() + Seq::new(5, |i: int| (0x7384 + digit(r, i as nat)) as char)
}

proof fn lemma_digit_bounds(r: nat)
    requires
        r < 0x1_0000_0000,
    ensures
        forall|i: nat| i < 5 ==> #[trigger] digit(r, i) <= 4650,
{
    assert forall|i: nat| i < 5 implies #[trigger] digit(r, i) <= 4650 by {
        if i == 0 {
            assert(digit(r, 0) == r / 923521);
        } else {
            assert(digit_rest(r, i) == digit_rest(r, (i - 1) as nat) % place(i - 1));
            assert(digit_rest(r, i) < place(i - 1));
        }
    }
}

/// A string whose `string_hash` is `s`: the prefix "玄黎曰" followed by five
/// characters from U+7384 on (the `Option` is `None` only if those were not
/// valid characters, which never happens).
pub fn find_chinese_collision(s: i32) -> (r: Option<String>)
    ensures
        r is Some,
        r->0@ == collision_string(s),
{
    let prefix = "玄黎曰";
    proof {
        reveal_strlit("玄黎曰");
    }
    assert(prefix@ =~= collision_prefix());
    let mut h: u32 = 0;
    for c in it: prefix.chars()
        invariant
            it.seq() == collision_prefix(),
            h == hash_u32_from(0, collision_prefix().take(it.index() as int)),
    {
        proof {
            let i = it.index() as int;
            assert(collision_prefix().take(i + 1).drop_last() =~= collision_prefix().take(i));
        }
        let v: u32 = c as u32;
        if v < 0x10000 {
            h = ((31 * (h as u64) + v as u64) % 0x1_0000_0000) as u32;
        } else {
            let hi: u64 = (0xD800 + (v - 0x10000) / 1024) as u16 as u64;
            let lo: u64 = (0xDC00 + (v - 0x10000) % 1024) as u16 as u64;
            let h1: u64 = (31 * (h as u64) + hi) % 0x1_0000_0000;
            h = ((31 * h1 + lo) % 0x1_0000_0000) as u32;
        }
    }
    assert(collision_prefix().take(3) =~= collision_prefix());
    let us: u64 = if s < 0 {
        (s as i64 + 0x1_0000_0000) as u64
    } else {
        s as u64
    };
    let mul: u64 = ((h as u64) * 28629151) % 0x1_0000_0000;
    let mut rest: u64 = ((us + 0x2_0000_0000 - mul - 2450903684) % 0x1_0000_0000);
    let ghost target = collision_target(s, h);
    assert(rest == target);
    let mut out = prefix.to_owned();
    let places: [u64; 5] = [923521, 29791, 961, 31, 1];
    let mut i: usize = 0;
    while i < 5
        invariant
            i <= 5,
            target < 0x1_0000_0000,
            rest == digit_rest(target, i as nat),
            places@ == seq![923521u64, 29791u64, 961u64, 31u64, 1u64],
            out@ == collision_prefix() + Seq::new(
                i as nat,
                |j: int| (0x7384 + digit(target, j as nat)) as char,
            ),
        decreases 5 - i,
    {
        proof {
            lemma_digit_bounds(target);
        }
        let p = places[i];
        assert(p == place(i as int));
        let v = rest / p;
        assert(v == digit(target, i as nat));
        assert(v <= 4650);
        rest = rest % p;
        let code: u32 = (0x7384 + v) as u32;
        assert(is_scalar_value(code));
        match char_from_u32(code) {
            Some(c) => {
                push_char(&mut out, c);
            },
            None => {
                return None;
            },
        }
        i = i + 1;
        assert(out@ =~= collision_prefix() + Seq::new(
            i as nat,
            |j: int| (0x7384 + digit(target, j as nat)) as char,
        ));
    }
    Some(out)
}

// ------------------------------------------------------------------
// The generated string hashes back to its seed
// ------------------------------------------------------------------

pub open spec fn cong32(a: int, b: int) -> bool {
    (a - b) % 0x1_0000_0000 == 0
}

proof fn lemma_cong_intro(a: int, b: int, k: int)
    requires
        a - b == k * 0x1_0000_0000,
    ensures
        cong32(a, b),
{
    vstd::arithmetic::div_mod::lemma_mod_multiples_basic(k, 0x1_0000_0000);
}

proof fn lemma_cong_elim(a: int, b: int)
    requires
        cong32(a, b),
    ensures
        a - b == ((a - b) / 0x1_0000_0000) * 0x1_0000_0000,
{
    vstd::arithmetic::div_mod::lemma_fundamental_div_mod(a - b, 0x1_0000_0000);
}

proof fn lemma_cong_trans(a: int, b: int, c: int)
    requires
        cong32(a, b),
        cong32(b, c),
    ensures
        cong32(a, c),
{
    lemma_cong_elim(a, b);
    lemma_cong_elim(b, c);
    lemma_cong_intro(a, c, (a - b) / 0x1_0000_0000 + (b - c) / 0x1_0000_0000);
}

proof fn lemma_cong_step(a: int, b: int, u: int)
    requires
        cong32(a, b),
    ensures
        cong32(31 * a + u, 31 * b + u),
{
    lemma_cong_elim(a, b);
    let k = (a - b) / 0x1_0000_0000;
    assert((31 * a + u) - (31 * b + u) == (31 * k) * 0x1_0000_0000) by (nonlinear_arith)
        requires
            a - b == k * 0x1_0000_0000,
    ;
    lemma_cong_intro(31 * a + u, 31 * b + u, 31 * k);
}

proof fn lemma_mod_cong(x: int)
    ensures
        cong32(x % 0x1_0000_0000, x),
        0 <= x % 0x1_0000_0000 < 0x1_0000_0000,
{
    vstd::arithmetic::div_mod::lemma_fundamental_div_mod(x, 0x1_0000_0000);
    lemma_cong_intro(x % 0x1_0000_0000, x, -(x / 0x1_0000_0000));
}

proof fn lemma_wrap_cong(x: int)
    ensures
        cong32(wrap_i32(x) as int, x),
{
    lemma_mod_cong(x - i32::MIN);
    let w = (x - i32::MIN) % 0x1_0000_0000;
    assert(wrap_i32(x) as int == w + i32::MIN);
    lemma_cong_elim(w, x - i32::MIN);
    lemma_cong_intro(w + i32::MIN, x, (w - (x - i32::MIN)) / 0x1_0000_0000);
}

proof fn lemma_wrap_eq(x: int, y: int)
    requires
        cong32(x, y),
    ensures
        wrap_i32(x) == wrap_i32(y),
{
    lemma_cong_elim(x, y);
    let k = (x - y) / 0x1_0000_0000;
    assert(x - i32::MIN == 0x1_0000_0000 * k + (y - i32::MIN));
    vstd::arithmetic::div_mod::lemma_mod_multiples_vanish(k, y - i32::MIN, 0x1_0000_0000);
}

/// `h * 31^n + sum of code_i * 31^(n-1-i)` over the characters' code points.
pub open spec fn hash_poly(h: int, cs: Seq<char>) -> int
    decreases cs.len(),
{
    if cs.len() == 0 {
        h
    } else {
        31 * hash_poly(h, cs.drop_last()) + (cs.last() as u32 as int)
    }
}

proof fn lemma_hash_poly(h: i32, cs: Seq<char>)
    requires
        forall|i: int| 0 <= i < cs.len() ==> (#[trigger] cs[i] as u32) < 0x10000,
    ensures
        cong32(hash_chars_from(h, cs) as int, hash_poly(h as int, cs)),
    decreases cs.len(),
{
    if cs.len() == 0 {
        lemma_cong_intro(h as int, h as int, 0);
    } else {
        let c = cs.last();
        assert(cs[cs.len() - 1] == c);
        lemma_hash_poly(h, cs.drop_last());
        let x = hash_chars_from(h, cs.drop_last()) as int;
        let p = hash_poly(h as int, cs.drop_last());
        let u = c as u32 as int;
        assert(utf16_units(c) == seq![u as u16]);
        assert(hash_chars_from(h, cs) == wrap_i32(31 * x + u));
        lemma_wrap_cong(31 * x + u);
        lemma_cong_step(x, p, u);
        lemma_cong_trans(hash_chars_from(h, cs) as int, 31 * x + u, 31 * p + u);
    }
}

proof fn lemma_hash_append(h: i32, a: Seq<char>, b: Seq<char>)
    ensures
        hash_chars_from(h, a + b) == hash_chars_from(hash_chars_from(h, a), b),
    decreases b.len(),
{
    if b.len() == 0 {
        assert(a + b =~= a);
    } else {
        assert((a + b).drop_last() =~= a + b.drop_last());
        assert((a + b).last() == b.last());
        lemma_hash_append(h, a, b.drop_last());
    }
}

/// The UTF-16 code units of `cs`, character after character.
pub open spec fn utf16_of(cs: Seq<char>) -> Seq<u16>
    decreases cs.len(),
{
    if cs.len() == 0 {
        Seq::empty()
    } else {
        utf16_of(cs.drop_last()) + utf16_units(cs.last())
    }
}

/// `31^n`.
pub open spec fn pow31(n: nat) -> int
    decreases n,
{
    if n == 0 {
        1
    } else {
        31 * pow31((n - 1) as nat)
    }
}

/// `sum of us[i] * 31^(n-1-i)` over the `n` code units `us`.
pub open spec fn unit_poly(us: Seq<u16>) -> int
    decreases us.len(),
{
    if us.len() == 0 {
        0
    } else {
        31 * unit_poly(us.drop_last()) + us.last()
    }
}

/// Hash state after the code units `us`, starting from `h`.
pub open spec fn hash_units_from(h: i32, us: Seq<u16>) -> i32
    decreases us.len(),
{
    if us.len() == 0 {
        h
    } else {
        hash_step(hash_units_from(h, us.drop_last()), us.last())
    }
}

proof fn lemma_units_append(h: i32, a: Seq<u16>, b: Seq<u16>)
    ensures
        hash_units_from(h, a + b) == hash_units_from(hash_units_from(h, a), b),
    decreases b.len(),
{
    if b.len() == 0 {
        assert(a + b =~= a);
    } else {
        assert((a + b).drop_last() =~= a + b.drop_last());
        assert((a + b).last() == b.last());
        lemma_units_append(h, a, b.drop_last());
    }
}

/// Hashing one character is hashing its code units.
proof fn lemma_char_units(x: i32, c: char)
    ensures
        hash_units_from(x, utf16_units(c)) == hash_char(x, c),
{
    let us = utf16_units(c);
    let e = Seq::<u16>::empty();
    assert(hash_units_from(x, e) == x);
    if us.len() == 1 {
        assert(us.drop_last() =~= e);
        assert(us.last() == us[0]);
        assert(hash_units_from(x, us) == hash_step(hash_units_from(x, us.drop_last()), us.last()));
    } else {
        let one = us.drop_last();
        assert(one =~= seq![us[0]]);
        assert(one.drop_last() =~= e);
        assert(one.last() == us[0]);
        assert(hash_units_from(x, one) == hash_step(hash_units_from(x, one.drop_last()), one.last()));
        assert(us.last() == us[1]);
        assert(hash_units_from(x, us) == hash_step(hash_units_from(x, one), us.last()));
    }
}

/// Hashing characters is hashing their code units.
proof fn lemma_chars_are_units(h: i32, cs: Seq<char>)
    ensures
        hash_chars_from(h, cs) == hash_units_from(h, utf16_of(cs)),
    decreases cs.len(),
{
    if cs.len() > 0 {
        lemma_chars_are_units(h, cs.drop_last());
        let front = utf16_of(cs.drop_last());
        lemma_units_append(h, front, utf16_units(cs.last()));
        lemma_char_units(hash_units_from(h, front), cs.last());
    }
}

/// The hash state after the units `us` from `h` is `h * 31^n + unit_poly(us)`,
/// modulo `2^32`.
proof fn lemma_units_poly(h: i32, us: Seq<u16>)
    ensures
        cong32(hash_units_from(h, us) as int, h * pow31(us.len()) + unit_poly(us)),
    decreases us.len(),
{
    if us.len() == 0 {
        lemma_cong_intro(h as int, h as int, 0);
    } else {
        let n = us.len();
        lemma_units_poly(h, us.drop_last());
        let x = hash_units_from(h, us.drop_last()) as int;
        let p = h * pow31((n - 1) as nat) + unit_poly(us.drop_last());
        let u = us.last() as int;
        lemma_wrap_cong(31 * x + u);
        lemma_cong_step(x, p, u);
        lemma_cong_trans(hash_units_from(h, us) as int, 31 * x + u, 31 * p + u);
        assert(31 * p + u == h * pow31(n) + unit_poly(us)) by (nonlinear_arith)
            requires
                p == h * pow31((n - 1) as nat) + unit_poly(us.drop_last()),
                pow31(n) == 31 * pow31((n - 1) as nat),
                unit_poly(us) == 31 * unit_poly(us.drop_last()) + u,
        ;
    }
}

proof fn lemma_wrap_small(x: i32)
    ensures
        wrap_i32(x as int) == x,
{
    vstd::arithmetic::div_mod::lemma_small_mod((x - i32::MIN) as nat, 0x1_0000_0000);
}

/// The closed form of the string hash: the polynomial of its UTF-16 code
/// units in 31, `sum of u[i] * 31^(n-1-i)`, wrapped to 32 bits.
pub proof fn law_string_hash_closed_form(cs: Seq<char>)
    ensures
        string_hash_spec(cs) == wrap_i32(unit_poly(utf16_of(cs))),
{
    lemma_chars_are_units(0, cs);
    lemma_units_poly(0, utf16_of(cs));
    lemma_wrap_eq(string_hash_spec(cs) as int, unit_poly(utf16_of(cs)));
    lemma_wrap_small(string_hash_spec(cs));
}

/// The hash of joined strings: the hash of the first times `31^n` plus the
/// hash of the second, wrapped to 32 bits, for the `n` code units of the
/// second.
pub proof fn law_string_hash_join(a: Seq<char>, b: Seq<char>)
    ensures
        string_hash_spec(a + b) == wrap_i32(
            string_hash_spec(a) * pow31(utf16_of(b).len()) + string_hash_spec(b),
        ),
{
    let ha = string_hash_spec(a);
    let hb = string_hash_spec(b);
    let ub = utf16_of(b);
    lemma_hash_append(0, a, b);
    lemma_chars_are_units(ha, b);
    lemma_units_poly(ha, ub);
    lemma_chars_are_units(0, b);
    lemma_units_poly(0, ub);
    assert(0 * pow31(ub.len()) == 0);
    // the hash of `b` is its polynomial modulo 2^32, so either may follow
    // the scaled hash of `a`
    let n31 = ha * pow31(ub.len());
    lemma_cong_elim(hb as int, unit_poly(ub));
    lemma_cong_intro(n31 + unit_poly(ub), n31 + hb, -((hb - unit_poly(ub)) / 0x1_0000_0000));
    lemma_cong_trans(string_hash_spec(a + b) as int, n31 + unit_poly(ub), n31 + hb);
    lemma_wrap_eq(string_hash_spec(a + b) as int, ha * pow31(ub.len()) + hb);
    lemma_wrap_small(string_hash_spec(a + b));
}

proof fn lemma_digits_sum(r: nat)
    ensures
        r == 923521 * digit(r, 0) + 29791 * digit(r, 1) + 961 * digit(r, 2) + 31 * digit(r, 3)
            + digit(r, 4),
{
    assert forall|i: nat| i < 5 implies #[trigger] digit_rest(r, i) == place(i as int) * digit(
        r,
        i,
    ) + digit_rest(r, i + 1) by {
        vstd::arithmetic::div_mod::lemma_fundamental_div_mod(
            digit_rest(r, i) as int,
            place(i as int) as int,
        );
        assert(digit_rest(r, i + 1) == digit_rest(r, i) % place(i as int));
    }
    assert(digit_rest(r, 0) == r);
    assert(digit_rest(r, 5) == digit_rest(r, 4) % 1);
    assert(digit_rest(r, 4) == 1 * digit(r, 4) + digit_rest(r, 5));
}

proof fn lemma_poly_five(h: int, d: Seq<char>)
    requires
        d.len() == 5,
    ensures
        hash_poly(h, d) == h * 28629151 + 923521 * (d[0] as u32 as int) + 29791 * (
        d[1] as u32 as int) + 961 * (d[2] as u32 as int) + 31 * (d[3] as u32 as int) + (
        d[4] as u32 as int),
{
    assert(d.take(0) =~= Seq::<char>::empty());
    assert(d.take(1).drop_last() =~= d.take(0));
    assert(d.take(2).drop_last() =~= d.take(1));
    assert(d.take(3).drop_last() =~= d.take(2));
    assert(d.take(4).drop_last() =~= d.take(3));
    assert(d.drop_last() =~= d.take(4));
    assert(d.take(1).last() == d[0]);
    assert(d.take(2).last() == d[1]);
    assert(d.take(3).last() == d[2]);
    assert(d.take(4).last() == d[3]);
    let u0 = d[0] as u32 as int;
    let u1 = d[1] as u32 as int;
    let u2 = d[2] as u32 as int;
    let u3 = d[3] as u32 as int;
    let u4 = d[4] as u32 as int;
    assert(hash_poly(h, d.take(0)) == h);
    assert(hash_poly(h, d.take(1)) == 31 * h + u0);
    assert(hash_poly(h, d.take(2)) == 31 * (31 * h + u0) + u1);
    assert(hash_poly(h, d.take(3)) == 31 * (31 * (31 * h + u0) + u1) + u2);
    assert(hash_poly(h, d.take(4)) == 31 * (31 * (31 * (31 * h + u0) + u1) + u2) + u3);
    assert(hash_poly(h, d) == 31 * (31 * (31 * (31 * (31 * h + u0) + u1) + u2) + u3) + u4);
}

proof fn lemma_prefix_hashes()
    ensures
        hash_u32_from(0, collision_prefix()) == 29705318,
        hash_chars_from(0, collision_prefix()) == 29705318,
{
    let p = collision_prefix();
    assert(p.drop_last() =~= seq!['玄', '黎']);
    assert(seq!['玄', '黎'].last() == '黎');
    assert(seq!['玄'].last() == '玄');
    assert(seq!['玄', '黎'].drop_last() =~= seq!['玄']);
    assert(seq!['玄'].drop_last() =~= Seq::<char>::empty());
    assert(hash_u32_from(0, Seq::<char>::empty()) == 0);
    assert(hash_chars_from(0, Seq::<char>::empty()) == 0);
    assert(utf16_units('玄').len() == 1 && utf16_units('玄')[0] == 0x7384u16);
    assert(utf16_units('黎').len() == 1 && utf16_units('黎')[0] == 0x9ECEu16);
    assert(utf16_units('曰').len() == 1 && utf16_units('曰')[0] == 0x66F0u16);
    assert(hash_u32_from(0, seq!['玄']) == 0x7384);
    assert(hash_u32_from(0, seq!['玄', '黎']) == 957386);
    assert(hash_chars_from(0, seq!['玄']) == wrap_i32(0x7384));
    assert(wrap_i32(0x7384) == 0x7384);
    assert(hash_chars_from(0, seq!['玄', '黎']) == wrap_i32(957386));
    assert(wrap_i32(957386) == 957386);
    assert(hash_chars_from(0, p) == wrap_i32(29705318));
    assert(wrap_i32(29705318) == 29705318);
}

proof fn lemma_target_cong(s: i32, h: int)
    requires
        0 <= h < 0x1_0000_0000,
    ensures
        cong32(h * 28629151 + 28220707460 + collision_target(s, h as u32) as int, s as int),
{
    let r = collision_target(s, h as u32);
    let us: int = if s < 0 {
        s + 0x1_0000_0000
    } else {
        s as int
    };
    let mul = (h * 28629151) % 0x1_0000_0000;
    let x = us - mul - 2450903684;
    lemma_mod_cong(x);
    lemma_mod_cong(x % 0x1_0000_0000 + 0x1_0000_0000);
    lemma_cong_intro(x % 0x1_0000_0000 + 0x1_0000_0000, x % 0x1_0000_0000, 1);
    lemma_cong_trans(r as int, x % 0x1_0000_0000 + 0x1_0000_0000, x % 0x1_0000_0000);
    lemma_cong_trans(r as int, x % 0x1_0000_0000, x);
    lemma_mod_cong(h * 28629151);
    lemma_cong_elim(r as int, x);
    lemma_cong_elim(mul, h * 28629151);
    let k1 = (r - x) / 0x1_0000_0000;
    let k2 = (mul - h * 28629151) / 0x1_0000_0000;
    let k3: int = if s < 0 {
        1
    } else {
        0
    };
    assert(h * 28629151 + 28220707460 + r - s == (k1 - k2 + k3 + 6) * 0x1_0000_0000);
    lemma_cong_intro(h * 28629151 + 28220707460 + r, s as int, k1 - k2 + k3 + 6);
}

/// Law: the string generated for `s` hashes to `s`.
pub proof fn law_collision_hashes_back(s: i32)
    ensures
        string_hash_spec(collision_string(s)) == s,
{
    let p = collision_prefix();
    lemma_prefix_hashes();
    let hh = hash_chars_from(0, p);
    let r = collision_target(s, 29705318);
    let d = Seq::new(5, |i: int| (0x7384 + digit(r, i as nat)) as char);
    lemma_digit_bounds(r);
    assert forall|i: int| 0 <= i < d.len() implies (#[trigger] d[i] as u32) < 0x10000 by {
        assert(digit(r, i as nat) <= 4650);
    }
    lemma_hash_append(0, p, d);
    assert(collision_string(s) == p + d);
    lemma_hash_poly(hh, d);
    lemma_poly_five(29705318, d);
    assert(d[0] as u32 as int == 0x7384 + digit(r, 0));
    assert(d[1] as u32 as int == 0x7384 + digit(r, 1));
    assert(d[2] as u32 as int == 0x7384 + digit(r, 2));
    assert(d[3] as u32 as int == 0x7384 + digit(r, 3));
    assert(d[4] as u32 as int == 0x7384 + digit(r, 4));
    lemma_digits_sum(r);
    let poly = hash_poly(29705318, d);
    assert(poly == 29705318 * 28629151 + 28220707460 + r);
    lemma_target_cong(s, 29705318);
    lemma_cong_trans(hash_chars_from(hh, d) as int, poly, s as int);
    lemma_wrap_cong(hash_chars_from(hh, d) as int);
    lemma_wrap_eq(hash_chars_from(hh, d) as int, s as int);
    assert(wrap_i32(s as int) == s);
}

} // verus!
