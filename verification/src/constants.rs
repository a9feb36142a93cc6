//! Fixed tables of the map generator.
use vstd::prelude::*;

verus! {

/// Which cells a generation step may paint (see `MapMaker::get_ctype_mask`).
#[derive(Clone, Copy, PartialEq, Eq, Debug, Structural)]
pub enum CType {
    AllTrue,
    NoBorn,
    CheckCon,
    CheckCon2,
}

/// Number of offsets in the spiral table: a 101 by 101 square.
pub const SPIRAL_LEN: usize = 10201;

/// State of the square spiral walk: position, heading (0: +x, 1: -y,
/// 2: -x, 3: +y), current leg length, steps taken on the current leg, and
/// legs completed at the current length.
pub struct SpiralWalk {
    pub x: int,
    pub y: int,
    pub d: int,
    pub s: int,
    pub c: int,
    pub h: int,
}

pub open spec fn spiral_start() -> SpiralWalk {
    SpiralWalk { x: 0, y: 0, d: 1, s: 1, c: 0, h: 0 }
}

/// One step of the walk: move one cell along the heading; after `s` steps
/// turn to the next heading, and after two legs of length `s` lengthen the
/// legs by one.
pub open spec fn spiral_advance(w: SpiralWalk) -> SpiralWalk {
    let x = if w.d == 0 {
        w.x + 1
    } else if w.d == 2 {
        w.x - 1
    } else {
        w.x
    };
    let y = if w.d == 1 {
        w.y - 1
    } else if w.d == 3 {
        w.y + 1
    } else {
        w.y
    };
    if w.c + 1 == w.s {
        if w.h + 1 == 2 {
            SpiralWalk { x, y, d: (w.d + 1) % 4, s: w.s + 1, c: 0, h: 0 }
        } else {
            SpiralWalk { x, y, d: (w.d + 1) % 4, s: w.s, c: 0, h: w.h + 1 }
        }
    } else {
        SpiralWalk { x, y, d: w.d, s: w.s, c: w.c + 1, h: w.h }
    }
}

/// The walk after `k` steps.
pub open spec fn spiral_walk(k: nat) -> SpiralWalk
    decreases k,
{
    if k == 0 {
        spiral_start()
    } else {
        spiral_advance(spiral_walk((k - 1) as nat))
    }
}

/// The `k`-th offset of the spiral around the origin.
pub open spec fn spiral_point(k: nat) -> (i32, i32) {
    (spiral_walk(k).x as i32, spiral_walk(k).y as i32)
}

pub proof fn lemma_spiral_walk_bounds(k: nat)
    ensures
        -(k as int) <= spiral_walk(k).x <= k,
        -(k as int) <= spiral_walk(k).y <= k,
        0 <= spiral_walk(k).d < 4,
        1 <= spiral_walk(k).s <= k + 1,
        0 <= spiral_walk(k).c < spiral_walk(k).s,
        0 <= spiral_walk(k).h < 2,
    decreases k,
{
    if k > 0 {
        lemma_spiral_walk_bounds((k - 1) as nat);
    }
}

/// Where the walk stands at step `c` of leg `h` (0 or 1) of the two legs of
/// length `s`: legs of odd length go down then left from `(m, m)`, legs of
/// even length up then right from `(-m, -m)`, for `m = s / 2`.
pub open spec fn leg_point(s: int, h: int, c: int) -> (int, int) {
    let m = s / 2;
    if s % 2 == 1 {
        if h == 0 {
            (m, m - c)
        } else {
            (m - c, -m - 1)
        }
    } else {
        if h == 0 {
            (-m, -m + c)
        } else {
            (-m + c, m)
        }
    }
}

/// Steps taken before leg `h` of the legs of length `s`.
pub open spec fn leg_start(s: int, h: int) -> int {
    s * (s - 1) + h * s
}

/// The walk in closed form: after `k` steps it is at step `c` of leg `h`
/// of length `s`, with `k == leg_start(s, h) + c`.
proof fn lemma_spiral_closed(k: nat)
    ensures
        ({
            let w = spiral_walk(k);
            &&& 1 <= w.s
            &&& 0 <= w.c < w.s
            &&& 0 <= w.h < 2
            &&& w.d == if w.s % 2 == 1 { 1 + w.h } else { 3 - 3 * w.h }
            &&& k == leg_start(w.s, w.h) + w.c
            &&& (w.x, w.y) == leg_point(w.s, w.h, w.c)
        }),
    decreases k,
{
    if k > 0 {
        lemma_spiral_closed((k - 1) as nat);
        let v = spiral_walk((k - 1) as nat);
        let w = spiral_walk(k);
        assert(w == spiral_advance(v));
        let s = v.s;
        let m = s / 2;
        let odd = s % 2 == 1;
        assert(odd ==> s == 2 * m + 1);
        assert(!odd ==> s == 2 * m);
        if v.c + 1 < s {
            assert(w.s == s && w.h == v.h && w.c == v.c + 1);
        } else if v.h == 0 {
            assert(w.s == s && w.h == 1 && w.c == 0);
            assert(leg_start(s, 0) + s == leg_start(s, 1)) by (nonlinear_arith);
        } else {
            assert(w.s == s + 1 && w.h == 0 && w.c == 0);
            assert(leg_start(s, 1) + s == leg_start(s + 1, 0)) by (nonlinear_arith);
            assert((s + 1) % 2 == 1 <==> !odd);
            assert(odd ==> (s + 1) / 2 == m + 1);
            assert(!odd ==> (s + 1) / 2 == m);
        }
    }
}

/// The spiral position of offset `(x, y)`: its ring `r = max(|x|, |y|)`
/// is walked from `(r, r)` down the right side, along the bottom, up the
/// left side and along the top.
pub open spec fn spiral_index(x: int, y: int) -> int {
    let ax = if x < 0 { -x } else { x };
    let ay = if y < 0 { -y } else { y };
    let r = if ax < ay { ay } else { ax };
    if x == r {
        leg_start(2 * r + 1, 0) + (r - y)
    } else if y == -r && x != -r {
        leg_start(2 * r - 1, 1) + (r - 1 - x)
    } else if x == -r && y != r {
        leg_start(2 * r, 0) + (y + r)
    } else {
        leg_start(2 * r, 1) + (x + r)
    }
}

/// Steps of different legs, or of one leg at different places, differ.
proof fn lemma_leg_unique(s1: int, h1: int, c1: int, s2: int, h2: int, c2: int)
    requires
        1 <= s1,
        1 <= s2,
        0 <= h1 < 2,
        0 <= h2 < 2,
        0 <= c1 < s1,
        0 <= c2 < s2,
        leg_start(s1, h1) + c1 == leg_start(s2, h2) + c2,
    ensures
        s1 == s2 && h1 == h2 && c1 == c2,
{
    if s1 < s2 {
        assert(leg_start(s1, h1) + c1 < leg_start(s2, h2)) by (nonlinear_arith)
            requires
                1 <= s1 < s2,
                0 <= h1 < 2,
                0 <= h2 < 2,
                0 <= c1 < s1,
        {
            assert(s1 * (s1 - 1) + h1 * s1 + c1 < s1 * (s1 + 1));
            assert(s1 * (s1 + 1) <= s2 * (s2 - 1));
        }
    } else if s2 < s1 {
        assert(leg_start(s2, h2) + c2 < leg_start(s1, h1)) by (nonlinear_arith)
            requires
                1 <= s2 < s1,
                0 <= h1 < 2,
                0 <= h2 < 2,
                0 <= c2 < s2,
        {
            assert(s2 * (s2 - 1) + h2 * s2 + c2 < s2 * (s2 + 1));
            assert(s2 * (s2 + 1) <= s1 * (s1 - 1));
        }
    } else {
        if h1 != h2 {
            assert(leg_start(s1, 1) == leg_start(s1, 0) + s1);
        }
    }
}

/// `spiral_index` undoes the walk.
proof fn lemma_index_of_walk(k: nat)
    ensures
        spiral_index(spiral_walk(k).x, spiral_walk(k).y) == k,
{
    lemma_spiral_closed(k);
    let w = spiral_walk(k);
    let s = w.s;
    let m = s / 2;
    if s % 2 == 1 {
        assert(s == 2 * m + 1);
        if w.h == 0 {
            assert(spiral_index(m, m - w.c) == leg_start(2 * m + 1, 0) + w.c);
        } else {
            assert(spiral_index(m - w.c, -m - 1) == leg_start(2 * (m + 1) - 1, 1) + w.c);
        }
    } else {
        assert(s == 2 * m);
        if w.h == 0 {
            assert(spiral_index(-m, -m + w.c) == leg_start(2 * m, 0) + w.c);
        } else {
            assert(spiral_index(-m + w.c, m) == leg_start(2 * m, 1) + w.c);
        }
    }
}

/// The first `(2r + 1)^2` steps stay in the square of radius `r`.
proof fn lemma_walk_in_square(k: nat, r: nat)
    requires
        k < (2 * r + 1) * (2 * r + 1),
    ensures
        -r <= spiral_walk(k).x <= r,
        -r <= spiral_walk(k).y <= r,
{
    lemma_spiral_closed(k);
    let w = spiral_walk(k);
    let s = w.s;
    let m = s / 2;
    assert(s % 2 == 1 ==> s == 2 * m + 1);
    assert(s % 2 == 0 ==> s == 2 * m);
    assert(s <= 2 * r + 1 && (s == 2 * r + 1 ==> w.h == 0)) by (nonlinear_arith)
        requires
            k == s * (s - 1) + w.h * s + w.c,
            0 <= w.h < 2,
            0 <= w.c < s,
            1 <= s,
            k < (2 * r + 1) * (2 * r + 1),
    {
        if s >= 2 * r + 2 {
            assert(s * (s - 1) >= (2 * r + 2) * (2 * r + 1));
        }
        if s == 2 * r + 1 && w.h == 1 {
            assert(s * (s - 1) + s == (2 * r + 1) * (2 * r + 1));
        }
    }
}

/// Every cell of the square of radius `r` is reached within `(2r + 1)^2`
/// steps, at step `spiral_index`.
proof fn lemma_square_reached(x: int, y: int, r: nat)
    requires
        -r <= x <= r,
        -r <= y <= r,
    ensures
        0 <= spiral_index(x, y) < (2 * r + 1) * (2 * r + 1),
        spiral_walk(spiral_index(x, y) as nat).x == x,
        spiral_walk(spiral_index(x, y) as nat).y == y,
{
    let ax = if x < 0 { -x } else { x };
    let ay = if y < 0 { -y } else { y };
    let q = if ax < ay { ay } else { ax };
    let (s0, h0, c0) = if x == q {
        (2 * q + 1, 0int, q - y)
    } else if y == -q && x != -q {
        (2 * q - 1, 1int, q - 1 - x)
    } else if x == -q && y != q {
        (2 * q, 0int, y + q)
    } else {
        (2 * q, 1int, x + q)
    };
    assert(1 <= s0 && 0 <= c0 < s0);
    assert(spiral_index(x, y) == leg_start(s0, h0) + c0);
    assert(leg_point(s0, h0, c0) == (x, y)) by {
        assert((2 * q + 1) / 2 == q);
        assert((2 * q - 1) / 2 == q - 1);
        assert((2 * q) / 2 == q);
    }
    assert(0 <= leg_start(s0, h0) + c0 < (2 * r + 1) * (2 * r + 1)) by (nonlinear_arith)
        requires
            0 <= q <= r,
            s0 <= 2 * q + 1,
            s0 == 2 * q + 1 ==> h0 == 0,
            1 <= s0,
            0 <= h0 < 2,
            0 <= c0 < s0,
    {
        assert(s0 * (s0 - 1) >= 0);
        if s0 == 2 * q + 1 {
            assert(s0 * (s0 - 1) + c0 < s0 * s0);
            assert(s0 * s0 <= (2 * r + 1) * (2 * r + 1));
        } else {
            assert(s0 * (s0 - 1) + h0 * s0 + c0 < s0 * (s0 + 1));
            assert(s0 * (s0 + 1) <= (2 * q + 1) * (2 * q + 1));
            assert((2 * q + 1) * (2 * q + 1) <= (2 * r + 1) * (2 * r + 1));
        }
    }
    let k = spiral_index(x, y) as nat;
    lemma_spiral_closed(k);
    let w = spiral_walk(k);
    lemma_leg_unique(w.s, w.h, w.c, s0, h0, c0);
}

/// The first `(2r + 1)^2` offsets of the spiral table (`r <= 50`) hold
/// every offset of the square of radius `r` exactly once, and nothing
/// else: each lies in the square, no two are equal, and each offset of the
/// square is among them (at position `spiral_index`).
pub proof fn law_spiral_square(r: nat)
    requires
        r <= 50,
    ensures
        forall|k: nat|
            k < (2 * r + 1) * (2 * r + 1) ==> -r <= (#[trigger] spiral_point(k)).0 <= r && -r
                <= spiral_point(k).1 <= r,
        forall|k1: nat, k2: nat|
            k1 < k2 < (2 * r + 1) * (2 * r + 1) ==> #[trigger] spiral_point(k1) != #[trigger] spiral_point(
                k2,
            ),
        forall|x: int, y: int|
            -r <= x <= r && -r <= y <= r ==> 0 <= #[trigger] spiral_index(x, y) < (2 * r + 1) * (2 * r + 1)
                && spiral_point(spiral_index(x, y) as nat) == (x as i32, y as i32),
{
    assert forall|k: nat| k < (2 * r + 1) * (2 * r + 1) implies -r <= (#[trigger] spiral_point(k)).0 <= r
        && -r <= spiral_point(k).1 <= r by {
        lemma_walk_in_square(k, r);
    }
    assert forall|k1: nat, k2: nat| k1 < k2 < (2 * r + 1) * (2 * r + 1) implies #[trigger] spiral_point(k1)
        != #[trigger] spiral_point(k2) by {
        lemma_walk_in_square(k1, r);
        lemma_walk_in_square(k2, r);
        lemma_index_of_walk(k1);
        lemma_index_of_walk(k2);
    }
    assert forall|x: int, y: int| -r <= x <= r && -r <= y <= r implies 0 <= #[trigger] spiral_index(x, y) < (2
        * r + 1) * (2 * r + 1) && spiral_point(spiral_index(x, y) as nat) == (x as i32, y as i32) by {
        lemma_square_reached(x, y, r);
    }
}

/// Consecutive offsets of the spiral are one unit step apart.
pub proof fn law_spiral_unit_steps(k: nat)
    ensures
        ({
            let a = spiral_walk(k);
            let b = spiral_walk(k + 1);
            let dx = b.x - a.x;
            let dy = b.y - a.y;
            (dx == 0 && (dy == 1 || dy == -1)) || (dy == 0 && (dx == 1 || dx == -1))
        }),
{
    lemma_spiral_walk_bounds(k);
    assert(spiral_walk(k + 1) == spiral_advance(spiral_walk(k)));
}

/// The offsets of a square spiral around the origin, in walking order:
/// `(0, 0)`, `(0, -1)`, `(-1, -1)`, `(-1, 0)`, `(-1, 1)`, ... (10201 entries).
pub fn get_base_around_50() -> (r: Vec<(i32, i32)>)
    ensures
        r.len() == SPIRAL_LEN,
        forall|k: int| 0 <= k < SPIRAL_LEN ==> #[trigger] r@[k] == spiral_point(k as nat),
{
    let mut r: Vec<(i32, i32)> = Vec::new();
    r.push((0, 0));
    let (mut x, mut y, mut d, mut s, mut c, mut h): (i32, i32, i32, i32, i32, i32) = (
        0,
        0,
        1,
        1,
        0,
        0,
    );
    while r.len() < SPIRAL_LEN
        invariant
            1 <= r.len() <= SPIRAL_LEN,
            ({
                let w = spiral_walk((r.len() - 1) as nat);
                &&& w.x == x && w.y == y && w.d == d && w.s == s && w.c == c && w.h == h
            }),
            forall|k: int| 0 <= k < r.len() ==> #[trigger] r@[k] == spiral_point(k as nat),
        decreases SPIRAL_LEN - r.len(),
    {
        proof {
            lemma_spiral_walk_bounds((r.len() - 1) as nat);
        }
        if d == 0 {
            x = x + 1;
        } else if d == 1 {
            y = y - 1;
        } else if d == 2 {
            x = x - 1;
        } else {
            y = y + 1;
        }
        c = c + 1;
        if c == s {
            c = 0;
            d = (d + 1) % 4;
            h = h + 1;
            if h == 2 {
                h = 0;
                s = s + 1;
            }
        }
        r.push((x, y));
        proof {
            let k = (r.len() - 1) as nat;
            assert(spiral_walk(k) == spiral_advance(spiral_walk((k - 1) as nat)));
            lemma_spiral_walk_bounds(k);
        }
    }
    r
}

} // verus!
