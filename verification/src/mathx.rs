//! Fixed-point arithmetic helpers: truncating division, integer square
//! root, and vector magnitudes.
//!
//! One world unit is `UNIT` coordinate steps; a direction vector
//! normalised to "unit length" and scaled by a weight `f` has magnitude
//! `f` in these steps. All rounding is truncation toward zero, as in
//! hardware integer division.

use vstd::arithmetic::div_mod::{lemma_div_by_multiple, lemma_div_is_ordered};
use vstd::prelude::*;

use crate::geometry::Vec2I;

verus! {

/// Coordinate steps per world unit.
pub const UNIT: i64 = 1000;

/// Largest magnitude of a vector component accepted by the norm
/// helpers; keeps every intermediate product inside the machine
/// integer ranges.
pub const MAG_LIMIT: i64 = 4_000_000_000_000_000_000;

/// Absolute value.
pub open spec fn abs_i(a: int) -> int {
    if a >= 0 {
        a
    } else {
        -a
    }
}

/// Division truncating toward zero (the machine's signed division),
/// defined for positive divisors.
pub open spec fn div_trunc(a: int, b: int) -> int {
    if a >= 0 {
        a / b
    } else {
        -((-a) / b)
    }
}

/// Floor of the square root of a natural number.
pub open spec fn sqrt_floor(n: nat) -> nat
    decreases n,
{
    if n == 0 {
        0
    } else {
        let r = sqrt_floor((n - 1) as nat);
        if (r + 1) * (r + 1) <= n {
            r + 1
        } else {
            r
        }
    }
}

/// `sqrt_floor(n)` satisfies the square-root bracket.
pub proof fn lemma_sqrt_floor_bounds(n: nat)
    ensures
        sqrt_floor(n) * sqrt_floor(n) <= n,
        n < (sqrt_floor(n) + 1) * (sqrt_floor(n) + 1),
    decreases n,
{
    if n == 0 {
        assert(sqrt_floor(n) == 0);
        assert(sqrt_floor(n) * sqrt_floor(n) == 0 && (sqrt_floor(n) + 1) * (sqrt_floor(n) + 1)
            == 1) by (nonlinear_arith)
            requires
                sqrt_floor(n) == 0,
        ;
    } else {
        lemma_sqrt_floor_bounds((n - 1) as nat);
        let r = sqrt_floor((n - 1) as nat);
        if (r + 1) * (r + 1) <= n {
            assert(sqrt_floor(n) == r + 1);
            assert(n - 1 < (r + 1) * (r + 1));
            assert(n < (r + 2) * (r + 2)) by (nonlinear_arith)
                requires
                    n <= (r + 1) * (r + 1),
                    r >= 0,
            ;
        } else {
            assert(sqrt_floor(n) == r);
        }
    }
}

/// Any `r` satisfying the square-root bracket is `sqrt_floor(n)`.
pub proof fn lemma_sqrt_floor_unique(n: nat, r: nat)
    requires
        r * r <= n,
        n < (r + 1) * (r + 1),
    ensures
        r == sqrt_floor(n),
{
    let s = sqrt_floor(n);
    lemma_sqrt_floor_bounds(n);
    if r < s {
        assert((r + 1) * (r + 1) <= s * s) by (nonlinear_arith)
            requires
                0 <= r + 1 <= s,
        ;
    } else if s < r {
        assert((s + 1) * (s + 1) <= r * r) by (nonlinear_arith)
            requires
                0 <= s + 1 <= r,
        ;
    }
}

/// Squared Euclidean magnitude of a vector.
pub open spec fn norm_sq(v: Vec2I) -> int {
    v.x * v.x + v.y * v.y
}

/// Euclidean magnitude of a vector, rounded down.
pub open spec fn vec_len_of(v: Vec2I) -> int {
    sqrt_floor(norm_sq(v) as nat) as int
}

/// Absolute value of a (not minimal) machine integer.
fn abs64(a: i64) -> (r: u64)
    requires
        a > i64::MIN,
    ensures
        r == abs_i(a as int),
{
    if a < 0 {
        (-a) as u64
    } else {
        a as u64
    }
}

/// Integer square root by bisection, for arguments up to twice the
/// square of `MAG_LIMIT`.
pub fn isqrt(n: u128) -> (r: u64)
    requires
        n <= 32_000_000_000_000_000_000_000_000_000_000_000_000u128,
    ensures
        r == sqrt_floor(n as nat),
        r * r <= n,
        n < (r + 1) * (r + 1),
        r < 6_000_000_000_000_000_000,
{
    if n == 0 {
        proof {
            assert(sqrt_floor(0nat) == 0);
        }
        return 0;
    }
    let mut lo: u64 = 0;
    let mut hi: u64 = 6_000_000_000_000_000_000;
    proof {
        assert((hi as int) * (hi as int) > n) by (nonlinear_arith)
            requires
                hi as int == 6_000_000_000_000_000_000int,
                n <= 32_000_000_000_000_000_000_000_000_000_000_000_000int,
        ;
    }
    while lo + 1 < hi
        invariant
            lo < hi <= 6_000_000_000_000_000_000,
            lo * lo <= n,
            n < hi * hi,
        decreases hi - lo,
    {
        let mid: u64 = lo + (hi - lo) / 2;
        proof {
            assert((mid as int) * (mid as int)
                <= 36_000_000_000_000_000_000_000_000_000_000_000_000int) by (nonlinear_arith)
                requires
                    0 <= mid as int <= 6_000_000_000_000_000_000int,
            ;
        }
        let sq: u128 = (mid as u128) * (mid as u128);
        if sq <= n {
            lo = mid;
        } else {
            hi = mid;
        }
    }
    proof {
        lemma_sqrt_floor_unique(n as nat, lo as nat);
    }
    lo
}

/// Magnitude of a bounded vector, rounded down. The result dominates
/// the absolute value of each component.
pub fn vec_norm(v: Vec2I) -> (l: i64)
    requires
        -MAG_LIMIT <= v.x <= MAG_LIMIT,
        -MAG_LIMIT <= v.y <= MAG_LIMIT,
    ensures
        l == vec_len_of(v),
        0 <= l <= 6_000_000_000_000_000_000,
        l * l <= norm_sq(v),
        norm_sq(v) < (l + 1) * (l + 1),
        abs_i(v.x as int) <= l,
        abs_i(v.y as int) <= l,
        v.x == 0 && v.y == 0 ==> l == 0,
        !(v.x == 0 && v.y == 0) ==> l >= 1,
{
    let ax = abs64(v.x);
    let ay = abs64(v.y);
    proof {
        assert((ax as int) * (ax as int) + (ay as int) * (ay as int)
            <= 32_000_000_000_000_000_000_000_000_000_000_000_000int && (ax as int) * (ax as int)
            == (v.x as int) * (v.x as int) && (ay as int) * (ay as int) == (v.y as int) * (
        v.y as int)) by (nonlinear_arith)
            requires
                0 <= ax as int <= 4_000_000_000_000_000_000int,
                0 <= ay as int <= 4_000_000_000_000_000_000int,
                ax as int == v.x as int || ax as int == -(v.x as int),
                ay as int == v.y as int || ay as int == -(v.y as int),
        ;
    }
    let sq: u128 = (ax as u128) * (ax as u128) + (ay as u128) * (ay as u128);
    let l = isqrt(sq);
    proof {
        assert((l as int) * (l as int) <= norm_sq(v) < ((l as int) + 1) * ((l as int) + 1));
        assert(ax <= l && ay <= l) by (nonlinear_arith)
            requires
                (sq as int) < ((l as int) + 1) * ((l as int) + 1),
                sq as int == (ax as int) * (ax as int) + (ay as int) * (ay as int),
                l >= 0,
                ax >= 0,
                ay >= 0,
        ;
        if v.x == 0 && v.y == 0 {
            assert(sq == 0) by (nonlinear_arith)
                requires
                    sq as int == (ax as int) * (ax as int) + (ay as int) * (ay as int),
                    ax == 0,
                    ay == 0,
            ;
            assert(sqrt_floor(0nat) == 0);
        } else {
            assert(sq >= 1);
        }
    }
    l as i64
}

/// `a * m / d`, truncated toward zero, for `|a| <= d`: the result is
/// bounded by `m`. This is the scaling step of vector normalisation.
pub fn mul_div(a: i64, m: i64, d: i64) -> (r: i64)
    requires
        d >= 1,
        0 <= m,
        abs_i(a as int) <= d,
    ensures
        r == div_trunc(a as int * m as int, d as int),
        abs_i(r as int) <= m,
{
    let neg = a < 0;
    let au: u64 = abs64(a);
    proof {
        assert((au as int) * (m as int) == abs_i(a as int * m as int) && (au as int) * (m as int)
            <= (d as int) * (m as int)) by (nonlinear_arith)
            requires
                au as int == a as int || au as int == -(a as int),
                au as int == abs_i(a as int),
                0 <= au as int <= d as int,
                0 <= m as int,
        ;
    }
    proof {
        assert((au as int) * (m as int) < 170141183460469231731687303715884105728int)
            by (nonlinear_arith)
            requires
                0 <= au as int,
                (au as int) < 9223372036854775808int,
                0 <= m as int,
                (m as int) < 9223372036854775808int,
        ;
    }
    let prod: u128 = (au as u128) * (m as u128);
    let q: u128 = prod / (d as u128);
    proof {
        assert((d as int) * (m as int) == (m as int) * (d as int)) by (nonlinear_arith);
        lemma_div_is_ordered((au as int) * (m as int), (d as int) * (m as int), d as int);
        lemma_div_by_multiple(m as int, d as int);
        assert(q <= m);
        if a >= 0 {
            assert(a as int * m as int == (au as int) * (m as int));
            assert(div_trunc(a as int * m as int, d as int) == q as int);
        } else {
            assert(a as int * m as int == -((au as int) * (m as int))) by (nonlinear_arith)
                requires
                    au as int == -(a as int),
            ;
            assert(div_trunc(a as int * m as int, d as int) == -(q as int));
        }
    }
    let qi = q as i64;
    if neg {
        -qi
    } else {
        qi
    }
}

/// x component of a vector scaled to magnitude `f`: the vector is
/// divided by its own magnitude and multiplied by `f`, truncating
/// toward zero; the zero vector stays zero.
pub open spec fn sn_x(vx: int, vy: int, f: int) -> int {
    if vx == 0 && vy == 0 {
        0
    } else {
        div_trunc(vx * f, sqrt_floor((vx * vx + vy * vy) as nat) as int)
    }
}

/// y component of the same scaling.
pub open spec fn sn_y(vx: int, vy: int, f: int) -> int {
    if vx == 0 && vy == 0 {
        0
    } else {
        div_trunc(vy * f, sqrt_floor((vx * vx + vy * vy) as nat) as int)
    }
}

/// Normalises `v` to a unit direction and scales it by `f`; each
/// component of the result is bounded by `f`. The zero vector maps to
/// the zero vector, never dividing by zero.
pub fn scaled_norm(v: Vec2I, f: i64) -> (r: Vec2I)
    requires
        -MAG_LIMIT <= v.x <= MAG_LIMIT,
        -MAG_LIMIT <= v.y <= MAG_LIMIT,
        0 <= f,
    ensures
        r.x == sn_x(v.x as int, v.y as int, f as int),
        r.y == sn_y(v.x as int, v.y as int, f as int),
        abs_i(r.x as int) <= f,
        abs_i(r.y as int) <= f,
{
    if v.x == 0 && v.y == 0 {
        Vec2I { x: 0, y: 0 }
    } else {
        let l = vec_norm(v);
        Vec2I { x: mul_div(v.x, f, l), y: mul_div(v.y, f, l) }
    }
}

/// `a / b` truncated toward zero; the magnitude never grows.
pub fn div_i64(a: i64, b: i64) -> (r: i64)
    requires
        b >= 1,
        a > i64::MIN,
    ensures
        r == div_trunc(a as int, b as int),
        abs_i(r as int) <= abs_i(a as int),
{
    let neg = a < 0;
    let au: u64 = abs64(a);
    let q: u64 = au / (b as u64);
    proof {
        lemma_div_is_ordered(0, au as int, b as int);
        vstd::arithmetic::div_mod::lemma_div_nonincreasing(au as int, b as int);
    }
    let qi = q as i64;
    if neg {
        -qi
    } else {
        qi
    }
}

} // verus!
