//! Integer 2D vectors and the arithmetic the simulation stages use:
//! truncating division for scaled movement, an integer square root, and
//! normalisation of a direction vector to the fixed direction scale.

use vstd::prelude::*;

verus! {

/// Directions are stored scaled by this factor: a unit vector has squared
/// norm close to `DIR_SCALE * DIR_SCALE`.
pub const DIR_SCALE: i64 = 1000;

/// A 2D vector with integer coordinates.
#[derive(Clone, Copy, PartialEq, Eq, Structural, Debug)]
pub struct Vec2i {
    pub x: i64,
    pub y: i64,
}

/// Division that rounds toward zero, as the machine division does.
pub open spec fn div_trunc(a: int, b: int) -> int
    recommends
        b > 0,
{
    if a >= 0 {
        a / b
    } else {
        -((-a) / b)
    }
}

/// Divides rounding toward zero.
pub fn div_trunc_exec(a: i64, b: i64) -> (q: i64)
    requires
        b > 0,
        -0x4000_0000_0000_0000 <= a <= 0x4000_0000_0000_0000,
    ensures
        q == div_trunc(a as int, b as int),
{
    if a >= 0 {
        let q: u64 = (a as u64) / (b as u64);
        q as i64
    } else {
        let q: u64 = ((-a) as u64) / (b as u64);
        -(q as i64)
    }
}

pub open spec fn clamp_i(v: int, lo: int, hi: int) -> int {
    if v < lo {
        lo
    } else if v > hi {
        hi
    } else {
        v
    }
}

pub open spec fn abs_i(v: int) -> int {
    if v < 0 {
        -v
    } else {
        v
    }
}

/// Halves a non-negative quantity, rounding down.
pub fn half(v: i64) -> (r: i64)
    requires
        v >= 0,
    ensures
        r == v as int / 2,
{
    ((v as u64) / 2) as i64
}

pub open spec fn norm_sq(v: Vec2i) -> int {
    v.x * v.x + v.y * v.y
}

/// A direction counts as unit-length when its squared norm is within a
/// small tolerance of `DIR_SCALE * DIR_SCALE` (1_000_000).
pub open spec fn near_unit(v: Vec2i) -> bool {
    995_999 <= norm_sq(v) <= 1_002_000
}

/// The components of a near-unit direction are bounded.
pub proof fn lemma_near_unit_bounds(v: Vec2i)
    requires
        near_unit(v),
    ensures
        -1001 <= v.x <= 1001,
        -1001 <= v.y <= 1001,
{
    assert(v.x * v.x <= 1_002_000 && v.y * v.y <= 1_002_000) by (nonlinear_arith)
        requires
            v.x * v.x + v.y * v.y <= 1_002_000,
    ;
    assert(-1001 <= v.x <= 1001) by (nonlinear_arith)
        requires
            v.x * v.x <= 1_002_000,
    ;
    assert(-1001 <= v.y <= 1001) by (nonlinear_arith)
        requires
            v.y * v.y <= 1_002_000,
    ;
}

/// Negating a component leaves the squared norm unchanged.
pub proof fn lemma_neg_sq(a: int)
    ensures
        (-a) * (-a) == a * a,
{
    assert((-a) * (-a) == a * a) by (nonlinear_arith);
}

/// Integer square root for the small inputs normalisation needs.
pub fn isqrt(n: u64) -> (r: u64)
    requires
        n <= 4_000_000,
    ensures
        r * r <= n < (r + 1) * (r + 1),
{
    let mut r: u64 = 0;
    loop
        invariant
            n <= 4_000_000,
            r * r <= n,
            r <= 2000,
        decreases 2001 - r,
    {
        proof {
            assert((r + 1) * (r + 1) <= 4_004_001) by (nonlinear_arith)
                requires
                    0 <= r <= 2000,
            ;
        }
        let next: u64 = (r + 1) * (r + 1);
        if next > n {
            return r;
        }
        proof {
            assert(r + 1 <= 2000) by (nonlinear_arith)
                requires
                    (r + 1) * (r + 1) <= 4_000_000,
                    r >= 0,
            ;
        }
        r = r + 1;
    }
}

/// The direction `(rx, DIR_SCALE)` normalised in integers: both components
/// divided by the integer square root of the squared length.
pub open spec fn is_normalized_dir(rx: int, d: Vec2i) -> bool {
    exists|len: int|
        #![trigger len * len]
        len * len <= rx * rx + 1_000_000 < (len + 1) * (len + 1) && 0 < len && d.x == (rx * 1000)
            / len && d.y == 1_000_000int / len
}

/// Builds the launch direction of a new ball: the horizontal component is a
/// fraction `rx / DIR_SCALE` of a unit in `[0, 1]`, the vertical component is
/// one full unit upward, and the pair is divided by the integer square root
/// of its length, which lands it on the near-unit band.
pub fn normalized_dir(rx: i64) -> (d: Vec2i)
    requires
        0 <= rx <= 1000,
    ensures
        is_normalized_dir(rx as int, d),
        near_unit(d),
        d.y > 0,
        d.x >= 0,
{
    proof {
        assert(0 <= rx * rx <= 1_000_000) by (nonlinear_arith)
            requires
                0 <= rx <= 1000,
        ;
    }
    let n: u64 = ((rx * rx) as u64) + 1_000_000;
    let len: u64 = isqrt(n);
    assert(1000 <= len <= 1414) by (nonlinear_arith)
        requires
            len * len <= n < (len + 1) * (len + 1),
            1_000_000 <= n <= 2_000_000,
    ;
    let dx: u64 = ((rx * 1000) as u64) / len;
    let dy: u64 = 1_000_000 / len;
    let d = Vec2i { x: dx as i64, y: dy as i64 };
    proof {
        lemma_normalized_bounds(rx as int, n as int, len as int, dx as int, dy as int);
        assert((len as int) * (len as int) <= rx * rx + 1_000_000 < (len as int + 1) * (len as int
            + 1));
    }
    d
}

/// The truncated quotients of the normalisation stay within the near-unit
/// tolerance band.
proof fn lemma_normalized_bounds(rx: int, n: int, len: int, dx: int, dy: int)
    requires
        0 <= rx <= 1000,
        n == rx * rx + 1_000_000,
        1000 <= len <= 1414,
        len * len <= n < (len + 1) * (len + 1),
        dx == (rx * 1000) / len,
        dy == 1_000_000int / len,
    ensures
        995_999 <= dx * dx + dy * dy <= 1_002_000,
        dy > 0,
        dx >= 0,
{
    let a = rx * 1000;
    let b = 1_000_000int;
    assert(0 <= a <= 1_000_000) by (nonlinear_arith)
        requires
            0 <= rx <= 1000,
            a == rx * 1000,
    ;
    // Division bounds: len * dx <= a < len * (dx + 1), likewise for dy.
    assert(len * dx <= a && a < len * (dx + 1) && dx >= 0) by (nonlinear_arith)
        requires
            dx == a / len,
            len >= 1000,
            a >= 0,
    ;
    assert(len * dy <= b && b < len * (dy + 1) && dy >= 0) by (nonlinear_arith)
        requires
            dy == b / len,
            len >= 1000,
            b >= 0,
    ;
    // Components are at most DIR_SCALE.
    assert(dx <= 1000 && dy <= 1000) by (nonlinear_arith)
        requires
            len * dx <= a,
            len * dy <= b,
            a <= 1_000_000,
            b == 1_000_000,
            len >= 1000,
            dx >= 0,
            dy >= 0,
    ;
    assert(dy >= 1) by (nonlinear_arith)
        requires
            b < len * (dy + 1),
            b == 1_000_000,
            len <= 1414,
            dy >= 0,
    ;
    // Upper bound: (dx^2 + dy^2) * len^2 <= a^2 + b^2 = 1000^2 * n
    //              < 1000^2 * (len + 1)^2 <= len^2 * 1001^2.
    assert((dx * dx + dy * dy) * (len * len) <= a * a + b * b) by (nonlinear_arith)
        requires
            0 <= len * dx <= a,
            0 <= len * dy <= b,
    ;
    assert(a * a + b * b == 1_000_000 * n) by (nonlinear_arith)
        requires
            a == rx * 1000,
            b == 1_000_000int,
            n == rx * rx + 1_000_000,
    ;
    assert(1_000_000 * n < 1_000_000 * ((len + 1) * (len + 1))) by (nonlinear_arith)
        requires
            n < (len + 1) * (len + 1),
    ;
    assert(1_000_000 * ((len + 1) * (len + 1)) <= (len * len) * 1_002_001) by (nonlinear_arith)
        requires
            len >= 1000,
    ;
    assert(dx * dx + dy * dy <= 1_002_000) by (nonlinear_arith)
        requires
            (dx * dx + dy * dy) * (len * len) < (len * len) * 1_002_001,
            len >= 1000,
    ;
    // Lower bound: ((dx + 1)^2 + (dy + 1)^2) * len^2 > a^2 + b^2 = 1000^2 * n
    //              >= 1000^2 * len^2, so dx^2 + dy^2 > 1000^2 - 2 (dx + dy) - 2.
    assert(((dx + 1) * (dx + 1) + (dy + 1) * (dy + 1)) * (len * len) > a * a + b * b) by (nonlinear_arith)
        requires
            0 <= a < len * (dx + 1),
            0 <= b < len * (dy + 1),
    ;
    assert(1_000_000 * n >= 1_000_000 * (len * len)) by (nonlinear_arith)
        requires
            n >= len * len,
    ;
    assert((dx + 1) * (dx + 1) + (dy + 1) * (dy + 1) > 1_000_000) by (nonlinear_arith)
        requires
            ((dx + 1) * (dx + 1) + (dy + 1) * (dy + 1)) * (len * len) > 1_000_000 * (len * len),
            len >= 1000,
    ;
    assert(dx * dx + dy * dy >= 1_000_000 + 1 - 2 * (dx + dy) - 2) by (nonlinear_arith)
        requires
            (dx + 1) * (dx + 1) + (dy + 1) * (dy + 1) > 1_000_000,
    ;
    assert(dx * dx + dy * dy >= 995_999) by {
        assert(dx + dy <= 2000);
    }
}

} // verus!
