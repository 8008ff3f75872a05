//! Fixed-point points and rays, and the exact integer arithmetic the
//! rest of the crate builds on.
//!
//! A world length is an integer count of thousandths of a world unit, so the
//! point `(5, 0, 5)` of the world is `Point3 { x: 5000, y: 0, z: 5000 }`.

use vstd::prelude::*;

verus! {

/// How many fixed-point steps make one world unit.
pub const WORLD_UNIT: i32 = 1000;

/// The longest distance, in fixed-point steps, at which a pointer ray still
/// hits anything: one hundred world units. The bound is inclusive.
pub const MAX_RAY_LENGTH: i32 = 100_000;

/// A point of the screen, in pixels.
#[derive(Clone, Copy, Debug, PartialEq, Eq, Structural)]
pub struct Point2 {
    pub x: i32,
    pub y: i32,
}

/// The size of the viewport, in pixels.
#[derive(Clone, Copy, Debug, PartialEq, Eq, Structural)]
pub struct Size2 {
    pub width: i32,
    pub height: i32,
}

/// A point or a displacement of the world, in fixed-point steps.
#[derive(Clone, Copy, Debug, PartialEq, Eq, Structural)]
pub struct Point3 {
    pub x: i32,
    pub y: i32,
    pub z: i32,
}

/// A half-line of the world: the points `origin + direction * t` for `t >= 0`.
/// The direction need not have any particular length.
#[derive(Clone, Copy, Debug, PartialEq, Eq, Structural)]
pub struct Ray {
    pub origin: Point3,
    pub direction: Point3,
}

/// The square of an integer.
pub open spec fn sq(a: int) -> int {
    a * a
}

/// The squared Euclidean distance between two points.
pub open spec fn dist_sq(a: Point3, b: Point3) -> int {
    sq(b.x - a.x) + sq(b.y - a.y) + sq(b.z - a.z)
}

/// The nearest coordinate to an integer: the integer itself where it fits.
pub open spec fn clamp_coord(v: int) -> int {
    if v < i32::MIN {
        i32::MIN as int
    } else if v > i32::MAX {
        i32::MAX as int
    } else {
        v
    }
}

/// Narrows a wide integer to a coordinate, stopping at the ends of the range.
pub fn saturate(v: i64) -> (r: i32)
    ensures
        r == clamp_coord(v as int),
{
    if v < i32::MIN as i64 {
        i32::MIN
    } else if v > i32::MAX as i64 {
        i32::MAX
    } else {
        v as i32
    }
}

/// The product of two bounded integers is bounded by the product of the
/// bounds.
pub proof fn lemma_product_bound(a: int, b: int, ma: int, mb: int)
    requires
        -ma <= a <= ma,
        -mb <= b <= mb,
    ensures
        -(ma * mb) <= a * b <= ma * mb,
{
    assert(-(ma * mb) <= a * b <= ma * mb) by (nonlinear_arith)
        requires
            -ma <= a <= ma,
            -mb <= b <= mb,
    ;
}

/// Floor division by a positive divisor, on machine integers.
pub fn floor_div(a: i128, b: i128) -> (q: i128)
    requires
        b > 0,
        a > i128::MIN,
    ensures
        q == a / b,
        a >= 0 ==> 0 <= q <= a,
        a < 0 ==> a <= q < 0,
{
    if a >= 0 {
        proof {
            vstd::arithmetic::div_mod::lemma_fundamental_div_mod(a as int, b as int);
            assert(0 <= a / b <= a) by (nonlinear_arith)
                requires
                    a == b * (a / b) + (a % b),
                    0 <= a % b < b,
                    b > 0,
                    a >= 0,
            ;
        }
        a / b
    } else {
        let na: i128 = -a;
        let q0: i128 = na / b;
        let r0: i128 = na % b;
        proof {
            assert(na == b * q0 + r0 && 0 <= r0 < b) by {
                vstd::arithmetic::div_mod::lemma_fundamental_div_mod(na as int, b as int);
            }
            assert(0 <= q0 <= na) by (nonlinear_arith)
                requires
                    na == b * q0 + r0,
                    0 <= r0 < b,
                    na > 0,
            ;
            if r0 == 0 {
                assert(a == (-q0) * b + 0 && q0 > 0) by (nonlinear_arith)
                    requires
                        na == b * q0 + r0,
                        r0 == 0,
                        a == -na,
                        b > 0,
                        na > 0,
                        q0 >= 0,
                ;
                vstd::arithmetic::div_mod::lemma_fundamental_div_mod_converse(a as int, b as int, -(q0 as int), 0);
            } else {
                assert(a == (-q0 - 1) * b + (b - r0) && q0 < na) by (nonlinear_arith)
                    requires
                        na == b * q0 + r0,
                        a == -na,
                        b > 0,
                        0 < r0 < b,
                        q0 >= 0,
                ;
                vstd::arithmetic::div_mod::lemma_fundamental_div_mod_converse(a as int, b as int, -(q0 as int) - 1, b - r0);
            }
        }
        if r0 == 0 { -q0 } else { -q0 - 1 }
    }
}

} // verus!
