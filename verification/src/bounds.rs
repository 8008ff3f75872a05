//! Bounding boxes, and the exact test whether a ray passes through one
//! within reach.
//!
//! A point of a ray is named by a rational parameter `n / m`: the point
//! `origin + direction * n / m`. All conditions on it are stated multiplied
//! through by `m`, so that they are conditions on integers.

use vstd::prelude::*;
use crate::geometry::{lemma_product_bound, sq, Point3, Ray, MAX_RAY_LENGTH};

verus! {

/// An axis-aligned box: the points within `half` of `center` along each axis.
/// A negative half extent makes the box empty.
#[derive(Clone, Copy, Debug, PartialEq, Eq, Structural)]
pub struct Bounds {
    pub center: Point3,
    pub half: Point3,
}

/// Along one axis, the ray point with parameter `n / m` lies between `lo` and
/// `hi`, for a ray that starts at `o` and moves by `d` per unit of parameter.
pub open spec fn slab_admits(lo: int, hi: int, o: int, d: int, n: int, m: int) -> bool {
    (lo - o) * m <= d * n <= (hi - o) * m
}

/// The ray point with parameter `n / m` is no farther from the ray's origin
/// than `MAX_RAY_LENGTH` (inclusive).
pub open spec fn within_reach(dir: Point3, n: int, m: int) -> bool {
    sq(dir.x * n) + sq(dir.y * n) + sq(dir.z * n) <= sq(MAX_RAY_LENGTH * m)
}

/// The parameter `n1 / m1` is at most `n2 / m2`, for positive `m1` and `m2`.
pub open spec fn not_after(n1: int, m1: int, n2: int, m2: int) -> bool {
    n1 * m2 <= n2 * m1
}

/// Along an axis on which the ray moves, the parameter `n / m` is at or past
/// the point where the ray enters the slab from `lo` to `hi`.
pub open spec fn entered(lo: int, hi: int, o: int, d: int, n: int, m: int) -> bool {
    &&& d > 0 ==> (lo - o) * m <= d * n
    &&& d < 0 ==> d * n <= (hi - o) * m
}

proof fn lemma_lower_carries(a: int, e: int, n1: int, m1: int, n2: int, m2: int)
    requires
        m1 > 0,
        m2 > 0,
        e > 0,
        not_after(n1, m1, n2, m2),
        a * m1 <= e * n1,
    ensures
        a * m2 <= e * n2,
{
    assert((a * m1) * m2 <= (e * n1) * m2) by (nonlinear_arith)
        requires
            a * m1 <= e * n1,
            m2 > 0,
    ;
    assert(e * (n1 * m2) <= e * (n2 * m1)) by (nonlinear_arith)
        requires
            n1 * m2 <= n2 * m1,
            e > 0,
    ;
    assert((a * m1) * m2 == (a * m2) * m1 && (e * n1) * m2 == e * (n1 * m2) && e * (n2 * m1) == (e
        * n2) * m1) by (nonlinear_arith);
    assert(a * m2 <= e * n2) by (nonlinear_arith)
        requires
            (a * m2) * m1 <= (e * n2) * m1,
            m1 > 0,
    ;
}

proof fn lemma_upper_carries(b: int, e: int, n1: int, m1: int, n2: int, m2: int)
    requires
        m1 > 0,
        m2 > 0,
        e > 0,
        not_after(n1, m1, n2, m2),
        e * n2 <= b * m2,
    ensures
        e * n1 <= b * m1,
{
    assert(e * (n1 * m2) <= e * (n2 * m1)) by (nonlinear_arith)
        requires
            n1 * m2 <= n2 * m1,
            e > 0,
    ;
    assert((e * n2) * m1 <= (b * m2) * m1) by (nonlinear_arith)
        requires
            e * n2 <= b * m2,
            m1 > 0,
    ;
    assert(e * (n1 * m2) == (e * n1) * m2 && e * (n2 * m1) == (e * n2) * m1 && (b * m2) * m1 == (b
        * m1) * m2) by (nonlinear_arith);
    assert(e * n1 <= b * m1) by (nonlinear_arith)
        requires
            (e * n1) * m2 <= (b * m1) * m2,
            m2 > 0,
    ;
}

/// The order of parameters is transitive.
proof fn lemma_not_after_chain(n1: int, m1: int, n2: int, m2: int, n3: int, m3: int)
    requires
        m1 > 0,
        m2 > 0,
        m3 > 0,
        not_after(n1, m1, n2, m2),
        not_after(n2, m2, n3, m3),
    ensures
        not_after(n1, m1, n3, m3),
{
    assert(n2 * m3 <= n3 * m2);
    assert(m3 * n2 <= n3 * m2) by (nonlinear_arith)
        requires
            n2 * m3 <= n3 * m2,
    ;
    lemma_upper_carries(n3, m3, n1, m1, n2, m2);
    assert(n1 * m3 <= n3 * m1) by (nonlinear_arith)
        requires
            m3 * n1 <= n3 * m1,
    ;
}

/// A parameter past the entry of a slab stays past it when it grows.
proof fn lemma_entered_carries(
    lo: int,
    hi: int,
    o: int,
    d: int,
    n1: int,
    m1: int,
    n2: int,
    m2: int,
)
    requires
        m1 > 0,
        m2 > 0,
        not_after(n1, m1, n2, m2),
        entered(lo, hi, o, d, n1, m1),
    ensures
        entered(lo, hi, o, d, n2, m2),
{
    if d > 0 {
        lemma_lower_carries(lo - o, d, n1, m1, n2, m2);
    } else if d < 0 {
        assert((o - hi) * m1 <= (-d) * n1) by (nonlinear_arith)
            requires
                d * n1 <= (hi - o) * m1,
        ;
        lemma_lower_carries(o - hi, -d, n1, m1, n2, m2);
        assert(d * n2 <= (hi - o) * m2) by (nonlinear_arith)
            requires
                (o - hi) * m2 <= (-d) * n2,
        ;
    }
}

/// Whatever parameter a slab admits is not before its entry.
proof fn lemma_entry_is_first(lo: int, hi: int, o: int, d: int, n: int, m: int)
    requires
        m > 0,
        slab_admits(lo, hi, o, d, n, m),
    ensures
        d > 0 ==> not_after(lo - o, d, n, m),
        d < 0 ==> not_after(o - hi, -d, n, m),
{
    if d > 0 {
        assert((lo - o) * m <= n * d) by (nonlinear_arith)
            requires
                (lo - o) * m <= d * n,
        ;
    } else if d < 0 {
        assert((o - hi) * m <= n * (-d)) by (nonlinear_arith)
            requires
                d * n <= (hi - o) * m,
        ;
    }
}

/// If a slab admits some parameter, it admits every earlier one that is past
/// its entry.
proof fn lemma_slab_admits_earlier(
    lo: int,
    hi: int,
    o: int,
    d: int,
    tn: int,
    tm: int,
    n: int,
    m: int,
)
    requires
        m > 0,
        tm > 0,
        not_after(tn, tm, n, m),
        slab_admits(lo, hi, o, d, n, m),
        entered(lo, hi, o, d, tn, tm),
    ensures
        slab_admits(lo, hi, o, d, tn, tm),
{
    if d > 0 {
        lemma_upper_carries(hi - o, d, tn, tm, n, m);
    } else if d < 0 {
        assert((-d) * n <= (o - lo) * m) by (nonlinear_arith)
            requires
                (lo - o) * m <= d * n,
        ;
        lemma_upper_carries(o - lo, -d, tn, tm, n, m);
        assert((lo - o) * tm <= d * tn) by (nonlinear_arith)
            requires
                (-d) * tn <= (o - lo) * tm,
        ;
    } else {
        assert(d * n == 0 && d * tn == 0) by (nonlinear_arith)
            requires
                d == 0,
        ;
        assert(lo - o <= 0 <= hi - o) by (nonlinear_arith)
            requires
                (lo - o) * m <= 0 <= (hi - o) * m,
                m > 0,
        ;
        assert((lo - o) * tm <= 0 <= (hi - o) * tm) by (nonlinear_arith)
            requires
                lo - o <= 0 <= hi - o,
                tm > 0,
        ;
    }
}

/// Within reach, no single axis carries the ray point farther than the reach.
proof fn lemma_reach_bounds_axis(a: int, b: int, c: int, r: int)
    requires
        r >= 0,
        sq(a) + sq(b) + sq(c) <= sq(r),
    ensures
        -r <= a <= r,
{
    assert(-r <= a <= r) by (nonlinear_arith)
        requires
            r >= 0,
            a * a + b * b + c * c <= r * r,
    ;
}

/// The square of a product is the product of the squares.
proof fn lemma_sq_of_product(a: int, n: int)
    ensures
        sq(a * n) == (a * a) * (n * n),
{
    assert((a * n) * (a * n) == (a * a) * (n * n)) by (nonlinear_arith);
}

/// The squared length of a direction scaled by `n` is its squared length
/// times the square of `n`.
proof fn lemma_scaled_length(dir: Point3, n: int)
    ensures
        sq(dir.x * n) + sq(dir.y * n) + sq(dir.z * n) == (sq(dir.x as int) + sq(dir.y as int) + sq(
            dir.z as int,
        )) * (n * n),
{
    lemma_sq_of_product(dir.x as int, n);
    lemma_sq_of_product(dir.y as int, n);
    lemma_sq_of_product(dir.z as int, n);
    let a = dir.x * dir.x;
    let b = dir.y * dir.y;
    let c = dir.z * dir.z;
    let nn = n * n;
    assert(a * nn + b * nn + c * nn == (a + b + c) * nn) by (nonlinear_arith);
}

/// If a point of the ray is within reach, so is every earlier one.
proof fn lemma_reach_admits_earlier(dir: Point3, tn: int, tm: int, n: int, m: int)
    requires
        m > 0,
        tm > 0,
        tn >= 0,
        n >= 0,
        not_after(tn, tm, n, m),
        within_reach(dir, n, m),
    ensures
        within_reach(dir, tn, tm),
{
    let s = sq(dir.x as int) + sq(dir.y as int) + sq(dir.z as int);
    let reach = MAX_RAY_LENGTH as int;
    assert(s >= 0) by (nonlinear_arith)
        requires
            s == dir.x * dir.x + dir.y * dir.y + dir.z * dir.z,
    ;
    lemma_scaled_length(dir, n);
    lemma_scaled_length(dir, tn);
    lemma_sq_of_product(reach, m);
    lemma_sq_of_product(reach, tm);
    let p = tn * m;
    let q = n * tm;
    assert(0 <= p <= q) by (nonlinear_arith)
        requires
            p == tn * m,
            q == n * tm,
            p <= q,
            tn >= 0,
            m > 0,
    ;
    assert(p * p <= q * q) by (nonlinear_arith)
        requires
            0 <= p <= q,
    ;
    lemma_sq_of_product(tn, m);
    lemma_sq_of_product(n, tm);
    let tt = tn * tn;
    let mm = m * m;
    let nn = n * n;
    let uu = tm * tm;
    let rr = reach * reach;
    assert(mm > 0 && uu > 0) by (nonlinear_arith)
        requires
            mm == m * m,
            uu == tm * tm,
            m > 0,
            tm > 0,
    ;
    // s * tt * mm <= s * nn * uu <= rr * mm * uu
    assert(s * (tt * mm) <= s * (nn * uu)) by (nonlinear_arith)
        requires
            tt * mm <= nn * uu,
            s >= 0,
    ;
    assert((s * nn) * uu <= (rr * mm) * uu) by (nonlinear_arith)
        requires
            s * nn <= rr * mm,
            uu > 0,
    ;
    assert(s * (tt * mm) == (s * tt) * mm && s * (nn * uu) == (s * nn) * uu && (rr * mm) * uu == (
    rr * uu) * mm) by (nonlinear_arith);
    assert(s * tt <= rr * uu) by (nonlinear_arith)
        requires
            (s * tt) * mm <= (rr * uu) * mm,
            mm > 0,
    ;
}

/// Raises the parameter `n / m` to the entry of one more slab, if that comes
/// later.
fn raise_to_entry(lo: i128, hi: i128, o: i128, d: i128, n: i128, m: i128) -> (r: (i128, i128))
    requires
        -0x1_0000_0000 <= lo <= 0x1_0000_0000,
        -0x1_0000_0000 <= hi <= 0x1_0000_0000,
        -0x8000_0000 <= o <= 0x8000_0000,
        -0x8000_0000 <= d <= 0x8000_0000,
        0 <= n <= 0x2_0000_0000,
        0 < m <= 0x8000_0000,
    ensures
        0 <= r.0 <= 0x2_0000_0000,
        0 < r.1 <= 0x8000_0000,
        not_after(n as int, m as int, r.0 as int, r.1 as int),
        entered(lo as int, hi as int, o as int, d as int, r.0 as int, r.1 as int),
        r == (n, m) || (d > 0 && r.0 == lo - o && r.1 == d) || (d < 0 && r.0 == o - hi && r.1 == -d),
{
    if d == 0 {
        return (n, m);
    }
    let (a, e): (i128, i128) = if d > 0 {
        (lo - o, d)
    } else {
        (o - hi, -d)
    };
    proof {
        lemma_product_bound(a as int, m as int, 0x2_0000_0000, 0x8000_0000);
        lemma_product_bound(n as int, e as int, 0x2_0000_0000, 0x8000_0000);
    }
    if a * m > n * e {
        proof {
            assert(a > 0) by (nonlinear_arith)
                requires
                    a * m > n * e,
                    n >= 0,
                    e > 0,
                    m > 0,
            ;
            assert(n * e <= a * m);
            if d > 0 {
                assert((lo - o) * e <= d * a) by (nonlinear_arith)
                    requires
                        a == lo - o,
                        e == d,
                ;
            } else {
                assert(d * a <= (hi - o) * e) by (nonlinear_arith)
                    requires
                        a == o - hi,
                        e == -d,
                ;
            }
        }
        (a, e)
    } else {
        proof {
            if d > 0 {
                assert((lo - o) * m <= d * n) by (nonlinear_arith)
                    requires
                        a * m <= n * e,
                        a == lo - o,
                        e == d,
                ;
            } else {
                assert(d * n <= (hi - o) * m) by (nonlinear_arith)
                    requires
                        a * m <= n * e,
                        a == o - hi,
                        e == -d,
                ;
            }
        }
        (n, m)
    }
}

/// Decides whether one slab admits the parameter `n / m`, and hands back the
/// displacement `d * n` along the axis.
fn slab_admits_at(lo: i128, hi: i128, o: i128, d: i128, n: i128, m: i128) -> (r: (bool, i128))
    requires
        -0x1_0000_0000 <= lo <= 0x1_0000_0000,
        -0x1_0000_0000 <= hi <= 0x1_0000_0000,
        -0x8000_0000 <= o <= 0x8000_0000,
        -0x8000_0000 <= d <= 0x8000_0000,
        0 <= n <= 0x2_0000_0000,
        0 < m <= 0x8000_0000,
    ensures
        r.0 == slab_admits(lo as int, hi as int, o as int, d as int, n as int, m as int),
        r.1 == d * n,
{
    proof {
        lemma_product_bound((lo - o) as int, m as int, 0x2_0000_0000, 0x8000_0000);
        lemma_product_bound((hi - o) as int, m as int, 0x2_0000_0000, 0x8000_0000);
        lemma_product_bound(d as int, n as int, 0x8000_0000, 0x2_0000_0000);
    }
    let along: i128 = d * n;
    ((lo - o) * m <= along && along <= (hi - o) * m, along)
}

impl Bounds {
    /// The box holds the ray point with parameter `n / m`, and that point is
    /// within reach.
    pub open spec fn admits(&self, ray: Ray, n: int, m: int) -> bool {
        &&& n >= 0
        &&& m > 0
        &&& slab_admits(
            self.center.x - self.half.x,
            self.center.x + self.half.x,
            ray.origin.x as int,
            ray.direction.x as int,
            n,
            m,
        )
        &&& slab_admits(
            self.center.y - self.half.y,
            self.center.y + self.half.y,
            ray.origin.y as int,
            ray.direction.y as int,
            n,
            m,
        )
        &&& slab_admits(
            self.center.z - self.half.z,
            self.center.z + self.half.z,
            ray.origin.z as int,
            ray.direction.z as int,
            n,
            m,
        )
        &&& within_reach(ray.direction, n, m)
    }

    /// The ray passes through the box within reach: some point of the ray, at
    /// a parameter that is not negative, lies in the box and no farther from
    /// the ray's origin than `MAX_RAY_LENGTH`.
    pub open spec fn hit_by(&self, ray: Ray) -> bool {
        exists|n: int, m: int| self.admits(ray, n, m)
    }

    /// Decides whether the box admits the ray point with parameter `n / m`.
    fn admits_at(&self, ray: &Ray, n: i128, m: i128) -> (r: bool)
        requires
            0 <= n <= 0x2_0000_0000,
            0 < m <= 0x8000_0000,
        ensures
            r == self.admits(*ray, n as int, m as int),
    {
        let x = slab_admits_at(
            self.center.x as i128 - self.half.x as i128,
            self.center.x as i128 + self.half.x as i128,
            ray.origin.x as i128,
            ray.direction.x as i128,
            n,
            m,
        );
        let y = slab_admits_at(
            self.center.y as i128 - self.half.y as i128,
            self.center.y as i128 + self.half.y as i128,
            ray.origin.y as i128,
            ray.direction.y as i128,
            n,
            m,
        );
        let z = slab_admits_at(
            self.center.z as i128 - self.half.z as i128,
            self.center.z as i128 + self.half.z as i128,
            ray.origin.z as i128,
            ray.direction.z as i128,
            n,
            m,
        );
        if !(x.0 && y.0 && z.0) {
            return false;
        }
        proof {
            lemma_product_bound(MAX_RAY_LENGTH as int, m as int, 100_000, 0x8000_0000);
        }
        let reach: i128 = MAX_RAY_LENGTH as i128 * m;
        proof {
            if within_reach(ray.direction, n as int, m as int) {
                lemma_reach_bounds_axis(x.1 as int, y.1 as int, z.1 as int, reach as int);
                lemma_reach_bounds_axis(y.1 as int, x.1 as int, z.1 as int, reach as int);
                lemma_reach_bounds_axis(z.1 as int, y.1 as int, x.1 as int, reach as int);
            }
        }
        if x.1 < -reach || x.1 > reach || y.1 < -reach || y.1 > reach || z.1 < -reach || z.1
            > reach {
            return false;
        }
        proof {
            lemma_product_bound(x.1 as int, x.1 as int, reach as int, reach as int);
            lemma_product_bound(y.1 as int, y.1 as int, reach as int, reach as int);
            lemma_product_bound(z.1 as int, z.1 as int, reach as int, reach as int);
            lemma_product_bound(
                reach as int,
                reach as int,
                0x1_0000_0000_0000,
                0x1_0000_0000_0000,
            );
        }
        x.1 * x.1 + y.1 * y.1 + z.1 * z.1 <= reach * reach
    }

    /// Tests whether a ray passes through the box within reach.
    pub fn intersects_ray(&self, ray: &Ray) -> (r: bool)
        ensures
            r == self.hit_by(*ray),
    {
        let lox: i128 = self.center.x as i128 - self.half.x as i128;
        let hix: i128 = self.center.x as i128 + self.half.x as i128;
        let loy: i128 = self.center.y as i128 - self.half.y as i128;
        let hiy: i128 = self.center.y as i128 + self.half.y as i128;
        let loz: i128 = self.center.z as i128 - self.half.z as i128;
        let hiz: i128 = self.center.z as i128 + self.half.z as i128;
        let ox: i128 = ray.origin.x as i128;
        let oy: i128 = ray.origin.y as i128;
        let oz: i128 = ray.origin.z as i128;
        let dx: i128 = ray.direction.x as i128;
        let dy: i128 = ray.direction.y as i128;
        let dz: i128 = ray.direction.z as i128;
        let t1 = raise_to_entry(lox, hix, ox, dx, 0, 1);
        let t2 = raise_to_entry(loy, hiy, oy, dy, t1.0, t1.1);
        let t3 = raise_to_entry(loz, hiz, oz, dz, t2.0, t2.1);
        let r = self.admits_at(ray, t3.0, t3.1);
        proof {
            let (en, em) = (t3.0 as int, t3.1 as int);
            if !r && self.hit_by(*ray) {
                let (n, m) = choose|n: int, m: int| self.admits(*ray, n, m);
                assert(self.admits(*ray, n, m));
                lemma_entry_is_first(lox as int, hix as int, ox as int, dx as int, n, m);
                lemma_entry_is_first(loy as int, hiy as int, oy as int, dy as int, n, m);
                lemma_entry_is_first(loz as int, hiz as int, oz as int, dz as int, n, m);
                assert(not_after(0, 1, n, m));
                assert(not_after(t1.0 as int, t1.1 as int, n, m));
                assert(not_after(t2.0 as int, t2.1 as int, n, m));
                assert(not_after(en, em, n, m));
                lemma_not_after_chain(t1.0 as int, t1.1 as int, t2.0 as int, t2.1 as int, en, em);
                lemma_entered_carries(
                    lox as int,
                    hix as int,
                    ox as int,
                    dx as int,
                    t1.0 as int,
                    t1.1 as int,
                    en,
                    em,
                );
                lemma_entered_carries(
                    loy as int,
                    hiy as int,
                    oy as int,
                    dy as int,
                    t2.0 as int,
                    t2.1 as int,
                    en,
                    em,
                );
                lemma_slab_admits_earlier(lox as int, hix as int, ox as int, dx as int, en, em, n, m);
                lemma_slab_admits_earlier(loy as int, hiy as int, oy as int, dy as int, en, em, n, m);
                lemma_slab_admits_earlier(loz as int, hiz as int, oz as int, dz as int, en, em, n, m);
                lemma_reach_admits_earlier(ray.direction, en, em, n, m);
                assert(self.admits(*ray, en, em));
            }
        }
        r
    }
}

} // verus!
