//! Three-component vectors over fixed-point scalars.

use vstd::prelude::*;
use crate::fixed::{FP_ONE, tdiv, is_isqrt, div_i64, isqrt_u128};

verus! {

/// A point, direction or color: three fixed-point components.
#[derive(Clone, Copy, Debug, PartialEq, Eq, Structural)]
pub struct Vec3 {
    pub x: i64,
    pub y: i64,
    pub z: i64,
}

impl Vec3 {
    /// Component on a numbered axis: x is 0, y is 1, z is 2.
    pub open spec fn spec_axis(self, a: int) -> i64 {
        if a == 0 {
            self.x
        } else if a == 1 {
            self.y
        } else {
            self.z
        }
    }

    /// Every component has magnitude at most `b`.
    pub open spec fn bounded(self, b: int) -> bool {
        &&& -b <= self.x <= b
        &&& -b <= self.y <= b
        &&& -b <= self.z <= b
    }

    pub fn new(x: i64, y: i64, z: i64) -> (v: Vec3)
        ensures
            v == (Vec3 { x, y, z }),
    {
        Vec3 { x, y, z }
    }

    pub fn zero() -> (v: Vec3)
        ensures
            v == (Vec3 { x: 0i64, y: 0i64, z: 0i64 }),
    {
        Vec3 { x: 0, y: 0, z: 0 }
    }

    pub fn axis(&self, a: usize) -> (c: i64)
        requires
            a < 3,
        ensures
            c == self.spec_axis(a as int),
    {
        if a == 0 {
            self.x
        } else if a == 1 {
            self.y
        } else {
            self.z
        }
    }

    pub fn add_v(&self, o: &Vec3) -> (r: Vec3)
        requires
            i64::MIN <= self.x + o.x <= i64::MAX,
            i64::MIN <= self.y + o.y <= i64::MAX,
            i64::MIN <= self.z + o.z <= i64::MAX,
        ensures
            r.x == self.x + o.x,
            r.y == self.y + o.y,
            r.z == self.z + o.z,
    {
        Vec3 { x: self.x + o.x, y: self.y + o.y, z: self.z + o.z }
    }

    pub fn sub_v(&self, o: &Vec3) -> (r: Vec3)
        requires
            i64::MIN <= self.x - o.x <= i64::MAX,
            i64::MIN <= self.y - o.y <= i64::MAX,
            i64::MIN <= self.z - o.z <= i64::MAX,
        ensures
            r.x == self.x - o.x,
            r.y == self.y - o.y,
            r.z == self.z - o.z,
    {
        Vec3 { x: self.x - o.x, y: self.y - o.y, z: self.z - o.z }
    }

    pub fn neg_v(&self) -> (r: Vec3)
        requires
            self.x > i64::MIN,
            self.y > i64::MIN,
            self.z > i64::MIN,
        ensures
            r.x == -self.x,
            r.y == -self.y,
            r.z == -self.z,
    {
        Vec3 { x: -self.x, y: -self.y, z: -self.z }
    }

    /// The dot product of `a` and `b`, on mathematical integers.
    pub open spec fn spec_dot(a: Vec3, b: Vec3) -> int {
        a.x * b.x + a.y * b.y + a.z * b.z
    }

    /// Dot product; both vectors must be coordinate-sized so the result
    /// fits in 64 bits.
    pub fn dot(&self, o: &Vec3) -> (r: i64)
        requires
            self.bounded(0x4000_0000),
            o.bounded(0x4000_0000),
        ensures
            r == Vec3::spec_dot(*self, *o),
            -0x3000_0000_0000_0000 <= r <= 0x3000_0000_0000_0000,
    {
        proof {
            lemma_mul_bound(self.x as int, o.x as int, 0x4000_0000);
            lemma_mul_bound(self.y as int, o.y as int, 0x4000_0000);
            lemma_mul_bound(self.z as int, o.z as int, 0x4000_0000);
        }
        self.x * o.x + self.y * o.y + self.z * o.z
    }

    /// Scale by a fixed-point factor: each component becomes
    /// `c * f / FP_ONE`, truncated.
    pub open spec fn spec_scale(v: Vec3, f: int) -> Vec3 {
        Vec3 {
            x: tdiv(v.x * f, FP_ONE as int) as i64,
            y: tdiv(v.y * f, FP_ONE as int) as i64,
            z: tdiv(v.z * f, FP_ONE as int) as i64,
        }
    }

    pub fn scale(&self, f: i64) -> (r: Vec3)
        requires
            self.bounded(0x4000_0000),
            -0x4000_0000 <= f <= 0x4000_0000,
        ensures
            r == Vec3::spec_scale(*self, f as int),
            r.bounded(0x4000_0000int * 0x4000_0000int / FP_ONE as int + 1),
    {
        proof {
            lemma_mul_bound(self.x as int, f as int, 0x4000_0000);
            lemma_mul_bound(self.y as int, f as int, 0x4000_0000);
            lemma_mul_bound(self.z as int, f as int, 0x4000_0000);
            crate::fixed::lemma_tdiv_bounds(self.x * f, FP_ONE as int);
            crate::fixed::lemma_tdiv_bounds(self.y * f, FP_ONE as int);
            crate::fixed::lemma_tdiv_bounds(self.z * f, FP_ONE as int);
            lemma_tdiv_shrinks(self.x * f, 0x4000_0000int * 0x4000_0000int);
            lemma_tdiv_shrinks(self.y * f, 0x4000_0000int * 0x4000_0000int);
            lemma_tdiv_shrinks(self.z * f, 0x4000_0000int * 0x4000_0000int);
        }
        Vec3 {
            x: div_i64(self.x * f, FP_ONE),
            y: div_i64(self.y * f, FP_ONE),
            z: div_i64(self.z * f, FP_ONE),
        }
    }

    /// The length of `v` in fixed-point units: the floor square root of the
    /// raw dot product of `v` with itself (whose scale is `FP_ONE` squared).
    pub open spec fn spec_len(v: Vec3) -> int {
        choose|r: int| is_isqrt(Vec3::spec_dot(v, v), r)
    }

    /// The unit vector along `v`: each component is `c * FP_ONE / len`,
    /// truncated.
    pub open spec fn spec_unit(v: Vec3) -> Vec3 {
        let l = Vec3::spec_len(v);
        Vec3 {
            x: tdiv(v.x * FP_ONE as int, l) as i64,
            y: tdiv(v.y * FP_ONE as int, l) as i64,
            z: tdiv(v.z * FP_ONE as int, l) as i64,
        }
    }

    /// Normalize to (approximately) unit length. Components of the result
    /// have magnitude at most `FP_ONE`.
    pub fn unit(&self) -> (r: Vec3)
        requires
            self.bounded(0x4000_0000),
            Vec3::spec_dot(*self, *self) >= 1,
        ensures
            r == Vec3::spec_unit(*self),
            r.bounded(FP_ONE as int),
    {
        let d: i64 = self.dot(self);
        let l64: u128 = isqrt_u128(d as u128);
        proof {
            lemma_isqrt_unique(d as int, l64 as int, Vec3::spec_len(*self));
            assert(l64 >= 1) by (nonlinear_arith)
                requires is_isqrt(d as int, l64 as int) && d >= 1;
            assert(l64 <= 0xFFFF_FFFFu128) by (nonlinear_arith)
                requires l64 * l64 <= d && d <= i64::MAX;
        }
        let l: i64 = l64 as i64;
        proof {
            assert(is_isqrt(d as int, l as int));
            assert(self.x * self.x <= d && self.y * self.y <= d && self.z * self.z <= d)
                by (nonlinear_arith)
                requires d == self.x * self.x + self.y * self.y + self.z * self.z;
            lemma_unit_component(self.x as int, d as int, l as int);
            lemma_unit_component(self.y as int, d as int, l as int);
            lemma_unit_component(self.z as int, d as int, l as int);
            lemma_mul_bound(self.x as int, FP_ONE as int, 0x4000_0000);
            lemma_mul_bound(self.y as int, FP_ONE as int, 0x4000_0000);
            lemma_mul_bound(self.z as int, FP_ONE as int, 0x4000_0000);
        }
        Vec3 {
            x: div_i64(self.x * FP_ONE, l),
            y: div_i64(self.y * FP_ONE, l),
            z: div_i64(self.z * FP_ONE, l),
        }
    }
}

/// `|a| <= b` and `|c| <= b` give `|a * c| <= b * b`.
pub proof fn lemma_mul_bound(a: int, c: int, b: int)
    requires
        -b <= a <= b,
        -b <= c <= b,
        b >= 0,
    ensures
        -(b * b) <= a * c <= b * b,
{
    assert(-(b * b) <= a * c <= b * b) by (nonlinear_arith)
        requires -b <= a <= b && -b <= c <= b && b >= 0;
}

/// Componentwise bounds give a bound on the dot product.
pub proof fn lemma_dot_bound(a: Vec3, b: Vec3, m1: int, m2: int)
    requires
        a.bounded(m1),
        b.bounded(m2),
        m1 >= 0,
        m2 >= 0,
    ensures
        -(3 * (m1 * m2)) <= Vec3::spec_dot(a, b) <= 3 * (m1 * m2),
{
    lemma_mul_bound2(a.x as int, m1, b.x as int, m2);
    lemma_mul_bound2(a.y as int, m1, b.y as int, m2);
    lemma_mul_bound2(a.z as int, m1, b.z as int, m2);
}

/// `|a| <= am` and `|b| <= bm` give `|a * b| <= am * bm`.
pub proof fn lemma_mul_bound2(a: int, am: int, b: int, bm: int)
    requires
        -am <= a <= am,
        -bm <= b <= bm,
        am >= 0,
        bm >= 0,
    ensures
        -(am * bm) <= a * b <= am * bm,
{
    assert(-(am * bm) <= a * b <= am * bm) by (nonlinear_arith)
        requires -am <= a <= am && -bm <= b <= bm && am >= 0 && bm >= 0;
}

/// Truncating division by `FP_ONE` of a value bounded by `m` is bounded by
/// `m / FP_ONE` (plus nothing: truncation only shrinks magnitudes).
pub proof fn lemma_tdiv_shrinks(n: int, m: int)
    requires
        -m <= n <= m,
        m >= 0,
    ensures
        -(m / FP_ONE as int) - 1 <= tdiv(n, FP_ONE as int) <= m / FP_ONE as int + 1,
{
    crate::fixed::lemma_tdiv_bounds(n, FP_ONE as int);
    if n >= 0 {
        vstd::arithmetic::div_mod::lemma_div_is_ordered(n, m, FP_ONE as int);
    } else {
        vstd::arithmetic::div_mod::lemma_div_is_ordered(-n, m, FP_ONE as int);
    }
}

/// Floor square roots are unique.
pub proof fn lemma_isqrt_unique(n: int, r1: int, r2: int)
    requires
        is_isqrt(n, r1),
        exists|r: int| is_isqrt(n, r),
        r2 == (choose|r: int| is_isqrt(n, r)),
    ensures
        r1 == r2,
{
    assert(is_isqrt(n, r2));
    if r1 < r2 {
        assert((r1 + 1) * (r1 + 1) <= r2 * r2) by (nonlinear_arith)
            requires 0 <= r1 + 1 <= r2;
        assert(false);
    }
    if r2 < r1 {
        assert((r2 + 1) * (r2 + 1) <= r1 * r1) by (nonlinear_arith)
            requires 0 <= r2 + 1 <= r1;
        assert(false);
    }
}

/// A component of a normalized vector has magnitude at most `FP_ONE`.
proof fn lemma_unit_component(c: int, d: int, l: int)
    requires
        is_isqrt(d, l),
        c * c <= d,
        l >= 1,
    ensures
        -FP_ONE as int <= tdiv(c * FP_ONE as int, l) <= FP_ONE as int,
        -l <= c <= l,
{
    assert(-l <= c <= l) by (nonlinear_arith)
        requires c * c <= d && d < (l + 1) * (l + 1) && l >= 0;
    lemma_mul_bound(c, FP_ONE as int, if l >= FP_ONE as int { l } else { FP_ONE as int });
    assert(-(l * FP_ONE as int) <= c * FP_ONE as int <= l * FP_ONE as int) by (nonlinear_arith)
        requires -l <= c <= l && l >= 0 && FP_ONE as int > 0;
    crate::fixed::lemma_tdiv_close(c * FP_ONE as int, l);
    if tdiv(c * FP_ONE as int, l) > FP_ONE as int {
        assert(l * tdiv(c * FP_ONE as int, l) >= l * (FP_ONE as int + 1)) by (nonlinear_arith)
            requires l >= 1 && tdiv(c * FP_ONE as int, l) >= FP_ONE as int + 1;
        assert(l * (FP_ONE as int + 1) == l * FP_ONE as int + l) by (nonlinear_arith);
        assert(false);
    }
    if tdiv(c * FP_ONE as int, l) < -FP_ONE as int {
        assert(l * tdiv(c * FP_ONE as int, l) <= l * (-FP_ONE as int - 1)) by (nonlinear_arith)
            requires l >= 1 && tdiv(c * FP_ONE as int, l) <= -FP_ONE as int - 1;
        assert(l * (-FP_ONE as int - 1) == -(l * FP_ONE as int) - l) by (nonlinear_arith);
        assert(false);
    }
}

} // verus!
