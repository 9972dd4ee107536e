//! Spheres: analytic ray intersection and bounding box.
//!
//! The quadratic `a t^2 + 2 b t + c = 0` is solved in the half-`b` form:
//! `a = d.d`, `b = oc.d`, `c = oc.oc - r^2`, discriminant `b^2 - a c`, with
//! the nearer root tried first. A candidate root is accepted when it lies
//! strictly inside `(t_min, t_max)`, within the sphere's own closed
//! bounding slabs on every active axis, and with those slabs' entries
//! strictly before their exits pairwise along the ray. The last two
//! conditions make box pruning exact: any accepted hit passes the strict
//! slab test of every box containing the sphere's bounding box. They admit
//! hits on a slab face (an axis-aligned ray through a pole) and exclude
//! only corner contacts, which the slab test's own interval convention
//! (`t_max <= t_min` is a miss) already prunes.

use vstd::prelude::*;
use crate::fixed::{FP_ONE, WORLD_MAX, tdiv, is_isqrt, div_i64, div_i128, isqrt_u128};
use crate::vec3::{Vec3, lemma_mul_bound2};
use crate::ray::Ray;
use crate::aabb::{
    AaBb, spec_rat_lt, spec_rat_le, slab_active, slab_den, slab_entry_n, slab_exit_n, rat_lt,
    rat_le,
};
use crate::material::{Material, sqrt_of};
use crate::hittable::HitRecord;

verus! {

/// A sphere: center, radius, and the material light scatters with at its
/// surface.
#[derive(Clone, Copy, Debug, PartialEq, Eq, Structural)]
pub struct Sphere {
    pub center: Vec3,
    pub radius: i64,
    pub material: Material,
}

impl Sphere {
    /// The scene builder must keep spheres inside world coordinates; the
    /// core does not validate them (garbage in, a miss out).
    pub open spec fn wf(self) -> bool {
        &&& 1 <= self.radius
        &&& self.center.bounded(WORLD_MAX as int - self.radius - 2)
        &&& self.material.wf()
    }

    pub fn from(center: Vec3, radius: i64, material: Material) -> (s: Sphere)
        ensures
            s == (Sphere { center, radius, material }),
    {
        Sphere { center, radius, material }
    }

    pub fn clone_sphere(&self) -> (s: Sphere)
        ensures
            s == *self,
    {
        Sphere { center: self.center, radius: self.radius, material: self.material }
    }

    /// The box `[center - r, center + r]` on every axis.
    pub open spec fn spec_bbox(self) -> AaBb {
        AaBb {
            min: Vec3 {
                x: (self.center.x - self.radius) as i64,
                y: (self.center.y - self.radius) as i64,
                z: (self.center.z - self.radius) as i64,
            },
            max: Vec3 {
                x: (self.center.x + self.radius) as i64,
                y: (self.center.y + self.radius) as i64,
                z: (self.center.z + self.radius) as i64,
            },
        }
    }

    pub fn bounding_box(&self) -> (b: AaBb)
        requires
            self.wf(),
        ensures
            b == self.spec_bbox(),
            b.wf(),
            b.min.bounded(WORLD_MAX as int),
            b.max.bounded(WORLD_MAX as int),
    {
        AaBb {
            min: Vec3 {
                x: self.center.x - self.radius,
                y: self.center.y - self.radius,
                z: self.center.z - self.radius,
            },
            max: Vec3 {
                x: self.center.x + self.radius,
                y: self.center.y + self.radius,
                z: self.center.z + self.radius,
            },
        }
    }

    /// Quadratic coefficients.
    pub open spec fn spec_qa(r: Ray) -> int {
        Vec3::spec_dot(r.direction, r.direction)
    }

    pub open spec fn spec_oc(self, r: Ray) -> Vec3 {
        Vec3 {
            x: (r.origin.x - self.center.x) as i64,
            y: (r.origin.y - self.center.y) as i64,
            z: (r.origin.z - self.center.z) as i64,
        }
    }

    pub open spec fn spec_qb(self, r: Ray) -> int {
        Vec3::spec_dot(self.spec_oc(r), r.direction)
    }

    pub open spec fn spec_qc(self, r: Ray) -> int {
        Vec3::spec_dot(self.spec_oc(r), self.spec_oc(r)) - self.radius * self.radius
    }

    pub open spec fn spec_disc(self, r: Ray) -> int {
        self.spec_qb(r) * self.spec_qb(r) - Sphere::spec_qa(r) * self.spec_qc(r)
    }

    /// One axis of the acceptance filter: the candidate parameter lies
    /// within the sphere's closed bounding slab, or the axis is inactive
    /// and the origin lies inside it.
    pub open spec fn accept_axis(self, r: Ray, t: int, a: int) -> bool {
        let bb = self.spec_bbox();
        if slab_active(r, a) {
            &&& spec_rat_le(slab_entry_n(bb, r, a), slab_den(r, a), t, 1)
            &&& spec_rat_le(t, 1, slab_exit_n(bb, r, a), slab_den(r, a))
        } else {
            bb.min.spec_axis(a) <= r.origin.spec_axis(a) <= bb.max.spec_axis(a)
        }
    }

    /// One cross-axis condition of the acceptance filter: the entry of the
    /// sphere's slab on one axis falls strictly before its exit on another,
    /// so the ray passes through the box and not merely past a corner.
    pub open spec fn accept_pair(self, r: Ray, a: int, c: int) -> bool {
        let bb = self.spec_bbox();
        slab_active(r, a) && slab_active(r, c) ==> spec_rat_lt(
            slab_entry_n(bb, r, a),
            slab_den(r, a),
            slab_exit_n(bb, r, c),
            slab_den(r, c),
        )
    }

    /// A candidate root is accepted when it lies strictly inside the
    /// interval and within the bounding slabs, whose intervals overlap
    /// strictly pairwise.
    pub open spec fn spec_accept(self, r: Ray, t0: int, t1: int, t: int) -> bool {
        &&& t0 < t < t1
        &&& forall|a: int| 0 <= a < 3 ==> #[trigger] self.accept_axis(r, t, a)
        &&& forall|a: int, c: int| 0 <= a < 3 && 0 <= c < 3 ==> #[trigger] self.accept_pair(
            r, a, c,
        )
    }

    /// The record produced for an accepted parameter `t`.
    pub open spec fn make_rec(self, r: Ray, t: int) -> HitRecord {
        HitRecord {
            distance: t as i64,
            position: Vec3 {
                x: r.spec_point_at(t, 0) as i64,
                y: r.spec_point_at(t, 1) as i64,
                z: r.spec_point_at(t, 2) as i64,
            },
            normal: Vec3 {
                x: tdiv((r.spec_point_at(t, 0) - self.center.x) * FP_ONE, self.radius as int) as i64,
                y: tdiv((r.spec_point_at(t, 1) - self.center.y) * FP_ONE, self.radius as int) as i64,
                z: tdiv((r.spec_point_at(t, 2) - self.center.z) * FP_ONE, self.radius as int) as i64,
            },
            material: self.material,
        }
    }

    /// The nearer quadratic root, in fixed-point ray parameterization.
    pub open spec fn spec_root1(self, r: Ray) -> int {
        tdiv((-self.spec_qb(r) - sqrt_of(self.spec_disc(r))) * FP_ONE, Sphere::spec_qa(r))
    }

    pub open spec fn spec_root2(self, r: Ray) -> int {
        tdiv((-self.spec_qb(r) + sqrt_of(self.spec_disc(r))) * FP_ONE, Sphere::spec_qa(r))
    }

    /// The whole intersection: no hit for a degenerate direction or a
    /// non-positive discriminant; otherwise the first acceptable root, the
    /// nearer one tried first.
    pub open spec fn spec_hit(self, r: Ray, t0: int, t1: int) -> Option<HitRecord> {
        if Sphere::spec_qa(r) == 0 {
            Option::None
        } else if self.spec_disc(r) <= 0 {
            Option::None
        } else if self.spec_accept(r, t0, t1, self.spec_root1(r)) {
            Option::Some(self.make_rec(r, self.spec_root1(r)))
        } else if self.spec_accept(r, t0, t1, self.spec_root2(r)) {
            Option::Some(self.make_rec(r, self.spec_root2(r)))
        } else {
            Option::None
        }
    }

    /// Intersect the ray with this sphere over `(t_min, t_max)`.
    pub fn hit(&self, ray: &Ray, t_min: i64, t_max: i64) -> (res: Option<HitRecord>)
        requires
            self.wf(),
            ray.wf(),
        ensures
            res == self.spec_hit(*ray, t_min as int, t_max as int),
    {
        let d = ray.direction();
        let oc = ray.origin().sub_v(&self.center);
        let qa: i64 = d.dot(&d);
        if qa == 0 {
            return Option::None;
        }
        proof {
            assert(qa > 0) by (nonlinear_arith)
                requires
                    qa == d.x as int * d.x + d.y as int * d.y + d.z as int * d.z,
                    qa != 0;
        }
        let qb: i64 = oc.dot(&d);
        proof {
            lemma_mul_bound2(
                self.radius as int, WORLD_MAX as int, self.radius as int, WORLD_MAX as int,
            );
        }
        let qc: i64 = oc.dot(&oc) - self.radius * self.radius;
        proof {
            lemma_mul_bound2(
                qb as int, 0x3000_0000_0000_0000int, qb as int, 0x3000_0000_0000_0000int,
            );
            lemma_mul_bound2(
                qa as int, 0x3000_0000_0000_0000int, qc as int, 0x4000_0000_0000_0000int,
            );
        }
        let disc: i128 = (qb as i128) * (qb as i128) - (qa as i128) * (qc as i128);
        if disc <= 0 {
            return Option::None;
        }
        let squ: u128 = isqrt_u128(disc as u128);
        proof {
            crate::vec3::lemma_isqrt_unique(disc as int, squ as int, sqrt_of(disc as int));
            assert((disc as int)
                < 0x5000_0000_0000_0000int * 0x5000_0000_0000_0000int) by (nonlinear_arith)
                requires
                    -0x900_0000_0000_0000_0000_0000_0000_0000int <= qb as int * qb
                        <= 0x900_0000_0000_0000_0000_0000_0000_0000int,
                    -0xC00_0000_0000_0000_0000_0000_0000_0000int <= qa as int * qc
                        <= 0xC00_0000_0000_0000_0000_0000_0000_0000int,
                    disc as int == qb as int * qb - qa as int * qc;
            crate::fixed::lemma_isqrt_below_square(
                disc as int, squ as int, 0x5000_0000_0000_0000int,
            );
        }
        let sq: i128 = squ as i128;
        proof {
            lemma_mul_bound2(
                -(qb as int) - sq, 0x2_0000_0000_0000_0000int, FP_ONE as int, FP_ONE as int,
            );
        }
        let num1: i128 = (-(qb as i128) - sq) * (FP_ONE as i128);
        let t1c: i128 = div_i128(num1, qa as i128);
        proof {
            crate::fixed::lemma_tdiv_bounds(num1 as int, qa as int);
        }
        let first = self.try_candidate(ray, t_min, t_max, t1c);
        if let Option::Some(rec) = first {
            return Option::Some(rec);
        }
        proof {
            lemma_mul_bound2(
                -(qb as int) + sq, 0x2_0000_0000_0000_0000int, FP_ONE as int, FP_ONE as int,
            );
        }
        let num2: i128 = (-(qb as i128) + sq) * (FP_ONE as i128);
        let t2c: i128 = div_i128(num2, qa as i128);
        proof {
            crate::fixed::lemma_tdiv_bounds(num2 as int, qa as int);
        }
        self.try_candidate(ray, t_min, t_max, t2c)
    }

    /// Check one candidate parameter against the interval and the bounding
    /// slabs, and build the record if it passes.
    fn try_candidate(&self, ray: &Ray, t_min: i64, t_max: i64, t: i128) -> (res: Option<
        HitRecord,
    >)
        requires
            self.wf(),
            ray.wf(),
            -0x1_0000_0000_0000_0000_0000i128 <= t <= 0x1_0000_0000_0000_0000_0000i128,
        ensures
            self.spec_accept(*ray, t_min as int, t_max as int, t as int) ==> res
                == Option::Some(self.make_rec(*ray, t as int)),
            !self.spec_accept(*ray, t_min as int, t_max as int, t as int) ==> res
                == Option::<HitRecord>::None,
    {
        if !((t_min as i128) < t && t < (t_max as i128)) {
            return Option::None;
        }
        let bb = self.bounding_box();
        let (ok0, act0, en0, ex0, dn0) = bb.axis_data(ray, 0);
        if !ok0 {
            proof { assert(!self.accept_axis(*ray, t as int, 0)); }
            return Option::None;
        }
        if act0 {
            if !rat_le(en0, dn0 as i128, t, 1) {
                proof { assert(!self.accept_axis(*ray, t as int, 0)); }
                return Option::None;
            }
            if !rat_le(t, 1, ex0, dn0 as i128) {
                proof { assert(!self.accept_axis(*ray, t as int, 0)); }
                return Option::None;
            }
        }
        let (ok1, act1, en1, ex1, dn1) = bb.axis_data(ray, 1);
        if !ok1 {
            proof { assert(!self.accept_axis(*ray, t as int, 1)); }
            return Option::None;
        }
        if act1 {
            if !rat_le(en1, dn1 as i128, t, 1) {
                proof { assert(!self.accept_axis(*ray, t as int, 1)); }
                return Option::None;
            }
            if !rat_le(t, 1, ex1, dn1 as i128) {
                proof { assert(!self.accept_axis(*ray, t as int, 1)); }
                return Option::None;
            }
        }
        let (ok2, act2, en2, ex2, dn2) = bb.axis_data(ray, 2);
        if !ok2 {
            proof { assert(!self.accept_axis(*ray, t as int, 2)); }
            return Option::None;
        }
        if act2 {
            if !rat_le(en2, dn2 as i128, t, 1) {
                proof { assert(!self.accept_axis(*ray, t as int, 2)); }
                return Option::None;
            }
            if !rat_le(t, 1, ex2, dn2 as i128) {
                proof { assert(!self.accept_axis(*ray, t as int, 2)); }
                return Option::None;
            }
        }
        // Cross-axis overlap: each slab's entry strictly precedes each
        // slab's exit along the ray.
        if act0 {
            if !rat_lt(en0, dn0 as i128, ex0, dn0 as i128) {
                proof { assert(!self.accept_pair(*ray, 0, 0)); }
                return Option::None;
            }
        }
        if act1 {
            if !rat_lt(en1, dn1 as i128, ex1, dn1 as i128) {
                proof { assert(!self.accept_pair(*ray, 1, 1)); }
                return Option::None;
            }
        }
        if act2 {
            if !rat_lt(en2, dn2 as i128, ex2, dn2 as i128) {
                proof { assert(!self.accept_pair(*ray, 2, 2)); }
                return Option::None;
            }
        }
        if act0 && act1 {
            if !rat_lt(en0, dn0 as i128, ex1, dn1 as i128) {
                proof { assert(!self.accept_pair(*ray, 0, 1)); }
                return Option::None;
            }
            if !rat_lt(en1, dn1 as i128, ex0, dn0 as i128) {
                proof { assert(!self.accept_pair(*ray, 1, 0)); }
                return Option::None;
            }
        }
        if act0 && act2 {
            if !rat_lt(en0, dn0 as i128, ex2, dn2 as i128) {
                proof { assert(!self.accept_pair(*ray, 0, 2)); }
                return Option::None;
            }
            if !rat_lt(en2, dn2 as i128, ex0, dn0 as i128) {
                proof { assert(!self.accept_pair(*ray, 2, 0)); }
                return Option::None;
            }
        }
        if act1 && act2 {
            if !rat_lt(en1, dn1 as i128, ex2, dn2 as i128) {
                proof { assert(!self.accept_pair(*ray, 1, 2)); }
                return Option::None;
            }
            if !rat_lt(en2, dn2 as i128, ex1, dn1 as i128) {
                proof { assert(!self.accept_pair(*ray, 2, 1)); }
                return Option::None;
            }
        }
        proof {
            assert forall|a: int| 0 <= a < 3 implies #[trigger] self.accept_axis(
                *ray, t as int, a,
            ) by {
                assert(a == 0 || a == 1 || a == 2);
            }
            assert forall|a: int, c: int| 0 <= a < 3 && 0 <= c < 3 implies #[trigger]
                self.accept_pair(*ray, a, c) by {
                assert(a == 0 || a == 1 || a == 2);
                assert(c == 0 || c == 1 || c == 2);
            }
            assert(self.spec_accept(*ray, t_min as int, t_max as int, t as int));
            self.lemma_accept_point_in_box(*ray, t as int);
            assert forall|a: int| 0 <= a < 3 implies -WORLD_MAX
                <= #[trigger] ray.spec_point_at(t as int, a) <= WORLD_MAX by {
                assert(self.spec_bbox().min.spec_axis(a) <= ray.spec_point_at(t as int, a)
                    <= self.spec_bbox().max.spec_axis(a));
            }
        }
        let t64: i64 = t as i64;
        let p = ray.point_at_t(t64);
        proof {
            lemma_normal_component(
                ray.spec_point_at(t as int, 0), self.center.x as int, self.radius as int,
            );
            lemma_normal_component(
                ray.spec_point_at(t as int, 1), self.center.y as int, self.radius as int,
            );
            lemma_normal_component(
                ray.spec_point_at(t as int, 2), self.center.z as int, self.radius as int,
            );
        }
        let normal = Vec3 {
            x: div_i64((p.x - self.center.x) * FP_ONE, self.radius),
            y: div_i64((p.y - self.center.y) * FP_ONE, self.radius),
            z: div_i64((p.z - self.center.z) * FP_ONE, self.radius),
        };
        Option::Some(
            HitRecord { distance: t64, position: p, normal, material: self.material },
        )
    }

    /// An accepted parameter's exact point lies inside the sphere's
    /// bounding box, axis by axis.
    pub proof fn lemma_accept_point_in_box(self, r: Ray, t: int)
        requires
            self.wf(),
            r.wf(),
            forall|a: int| 0 <= a < 3 ==> #[trigger] self.accept_axis(r, t, a),
        ensures
            forall|a: int| 0 <= a < 3 ==> self.spec_bbox().min.spec_axis(a)
                <= #[trigger] r.spec_point_at(t, a) <= self.spec_bbox().max.spec_axis(a),
    {
        assert forall|a: int| 0 <= a < 3 implies self.spec_bbox().min.spec_axis(a)
            <= #[trigger] r.spec_point_at(t, a) <= self.spec_bbox().max.spec_axis(a) by {
            assert(self.accept_axis(r, t, a));
            let o = r.origin.spec_axis(a) as int;
            let dd = r.direction.spec_axis(a) as int;
            let mn = self.spec_bbox().min.spec_axis(a) as int;
            let mx = self.spec_bbox().max.spec_axis(a) as int;
            if slab_active(r, a) {
                lemma_slab_point(o, dd, mn, mx, t);
            } else {
                crate::fixed::lemma_tdiv_close(t * 0, FP_ONE as int);
                assert(t * 0 == 0) by (nonlinear_arith);
                assert(tdiv(0, FP_ONE as int) == 0) by {
                    vstd::arithmetic::div_mod::lemma_div_of0(FP_ONE as int);
                }
            }
        }
    }
}

/// For an active axis, a parameter within the slab's closed rational
/// entry/exit bounds has its (truncated) point inside the closed slab.
proof fn lemma_slab_point(o: int, d: int, mn: int, mx: int, t: int)
    requires
        d != 0,
        spec_rat_le(
            if d > 0 { (mn - o) * FP_ONE } else { (o - mx) * FP_ONE },
            if d > 0 { d } else { -d },
            t,
            1,
        ),
        spec_rat_le(
            t,
            1,
            if d > 0 { (mx - o) * FP_ONE } else { (o - mn) * FP_ONE },
            if d > 0 { d } else { -d },
        ),
    ensures
        mn <= o + tdiv(t * d, FP_ONE as int) <= mx,
{
    let td = t * d;
    if d > 0 {
        assert(((mn - o) * FP_ONE) * 1 <= t * d);
        assert(t * d <= ((mx - o) * FP_ONE) * 1);
    } else {
        assert(((o - mx) * FP_ONE) * 1 <= t * (-d));
        assert(t * (-d) == -(t * d)) by (nonlinear_arith);
        assert((t * (-d)) <= ((o - mn) * FP_ONE) * 1);
    }
    crate::fixed::lemma_tdiv_close(td, FP_ONE as int);
    let q = tdiv(td, FP_ONE as int);
    assert(q > mn - o - 1);
    assert(q < mx - o + 1);
}

/// A point within `radius` of the center on an axis yields a normal
/// component of magnitude at most one.
proof fn lemma_normal_component(p: int, c: int, rad: int)
    requires
        rad >= 1,
        c - rad <= p <= c + rad,
    ensures
        -FP_ONE as int <= tdiv((p - c) * FP_ONE, rad) <= FP_ONE as int,
        -(rad * FP_ONE as int) <= (p - c) * FP_ONE <= rad * FP_ONE as int,
{
    lemma_mul_bound2(p - c, rad, FP_ONE as int, FP_ONE as int);
    crate::fixed::lemma_tdiv_close((p - c) * FP_ONE, rad);
    let q = tdiv((p - c) * FP_ONE, rad);
    if q > FP_ONE as int {
        assert(rad * q >= rad * (FP_ONE as int + 1)) by (nonlinear_arith)
            requires rad >= 1 && q >= FP_ONE as int + 1;
        assert(rad * (FP_ONE as int + 1) == rad * FP_ONE as int + rad) by (nonlinear_arith);
        assert(false);
    }
    if q < -FP_ONE as int {
        assert(rad * q <= rad * (-FP_ONE as int - 1)) by (nonlinear_arith)
            requires rad >= 1 && q <= -FP_ONE as int - 1;
        assert(rad * (-FP_ONE as int - 1) == -(rad * FP_ONE as int) - rad) by (nonlinear_arith);
        assert(false);
    }
}

/// The floor square root exists for every non-negative integer, so
/// `sqrt_of` meets its defining property there.
pub proof fn lemma_isqrt_exists(n: int)
    requires
        n >= 0,
    ensures
        is_isqrt(n, sqrt_of(n)),
        sqrt_of(n) >= 0,
    decreases n,
{
    if n == 0 {
        assert(is_isqrt(0, 0)) by (nonlinear_arith);
    } else {
        lemma_isqrt_exists(n - 1);
        let r = sqrt_of(n - 1);
        if (r + 1) * (r + 1) <= n {
            assert(is_isqrt(n, r + 1)) by (nonlinear_arith)
                requires
                    r >= 0,
                    (r + 1) * (r + 1) <= n,
                    n - 1 < (r + 1) * (r + 1);
        } else {
            assert(is_isqrt(n, r));
        }
    }
    assert(is_isqrt(n, sqrt_of(n))) by {
        assert(exists|q: int| is_isqrt(n, q));
    }
}

impl Sphere {
    /// The nearer root never exceeds the farther one.
    pub proof fn lemma_roots_ordered(self, r: Ray)
        requires
            Sphere::spec_qa(r) > 0,
            self.spec_disc(r) > 0,
        ensures
            self.spec_root1(r) <= self.spec_root2(r),
    {
        lemma_isqrt_exists(self.spec_disc(r));
        let sq = sqrt_of(self.spec_disc(r));
        crate::fixed::lemma_tdiv_mono(
            (-self.spec_qb(r) - sq) * FP_ONE,
            (-self.spec_qb(r) + sq) * FP_ONE,
            Sphere::spec_qa(r),
        );
    }

    /// A positive direction dot product.
    pub proof fn lemma_qa_pos(self, r: Ray)
        requires
            Sphere::spec_qa(r) != 0,
        ensures
            Sphere::spec_qa(r) >= 1,
    {
        assert(Sphere::spec_qa(r) >= 0) by (nonlinear_arith)
            requires Sphere::spec_qa(r) == r.direction.x as int * r.direction.x
                + r.direction.y as int * r.direction.y + r.direction.z as int * r.direction.z;
    }

    /// Widening the upper bound keeps an existing hit: the same root is
    /// found over any larger interval.
    pub proof fn lemma_hit_widen(self, r: Ray, t0: int, t1p: int, t1: int)
        requires
            t1p <= t1,
        ensures
            self.spec_hit(r, t0, t1p) is Some ==> self.spec_hit(r, t0, t1) == self.spec_hit(
                r, t0, t1p,
            ),
    {
        if self.spec_hit(r, t0, t1p) is Some {
            let c1 = self.spec_root1(r);
            let c2 = self.spec_root2(r);
            self.lemma_qa_pos(r);
            self.lemma_roots_ordered(r);
            if self.spec_accept(r, t0, t1p, c1) {
                assert(self.spec_accept(r, t0, t1, c1));
            } else {
                assert(self.spec_accept(r, t0, t1p, c2));
                assert(!self.spec_accept(r, t0, t1, c1)) by {
                    if self.spec_accept(r, t0, t1, c1) {
                        assert(c1 >= t1p);
                        assert(c1 <= c2 < t1p);
                    }
                }
                assert(self.spec_accept(r, t0, t1, c2));
            }
        }
    }

    /// Tightening the upper bound above an existing hit keeps the hit.
    pub proof fn lemma_hit_restrict(self, r: Ray, t0: int, t1: int, t1p: int)
        requires
            t1p <= t1,
            -0x8000_0000_0000_0000int <= t0,
            t1 <= 0x7FFF_FFFF_FFFF_FFFFint,
        ensures
            match self.spec_hit(r, t0, t1) {
                Option::Some(h) => h.distance < t1p ==> self.spec_hit(r, t0, t1p)
                    == self.spec_hit(r, t0, t1),
                Option::None => true,
            },
    {
        if let Option::Some(h) = self.spec_hit(r, t0, t1) {
            let c1 = self.spec_root1(r);
            let c2 = self.spec_root2(r);
            self.lemma_qa_pos(r);
            self.lemma_roots_ordered(r);
            if self.spec_accept(r, t0, t1, c1) {
                assert(h.distance == c1);
                if h.distance < t1p {
                    assert(self.spec_accept(r, t0, t1p, c1));
                }
            } else {
                assert(self.spec_accept(r, t0, t1, c2));
                assert(h.distance == c2);
                if h.distance < t1p {
                    assert(!self.spec_accept(r, t0, t1p, c1));
                    assert(self.spec_accept(r, t0, t1p, c2));
                }
            }
        }
    }

    /// A hit's distance lies strictly inside the query interval.
    pub proof fn lemma_hit_distance_range(self, r: Ray, t0: int, t1: int)
        requires
            -0x8000_0000_0000_0000int <= t0,
            t1 <= 0x7FFF_FFFF_FFFF_FFFFint,
        ensures
            match self.spec_hit(r, t0, t1) {
                Option::Some(h) => t0 < h.distance < t1,
                Option::None => true,
            },
    {
    }

    /// What holds of every hit: the distance lies inside the interval, the
    /// record is well-formed, and the parameter fits its machine word.
    pub proof fn lemma_hit_props(self, r: Ray, t0: int, t1: int)
        requires
            self.wf(),
            r.wf(),
            -0x8000_0000_0000_0000int <= t0,
            t1 <= 0x7FFF_FFFF_FFFF_FFFFint,
        ensures
            match self.spec_hit(r, t0, t1) {
                Option::Some(h) => t0 < h.distance < t1 && h.wf() && h.material
                    == self.material && Sphere::spec_qa(r) >= 1,
                Option::None => true,
            },
    {
        if let Option::Some(h) = self.spec_hit(r, t0, t1) {
            self.lemma_qa_pos(r);
            let t = if self.spec_accept(r, t0, t1, self.spec_root1(r)) {
                self.spec_root1(r)
            } else {
                self.spec_root2(r)
            };
            assert(self.spec_accept(r, t0, t1, t));
            assert(h == self.make_rec(r, t));
            self.lemma_accept_point_in_box(r, t);
            assert forall|a: int| 0 <= a < 3 implies -WORLD_MAX
                <= #[trigger] r.spec_point_at(t, a) <= WORLD_MAX by {
                assert(self.spec_bbox().min.spec_axis(a) <= r.spec_point_at(t, a)
                    <= self.spec_bbox().max.spec_axis(a));
            }
            lemma_normal_component(r.spec_point_at(t, 0), self.center.x as int, self.radius as int);
            lemma_normal_component(r.spec_point_at(t, 1), self.center.y as int, self.radius as int);
            lemma_normal_component(r.spec_point_at(t, 2), self.center.z as int, self.radius as int);
        }
    }

    /// Pruning is sound: a hit of this sphere passes the slab test of any
    /// box containing the sphere's bounding box, on the same interval.
    pub proof fn lemma_hit_in_box(self, r: Ray, t0: int, t1: int, outer: AaBb)
        requires
            self.spec_hit(r, t0, t1) is Some,
            AaBb::spec_contains(outer, self.spec_bbox()),
        ensures
            AaBb::spec_slab_hit(outer, r, t0, t1),
    {
        let t = if self.spec_accept(r, t0, t1, self.spec_root1(r)) {
            self.spec_root1(r)
        } else {
            self.spec_root2(r)
        };
        assert(self.spec_accept(r, t0, t1, t));
        crate::aabb::lemma_contains_widens(outer, self.spec_bbox(), r);
        let bb = self.spec_bbox();
        assert forall|a: int| 0 <= a < 3 implies #[trigger] crate::aabb::slab_axis_ok(
            outer, r, a, t0, t1,
        ) by {
            assert(self.accept_axis(r, t, a));
            if slab_active(r, a) {
                assert(slab_entry_n(outer, r, a) <= slab_entry_n(bb, r, a));
                assert(slab_exit_n(bb, r, a) <= slab_exit_n(outer, r, a));
                assert(spec_rat_le(slab_entry_n(outer, r, a), slab_den(r, a), t, 1));
                assert(spec_rat_lt(t, 1, t1, 1));
                crate::aabb::lemma_rat_le_lt_trans(
                    slab_entry_n(outer, r, a), slab_den(r, a), t, 1, t1, 1,
                );
                assert(spec_rat_le(t, 1, slab_exit_n(outer, r, a), slab_den(r, a)));
                assert(spec_rat_lt(t0, 1, t, 1));
                crate::aabb::lemma_rat_lt_le_trans(
                    t0, 1, t, 1, slab_exit_n(outer, r, a), slab_den(r, a),
                );
            } else {
                assert(outer.min.spec_axis(a) <= bb.min.spec_axis(a));
                assert(bb.max.spec_axis(a) <= outer.max.spec_axis(a));
            }
        }
        assert forall|a: int, c: int| 0 <= a < 3 && 0 <= c < 3 implies #[trigger]
            crate::aabb::slab_pair_ok(outer, r, a, c) by {
            if slab_active(r, a) && slab_active(r, c) {
                assert(self.accept_pair(r, a, c));
                assert(slab_entry_n(outer, r, a) <= slab_entry_n(bb, r, a));
                assert(slab_exit_n(bb, r, c) <= slab_exit_n(outer, r, c));
                assert(spec_rat_lt(
                    slab_entry_n(outer, r, a), slab_den(r, a),
                    slab_exit_n(outer, r, c), slab_den(r, c),
                )) by (nonlinear_arith)
                    requires
                        slab_den(r, a) > 0,
                        slab_den(r, c) > 0,
                        slab_entry_n(outer, r, a) <= slab_entry_n(bb, r, a),
                        slab_exit_n(bb, r, c) <= slab_exit_n(outer, r, c),
                        spec_rat_lt(
                            slab_entry_n(bb, r, a), slab_den(r, a),
                            slab_exit_n(bb, r, c), slab_den(r, c),
                        );
            }
        }
    }
}

} // verus!
