//! Axis-aligned bounding boxes: union, longest-axis selection, and the
//! ray/slab intersection test.
//!
//! The slab test is exact. On each axis the ray enters the slab at the
//! rational parameter `(min - origin) * FP_ONE / dir` and leaves at
//! `(max - origin) * FP_ONE / dir` (swapped when `dir` is negative). The
//! running interval `[t_min, t_max]` is tightened by those bounds, and the
//! box is hit exactly when the interval stays non-empty; emptiness is
//! decided by cross-multiplied rational comparisons, so no precision is
//! lost. An axis-parallel ray constrains nothing when its origin lies
//! within the slab and misses outright when it does not, which is how the
//! infinities of the floating-point formulation behave.

use vstd::prelude::*;
use crate::fixed::{FP_ONE, WORLD_MAX};
use crate::vec3::Vec3;
use crate::ray::Ray;

verus! {

/// Sentinel coordinate for the empty box: beyond every world coordinate,
/// and small enough that differences of box coordinates stay in 64 bits.
pub const COORD_INF: i64 = 0x2000_0000_0000_0000;

/// `a/ad < b/bd`, for positive denominators, by cross-multiplication.
pub open spec fn spec_rat_lt(an: int, ad: int, bn: int, bd: int) -> bool {
    an * bd < bn * ad
}

/// `a/ad <= b/bd`, for positive denominators.
pub open spec fn spec_rat_le(an: int, ad: int, bn: int, bd: int) -> bool {
    an * bd <= bn * ad
}

/// An axis-aligned box, the corner `min` componentwise below the corner
/// `max` except in the empty box, where `min` is `+COORD_INF` and `max` is
/// `-COORD_INF` on every axis so that a union with any box yields that box.
#[derive(Clone, Copy, Debug, PartialEq, Eq, Structural)]
pub struct AaBb {
    pub min: Vec3,
    pub max: Vec3,
}

/// The slab denominator on axis `a`: the magnitude of the direction
/// component.
pub open spec fn slab_den(r: Ray, a: int) -> int {
    let d = r.direction.spec_axis(a) as int;
    if d > 0 {
        d
    } else {
        -d
    }
}

/// Whether axis `a` constrains the ray parameter at all.
pub open spec fn slab_active(r: Ray, a: int) -> bool {
    r.direction.spec_axis(a) != 0
}

/// Numerator of the entry parameter of the slab on axis `a` (over the
/// denominator `slab_den`).
pub open spec fn slab_entry_n(b: AaBb, r: Ray, a: int) -> int {
    let d = r.direction.spec_axis(a) as int;
    let o = r.origin.spec_axis(a) as int;
    if d > 0 {
        (b.min.spec_axis(a) - o) * FP_ONE
    } else {
        (o - b.max.spec_axis(a)) * FP_ONE
    }
}

/// Numerator of the exit parameter of the slab on axis `a`.
pub open spec fn slab_exit_n(b: AaBb, r: Ray, a: int) -> int {
    let d = r.direction.spec_axis(a) as int;
    let o = r.origin.spec_axis(a) as int;
    if d > 0 {
        (b.max.spec_axis(a) - o) * FP_ONE
    } else {
        (o - b.min.spec_axis(a)) * FP_ONE
    }
}

/// Axis `a` of the slab test against the interval `(t0, t1)`: a parallel
/// ray must start inside the slab; otherwise the entry must fall below
/// `t1` and the exit above `t0`.
pub open spec fn slab_axis_ok(b: AaBb, r: Ray, a: int, t0: int, t1: int) -> bool {
    if !slab_active(r, a) {
        b.min.spec_axis(a) <= r.origin.spec_axis(a) <= b.max.spec_axis(a)
    } else {
        &&& spec_rat_lt(slab_entry_n(b, r, a), slab_den(r, a), t1, 1)
        &&& spec_rat_lt(t0, 1, slab_exit_n(b, r, a), slab_den(r, a))
    }
}

/// The cross-axis condition: the entry on axis `a` falls before the exit
/// on axis `c`, so the per-axis intervals overlap.
pub open spec fn slab_pair_ok(b: AaBb, r: Ray, a: int, c: int) -> bool {
    slab_active(r, a) && slab_active(r, c) ==> spec_rat_lt(
        slab_entry_n(b, r, a),
        slab_den(r, a),
        slab_exit_n(b, r, c),
        slab_den(r, c),
    )
}

impl AaBb {
    /// Coordinates stay within the sentinel bound.
    pub open spec fn wf(self) -> bool {
        &&& self.min.bounded(COORD_INF as int)
        &&& self.max.bounded(COORD_INF as int)
    }

    /// The whole slab test: the tightened interval is non-empty exactly
    /// when every lower bound (each entry, and `t0`) lies strictly below
    /// every upper bound (each exit, and `t1`).
    pub open spec fn spec_slab_hit(b: AaBb, r: Ray, t0: int, t1: int) -> bool {
        &&& t0 < t1
        &&& forall|a: int| 0 <= a < 3 ==> #[trigger] slab_axis_ok(b, r, a, t0, t1)
        &&& forall|a: int, c: int|
            0 <= a < 3 && 0 <= c < 3 ==> #[trigger] slab_pair_ok(b, r, a, c)
    }

    /// One box contains another, componentwise.
    pub open spec fn spec_contains(outer: AaBb, inner: AaBb) -> bool {
        forall|a: int|
            0 <= a < 3 ==> #[trigger] outer.min.spec_axis(a) <= inner.min.spec_axis(a)
                && inner.max.spec_axis(a) <= outer.max.spec_axis(a)
    }

    /// The empty box: unioning it with any box yields that box.
    pub fn empty() -> (b: AaBb)
        ensures
            b == AaBb::spec_empty(),
    {
        AaBb {
            min: Vec3 { x: COORD_INF, y: COORD_INF, z: COORD_INF },
            max: Vec3 { x: -COORD_INF, y: -COORD_INF, z: -COORD_INF },
        }
    }

    pub open spec fn spec_empty() -> AaBb {
        AaBb {
            min: Vec3 { x: COORD_INF, y: COORD_INF, z: COORD_INF },
            max: Vec3 { x: (-COORD_INF) as i64, y: (-COORD_INF) as i64, z: (-COORD_INF) as i64 },
        }
    }

    /// The smallest box enclosing two boxes: componentwise minimum of the
    /// lower corners and maximum of the upper corners.
    pub open spec fn spec_union(b0: AaBb, b1: AaBb) -> AaBb {
        AaBb {
            min: Vec3 {
                x: if b0.min.x <= b1.min.x { b0.min.x } else { b1.min.x },
                y: if b0.min.y <= b1.min.y { b0.min.y } else { b1.min.y },
                z: if b0.min.z <= b1.min.z { b0.min.z } else { b1.min.z },
            },
            max: Vec3 {
                x: if b0.max.x >= b1.max.x { b0.max.x } else { b1.max.x },
                y: if b0.max.y >= b1.max.y { b0.max.y } else { b1.max.y },
                z: if b0.max.z >= b1.max.z { b0.max.z } else { b1.max.z },
            },
        }
    }

    pub fn surrounding_box(box0: &AaBb, box1: &AaBb) -> (r: AaBb)
        ensures
            r == AaBb::spec_union(*box0, *box1),
    {
        AaBb {
            min: Vec3 {
                x: if box0.min.x <= box1.min.x { box0.min.x } else { box1.min.x },
                y: if box0.min.y <= box1.min.y { box0.min.y } else { box1.min.y },
                z: if box0.min.z <= box1.min.z { box0.min.z } else { box1.min.z },
            },
            max: Vec3 {
                x: if box0.max.x >= box1.max.x { box0.max.x } else { box1.max.x },
                y: if box0.max.y >= box1.max.y { box0.max.y } else { box1.max.y },
                z: if box0.max.z >= box1.max.z { box0.max.z } else { box1.max.z },
            },
        }
    }

    /// The axis of greatest extent, ties resolved in the order x, y, z.
    pub open spec fn spec_split_axis(self) -> int {
        let ex = self.max.x - self.min.x;
        let ey = self.max.y - self.min.y;
        let ez = self.max.z - self.min.z;
        if ex >= ey && ex >= ez {
            0
        } else if ey >= ez {
            1
        } else {
            2
        }
    }

    pub fn split_axis(&self) -> (axis: usize)
        requires
            self.wf(),
        ensures
            axis == self.spec_split_axis(),
            axis < 3,
    {
        let ex: i64 = self.max.x - self.min.x;
        let ey: i64 = self.max.y - self.min.y;
        let ez: i64 = self.max.z - self.min.z;
        let m1: i64 = if ex >= ey { ex } else { ey };
        let m: i64 = if m1 >= ez { m1 } else { ez };
        if ex == m {
            0
        } else if ey == m {
            1
        } else {
            2
        }
    }

    /// Slab test of the ray against this box over `(t_min, t_max)`.
    pub fn hit(&self, ray: &Ray, t_min: i64, t_max: i64) -> (res: bool)
        requires
            self.wf(),
            ray.wf(),
        ensures
            res == AaBb::spec_slab_hit(*self, *ray, t_min as int, t_max as int),
    {
        if !(t_min < t_max) {
            return false;
        }
        let (ok0, act0, en0, ex0, dn0) = self.axis_data(ray, 0);
        if !ok0 {
            proof { assert(!slab_axis_ok(*self, *ray, 0, t_min as int, t_max as int)); }
            return false;
        }
        let (ok1, act1, en1, ex1, dn1) = self.axis_data(ray, 1);
        if !ok1 {
            proof { assert(!slab_axis_ok(*self, *ray, 1, t_min as int, t_max as int)); }
            return false;
        }
        let (ok2, act2, en2, ex2, dn2) = self.axis_data(ray, 2);
        if !ok2 {
            proof { assert(!slab_axis_ok(*self, *ray, 2, t_min as int, t_max as int)); }
            return false;
        }
        // Tighten the running interval axis by axis: each new entry must
        // stay below t_max and every exit seen, each new exit above t_min
        // and every entry seen.
        if act0 {
            if !rat_lt(en0, dn0 as i128, t_max as i128, 1) {
                proof { assert(!slab_axis_ok(*self, *ray, 0, t_min as int, t_max as int)); }
                return false;
            }
            if !rat_lt(t_min as i128, 1, ex0, dn0 as i128) {
                proof { assert(!slab_axis_ok(*self, *ray, 0, t_min as int, t_max as int)); }
                return false;
            }
            if !rat_lt(en0, dn0 as i128, ex0, dn0 as i128) {
                proof { assert(!slab_pair_ok(*self, *ray, 0, 0)); }
                return false;
            }
        }
        if act1 {
            if !rat_lt(en1, dn1 as i128, t_max as i128, 1) {
                proof { assert(!slab_axis_ok(*self, *ray, 1, t_min as int, t_max as int)); }
                return false;
            }
            if !rat_lt(t_min as i128, 1, ex1, dn1 as i128) {
                proof { assert(!slab_axis_ok(*self, *ray, 1, t_min as int, t_max as int)); }
                return false;
            }
            if !rat_lt(en1, dn1 as i128, ex1, dn1 as i128) {
                proof { assert(!slab_pair_ok(*self, *ray, 1, 1)); }
                return false;
            }
            if act0 {
                if !rat_lt(en1, dn1 as i128, ex0, dn0 as i128) {
                    proof { assert(!slab_pair_ok(*self, *ray, 1, 0)); }
                    return false;
                }
                if !rat_lt(en0, dn0 as i128, ex1, dn1 as i128) {
                    proof { assert(!slab_pair_ok(*self, *ray, 0, 1)); }
                    return false;
                }
            }
        }
        if act2 {
            if !rat_lt(en2, dn2 as i128, t_max as i128, 1) {
                proof { assert(!slab_axis_ok(*self, *ray, 2, t_min as int, t_max as int)); }
                return false;
            }
            if !rat_lt(t_min as i128, 1, ex2, dn2 as i128) {
                proof { assert(!slab_axis_ok(*self, *ray, 2, t_min as int, t_max as int)); }
                return false;
            }
            if !rat_lt(en2, dn2 as i128, ex2, dn2 as i128) {
                proof { assert(!slab_pair_ok(*self, *ray, 2, 2)); }
                return false;
            }
            if act0 {
                if !rat_lt(en2, dn2 as i128, ex0, dn0 as i128) {
                    proof { assert(!slab_pair_ok(*self, *ray, 2, 0)); }
                    return false;
                }
                if !rat_lt(en0, dn0 as i128, ex2, dn2 as i128) {
                    proof { assert(!slab_pair_ok(*self, *ray, 0, 2)); }
                    return false;
                }
            }
            if act1 {
                if !rat_lt(en2, dn2 as i128, ex1, dn1 as i128) {
                    proof { assert(!slab_pair_ok(*self, *ray, 2, 1)); }
                    return false;
                }
                if !rat_lt(en1, dn1 as i128, ex2, dn2 as i128) {
                    proof { assert(!slab_pair_ok(*self, *ray, 1, 2)); }
                    return false;
                }
            }
        }
        proof {
            assert forall|a: int| 0 <= a < 3 implies #[trigger] slab_axis_ok(
                *self, *ray, a, t_min as int, t_max as int,
            ) by {
                if a == 0 {
                } else if a == 1 {
                } else {
                    assert(a == 2);
                }
            }
            assert forall|a: int, c: int| 0 <= a < 3 && 0 <= c < 3 implies #[trigger] slab_pair_ok(
                *self, *ray, a, c,
            ) by {
                assert(a == 0 || a == 1 || a == 2);
                assert(c == 0 || c == 1 || c == 2);
            }
        }
        true
    }

    /// Classify one axis: whether a parallel ray passes, whether the axis
    /// constrains the interval, and the rational entry and exit bounds.
    pub(crate) fn axis_data(&self, ray: &Ray, a: usize) -> (r: (bool, bool, i128, i128, i64))
        requires
            self.wf(),
            ray.wf(),
            a < 3,
        ensures
            r.0 == (slab_active(*ray, a as int) || self.min.spec_axis(a as int)
                <= ray.origin.spec_axis(a as int) <= self.max.spec_axis(a as int)),
            r.1 == slab_active(*ray, a as int),
            r.1 ==> r.2 == slab_entry_n(*self, *ray, a as int),
            r.1 ==> r.3 == slab_exit_n(*self, *ray, a as int),
            r.1 ==> r.4 == slab_den(*ray, a as int),
            r.1 ==> 0 < r.4 <= WORLD_MAX,
            r.1 ==> -0x1_0000_0000_0000_0000_0000i128 <= r.2 <= 0x1_0000_0000_0000_0000_0000i128,
            r.1 ==> -0x1_0000_0000_0000_0000_0000i128 <= r.3 <= 0x1_0000_0000_0000_0000_0000i128,
    {
        let d: i64 = ray.direction.axis(a);
        let o: i64 = ray.origin.axis(a);
        let mn: i64 = self.min.axis(a);
        let mx: i64 = self.max.axis(a);
        if d == 0 {
            let inside: bool = mn <= o && o <= mx;
            (inside, false, 0, 0, 0)
        } else {
            let dn: i64 = if d > 0 { d } else { -d };
            proof {
                crate::vec3::lemma_mul_bound2(
                    (mn - o) as int, 0x2100_0000_0000_0000int, FP_ONE as int, FP_ONE as int,
                );
                crate::vec3::lemma_mul_bound2(
                    (mx - o) as int, 0x2100_0000_0000_0000int, FP_ONE as int, FP_ONE as int,
                );
            }
            let (en, ex): (i128, i128) = if d > 0 {
                (((mn - o) as i128) * (FP_ONE as i128), ((mx - o) as i128) * (FP_ONE as i128))
            } else {
                (((o - mx) as i128) * (FP_ONE as i128), ((o - mn) as i128) * (FP_ONE as i128))
            };
            (true, true, en, ex, dn)
        }
    }
}

/// Exact comparison of two rationals with positive denominators.
pub(crate) fn rat_lt(an: i128, ad: i128, bn: i128, bd: i128) -> (r: bool)
    requires
        0 < ad <= 0x1_0000_0000i128,
        0 < bd <= 0x1_0000_0000i128,
        -0x1_0000_0000_0000_0000_0000i128 <= an <= 0x1_0000_0000_0000_0000_0000i128,
        -0x1_0000_0000_0000_0000_0000i128 <= bn <= 0x1_0000_0000_0000_0000_0000i128,
    ensures
        r == spec_rat_lt(an as int, ad as int, bn as int, bd as int),
{
    proof {
        crate::vec3::lemma_mul_bound2(an as int, 0x1_0000_0000_0000_0000_0000int, bd as int, 0x1_0000_0000int);
        crate::vec3::lemma_mul_bound2(bn as int, 0x1_0000_0000_0000_0000_0000int, ad as int, 0x1_0000_0000int);
    }
    an * bd < bn * ad
}

/// Box union is commutative.
pub proof fn lemma_union_commutative(b0: AaBb, b1: AaBb)
    ensures
        AaBb::spec_union(b0, b1) == AaBb::spec_union(b1, b0),
{
}

/// Box union is associative.
pub proof fn lemma_union_associative(b0: AaBb, b1: AaBb, b2: AaBb)
    ensures
        AaBb::spec_union(AaBb::spec_union(b0, b1), b2)
            == AaBb::spec_union(b0, AaBb::spec_union(b1, b2)),
{
}

/// The empty box is a unit of union for every box within the sentinel
/// bound, degenerate or not.
pub proof fn lemma_union_empty(b: AaBb)
    requires
        b.wf(),
    ensures
        AaBb::spec_union(b, AaBb::spec_empty()) == b,
        AaBb::spec_union(AaBb::spec_empty(), b) == b,
{
}

/// A union contains both of its arguments.
pub proof fn lemma_union_contains(b0: AaBb, b1: AaBb)
    ensures
        AaBb::spec_contains(AaBb::spec_union(b0, b1), b0),
        AaBb::spec_contains(AaBb::spec_union(b0, b1), b1),
{
    assert forall|a: int| 0 <= a < 3 implies
        #[trigger] AaBb::spec_union(b0, b1).min.spec_axis(a) <= b0.min.spec_axis(a)
        && b0.max.spec_axis(a) <= AaBb::spec_union(b0, b1).max.spec_axis(a) by {}
    assert forall|a: int| 0 <= a < 3 implies
        #[trigger] AaBb::spec_union(b0, b1).min.spec_axis(a) <= b1.min.spec_axis(a)
        && b1.max.spec_axis(a) <= AaBb::spec_union(b0, b1).max.spec_axis(a) by {}
}

/// Containment is transitive.
pub proof fn lemma_contains_trans(b0: AaBb, b1: AaBb, b2: AaBb)
    requires
        AaBb::spec_contains(b0, b1),
        AaBb::spec_contains(b1, b2),
    ensures
        AaBb::spec_contains(b0, b2),
{
}

/// Enlarging a box widens every slab: entries move down, exits move up.
pub proof fn lemma_contains_widens(outer: AaBb, inner: AaBb, r: Ray)
    requires
        AaBb::spec_contains(outer, inner),
    ensures
        forall|a: int| 0 <= a < 3 ==> #[trigger] slab_entry_n(outer, r, a)
            <= slab_entry_n(inner, r, a),
        forall|a: int| 0 <= a < 3 ==> slab_exit_n(inner, r, a)
            <= #[trigger] slab_exit_n(outer, r, a),
{
    assert forall|a: int| 0 <= a < 3 implies #[trigger] slab_entry_n(outer, r, a)
        <= slab_entry_n(inner, r, a) by {
        assert(outer.min.spec_axis(a) <= inner.min.spec_axis(a));
        assert(inner.max.spec_axis(a) <= outer.max.spec_axis(a));
    }
    assert forall|a: int| 0 <= a < 3 implies slab_exit_n(inner, r, a)
        <= #[trigger] slab_exit_n(outer, r, a) by {
        assert(outer.min.spec_axis(a) <= inner.min.spec_axis(a));
        assert(inner.max.spec_axis(a) <= outer.max.spec_axis(a));
    }
}

/// A ray that starts strictly inside a box hits it on `(0, t1)` for every
/// positive `t1`, whatever its direction.
pub proof fn lemma_hit_from_inside(b: AaBb, r: Ray, t1: int)
    requires
        t1 > 0,
        forall|a: int| 0 <= a < 3
            ==> b.min.spec_axis(a) < #[trigger] r.origin.spec_axis(a) < b.max.spec_axis(a),
    ensures
        AaBb::spec_slab_hit(b, r, 0, t1),
{
    assert forall|a: int| 0 <= a < 3 implies #[trigger] slab_axis_ok(b, r, a, 0, t1) by {
        if slab_active(r, a) {
            lemma_entry_neg_exit_pos(b, r, a);
            assert(spec_rat_lt(slab_entry_n(b, r, a), slab_den(r, a), t1, 1)) by (nonlinear_arith)
                requires slab_entry_n(b, r, a) < 0 && t1 > 0 && slab_den(r, a) > 0;
            assert(spec_rat_lt(0, 1, slab_exit_n(b, r, a), slab_den(r, a)));
        }
    }
    assert forall|a: int, c: int| 0 <= a < 3 && 0 <= c < 3 implies #[trigger] slab_pair_ok(
        b, r, a, c,
    ) by {
        if slab_active(r, a) && slab_active(r, c) {
            lemma_entry_neg_exit_pos(b, r, a);
            lemma_entry_neg_exit_pos(b, r, c);
            assert(spec_rat_lt(
                slab_entry_n(b, r, a), slab_den(r, a),
                slab_exit_n(b, r, c), slab_den(r, c),
            )) by (nonlinear_arith)
                requires
                    slab_entry_n(b, r, a) < 0 && slab_exit_n(b, r, c) > 0
                    && slab_den(r, a) > 0 && slab_den(r, c) > 0;
        }
    }
}

proof fn lemma_entry_neg_exit_pos(b: AaBb, r: Ray, a: int)
    requires
        0 <= a < 3,
        slab_active(r, a),
        b.min.spec_axis(a) < r.origin.spec_axis(a) < b.max.spec_axis(a),
    ensures
        slab_entry_n(b, r, a) < 0,
        slab_exit_n(b, r, a) > 0,
{
}

/// A ray on the far side of a box and not moving back toward it reports a
/// miss on any interval of non-negative parameters.
pub proof fn lemma_miss_receding(b: AaBb, r: Ray, t0: int, t1: int, a: int)
    requires
        0 <= a < 3,
        t0 >= 0,
        (r.origin.spec_axis(a) > b.max.spec_axis(a) && r.direction.spec_axis(a) >= 0)
            || (r.origin.spec_axis(a) < b.min.spec_axis(a) && r.direction.spec_axis(a) <= 0),
    ensures
        !AaBb::spec_slab_hit(b, r, t0, t1),
{
    if AaBb::spec_slab_hit(b, r, t0, t1) {
        assert(slab_axis_ok(b, r, a, t0, t1));
        if slab_active(r, a) {
            assert(slab_exit_n(b, r, a) < 0);
            assert(spec_rat_lt(t0, 1, slab_exit_n(b, r, a), slab_den(r, a)));
            assert(t0 * slab_den(r, a) >= 0) by (nonlinear_arith)
                requires t0 >= 0 && slab_den(r, a) > 0;
            assert(false);
        }
    }
}

/// Exact non-strict comparison of two rationals with positive denominators.
pub(crate) fn rat_le(an: i128, ad: i128, bn: i128, bd: i128) -> (r: bool)
    requires
        0 < ad <= 0x1_0000_0000i128,
        0 < bd <= 0x1_0000_0000i128,
        -0x1_0000_0000_0000_0000_0000i128 <= an <= 0x1_0000_0000_0000_0000_0000i128,
        -0x1_0000_0000_0000_0000_0000i128 <= bn <= 0x1_0000_0000_0000_0000_0000i128,
    ensures
        r == spec_rat_le(an as int, ad as int, bn as int, bd as int),
{
    proof {
        crate::vec3::lemma_mul_bound2(an as int, 0x1_0000_0000_0000_0000_0000int, bd as int, 0x1_0000_0000int);
        crate::vec3::lemma_mul_bound2(bn as int, 0x1_0000_0000_0000_0000_0000int, ad as int, 0x1_0000_0000int);
    }
    an * bd <= bn * ad
}

/// A rational at most a second one that lies strictly below a third is
/// strictly below the third (denominators positive).
pub proof fn lemma_rat_le_lt_trans(an: int, ad: int, bn: int, bd: int, cn: int, cd: int)
    requires
        ad > 0,
        bd > 0,
        cd > 0,
        spec_rat_le(an, ad, bn, bd),
        spec_rat_lt(bn, bd, cn, cd),
    ensures
        spec_rat_lt(an, ad, cn, cd),
{
    assert(an * cd < cn * ad) by (nonlinear_arith)
        requires
            ad > 0 && bd > 0 && cd > 0 && an * bd <= bn * ad && bn * cd < cn * bd;
}

/// A rational strictly below a second that is at most a third is strictly
/// below the third (denominators positive).
pub proof fn lemma_rat_lt_le_trans(an: int, ad: int, bn: int, bd: int, cn: int, cd: int)
    requires
        ad > 0,
        bd > 0,
        cd > 0,
        spec_rat_lt(an, ad, bn, bd),
        spec_rat_le(bn, bd, cn, cd),
    ensures
        spec_rat_lt(an, ad, cn, cd),
{
    assert(an * cd < cn * ad) by (nonlinear_arith)
        requires
            ad > 0 && bd > 0 && cd > 0 && an * bd < bn * ad && bn * cd <= cn * bd;
}

/// Rational non-strict order is transitive (denominators positive).
pub proof fn lemma_rat_le_trans(an: int, ad: int, bn: int, bd: int, cn: int, cd: int)
    requires
        ad > 0,
        bd > 0,
        cd > 0,
        spec_rat_le(an, ad, bn, bd),
        spec_rat_le(bn, bd, cn, cd),
    ensures
        spec_rat_le(an, ad, cn, cd),
{
    assert(an * cd <= cn * ad) by (nonlinear_arith)
        requires
            ad > 0 && bd > 0 && cd > 0 && an * bd <= bn * ad && bn * cd <= cn * bd;
}

/// The parameter `tn/td` lies strictly inside `(t0, t1)` and its exact
/// point on the ray lies inside the closed box on every axis.
pub open spec fn line_meets_box_at(b: AaBb, r: Ray, t0: int, t1: int, tn: int, td: int) -> bool {
    &&& td > 0
    &&& t0 * td < tn < t1 * td
    &&& forall|a: int| 0 <= a < 3 ==> (b.min.spec_axis(a) - r.origin.spec_axis(a)) * (td
        * FP_ONE) <= tn * (#[trigger] r.direction.spec_axis(a)) <= (b.max.spec_axis(a)
        - r.origin.spec_axis(a)) * (td * FP_ONE)
}

/// The slab test is geometrically sound: whenever it reports a hit, some
/// parameter of the interval has its exact (rational) point inside the
/// closed box. Contrapositive: a ray all of whose points over the
/// interval lie outside the box — in particular one whose whole line
/// misses it — is never reported as a hit, whatever the interval.
#[verifier::rlimit(100)]
pub proof fn lemma_slab_hit_meets_box(b: AaBb, r: Ray, t0: int, t1: int)
    requires
        AaBb::spec_slab_hit(b, r, t0, t1),
    ensures
        exists|tn: int, td: int| #[trigger] line_meets_box_at(b, r, t0, t1, tn, td),
{
    assert(slab_axis_ok(b, r, 0, t0, t1));
    assert(slab_axis_ok(b, r, 1, t0, t1));
    assert(slab_axis_ok(b, r, 2, t0, t1));
    assert forall|a: int, c: int| 0 <= a < 3 && 0 <= c < 3 implies #[trigger] slab_pair_ok(
        b, r, a, c,
    ) by {}
    // The greatest lower bound among t0 and the active entries, found by
    // a three-step maximum (each step keeps the larger rational).
    let mut ln = t0;
    let mut ld = 1int;
    if slab_active(r, 0) && spec_rat_le(ln, ld, slab_entry_n(b, r, 0), slab_den(r, 0)) {
        lemma_rat_le_trans(t0, 1, ln, ld, slab_entry_n(b, r, 0), slab_den(r, 0));
        ln = slab_entry_n(b, r, 0);
        ld = slab_den(r, 0);
    } else if slab_active(r, 0) {
        assert(spec_rat_le(slab_entry_n(b, r, 0), slab_den(r, 0), ln, ld));
    }
    assert(ld > 0 && spec_rat_le(t0, 1, ln, ld));
    assert(forall|x: int| 0 <= x < 0 + 1 && slab_active(r, x) ==> #[trigger] spec_rat_le(
        slab_entry_n(b, r, x), slab_den(r, x), ln, ld,
    ));
    assert((ln == t0 && ld == 1) || exists|x: int|
        0 <= x < 0 + 1 && slab_active(r, x) && ln == slab_entry_n(b, r, x) && ld
            == #[trigger] slab_den(r, x));
    if slab_active(r, 1) && spec_rat_le(ln, ld, slab_entry_n(b, r, 1), slab_den(r, 1)) {
        lemma_rat_le_trans(t0, 1, ln, ld, slab_entry_n(b, r, 1), slab_den(r, 1));
        if slab_active(r, 0) {
            lemma_rat_le_trans(
                slab_entry_n(b, r, 0), slab_den(r, 0), ln, ld,
                slab_entry_n(b, r, 1), slab_den(r, 1),
            );
        }
        ln = slab_entry_n(b, r, 1);
        ld = slab_den(r, 1);
    } else if slab_active(r, 1) {
        assert(spec_rat_le(slab_entry_n(b, r, 1), slab_den(r, 1), ln, ld));
    }
    assert(ld > 0 && spec_rat_le(t0, 1, ln, ld));
    assert(forall|x: int| 0 <= x < 1 + 1 && slab_active(r, x) ==> #[trigger] spec_rat_le(
        slab_entry_n(b, r, x), slab_den(r, x), ln, ld,
    ));
    assert((ln == t0 && ld == 1) || exists|x: int|
        0 <= x < 1 + 1 && slab_active(r, x) && ln == slab_entry_n(b, r, x) && ld
            == #[trigger] slab_den(r, x));
    if slab_active(r, 2) && spec_rat_le(ln, ld, slab_entry_n(b, r, 2), slab_den(r, 2)) {
        lemma_rat_le_trans(t0, 1, ln, ld, slab_entry_n(b, r, 2), slab_den(r, 2));
        if slab_active(r, 0) {
            lemma_rat_le_trans(
                slab_entry_n(b, r, 0), slab_den(r, 0), ln, ld,
                slab_entry_n(b, r, 2), slab_den(r, 2),
            );
        }
        if slab_active(r, 1) {
            lemma_rat_le_trans(
                slab_entry_n(b, r, 1), slab_den(r, 1), ln, ld,
                slab_entry_n(b, r, 2), slab_den(r, 2),
            );
        }
        ln = slab_entry_n(b, r, 2);
        ld = slab_den(r, 2);
    } else if slab_active(r, 2) {
        assert(spec_rat_le(slab_entry_n(b, r, 2), slab_den(r, 2), ln, ld));
    }
    assert(ld > 0 && spec_rat_le(t0, 1, ln, ld));
    assert(forall|x: int| 0 <= x < 2 + 1 && slab_active(r, x) ==> #[trigger] spec_rat_le(
        slab_entry_n(b, r, x), slab_den(r, x), ln, ld,
    ));
    assert((ln == t0 && ld == 1) || exists|x: int|
        0 <= x < 2 + 1 && slab_active(r, x) && ln == slab_entry_n(b, r, x) && ld
            == #[trigger] slab_den(r, x));
    // The least upper bound among t1 and the active exits, symmetrically.
    let mut hn = t1;
    let mut hd = 1int;
    if slab_active(r, 0) && spec_rat_le(slab_exit_n(b, r, 0), slab_den(r, 0), hn, hd) {
        lemma_rat_le_trans(slab_exit_n(b, r, 0), slab_den(r, 0), hn, hd, t1, 1);
        hn = slab_exit_n(b, r, 0);
        hd = slab_den(r, 0);
    } else if slab_active(r, 0) {
        assert(spec_rat_le(hn, hd, slab_exit_n(b, r, 0), slab_den(r, 0)));
    }
    assert(hd > 0 && spec_rat_le(hn, hd, t1, 1));
    assert(forall|x: int| 0 <= x < 0 + 1 && slab_active(r, x) ==> #[trigger] spec_rat_le(
        hn, hd, slab_exit_n(b, r, x), slab_den(r, x),
    ));
    assert((hn == t1 && hd == 1) || exists|x: int|
        0 <= x < 0 + 1 && slab_active(r, x) && hn == slab_exit_n(b, r, x) && hd
            == #[trigger] slab_den(r, x));
    if slab_active(r, 1) && spec_rat_le(slab_exit_n(b, r, 1), slab_den(r, 1), hn, hd) {
        lemma_rat_le_trans(slab_exit_n(b, r, 1), slab_den(r, 1), hn, hd, t1, 1);
        if slab_active(r, 0) {
            lemma_rat_le_trans(
                slab_exit_n(b, r, 1), slab_den(r, 1), hn, hd,
                slab_exit_n(b, r, 0), slab_den(r, 0),
            );
        }
        hn = slab_exit_n(b, r, 1);
        hd = slab_den(r, 1);
    } else if slab_active(r, 1) {
        assert(spec_rat_le(hn, hd, slab_exit_n(b, r, 1), slab_den(r, 1)));
    }
    assert(hd > 0 && spec_rat_le(hn, hd, t1, 1));
    assert(forall|x: int| 0 <= x < 1 + 1 && slab_active(r, x) ==> #[trigger] spec_rat_le(
        hn, hd, slab_exit_n(b, r, x), slab_den(r, x),
    ));
    assert((hn == t1 && hd == 1) || exists|x: int|
        0 <= x < 1 + 1 && slab_active(r, x) && hn == slab_exit_n(b, r, x) && hd
            == #[trigger] slab_den(r, x));
    if slab_active(r, 2) && spec_rat_le(slab_exit_n(b, r, 2), slab_den(r, 2), hn, hd) {
        lemma_rat_le_trans(slab_exit_n(b, r, 2), slab_den(r, 2), hn, hd, t1, 1);
        if slab_active(r, 0) {
            lemma_rat_le_trans(
                slab_exit_n(b, r, 2), slab_den(r, 2), hn, hd,
                slab_exit_n(b, r, 0), slab_den(r, 0),
            );
        }
        if slab_active(r, 1) {
            lemma_rat_le_trans(
                slab_exit_n(b, r, 2), slab_den(r, 2), hn, hd,
                slab_exit_n(b, r, 1), slab_den(r, 1),
            );
        }
        hn = slab_exit_n(b, r, 2);
        hd = slab_den(r, 2);
    } else if slab_active(r, 2) {
        assert(spec_rat_le(hn, hd, slab_exit_n(b, r, 2), slab_den(r, 2)));
    }
    assert(hd > 0 && spec_rat_le(hn, hd, t1, 1));
    assert(forall|x: int| 0 <= x < 2 + 1 && slab_active(r, x) ==> #[trigger] spec_rat_le(
        hn, hd, slab_exit_n(b, r, x), slab_den(r, x),
    ));
    assert((hn == t1 && hd == 1) || exists|x: int|
        0 <= x < 2 + 1 && slab_active(r, x) && hn == slab_exit_n(b, r, x) && hd
            == #[trigger] slab_den(r, x));
    // The tightened interval is non-empty: its ends are a lower and an
    // upper bound, strictly ordered by the interval and slab conditions.
    assert(spec_rat_lt(ln, ld, hn, hd)) by {
        if ln == t0 && ld == 1 {
            if hn == t1 && hd == 1 {
            } else {
                let y = choose|y: int|
                    0 <= y < 3 && slab_active(r, y) && hn == slab_exit_n(b, r, y) && hd
                        == #[trigger] slab_den(r, y);
                assert(slab_axis_ok(b, r, y, t0, t1));
            }
        } else {
            let x = choose|x: int|
                0 <= x < 3 && slab_active(r, x) && ln == slab_entry_n(b, r, x) && ld
                    == #[trigger] slab_den(r, x);
            assert(slab_axis_ok(b, r, x, t0, t1));
            if hn == t1 && hd == 1 {
            } else {
                let y = choose|y: int|
                    0 <= y < 3 && slab_active(r, y) && hn == slab_exit_n(b, r, y) && hd
                        == #[trigger] slab_den(r, y);
                assert(slab_pair_ok(b, r, x, y));
            }
        }
    }
    // Its midpoint is the witness.
    let tn = ln * hd + hn * ld;
    let td = 2 * (ld * hd);
    assert(td > 0) by (nonlinear_arith)
        requires ld > 0 && hd > 0 && td == 2 * (ld * hd);
    assert(spec_rat_lt(ln, ld, tn, td) && spec_rat_lt(tn, td, hn, hd)) by (nonlinear_arith)
        requires
            ld > 0 && hd > 0 && td == 2 * (ld * hd) && tn == ln * hd + hn * ld
                && ln * hd < hn * ld;
    lemma_rat_le_lt_trans(t0, 1, ln, ld, tn, td);
    lemma_rat_lt_le_trans(tn, td, hn, hd, t1, 1);
    assert(t0 * td < tn && tn < t1 * td);
    assert forall|a2: int| 0 <= a2 < 3 implies (b.min.spec_axis(a2) - r.origin.spec_axis(a2))
        * (td * FP_ONE) <= tn * (#[trigger] r.direction.spec_axis(a2)) <= (b.max.spec_axis(a2)
        - r.origin.spec_axis(a2)) * (td * FP_ONE) by {
        let o = r.origin.spec_axis(a2) as int;
        let d = r.direction.spec_axis(a2) as int;
        let mn = b.min.spec_axis(a2) as int;
        let mx = b.max.spec_axis(a2) as int;
        if slab_active(r, a2) {
            lemma_rat_le_lt_trans(
                slab_entry_n(b, r, a2), slab_den(r, a2), ln, ld, tn, td,
            );
            lemma_rat_lt_le_trans(
                tn, td, hn, hd, slab_exit_n(b, r, a2), slab_den(r, a2),
            );
            assert(spec_rat_lt(slab_entry_n(b, r, a2), slab_den(r, a2), tn, td));
            assert(spec_rat_lt(tn, td, slab_exit_n(b, r, a2), slab_den(r, a2)));
            if d > 0 {
                assert((mn - o) * (td * FP_ONE) <= tn * d && tn * d <= (mx - o) * (td
                    * FP_ONE)) by (nonlinear_arith)
                    requires
                        d > 0 && td > 0 && ((mn - o) * FP_ONE) * td < tn * d && tn * d
                            < ((mx - o) * FP_ONE) * td;
            } else {
                assert(((o - mx) * FP_ONE) * td < tn * (-d));
                assert(tn * (-d) < ((o - mn) * FP_ONE) * td);
                assert((mn - o) * (td * FP_ONE) <= tn * d && tn * d <= (mx - o) * (td
                    * FP_ONE)) by (nonlinear_arith)
                    requires
                        d < 0 && td > 0 && ((o - mx) * FP_ONE) * td < tn * (-d) && tn * (-d)
                            < ((o - mn) * FP_ONE) * td;
            }
        } else {
            assert(mn <= o <= mx);
            assert(tn * d == 0) by (nonlinear_arith)
                requires d == 0;
            assert((mn - o) * (td * FP_ONE) <= 0 && 0 <= (mx - o) * (td * FP_ONE))
                by (nonlinear_arith)
                requires mn - o <= 0 && 0 <= mx - o && td > 0;
        }
    }
    assert(line_meets_box_at(b, r, t0, t1, tn, td));
}

} // verus!
