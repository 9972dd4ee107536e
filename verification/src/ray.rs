//! Rays: an origin point and an (unnormalized) direction.

use vstd::prelude::*;
use crate::fixed::{FP_ONE, WORLD_MAX, tdiv, div_i64};
use crate::vec3::Vec3;

verus! {

/// A ray `origin + t * direction`, immutable once constructed. The
/// direction need not be normalized.
#[derive(Clone, Copy, Debug, PartialEq, Eq, Structural)]
pub struct Ray {
    pub origin: Vec3,
    pub direction: Vec3,
}

impl Ray {
    /// Origin and direction components stay within world coordinates.
    pub open spec fn wf(self) -> bool {
        &&& self.origin.bounded(WORLD_MAX as int)
        &&& self.direction.bounded(WORLD_MAX as int)
    }

    pub open spec fn spec_origin(self) -> Vec3 {
        self.origin
    }

    pub open spec fn spec_direction(self) -> Vec3 {
        self.direction
    }

    pub fn from(origin: Vec3, direction: Vec3) -> (r: Ray)
        ensures
            r == (Ray { origin, direction }),
    {
        Ray { origin, direction }
    }

    pub fn origin(&self) -> (o: Vec3)
        ensures
            o == self.origin,
    {
        self.origin
    }

    pub fn direction(&self) -> (d: Vec3)
        ensures
            d == self.direction,
    {
        self.direction
    }

    /// The point at parameter `t`: per axis, `origin + t * direction /
    /// FP_ONE`, truncated.
    pub open spec fn spec_point_at(self, t: int, a: int) -> int {
        self.origin.spec_axis(a) + tdiv(t * self.direction.spec_axis(a), FP_ONE as int)
    }

    /// Evaluate the ray at parameter `t`. The caller must know the point
    /// lies in world coordinates (a hit accepted by the slab filter does).
    pub fn point_at_t(&self, t: i64) -> (p: Vec3)
        requires
            self.wf(),
            forall|a: int| 0 <= a < 3 ==> -WORLD_MAX <= #[trigger] self.spec_point_at(t as int, a) <= WORLD_MAX,
        ensures
            p.x == self.spec_point_at(t as int, 0),
            p.y == self.spec_point_at(t as int, 1),
            p.z == self.spec_point_at(t as int, 2),
            p.bounded(WORLD_MAX as int),
    {
        let x = self.point_axis(t, 0);
        let y = self.point_axis(t, 1);
        let z = self.point_axis(t, 2);
        Vec3 { x, y, z }
    }

    fn point_axis(&self, t: i64, a: usize) -> (c: i64)
        requires
            self.wf(),
            a < 3,
            -WORLD_MAX <= self.spec_point_at(t as int, a as int) <= WORLD_MAX,
        ensures
            c == self.spec_point_at(t as int, a as int),
    {
        let d: i64 = self.direction.axis(a);
        let o: i64 = self.origin.axis(a);
        let prod: i128 = (t as i128) * (d as i128);
        let q128: i128 = crate::fixed::div_i128(prod, FP_ONE as i128);
        proof {
            crate::fixed::lemma_tdiv_bounds(prod as int, FP_ONE as int);
        }
        let q: i64 = q128 as i64;
        o + q
    }
}

} // verus!
