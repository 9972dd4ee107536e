//! The camera: a precomputed image-plane frame, and per-sample ray
//! generation with an optional lens-disk jitter for depth of field.
//!
//! The trigonometry that derives the frame from look-at parameters is not
//! part of the core; a builder hands the finished frame in as plain
//! fixed-point values.

use vstd::prelude::*;
use rand::rngs::StdRng;
use crate::fixed::{FP_ONE, FP_SQ, WORLD_MAX, tdiv, div_i64};
use crate::vec3::{Vec3, lemma_mul_bound2};
use crate::ray::Ray;
use crate::material::lemma_fits_fp;
use crate::rng::random_fp;

verus! {

/// Frame vectors stay below this bound so a camera ray's components stay
/// in world coordinates.
pub const CAM_MAX: i64 = 0x100_0000;

/// A camera frame: position, the image plane's lower-left corner and
/// spanning vectors, the right and up unit vectors of the camera basis,
/// and the lens radius (zero for a pinhole camera).
#[derive(Clone, Copy, Debug, PartialEq, Eq, Structural)]
pub struct Camera {
    pub origin: Vec3,
    pub lower_left_corner: Vec3,
    pub horizontal: Vec3,
    pub vertical: Vec3,
    pub u: Vec3,
    pub v: Vec3,
    pub lens_radius: i64,
}

/// A point in the unit disk of the lens plane.
pub open spec fn in_unit_disk(p: Vec3) -> bool {
    &&& p.bounded(FP_ONE as int)
    &&& p.z == 0
    &&& Vec3::spec_dot(p, p) < FP_SQ
}

impl Camera {
    pub open spec fn wf(self) -> bool {
        &&& self.origin.bounded(CAM_MAX as int)
        &&& self.lower_left_corner.bounded(CAM_MAX as int)
        &&& self.horizontal.bounded(CAM_MAX as int)
        &&& self.vertical.bounded(CAM_MAX as int)
        &&& self.u.bounded(2 * FP_ONE as int)
        &&& self.v.bounded(2 * FP_ONE as int)
        &&& 0 <= self.lens_radius <= FP_ONE
    }

    /// Assemble a camera from its precomputed frame.
    pub fn from(
        origin: Vec3, lower_left_corner: Vec3, horizontal: Vec3, vertical: Vec3, u: Vec3,
        v: Vec3, lens_radius: i64,
    ) -> (c: Camera)
        ensures
            c == (Camera { origin, lower_left_corner, horizontal, vertical, u, v, lens_radius }),
    {
        Camera { origin, lower_left_corner, horizontal, vertical, u, v, lens_radius }
    }

    /// The ray for screen coordinates `(s, t)` and lens sample `p`.
    pub open spec fn spec_camera_ray(self, s: int, t: int, p: Vec3) -> Ray {
        let f = FP_ONE as int;
        let rdx = tdiv(p.x * self.lens_radius, f);
        let rdy = tdiv(p.y * self.lens_radius, f);
        let offset = Vec3 {
            x: (tdiv(self.u.x * rdx, f) + tdiv(self.v.x * rdy, f)) as i64,
            y: (tdiv(self.u.y * rdx, f) + tdiv(self.v.y * rdy, f)) as i64,
            z: (tdiv(self.u.z * rdx, f) + tdiv(self.v.z * rdy, f)) as i64,
        };
        Ray {
            origin: Vec3 {
                x: (self.origin.x + offset.x) as i64,
                y: (self.origin.y + offset.y) as i64,
                z: (self.origin.z + offset.z) as i64,
            },
            direction: Vec3 {
                x: (self.lower_left_corner.x + tdiv(s * self.horizontal.x, f)
                    + tdiv(t * self.vertical.x, f) - self.origin.x - offset.x) as i64,
                y: (self.lower_left_corner.y + tdiv(s * self.horizontal.y, f)
                    + tdiv(t * self.vertical.y, f) - self.origin.y - offset.y) as i64,
                z: (self.lower_left_corner.z + tdiv(s * self.horizontal.z, f)
                    + tdiv(t * self.vertical.z, f) - self.origin.z - offset.z) as i64,
            },
        }
    }

    /// Generate the ray through screen coordinates `(s, t)`, jittered on
    /// the lens disk. With a zero lens radius the ray is deterministic.
    pub fn camera_ray(&self, s: i64, t: i64, rng: &mut StdRng) -> (r: Ray)
        requires
            self.wf(),
            0 <= s <= FP_ONE,
            0 <= t <= FP_ONE,
        ensures
            exists|p: Vec3| in_unit_disk(p) && r == self.spec_camera_ray(s as int, t as int, p),
            r.wf(),
            self.lens_radius == 0 ==> r == self.spec_camera_ray(
                s as int, t as int, Vec3 { x: 0i64, y: 0i64, z: 0i64 },
            ),
    {
        let p = random_in_unit_disk(rng);
        proof {
            lemma_mul_bound2(p.x as int, FP_ONE as int, self.lens_radius as int, FP_ONE as int);
            lemma_mul_bound2(p.y as int, FP_ONE as int, self.lens_radius as int, FP_ONE as int);
            lemma_fits_fp(p.x as int * self.lens_radius, 1, tdiv(p.x as int * self.lens_radius, FP_ONE as int));
            lemma_fits_fp(p.y as int * self.lens_radius, 1, tdiv(p.y as int * self.lens_radius, FP_ONE as int));
        }
        let rdx: i64 = div_i64(p.x * self.lens_radius, FP_ONE);
        let rdy: i64 = div_i64(p.y * self.lens_radius, FP_ONE);
        let offset = Vec3 {
            x: self.off_component(self.u.x, rdx, self.v.x, rdy),
            y: self.off_component(self.u.y, rdx, self.v.y, rdy),
            z: self.off_component(self.u.z, rdx, self.v.z, rdy),
        };
        let dir = Vec3 {
            x: self.dir_component(
                self.lower_left_corner.x, s, self.horizontal.x, t, self.vertical.x,
                self.origin.x, offset.x,
            ),
            y: self.dir_component(
                self.lower_left_corner.y, s, self.horizontal.y, t, self.vertical.y,
                self.origin.y, offset.y,
            ),
            z: self.dir_component(
                self.lower_left_corner.z, s, self.horizontal.z, t, self.vertical.z,
                self.origin.z, offset.z,
            ),
        };
        let r = Ray::from(
            Vec3 {
                x: self.origin.x + offset.x,
                y: self.origin.y + offset.y,
                z: self.origin.z + offset.z,
            },
            dir,
        );
        proof {
            assert(in_unit_disk(p) && r == self.spec_camera_ray(s as int, t as int, p));
            if self.lens_radius == 0 {
                lemma_zero_lens(p.x as int);
                lemma_zero_lens(p.y as int);
                lemma_zero_lens(0);
            }
        }
        r
    }

    /// One component of the lens offset: `u rd.x + v rd.y`.
    fn off_component(&self, uc: i64, rdx: i64, vc: i64, rdy: i64) -> (o: i64)
        requires
            -2 * FP_ONE <= uc <= 2 * FP_ONE,
            -2 * FP_ONE <= vc <= 2 * FP_ONE,
            -FP_ONE <= rdx <= FP_ONE,
            -FP_ONE <= rdy <= FP_ONE,
        ensures
            o == tdiv(uc as int * rdx, FP_ONE as int) + tdiv(vc as int * rdy, FP_ONE as int),
            -4 * FP_ONE <= o <= 4 * FP_ONE,
    {
        proof {
            lemma_mul_bound2(uc as int, 2 * FP_ONE as int, rdx as int, FP_ONE as int);
            lemma_mul_bound2(vc as int, 2 * FP_ONE as int, rdy as int, FP_ONE as int);
            assert((2 * FP_ONE as int) * FP_ONE == 2 * FP_SQ as int) by (nonlinear_arith);
            lemma_fits_fp(uc as int * rdx, 2, tdiv(uc as int * rdx, FP_ONE as int));
            lemma_fits_fp(vc as int * rdy, 2, tdiv(vc as int * rdy, FP_ONE as int));
        }
        div_i64(uc * rdx, FP_ONE) + div_i64(vc * rdy, FP_ONE)
    }

    /// One component of the ray direction.
    fn dir_component(&self, ll: i64, s: i64, h: i64, t: i64, vv: i64, og: i64, off: i64) -> (d:
        i64)
        requires
            -CAM_MAX <= ll <= CAM_MAX,
            -CAM_MAX <= h <= CAM_MAX,
            -CAM_MAX <= vv <= CAM_MAX,
            -CAM_MAX <= og <= CAM_MAX,
            -4 * FP_ONE <= off <= 4 * FP_ONE,
            0 <= s <= FP_ONE,
            0 <= t <= FP_ONE,
        ensures
            d == ll + tdiv(s as int * h, FP_ONE as int) + tdiv(t as int * vv, FP_ONE as int)
                - og - off,
            -WORLD_MAX <= d <= WORLD_MAX,
    {
        proof {
            lemma_mul_bound2(s as int, FP_ONE as int, h as int, CAM_MAX as int);
            crate::fixed::lemma_tdiv_bounds(s as int * h, FP_ONE as int);
            lemma_cam_fits(s as int * h, tdiv(s as int * h, FP_ONE as int));
            lemma_mul_bound2(t as int, FP_ONE as int, vv as int, CAM_MAX as int);
            crate::fixed::lemma_tdiv_bounds(t as int * vv, FP_ONE as int);
            lemma_cam_fits(t as int * vv, tdiv(t as int * vv, FP_ONE as int));
        }
        ll + div_i64(s * h, FP_ONE) + div_i64(t * vv, FP_ONE) - og - off
    }
}

/// A product bounded by `FP_ONE * CAM_MAX` divides by `FP_ONE` to a value
/// bounded by `CAM_MAX`.
proof fn lemma_cam_fits(n: int, q: int)
    requires
        -(FP_ONE as int * CAM_MAX) <= n <= FP_ONE as int * CAM_MAX,
        q == tdiv(n, FP_ONE as int),
    ensures
        -CAM_MAX <= q <= CAM_MAX,
{
    crate::fixed::lemma_tdiv_close(n, FP_ONE as int);
    if q > CAM_MAX {
        assert(FP_ONE as int * q >= FP_ONE as int * (CAM_MAX as int + 1)) by (nonlinear_arith)
            requires q >= CAM_MAX as int + 1;
        assert(false);
    }
    if q < -CAM_MAX {
        assert(FP_ONE as int * q <= FP_ONE as int * (-(CAM_MAX as int) - 1)) by (nonlinear_arith)
            requires q <= -(CAM_MAX as int) - 1;
        assert(false);
    }
}

/// Scaling a lens sample by a zero radius leaves no offset.
proof fn lemma_zero_lens(c: int)
    ensures
        tdiv(c * 0, FP_ONE as int) == 0,
{
    assert(c * 0 == 0) by (nonlinear_arith);
    vstd::arithmetic::div_mod::lemma_div_of0(FP_ONE as int);
}

/// A point drawn uniformly from the unit disk of the lens plane, by the
/// same bounded-counter rejection loop as the ball sampler.
pub fn random_in_unit_disk(rng: &mut StdRng) -> (p: Vec3)
    ensures
        in_unit_disk(p),
{
    let mut fuel: u64 = 0xFFFF_FFFF_FFFF_FFFF;
    while fuel > 0
        invariant
            true,
        decreases fuel,
    {
        let x: i64 = 2 * random_fp(rng) - FP_ONE;
        let y: i64 = 2 * random_fp(rng) - FP_ONE;
        let p = Vec3 { x, y, z: 0 };
        if p.dot(&p) < FP_SQ {
            return p;
        }
        fuel = fuel - 1;
    }
    Vec3 { x: 0, y: 0, z: 0 }
}

} // verus!
