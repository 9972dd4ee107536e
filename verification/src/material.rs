//! Materials and scattering: diffuse, metal and dielectric, as a closed
//! tagged union dispatched by one match per operation.
//!
//! The deterministic parts (reflection, refraction, the Schlick
//! reflectance) carry exact contracts. The random parts draw from the
//! generator and are specified by what holds of every possible draw: the
//! result equals the deterministic scatter formula applied to *some* point
//! of the unit ball, or *some* uniform draw.

use vstd::prelude::*;
use rand::rngs::StdRng;
use crate::fixed::{FP_ONE, FP_SQ, FP_CUBE, WORLD_MAX, tdiv, is_isqrt, div_i64, isqrt_u128};
use crate::vec3::{Vec3, lemma_mul_bound2};
use crate::ray::Ray;
use crate::hittable::HitRecord;
use crate::rng::random_fp;

verus! {

/// A diffuse surface: scatters always, in a randomized direction about
/// the normal, attenuated by its albedo.
#[derive(Clone, Copy, Debug, PartialEq, Eq, Structural)]
pub struct Lambertian {
    pub albedo: Vec3,
}

/// A reflective surface: mirrors the incoming direction, optionally fuzzed,
/// and absorbs rays that would reflect into the surface.
#[derive(Clone, Copy, Debug, PartialEq, Eq, Structural)]
pub struct Metal {
    pub albedo: Vec3,
    pub fuzz: i64,
}

/// A clear refractive surface (glass): refracts or reflects, never colors.
#[derive(Clone, Copy, Debug, PartialEq, Eq, Structural)]
pub struct Dielectric {
    pub ref_idx: i64,
}

/// The closed set of materials.
#[derive(Clone, Copy, Debug, PartialEq, Eq, Structural)]
pub enum Material {
    Lambertian(Lambertian),
    Metal(Metal),
    Dielectric(Dielectric),
}

/// A color with all channels in `[0, 1]`.
pub open spec fn color_ok(c: Vec3) -> bool {
    &&& 0 <= c.x <= FP_ONE
    &&& 0 <= c.y <= FP_ONE
    &&& 0 <= c.z <= FP_ONE
}

/// A point strictly inside the unit ball.
pub open spec fn in_unit_ball(p: Vec3) -> bool {
    &&& p.bounded(FP_ONE as int)
    &&& Vec3::spec_dot(p, p) < FP_SQ
}

impl Lambertian {
    pub open spec fn wf(self) -> bool {
        color_ok(self.albedo)
    }

    pub fn from(albedo: Vec3) -> (m: Lambertian)
        ensures
            m.albedo == albedo,
    {
        Lambertian { albedo }
    }
}

impl Metal {
    pub open spec fn wf(self) -> bool {
        &&& color_ok(self.albedo)
        &&& 0 <= self.fuzz <= FP_ONE
    }

    /// The fuzz factor is clamped to at most one.
    pub fn from(albedo: Vec3, fuzz: i64) -> (m: Metal)
        ensures
            m.albedo == albedo,
            m.fuzz == if fuzz < FP_ONE { fuzz } else { FP_ONE },
    {
        Metal { albedo, fuzz: if fuzz < FP_ONE { fuzz } else { FP_ONE } }
    }
}

impl Dielectric {
    /// Refractive indices bounded so the arithmetic stays in range; both
    /// dense-into-thin and thin-into-dense media are admitted.
    pub open spec fn wf(self) -> bool {
        FP_ONE / 16 <= self.ref_idx <= 16 * FP_ONE
    }

    pub fn from(ref_idx: i64) -> (m: Dielectric)
        ensures
            m.ref_idx == ref_idx,
    {
        Dielectric { ref_idx }
    }
}

impl Material {
    pub open spec fn wf(self) -> bool {
        match self {
            Material::Lambertian(m) => m.wf(),
            Material::Metal(m) => m.wf(),
            Material::Dielectric(m) => m.wf(),
        }
    }
}

/// The mirror reflection `v - 2 (v . n) n`, with the dot product carrying
/// two fixed-point scales.
pub open spec fn spec_reflect(v: Vec3, n: Vec3) -> Vec3 {
    Vec3 {
        x: (v.x - tdiv(2 * Vec3::spec_dot(v, n) * n.x, FP_SQ as int)) as i64,
        y: (v.y - tdiv(2 * Vec3::spec_dot(v, n) * n.y, FP_SQ as int)) as i64,
        z: (v.z - tdiv(2 * Vec3::spec_dot(v, n) * n.z, FP_SQ as int)) as i64,
    }
}

pub fn reflect(v: &Vec3, n: &Vec3) -> (r: Vec3)
    requires
        v.bounded(4 * FP_ONE as int),
        n.bounded(2 * FP_ONE as int),
    ensures
        r == spec_reflect(*v, *n),
        r.bounded(400 * FP_ONE as int),
{
    let d: i64 = v.dot(n);
    proof {
        crate::vec3::lemma_dot_bound(*v, *n, 4 * FP_ONE as int, 2 * FP_ONE as int);
        assert(3 * ((4 * FP_ONE as int) * (2 * FP_ONE as int)) == 24 * FP_SQ as int)
            by (nonlinear_arith);
        lemma_mul_bound2(2 * d, 48 * FP_SQ as int, n.x as int, 2 * FP_ONE as int);
        lemma_mul_bound2(2 * d, 48 * FP_SQ as int, n.y as int, 2 * FP_ONE as int);
        lemma_mul_bound2(2 * d, 48 * FP_SQ as int, n.z as int, 2 * FP_ONE as int);
        crate::fixed::lemma_tdiv_bounds(2 * d * n.x, FP_SQ as int);
        crate::fixed::lemma_tdiv_bounds(2 * d * n.y, FP_SQ as int);
        crate::fixed::lemma_tdiv_bounds(2 * d * n.z, FP_SQ as int);
        lemma_tdiv_96(2 * d * n.x);
        lemma_tdiv_96(2 * d * n.y);
        lemma_tdiv_96(2 * d * n.z);
    }
    let qx: i64 = div_i64(2 * d * n.x, FP_SQ);
    let qy: i64 = div_i64(2 * d * n.y, FP_SQ);
    let qz: i64 = div_i64(2 * d * n.z, FP_SQ);
    Vec3 { x: v.x - qx, y: v.y - qy, z: v.z - qz }
}

/// A value at most `96 FP^3` in magnitude divides down to at most `96 FP`.
proof fn lemma_tdiv_96(n: int)
    requires
        -96 * (FP_CUBE as int) <= n <= 96 * (FP_CUBE as int),
    ensures
        -96 * FP_ONE as int <= tdiv(n, FP_SQ as int) <= 96 * FP_ONE as int,
{
    crate::fixed::lemma_tdiv_close(n, FP_SQ as int);
    let q = tdiv(n, FP_SQ as int);
    if q > 96 * FP_ONE as int {
        assert((FP_SQ as int) * q > (FP_SQ as int) * (96 * FP_ONE as int))
            by (nonlinear_arith)
            requires q > 96 * FP_ONE as int;
        assert(false);
    }
    if q < -96 * FP_ONE as int {
        assert((FP_SQ as int) * q < (FP_SQ as int) * (-96 * FP_ONE as int))
            by (nonlinear_arith)
            requires q < -96 * FP_ONE as int;
        assert(false);
    }
}

/// The law of reflection, exact up to truncation: for an exactly unit
/// normal, the reflected direction makes the opposite angle with the
/// normal that the incoming direction does, within `3/FP_ONE` of a unit
/// (the dot products carry two fixed-point scales).
pub proof fn lemma_reflection_law(v: Vec3, n: Vec3)
    requires
        v.bounded(4 * FP_ONE as int),
        n.bounded(2 * FP_ONE as int),
        Vec3::spec_dot(n, n) == FP_SQ,
    ensures
        -3 * FP_ONE as int
            <= Vec3::spec_dot(spec_reflect(v, n), n) + Vec3::spec_dot(v, n)
            <= 3 * FP_ONE as int,
{
    let s = FP_SQ as int;
    let d = Vec3::spec_dot(v, n);
    let qx = tdiv(2 * d * n.x, s);
    let qy = tdiv(2 * d * n.y, s);
    let qz = tdiv(2 * d * n.z, s);
    let ex = 2 * d * n.x - s * qx;
    let ey = 2 * d * n.y - s * qy;
    let ez = 2 * d * n.z - s * qz;
    crate::fixed::lemma_tdiv_close(2 * d * n.x, s);
    crate::fixed::lemma_tdiv_close(2 * d * n.y, s);
    crate::fixed::lemma_tdiv_close(2 * d * n.z, s);
    assert(-s < ex < s);
    assert(-s < ey < s);
    assert(-s < ez < s);
    assert(n.x * n.x + n.y * n.y + n.z * n.z == s);
    assert(n.x * n.x <= s && n.y * n.y <= s && n.z * n.z <= s) by (nonlinear_arith)
        requires n.x * n.x + n.y * n.y + n.z * n.z == s;
    assert(-FP_ONE <= n.x <= FP_ONE && -FP_ONE <= n.y <= FP_ONE && -FP_ONE <= n.z <= FP_ONE)
        by (nonlinear_arith)
        requires
            n.x * n.x <= FP_SQ as int && n.y * n.y <= FP_SQ as int
            && n.z * n.z <= FP_SQ as int;
    crate::vec3::lemma_dot_bound(v, n, 4 * FP_ONE as int, 2 * FP_ONE as int);
    assert(3 * ((4 * FP_ONE as int) * (2 * FP_ONE as int)) == 24 * FP_SQ as int)
        by (nonlinear_arith);
    lemma_mul_bound2(2 * d, 48 * FP_SQ as int, n.x as int, 2 * FP_ONE as int);
    lemma_mul_bound2(2 * d, 48 * FP_SQ as int, n.y as int, 2 * FP_ONE as int);
    lemma_mul_bound2(2 * d, 48 * FP_SQ as int, n.z as int, 2 * FP_ONE as int);
    lemma_tdiv_96(2 * d * n.x);
    lemma_tdiv_96(2 * d * n.y);
    lemma_tdiv_96(2 * d * n.z);
    let w = Vec3::spec_dot(spec_reflect(v, n), n);
    assert(w == (v.x - qx) * n.x + (v.y - qy) * n.y + (v.z - qz) * n.z);
    assert(s * ((v.x - qx) * n.x) == s * (v.x * n.x) - (2 * d * n.x) * n.x + ex * n.x)
        by (nonlinear_arith)
        requires ex == 2 * d * n.x - s * qx;
    assert(s * ((v.y - qy) * n.y) == s * (v.y * n.y) - (2 * d * n.y) * n.y + ey * n.y)
        by (nonlinear_arith)
        requires ey == 2 * d * n.y - s * qy;
    assert(s * ((v.z - qz) * n.z) == s * (v.z * n.z) - (2 * d * n.z) * n.z + ez * n.z)
        by (nonlinear_arith)
        requires ez == 2 * d * n.z - s * qz;
    assert((2 * d * n.x) * n.x + (2 * d * n.y) * n.y + (2 * d * n.z) * n.z == 2 * d * s)
        by (nonlinear_arith)
        requires n.x * n.x + n.y * n.y + n.z * n.z == s;
    assert(s * (w + d) == ex * n.x + ey * n.y + ez * n.z);
    lemma_mul_bound2(ex, s, n.x as int, FP_ONE as int);
    lemma_mul_bound2(ey, s, n.y as int, FP_ONE as int);
    lemma_mul_bound2(ez, s, n.z as int, FP_ONE as int);
    assert(-3 * (s * FP_ONE as int) <= s * (w + d) <= 3 * (s * FP_ONE as int));
    assert(-3 * FP_ONE as int <= w + d <= 3 * FP_ONE as int) by (nonlinear_arith)
        requires
            -3 * (s * FP_ONE as int) <= s * (w + d) <= 3 * (s * FP_ONE as int),
            s == FP_SQ as int;
}

/// Refraction by Snell's law: `eta (uv - n dt) - n sqrt(disc)` over the
/// normalized incoming direction, or nothing under total internal
/// reflection (`disc <= 0`).
pub open spec fn spec_refract(v: Vec3, n: Vec3, ni_over_nt: int) -> Option<Vec3> {
    let f = FP_ONE as int;
    let uv = Vec3::spec_unit(v);
    let dt = tdiv(Vec3::spec_dot(uv, n), f);
    let disc = f - tdiv(tdiv(ni_over_nt * ni_over_nt, f) * (f - tdiv(dt * dt, f)), f);
    if disc > 0 {
        let sq = sqrt_of(disc * f);
        Option::Some(
            Vec3 {
                x: (tdiv(ni_over_nt * (uv.x - tdiv(n.x * dt, f)), f) - tdiv(n.x * sq, f)) as i64,
                y: (tdiv(ni_over_nt * (uv.y - tdiv(n.y * dt, f)), f) - tdiv(n.y * sq, f)) as i64,
                z: (tdiv(ni_over_nt * (uv.z - tdiv(n.z * dt, f)), f) - tdiv(n.z * sq, f)) as i64,
            },
        )
    } else {
        Option::None
    }
}

/// The floor square root, as a mathematical function.
pub open spec fn sqrt_of(n: int) -> int {
    choose|r: int| is_isqrt(n, r)
}

pub fn refract(v: &Vec3, n: &Vec3, ni_over_nt: i64) -> (res: Option<Vec3>)
    requires
        v.bounded(WORLD_MAX as int),
        Vec3::spec_dot(*v, *v) >= 1,
        n.bounded(FP_ONE as int),
        FP_ONE / 16 <= ni_over_nt <= 16 * FP_ONE,
    ensures
        res == spec_refract(*v, *n, ni_over_nt as int),
        match res {
            Option::Some(r) => r.bounded(128 * FP_ONE as int),
            Option::None => true,
        },
{
    let uv = v.unit();
    let dtn: i64 = uv.dot(n);
    proof {
        crate::vec3::lemma_dot_bound(uv, *n, FP_ONE as int, FP_ONE as int);
        assert(3 * (FP_ONE as int * FP_ONE) == 3 * FP_SQ as int) by (nonlinear_arith);
    }
    let dt: i64 = div_i64(dtn, FP_ONE);
    proof {
        crate::fixed::lemma_tdiv_bounds(dtn as int, FP_ONE as int);
        lemma_fits_fp(dtn as int, 3, dt as int);
        assert(dt as int * dt >= 0) by (nonlinear_arith);
        lemma_mul_bound2(dt as int, 3 * FP_ONE as int, dt as int, 3 * FP_ONE as int);
        assert((3 * FP_ONE as int) * (3 * FP_ONE as int) == 9 * FP_SQ as int) by (nonlinear_arith);
        crate::fixed::lemma_tdiv_bounds(dt as int * dt, FP_ONE as int);
        lemma_fits_fp(dt as int * dt, 9, tdiv(dt as int * dt, FP_ONE as int));
        lemma_mul_bound2(ni_over_nt as int, 16 * FP_ONE as int, ni_over_nt as int, 16 * FP_ONE as int);
        assert((16 * FP_ONE as int) * (16 * FP_ONE as int) == 256 * FP_SQ as int)
            by (nonlinear_arith);
        assert(ni_over_nt as int * ni_over_nt >= 0) by (nonlinear_arith);
        crate::fixed::lemma_tdiv_bounds(ni_over_nt as int * ni_over_nt, FP_ONE as int);
        lemma_fits_fp(ni_over_nt as int * ni_over_nt, 256, tdiv(ni_over_nt as int * ni_over_nt, FP_ONE as int));
    }
    let dt2: i64 = div_i64(dt * dt, FP_ONE);
    let eta2: i64 = div_i64(ni_over_nt * ni_over_nt, FP_ONE);
    proof {
        lemma_mul_bound2(eta2 as int, 256 * FP_ONE as int, (FP_ONE - dt2) as int, 10 * FP_ONE as int);
        assert((256 * FP_ONE as int) * (10 * FP_ONE as int) == 2560 * FP_SQ as int)
            by (nonlinear_arith);
        crate::fixed::lemma_tdiv_bounds(eta2 as int * (FP_ONE - dt2), FP_ONE as int);
        lemma_fits_fp(eta2 as int * (FP_ONE - dt2), 2560, tdiv(eta2 as int * (FP_ONE - dt2), FP_ONE as int));
        assert(0 <= dt2) by {
            assert(dt as int * dt >= 0) by (nonlinear_arith);
            crate::fixed::lemma_tdiv_bounds(dt as int * dt, FP_ONE as int);
        }
    }
    let disc: i64 = FP_ONE - div_i64(eta2 * (FP_ONE - dt2), FP_ONE);
    if disc > 0 {
        let sq128: u128 = isqrt_u128((disc as u128) * (FP_ONE as u128));
        proof {
            crate::vec3::lemma_isqrt_unique(
                disc as int * FP_ONE, sq128 as int, sqrt_of(disc as int * FP_ONE),
            );
            assert(disc as int * FP_ONE < (60 * FP_ONE as int) * (60 * FP_ONE as int))
                by (nonlinear_arith)
                requires disc <= 2561 * FP_ONE as int && disc > 0;
            crate::fixed::lemma_isqrt_below_square(
                disc as int * FP_ONE, sq128 as int, 60 * FP_ONE as int,
            );
        }
        let sq: i64 = sq128 as i64;
        let rx = refract_component(uv.x, n.x, dt, ni_over_nt, sq);
        let ry = refract_component(uv.y, n.y, dt, ni_over_nt, sq);
        let rz = refract_component(uv.z, n.z, dt, ni_over_nt, sq);
        Option::Some(Vec3 { x: rx, y: ry, z: rz })
    } else {
        Option::None
    }
}

/// One component of the refracted direction.
fn refract_component(uvc: i64, nc: i64, dt: i64, ni_over_nt: i64, sq: i64) -> (r: i64)
    requires
        -FP_ONE <= uvc <= FP_ONE,
        -FP_ONE <= nc <= FP_ONE,
        -3 * FP_ONE <= dt <= 3 * FP_ONE,
        FP_ONE / 16 <= ni_over_nt <= 16 * FP_ONE,
        0 <= sq <= 60 * FP_ONE,
    ensures
        r == tdiv(ni_over_nt as int * (uvc - tdiv(nc as int * dt, FP_ONE as int)), FP_ONE as int)
            - tdiv(nc as int * sq, FP_ONE as int),
        -124 * FP_ONE <= r <= 124 * FP_ONE,
{
    proof {
        lemma_mul_bound2(nc as int, FP_ONE as int, dt as int, 3 * FP_ONE as int);
        assert(FP_ONE as int * (3 * FP_ONE as int) == 3 * FP_SQ as int) by (nonlinear_arith);
        crate::fixed::lemma_tdiv_bounds(nc as int * dt, FP_ONE as int);
        lemma_fits_fp(nc as int * dt, 3, tdiv(nc as int * dt, FP_ONE as int));
    }
    let inner: i64 = uvc - div_i64(nc * dt, FP_ONE);
    proof {
        lemma_mul_bound2(ni_over_nt as int, 16 * FP_ONE as int, inner as int, 4 * FP_ONE as int);
        assert((16 * FP_ONE as int) * (4 * FP_ONE as int) == 64 * FP_SQ as int)
            by (nonlinear_arith);
        crate::fixed::lemma_tdiv_bounds(ni_over_nt as int * inner, FP_ONE as int);
        lemma_fits_fp(ni_over_nt as int * inner, 64, tdiv(ni_over_nt as int * inner, FP_ONE as int));
        lemma_mul_bound2(nc as int, FP_ONE as int, sq as int, 60 * FP_ONE as int);
        assert(FP_ONE as int * (60 * FP_ONE as int) == 60 * FP_SQ as int) by (nonlinear_arith);
        crate::fixed::lemma_tdiv_bounds(nc as int * sq, FP_ONE as int);
        lemma_fits_fp(nc as int * sq, 60, tdiv(nc as int * sq, FP_ONE as int));
    }
    div_i64(ni_over_nt * inner, FP_ONE) - div_i64(nc * sq, FP_ONE)
}

/// A value of magnitude at most `k FP^2` divides by `FP` to magnitude at
/// most `k FP`.
pub proof fn lemma_fits_fp(n: int, k: int, q: int)
    requires
        k >= 0,
        -k * FP_SQ as int <= n <= k * FP_SQ as int,
        q == tdiv(n, FP_ONE as int),
    ensures
        -k * FP_ONE as int <= q <= k * FP_ONE as int,
{
    crate::fixed::lemma_tdiv_close(n, FP_ONE as int);
    if q > k * FP_ONE as int {
        assert(FP_ONE as int * q >= FP_ONE as int * (k * FP_ONE as int + 1)) by (nonlinear_arith)
            requires q >= k * FP_ONE as int + 1;
        assert(FP_ONE as int * (k * FP_ONE as int + 1) > k * FP_SQ as int)
            by (nonlinear_arith)
            requires k >= 0;
        assert(false);
    }
    if q < -k * FP_ONE as int {
        assert(FP_ONE as int * q <= FP_ONE as int * (-(k * FP_ONE as int) - 1)) by (nonlinear_arith)
            requires q <= -(k * FP_ONE as int) - 1;
        assert(FP_ONE as int * (-(k * FP_ONE as int) - 1) < -(k * FP_SQ as int))
            by (nonlinear_arith)
            requires k >= 0;
        assert(false);
    }
}

/// The base reflectance at normal incidence: `((1 - n)/(1 + n))^2`,
/// computed on the magnitude `n - 1` (the square makes the sign moot).
pub open spec fn spec_r0(ref_idx: int) -> int {
    let f = FP_ONE as int;
    let ratio = tdiv((ref_idx - f) * f, f + ref_idx);
    tdiv(ratio * ratio, f)
}

/// The Schlick reflectance approximation `r0 + (1 - r0)(1 - cos)^5`.
pub open spec fn spec_schlick(cosine: int, ref_idx: int) -> int {
    let f = FP_ONE as int;
    let r0 = spec_r0(ref_idx);
    let q = f - cosine;
    let q2 = tdiv(q * q, f);
    let q4 = tdiv(q2 * q2, f);
    let q5 = tdiv(q4 * q, f);
    r0 + tdiv((f - r0) * q5, f)
}

pub fn schlick(cosine: i64, ref_idx: i64) -> (r: i64)
    requires
        -48 * FP_ONE <= cosine <= 48 * FP_ONE,
        FP_ONE / 16 <= ref_idx <= 16 * FP_ONE,
    ensures
        r == spec_schlick(cosine as int, ref_idx as int),
        0 <= cosine <= FP_ONE ==> spec_r0(ref_idx as int) <= r <= FP_ONE,
        cosine == 0 ==> r == FP_ONE,
        cosine == FP_ONE ==> r == spec_r0(ref_idx as int),
{
    let mag: i64 = ref_idx - FP_ONE;
    let den: i64 = FP_ONE + ref_idx;
    proof {
        lemma_mul_bound2(mag as int, 15 * FP_ONE as int, FP_ONE as int, FP_ONE as int);
        assert(-(FP_ONE as int * den) < mag as int * FP_ONE
            && mag as int * FP_ONE < FP_ONE as int * den) by (nonlinear_arith)
            requires -den < mag && mag < den && FP_ONE > 0;
        assert(FP_ONE as int * den == den as int * FP_ONE) by (nonlinear_arith);
        lemma_ratio_below_signed(mag as int * FP_ONE, den as int, FP_ONE as int);
        crate::fixed::lemma_tdiv_bounds(mag as int * FP_ONE, den as int);
    }
    let ratio: i64 = div_i64(mag * FP_ONE, den);
    proof {
        lemma_mul_bound2(ratio as int, FP_ONE as int, ratio as int, FP_ONE as int);
        assert(ratio as int * ratio < FP_ONE as int * FP_ONE) by (nonlinear_arith)
            requires -FP_ONE < ratio < FP_ONE;
        assert(ratio as int * ratio >= 0) by (nonlinear_arith);
        lemma_ratio_below(ratio as int * ratio, FP_ONE as int, FP_ONE as int);
        crate::fixed::lemma_tdiv_bounds(ratio as int * ratio, FP_ONE as int);
    }
    let r0: i64 = div_i64(ratio * ratio, FP_ONE);
    let q: i64 = FP_ONE - cosine;
    proof {
        lemma_mul_bound2(q as int, 49 * FP_ONE as int, q as int, 49 * FP_ONE as int);
        assert((49 * FP_ONE as int) * (49 * FP_ONE as int) == 2401 * FP_SQ as int)
            by (nonlinear_arith);
        crate::fixed::lemma_tdiv_bounds(q as int * q, FP_ONE as int);
        lemma_fits_fp(q as int * q, 2401, tdiv(q as int * q, FP_ONE as int));
    }
    let q2: i64 = div_i64(q * q, FP_ONE);
    proof {
        lemma_mul_bound2(q2 as int, 2401 * FP_ONE as int, q2 as int, 2401 * FP_ONE as int);
        assert((2401 * FP_ONE as int) * (2401 * FP_ONE as int) == 5764801 * FP_SQ as int)
            by (nonlinear_arith);
        crate::fixed::lemma_tdiv_bounds(q2 as int * q2, FP_ONE as int);
        lemma_fits_fp(q2 as int * q2, 5764801, tdiv(q2 as int * q2, FP_ONE as int));
    }
    let q4: i64 = div_i64(q2 * q2, FP_ONE);
    proof {
        lemma_mul_bound2(q4 as int, 5764801 * FP_ONE as int, q as int, 49 * FP_ONE as int);
        assert((5764801 * FP_ONE as int) * (49 * FP_ONE as int) == 282475249 * FP_SQ as int)
            by (nonlinear_arith);
        crate::fixed::lemma_tdiv_bounds(q4 as int * q, FP_ONE as int);
        lemma_fits_fp(q4 as int * q, 282475249, tdiv(q4 as int * q, FP_ONE as int));
    }
    let q5: i64 = div_i64(q4 * q, FP_ONE);
    proof {
        lemma_mul_bound2((FP_ONE - r0) as int, FP_ONE as int, q5 as int, 282475249 * FP_ONE as int);
        assert(FP_ONE as int * (282475249 * FP_ONE as int) == 282475249 * FP_SQ as int)
            by (nonlinear_arith);
        crate::fixed::lemma_tdiv_bounds((FP_ONE - r0) as int * q5, FP_ONE as int);
        lemma_fits_fp((FP_ONE - r0) as int * q5, 282475249, tdiv((FP_ONE - r0) as int * q5, FP_ONE as int));
        if 0 <= cosine <= FP_ONE {
            lemma_pow5_range(q as int, q2 as int, q4 as int, q5 as int);
            lemma_tail_range(r0 as int, q5 as int);
        }
        if cosine == 0 {
            assert(q as int * q == FP_SQ as int) by (nonlinear_arith)
                requires q == FP_ONE;
            assert(q4 as int * q == q4 as int * FP_ONE);
            lemma_pow5_of_one(q2 as int, q4 as int, q5 as int);
            assert((FP_ONE - r0) as int * q5 == FP_ONE as int * (FP_ONE as int - r0))
                by (nonlinear_arith)
                requires q5 == FP_ONE;
            vstd::arithmetic::div_mod::lemma_div_multiples_vanish(
                FP_ONE as int - r0, FP_ONE as int,
            );
        }
        if cosine == FP_ONE {
            assert(q as int * q == 0) by (nonlinear_arith)
                requires q == 0;
            assert(tdiv(0, FP_ONE as int) == 0) by {
                vstd::arithmetic::div_mod::lemma_div_of0(FP_ONE as int);
            }
            assert(q2 == 0);
            assert(q2 as int * q2 == 0) by (nonlinear_arith)
                requires q2 == 0;
            assert(q4 == 0);
            assert(q4 as int * q == 0) by (nonlinear_arith)
                requires q4 == 0;
            assert(q5 == 0);
            assert((FP_ONE - r0) as int * q5 == 0) by (nonlinear_arith)
                requires q5 == 0;
        }
    }
    r0 + div_i64((FP_ONE - r0) * q5, FP_ONE)
}

/// The base reflectance lies in `[0, 1)`.
pub proof fn lemma_r0_range(ref_idx: int)
    requires
        FP_ONE as int / 16 <= ref_idx <= 16 * FP_ONE,
    ensures
        0 <= spec_r0(ref_idx) < FP_ONE,
{
    let f = FP_ONE as int;
    let mag = ref_idx - f;
    let den = f + ref_idx;
    assert(-(f * den) < mag * f && mag * f < f * den) by (nonlinear_arith)
        requires -den < mag && mag < den && f > 0;
    assert(f * den == den * f) by (nonlinear_arith);
    lemma_ratio_below_signed(mag * f, den, f);
    let ratio = tdiv(mag * f, den);
    assert(ratio * ratio < f * f) by (nonlinear_arith)
        requires -f < ratio < f;
    assert(ratio * ratio >= 0) by (nonlinear_arith);
    lemma_ratio_below(ratio * ratio, f, f);
}

/// The Schlick reflectance never increases as the incidence cosine grows
/// on `[0, 1]`: the factor `(1 - cos)^5` shrinks and its coefficient
/// `1 - r0` is non-negative. (Truncating arithmetic flattens the curve in
/// places, so the descent is not everywhere strict.)
pub proof fn lemma_schlick_antitone(c1: int, c2: int, ref_idx: int)
    requires
        0 <= c1 <= c2 <= FP_ONE,
        FP_ONE as int / 16 <= ref_idx <= 16 * FP_ONE,
    ensures
        spec_schlick(c2, ref_idx) <= spec_schlick(c1, ref_idx),
{
    lemma_r0_range(ref_idx);
    let f = FP_ONE as int;
    let r0 = spec_r0(ref_idx);
    let qa = f - c1;
    let qb = f - c2;
    let qa2 = tdiv(qa * qa, f);
    let qb2 = tdiv(qb * qb, f);
    let qa4 = tdiv(qa2 * qa2, f);
    let qb4 = tdiv(qb2 * qb2, f);
    let qa5 = tdiv(qa4 * qa, f);
    let qb5 = tdiv(qb4 * qb, f);
    lemma_pow5_range(qa, qa2, qa4, qa5);
    lemma_pow5_range(qb, qb2, qb4, qb5);
    assert(qb * qb <= qa * qa) by (nonlinear_arith)
        requires 0 <= qb <= qa;
    crate::fixed::lemma_tdiv_mono(qb * qb, qa * qa, f);
    assert(qb2 * qb2 <= qa2 * qa2) by (nonlinear_arith)
        requires 0 <= qb2 <= qa2;
    crate::fixed::lemma_tdiv_mono(qb2 * qb2, qa2 * qa2, f);
    assert(qb4 * qb <= qa4 * qa) by (nonlinear_arith)
        requires 0 <= qb4 <= qa4 && 0 <= qb <= qa;
    crate::fixed::lemma_tdiv_mono(qb4 * qb, qa4 * qa, f);
    assert((f - r0) * qb5 <= (f - r0) * qa5) by (nonlinear_arith)
        requires r0 <= f && 0 <= qb5 <= qa5;
    crate::fixed::lemma_tdiv_mono((f - r0) * qb5, (f - r0) * qa5, f);
}

/// `|n| < c d` gives `|n / d| < c`.
proof fn lemma_ratio_below_signed(n: int, d: int, c: int)
    requires
        d > 0,
        c > 0,
        -(c * d) < n < c * d,
    ensures
        -c < tdiv(n, d) < c,
{
    if n >= 0 {
        lemma_ratio_below(n, d, c);
    } else {
        lemma_ratio_below(-n, d, c);
    }
}

/// `0 <= n < c d` gives `n / d < c`.
proof fn lemma_ratio_below(n: int, d: int, c: int)
    requires
        0 <= n,
        d > 0,
        c > 0,
        n < c * d,
    ensures
        0 <= tdiv(n, d) < c,
{
    crate::fixed::lemma_tdiv_close(n, d);
    crate::fixed::lemma_tdiv_bounds(n, d);
    if tdiv(n, d) >= c {
        assert(d * tdiv(n, d) >= d * c) by (nonlinear_arith)
            requires d > 0 && tdiv(n, d) >= c;
        assert(d * c == c * d) by (nonlinear_arith);
        assert(false);
    }
}

/// For `q` in `[0, 1]`, every power stays in `[0, 1]`.
proof fn lemma_pow5_range(q: int, q2: int, q4: int, q5: int)
    requires
        0 <= q <= FP_ONE,
        q2 == tdiv(q * q, FP_ONE as int),
        q4 == tdiv(q2 * q2, FP_ONE as int),
        q5 == tdiv(q4 * q, FP_ONE as int),
    ensures
        0 <= q2 <= FP_ONE,
        0 <= q4 <= FP_ONE,
        0 <= q5 <= FP_ONE,
{
    assert(0 <= q * q <= FP_SQ as int) by (nonlinear_arith)
        requires 0 <= q <= FP_ONE;
    lemma_le_one(q * q, q2);
    assert(0 <= q2 * q2 <= FP_SQ as int) by (nonlinear_arith)
        requires 0 <= q2 <= FP_ONE;
    lemma_le_one(q2 * q2, q4);
    assert(0 <= q4 * q <= FP_SQ as int) by (nonlinear_arith)
        requires 0 <= q4 <= FP_ONE && 0 <= q <= FP_ONE;
    lemma_le_one(q4 * q, q5);
}

proof fn lemma_le_one(n: int, q: int)
    requires
        0 <= n <= FP_SQ as int,
        q == tdiv(n, FP_ONE as int),
    ensures
        0 <= q <= FP_ONE,
{
    crate::fixed::lemma_tdiv_bounds(n, FP_ONE as int);
    crate::fixed::lemma_tdiv_mono(n, FP_SQ as int, FP_ONE as int);
    assert(FP_ONE as int * FP_ONE == FP_SQ as int) by (nonlinear_arith);
    vstd::arithmetic::div_mod::lemma_div_multiples_vanish(FP_ONE as int, FP_ONE as int);
}

proof fn lemma_tail_range(r0: int, q5: int)
    requires
        0 <= r0 < FP_ONE,
        0 <= q5 <= FP_ONE,
    ensures
        0 <= tdiv((FP_ONE as int - r0) * q5, FP_ONE as int) <= FP_ONE as int - r0,
{
    assert(0 <= (FP_ONE as int - r0) * q5 <= (FP_ONE as int - r0) * FP_ONE) by (nonlinear_arith)
        requires 0 <= FP_ONE as int - r0 && 0 <= q5 <= FP_ONE;
    crate::fixed::lemma_tdiv_bounds((FP_ONE as int - r0) * q5, FP_ONE as int);
    crate::fixed::lemma_tdiv_mono(
        (FP_ONE as int - r0) * q5, (FP_ONE as int - r0) * FP_ONE, FP_ONE as int,
    );
    assert((FP_ONE as int - r0) * FP_ONE == FP_ONE as int * (FP_ONE as int - r0))
        by (nonlinear_arith);
    vstd::arithmetic::div_mod::lemma_div_multiples_vanish(FP_ONE as int - r0, FP_ONE as int);
}

proof fn lemma_pow5_of_one(q2: int, q4: int, q5: int)
    requires
        q2 == tdiv(FP_SQ as int, FP_ONE as int),
        q4 == tdiv(q2 * q2, FP_ONE as int),
        q5 == tdiv(q4 * FP_ONE, FP_ONE as int),
    ensures
        q5 == FP_ONE,
{
    assert(FP_ONE as int * FP_ONE == FP_SQ as int) by (nonlinear_arith);
    vstd::arithmetic::div_mod::lemma_div_multiples_vanish(FP_ONE as int, FP_ONE as int);
    assert(q2 == FP_ONE);
    assert(q4 == FP_ONE);
    assert(q4 * FP_ONE == FP_SQ as int) by (nonlinear_arith)
        requires q4 == FP_ONE;
    assert(q5 == FP_ONE);
}

/// A point drawn uniformly from the unit ball by rejection sampling:
/// candidates are drawn from the enclosing cube until one lands strictly
/// inside the ball. The loop carries a counter only so its termination is
/// checkable; the count is astronomically beyond any realistic number of
/// rejections, and the ball's center stands in for the draw if it were
/// ever exhausted.
pub fn random_in_unit_sphere(rng: &mut StdRng) -> (p: Vec3)
    ensures
        in_unit_ball(p),
{
    let mut fuel: u64 = 0xFFFF_FFFF_FFFF_FFFF;
    while fuel > 0
        invariant
            true,
        decreases fuel,
    {
        let x: i64 = 2 * random_fp(rng) - FP_ONE;
        let y: i64 = 2 * random_fp(rng) - FP_ONE;
        let z: i64 = 2 * random_fp(rng) - FP_ONE;
        let p = Vec3 { x, y, z };
        if p.dot(&p) < FP_SQ {
            return p;
        }
        fuel = fuel - 1;
    }
    Vec3 { x: 0, y: 0, z: 0 }
}

/// The diffuse scatter ray for a given ball sample: from the hit point
/// toward `normal + sample`.
pub open spec fn spec_lambertian_ray(hit: HitRecord, p: Vec3) -> Ray {
    Ray {
        origin: hit.position,
        direction: Vec3 {
            x: (hit.normal.x + p.x) as i64,
            y: (hit.normal.y + p.y) as i64,
            z: (hit.normal.z + p.z) as i64,
        },
    }
}

/// The metal scatter outcome for a given ball sample: the fuzzed mirror
/// reflection, absorbed when it points into the surface.
pub open spec fn spec_metal_scatter(m: Metal, r: Ray, hit: HitRecord, p: Vec3) -> Option<
    (Ray, Vec3),
> {
    let refl0 = spec_reflect(Vec3::spec_unit(r.direction), hit.normal);
    let fz = Vec3::spec_scale(p, m.fuzz as int);
    let refl = if m.fuzz > 0 {
        Vec3 {
            x: (refl0.x + fz.x) as i64,
            y: (refl0.y + fz.y) as i64,
            z: (refl0.z + fz.z) as i64,
        }
    } else {
        refl0
    };
    if Vec3::spec_dot(refl, hit.normal) > 0 {
        Option::Some((Ray { origin: hit.position, direction: refl }, m.albedo))
    } else {
        Option::None
    }
}

/// The dielectric scatter outcome for a given uniform draw `u`: refract
/// by Snell's law when possible and the draw clears the Schlick
/// reflectance, reflect otherwise; the attenuation is always white.
pub open spec fn spec_dielectric_scatter(m: Dielectric, r: Ray, hit: HitRecord, u: i64) -> Option<
    (Ray, Vec3),
> {
    let f = FP_ONE as int;
    let white = Vec3 { x: FP_ONE, y: FP_ONE, z: FP_ONE };
    let uv = Vec3::spec_unit(r.direction);
    let cosu = tdiv(Vec3::spec_dot(uv, hit.normal), f) as i64;
    let ddn = Vec3::spec_dot(r.direction, hit.normal);
    let outward = if ddn > 0 {
        Vec3 {
            x: (-hit.normal.x) as i64,
            y: (-hit.normal.y) as i64,
            z: (-hit.normal.z) as i64,
        }
    } else {
        hit.normal
    };
    let ni_over_nt = if ddn > 0 { m.ref_idx as int } else { tdiv(FP_SQ as int, m.ref_idx as int) };
    let cosine = if ddn > 0 { tdiv(m.ref_idx as int * cosu, f) as i64 } else { (-cosu) as i64 };
    match spec_refract(r.direction, outward, ni_over_nt) {
        Option::Some(refr) => {
            if u >= spec_schlick(cosine as int, m.ref_idx as int) {
                Option::Some((Ray { origin: hit.position, direction: refr }, white))
            } else {
                Option::Some(
                    (
                        Ray {
                            origin: hit.position,
                            direction: spec_reflect(uv, hit.normal),
                        },
                        white,
                    ),
                )
            }
        },
        Option::None => Option::Some(
            (Ray { origin: hit.position, direction: spec_reflect(uv, hit.normal) }, white),
        ),
    }
}

/// What scatter promises for every outcome of the random draws: the
/// result is the deterministic scatter formula at *some* admissible draw.
pub open spec fn spec_scatter_ok(
    mat: Material, r: Ray, hit: HitRecord, res: Option<(Ray, Vec3)>,
) -> bool {
    match mat {
        Material::Lambertian(m) => exists|p: Vec3| in_unit_ball(p) && res == Option::Some(
            (spec_lambertian_ray(hit, p), m.albedo),
        ),
        Material::Metal(m) => exists|p: Vec3| in_unit_ball(p) && res == spec_metal_scatter(
            m, r, hit, p,
        ),
        Material::Dielectric(m) => exists|u: i64| 0 <= u < FP_ONE && res
            == spec_dielectric_scatter(m, r, hit, u),
    }
}

/// Scatter an incoming ray at a hit. Diffuse always scatters; metal may
/// absorb; dielectric always scatters and never colors. Any scattered
/// attenuation has channels in `[0, 1]`, and the scattered ray starts at
/// the hit point with a world-sized direction.
pub fn scatter(mat: &Material, ray: &Ray, hit: &HitRecord, rng: &mut StdRng) -> (res: Option<
    (Ray, Vec3),
>)
    requires
        mat.wf(),
        ray.wf(),
        hit.wf(),
        Vec3::spec_dot(ray.direction, ray.direction) >= 1,
    ensures
        spec_scatter_ok(*mat, *ray, *hit, res),
        match res {
            Option::Some(sc) => sc.0.wf() && color_ok(sc.1) && sc.0.origin == hit.position,
            Option::None => true,
        },
{
    match mat {
        Material::Lambertian(m) => {
            let p = random_in_unit_sphere(rng);
            let dir = Vec3 {
                x: hit.normal.x + p.x,
                y: hit.normal.y + p.y,
                z: hit.normal.z + p.z,
            };
            let res = Option::Some((Ray::from(hit.position, dir), m.albedo));
            proof {
                assert(in_unit_ball(p) && res == Option::Some(
                    (spec_lambertian_ray(*hit, p), m.albedo),
                ));
            }
            res
        },
        Material::Metal(m) => {
            let p = if m.fuzz > 0 {
                random_in_unit_sphere(rng)
            } else {
                Vec3 { x: 0, y: 0, z: 0 }
            };
            let uv = ray.direction().unit();
            let refl0 = reflect(&uv, &hit.normal);
            let refl = if m.fuzz > 0 {
                proof {
                    lemma_mul_bound2(p.x as int, FP_ONE as int, m.fuzz as int, FP_ONE as int);
                    lemma_mul_bound2(p.y as int, FP_ONE as int, m.fuzz as int, FP_ONE as int);
                    lemma_mul_bound2(p.z as int, FP_ONE as int, m.fuzz as int, FP_ONE as int);
                    lemma_fits_fp(p.x as int * m.fuzz, 1, tdiv(p.x as int * m.fuzz, FP_ONE as int));
                    lemma_fits_fp(p.y as int * m.fuzz, 1, tdiv(p.y as int * m.fuzz, FP_ONE as int));
                    lemma_fits_fp(p.z as int * m.fuzz, 1, tdiv(p.z as int * m.fuzz, FP_ONE as int));
                }
                let fz = p.scale(m.fuzz);
                Vec3 { x: refl0.x + fz.x, y: refl0.y + fz.y, z: refl0.z + fz.z }
            } else {
                refl0
            };
            let res = if refl.dot(&hit.normal) > 0 {
                Option::Some((Ray::from(hit.position, refl), m.albedo))
            } else {
                Option::None
            };
            proof {
                if m.fuzz <= 0 {
                    assert(Vec3::spec_dot(p, p) == 0) by (nonlinear_arith)
                        requires p == (Vec3 { x: 0i64, y: 0i64, z: 0i64 });
                }
                assert(in_unit_ball(p) && res == spec_metal_scatter(*m, *ray, *hit, p));
            }
            res
        },
        Material::Dielectric(m) => {
            let white = Vec3 { x: FP_ONE, y: FP_ONE, z: FP_ONE };
            let uv = ray.direction().unit();
            let dtn: i64 = uv.dot(&hit.normal);
            proof {
                crate::vec3::lemma_dot_bound(uv, hit.normal, FP_ONE as int, FP_ONE as int);
                assert(3 * (FP_ONE as int * FP_ONE) == 3 * FP_SQ as int) by (nonlinear_arith);
            }
            let cosu: i64 = div_i64(dtn, FP_ONE);
            proof {
                crate::fixed::lemma_tdiv_bounds(dtn as int, FP_ONE as int);
                lemma_fits_fp(dtn as int, 3, cosu as int);
            }
            let ddn: i64 = ray.direction().dot(&hit.normal);
            let outward: Vec3 = if ddn > 0 { hit.normal.neg_v() } else { hit.normal };
            let ni_over_nt: i64 = if ddn > 0 {
                m.ref_idx
            } else {
                proof {
                    crate::fixed::lemma_tdiv_bounds(FP_SQ as int, m.ref_idx as int);
                    lemma_eta_low(m.ref_idx as int);
                }
                div_i64(FP_SQ, m.ref_idx)
            };
            let cosine: i64 = if ddn > 0 {
                proof {
                    lemma_mul_bound2(m.ref_idx as int, 16 * FP_ONE as int, cosu as int, 3 * FP_ONE as int);
                    assert((16 * FP_ONE as int) * (3 * FP_ONE as int) == 48 * FP_SQ as int)
                        by (nonlinear_arith);
                    crate::fixed::lemma_tdiv_bounds(m.ref_idx as int * cosu, FP_ONE as int);
                    lemma_fits_fp(
                        m.ref_idx as int * cosu, 48, tdiv(m.ref_idx as int * cosu, FP_ONE as int),
                    );
                }
                div_i64(m.ref_idx * cosu, FP_ONE)
            } else {
                -cosu
            };
            let refr = refract(&ray.direction(), &outward, ni_over_nt);
            match refr {
                Option::Some(refracted) => {
                    let prob = schlick(cosine, m.ref_idx);
                    let u = random_fp(rng);
                    let res = if u >= prob {
                        Option::Some((Ray::from(hit.position, refracted), white))
                    } else {
                        let reflected = reflect(&uv, &hit.normal);
                        Option::Some((Ray::from(hit.position, reflected), white))
                    };
                    proof {
                        assert(0 <= u < FP_ONE && res == spec_dielectric_scatter(
                            *m, *ray, *hit, u,
                        ));
                    }
                    res
                },
                Option::None => {
                    let reflected = reflect(&uv, &hit.normal);
                    let res = Option::Some((Ray::from(hit.position, reflected), white));
                    proof {
                        assert(0 <= 0i64 < FP_ONE && res == spec_dielectric_scatter(
                            *m, *ray, *hit, 0i64,
                        ));
                    }
                    res
                },
            }
        },
    }
}

/// Inverting an index within a sixteen-fold of one keeps the ratio there
/// too.
proof fn lemma_eta_low(ref_idx: int)
    requires
        FP_ONE as int / 16 <= ref_idx <= 16 * FP_ONE,
    ensures
        FP_ONE as int / 16 <= tdiv(FP_SQ as int, ref_idx) <= 16 * FP_ONE,
{
    vstd::arithmetic::div_mod::lemma_div_is_ordered_by_denominator(
        FP_SQ as int, FP_ONE as int / 16, ref_idx,
    );
    assert(FP_SQ as int / (FP_ONE as int / 16) == 16 * FP_ONE as int) by (nonlinear_arith);
    vstd::arithmetic::div_mod::lemma_div_is_ordered_by_denominator(
        FP_SQ as int, ref_idx, 16 * FP_ONE as int,
    );
    assert(FP_SQ as int / (16 * FP_ONE as int) == FP_ONE as int / 16) by (nonlinear_arith);
}

} // verus!
