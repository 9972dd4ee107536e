//! The path integrator and the per-pixel sampler.
//!
//! Radiance is bounded: with no light source but the background, every
//! channel of every traced color lies in `[0, 1]`, because the background
//! does and every bounce multiplies by an attenuation in `[0, 1]`. A ray
//! that hits nothing returns exactly the background gradient; a hit at the
//! recursion cutoff returns exactly black.

use vstd::prelude::*;
use rand::rngs::StdRng;
use crate::fixed::{FP_ONE, FP_SQ, tdiv, div_i64, isqrt_u128};
use crate::vec3::{Vec3, lemma_mul_bound2};
use crate::ray::Ray;
use crate::bvh::BVHNode;
use crate::hittable::{HitRecord, hit_of, misses_all, witness_at, is_closest_hit, lemma_closest_unique};
use crate::material::{color_ok, scatter, spec_scatter_ok, sqrt_of};
use crate::camera::{Camera, in_unit_disk};
use crate::rng::{get_rng, random_fp};

verus! {

/// The lower intersection bound: about 0.001 in fixed point, small but
/// positive, so a bounced ray does not immediately re-hit its own exit
/// point (shadow acne).
pub const T_MIN_EPS: i64 = 65;

/// The upper intersection bound for primary rays: effectively infinite.
pub const T_FAR: i64 = 0x4000_0000_0000_0000;

/// Whether anything in the scene stands on the ray within the standard
/// interval.
pub open spec fn spec_has_hit(scene: BVHNode, r: Ray) -> bool {
    !misses_all(scene.tree_objects(), r, T_MIN_EPS as int, T_FAR as int)
}

/// The background gradient: white blended toward sky blue by the vertical
/// component of the normalized direction, mapped from `[-1, 1]` to
/// `[0, 1]`. A degenerate (zero) direction gets the horizon color.
pub open spec fn spec_background(r: Ray) -> Vec3 {
    let f = FP_ONE as int;
    let t = if Vec3::spec_dot(r.direction, r.direction) == 0 {
        f / 2
    } else {
        tdiv(Vec3::spec_unit(r.direction).y + f, 2)
    };
    Vec3 {
        x: tdiv((f - t) * f + t * tdiv(f, 2), f) as i64,
        y: tdiv((f - t) * f + t * tdiv(7 * f, 10), f) as i64,
        z: tdiv((f - t) * f + t * f, f) as i64,
    }
}

/// What the integrator returns, bounce by bounce. With fuel left and a
/// closest hit, the color is the attenuation of some admissible scatter
/// outcome times a radiance of the scattered ray with one less bounce, or
/// black exactly when the material absorbed the ray; with the fuel
/// exhausted a hit yields exactly black; with no hit, exactly the
/// background. The closest hit is unique when it exists
/// (`lemma_closest_unique`), so the choice below is determined.
pub open spec fn spec_radiance_ok(scene: BVHNode, r: Ray, fuel: nat, c: Vec3) -> bool
    decreases fuel,
{
    if exists|h: HitRecord| is_closest_hit(
        scene.tree_objects(), r, T_MIN_EPS as int, T_FAR as int, Option::Some(h),
    ) {
        let h = choose|h: HitRecord| is_closest_hit(
            scene.tree_objects(), r, T_MIN_EPS as int, T_FAR as int, Option::Some(h),
        );
        if fuel == 0 {
            c == (Vec3 { x: 0i64, y: 0i64, z: 0i64 })
        } else {
            exists|sc: Option<(Ray, Vec3)>|
                spec_scatter_ok(h.material, r, h, sc) && match sc {
                    Option::Some(rc) => exists|c2: Vec3|
                        color_ok(c2) && spec_radiance_ok(scene, rc.0, (fuel - 1) as nat, c2)
                            && c == spec_mul_color(rc.1, c2),
                    Option::None => c == (Vec3 { x: 0i64, y: 0i64, z: 0i64 }),
                }
        }
    } else {
        c == spec_background(r)
    }
}

/// The bounce budget left at a given recursion depth.
pub open spec fn spec_fuel(depth: int, max_depth: int) -> nat {
    if depth < max_depth {
        (max_depth - depth) as nat
    } else {
        0
    }
}

/// Componentwise product of two colors.
pub open spec fn spec_mul_color(a: Vec3, b: Vec3) -> Vec3 {
    Vec3 {
        x: tdiv(a.x * b.x, FP_ONE as int) as i64,
        y: tdiv(a.y * b.y, FP_ONE as int) as i64,
        z: tdiv(a.z * b.z, FP_ONE as int) as i64,
    }
}

fn mul_color(a: &Vec3, b: &Vec3) -> (c: Vec3)
    requires
        color_ok(*a),
        color_ok(*b),
    ensures
        c == spec_mul_color(*a, *b),
        color_ok(c),
{
    proof {
        lemma_channel_mul(a.x as int, b.x as int);
        lemma_channel_mul(a.y as int, b.y as int);
        lemma_channel_mul(a.z as int, b.z as int);
    }
    Vec3 {
        x: div_i64(a.x * b.x, FP_ONE),
        y: div_i64(a.y * b.y, FP_ONE),
        z: div_i64(a.z * b.z, FP_ONE),
    }
}

proof fn lemma_channel_mul(a: int, b: int)
    requires
        0 <= a <= FP_ONE,
        0 <= b <= FP_ONE,
    ensures
        0 <= a * b <= FP_SQ,
        0 <= tdiv(a * b, FP_ONE as int) <= FP_ONE,
{
    assert(0 <= a * b <= FP_SQ as int) by (nonlinear_arith)
        requires 0 <= a <= FP_ONE && 0 <= b <= FP_ONE;
    crate::fixed::lemma_tdiv_bounds(a * b, FP_ONE as int);
    crate::fixed::lemma_tdiv_mono(a * b, FP_SQ as int, FP_ONE as int);
    assert(FP_ONE as int * FP_ONE == FP_SQ as int) by (nonlinear_arith);
    vstd::arithmetic::div_mod::lemma_div_multiples_vanish(FP_ONE as int, FP_ONE as int);
}

/// The background color of a ray, computed exactly.
fn background(ray: &Ray) -> (c: Vec3)
    requires
        ray.wf(),
    ensures
        c == spec_background(*ray),
        color_ok(c),
{
    let d = ray.direction();
    let qa: i64 = d.dot(&d);
    let t: i64 = if qa == 0 {
        32768
    } else {
        proof {
            assert(qa >= 1) by (nonlinear_arith)
                requires
                    qa == d.x as int * d.x + d.y as int * d.y + d.z as int * d.z,
                    qa != 0;
        }
        let unit = d.unit();
        proof {
            crate::fixed::lemma_tdiv_bounds(unit.y + FP_ONE, 2);
            crate::fixed::lemma_tdiv_mono(unit.y + FP_ONE, 2 * FP_ONE as int, 2);
            vstd::arithmetic::div_mod::lemma_div_multiples_vanish(FP_ONE as int, 2);
        }
        div_i64(unit.y + FP_ONE, 2)
    };
    proof {
        assert(FP_ONE as int / 2 == 32768);
        assert(tdiv(7 * FP_ONE as int, 10) == 45875);
        lemma_bg_channel(t as int, 32768);
        lemma_bg_channel(t as int, 45875);
        lemma_bg_channel(t as int, FP_ONE as int);
        lemma_mul_bound2(t as int, FP_ONE as int, FP_ONE as int, FP_ONE as int);
    }
    Vec3 {
        x: div_i64((FP_ONE - t) * FP_ONE + t * 32768, FP_ONE),
        y: div_i64((FP_ONE - t) * FP_ONE + t * 45875, FP_ONE),
        z: div_i64((FP_ONE - t) * FP_ONE + t * FP_ONE, FP_ONE),
    }
}

/// A blend of two channels in `[0, 1]` stays in `[0, 1]`.
proof fn lemma_bg_channel(t: int, sky: int)
    requires
        0 <= t <= FP_ONE,
        0 <= sky <= FP_ONE,
    ensures
        0 <= (FP_ONE as int - t) * FP_ONE + t * sky <= FP_SQ + FP_SQ,
        0 <= tdiv((FP_ONE as int - t) * FP_ONE + t * sky, FP_ONE as int) <= FP_ONE,
{
    assert(0 <= (FP_ONE as int - t) * FP_ONE && (FP_ONE as int - t) * FP_ONE
        <= FP_SQ as int - t * FP_ONE) by (nonlinear_arith)
        requires 0 <= t <= FP_ONE;
    assert(0 <= t * sky <= t * FP_ONE) by (nonlinear_arith)
        requires 0 <= t && 0 <= sky <= FP_ONE;
    let n = (FP_ONE as int - t) * FP_ONE + t * sky;
    assert(0 <= n <= FP_SQ as int);
    crate::fixed::lemma_tdiv_bounds(n, FP_ONE as int);
    crate::fixed::lemma_tdiv_mono(n, FP_SQ as int, FP_ONE as int);
    assert(FP_ONE as int * FP_ONE == FP_SQ as int) by (nonlinear_arith);
    vstd::arithmetic::div_mod::lemma_div_multiples_vanish(FP_ONE as int, FP_ONE as int);
}

/// The radiance carried back along a ray: the closest hit is queried, the
/// material scatters (or absorbs), and the scattered radiance is
/// attenuated; past the depth cutoff a hit contributes nothing; a miss
/// yields the background.
pub fn ray_color(ray: &Ray, scene: &BVHNode, depth: usize, max_depth: usize, rng: &mut StdRng)
    -> (c: Vec3)
    requires
        scene.wf_tree(),
        ray.wf(),
    ensures
        color_ok(c),
        !spec_has_hit(*scene, *ray) ==> c == spec_background(*ray),
        spec_has_hit(*scene, *ray) && depth >= max_depth ==> c == (Vec3 {
            x: 0i64,
            y: 0i64,
            z: 0i64,
        }),
        scene.tree_objects().len() == 0 ==> c == spec_background(*ray),
        spec_radiance_ok(*scene, *ray, spec_fuel(depth as int, max_depth as int), c),
    decreases max_depth - depth,
{
    let ghost objs = scene.tree_objects();
    let ghost fuel = spec_fuel(depth as int, max_depth as int);
    let res = scene.hit(ray, T_MIN_EPS, T_FAR);
    match res {
        Option::Some(h) => {
            proof {
                let k = choose|k: int|
                    witness_at(objs, *ray, T_MIN_EPS as int, T_FAR as int, h, k);
                assert(witness_at(objs, *ray, T_MIN_EPS as int, T_FAR as int, h, k));
                assert(!(hit_of(objs, k, *ray, T_MIN_EPS as int, T_FAR as int) is None));
                scene.lemma_wf_objs();
                assert(objs[k].wf());
                objs[k].lemma_hit_props(*ray, T_MIN_EPS as int, T_FAR as int);
                lemma_chosen_hit(*scene, *ray, h);
            }
            if depth < max_depth {
                match scatter(&h.material, ray, &h, rng) {
                    Option::Some(sc) => {
                        let rec = ray_color(&sc.0, scene, depth + 1, max_depth, rng);
                        let c = mul_color(&sc.1, &rec);
                        proof {
                            assert(spec_fuel(depth as int + 1, max_depth as int)
                                == (fuel - 1) as nat);
                            assert(spec_scatter_ok(h.material, *ray, h, Option::Some(sc)));
                            assert(color_ok(rec) && spec_radiance_ok(
                                *scene, sc.0, (fuel - 1) as nat, rec,
                            ) && c == spec_mul_color(sc.1, rec));
                            assert(spec_radiance_ok(*scene, *ray, fuel, c));
                        }
                        c
                    },
                    Option::None => {
                        proof {
                            assert(spec_scatter_ok(
                                h.material, *ray, h, Option::<(Ray, Vec3)>::None,
                            ));
                            assert(spec_radiance_ok(
                                *scene, *ray, fuel, Vec3 { x: 0i64, y: 0i64, z: 0i64 },
                            ));
                        }
                        Vec3 { x: 0, y: 0, z: 0 }
                    },
                }
            } else {
                proof {
                    assert(fuel == 0);
                    assert(spec_radiance_ok(
                        *scene, *ray, fuel, Vec3 { x: 0i64, y: 0i64, z: 0i64 },
                    ));
                }
                Vec3 { x: 0, y: 0, z: 0 }
            }
        },
        Option::None => {
            proof {
                if objs.len() == 0 {
                    assert(misses_all(objs, *ray, T_MIN_EPS as int, T_FAR as int));
                }
                assert forall|g: HitRecord| !is_closest_hit(
                    objs, *ray, T_MIN_EPS as int, T_FAR as int, Option::Some(g),
                ) by {
                    if is_closest_hit(objs, *ray, T_MIN_EPS as int, T_FAR as int,
                        Option::Some(g)) {
                        lemma_closest_unique(
                            objs, *ray, T_MIN_EPS as int, T_FAR as int,
                            Option::None, Option::Some(g),
                        );
                    }
                }
            }
            background(ray)
        },
    }
}

/// The hit the traversal returns is the one the radiance predicate's
/// choice denotes.
proof fn lemma_chosen_hit(scene: BVHNode, r: Ray, h: HitRecord)
    requires
        is_closest_hit(scene.tree_objects(), r, T_MIN_EPS as int, T_FAR as int, Option::Some(h)),
    ensures
        exists|g: HitRecord| is_closest_hit(
            scene.tree_objects(), r, T_MIN_EPS as int, T_FAR as int, Option::Some(g),
        ),
        (choose|g: HitRecord| is_closest_hit(
            scene.tree_objects(), r, T_MIN_EPS as int, T_FAR as int, Option::Some(g),
        )) == h,
{
    assert(exists|g: HitRecord| is_closest_hit(
        scene.tree_objects(), r, T_MIN_EPS as int, T_FAR as int, Option::Some(g),
    ));
    let g = choose|g: HitRecord| is_closest_hit(
        scene.tree_objects(), r, T_MIN_EPS as int, T_FAR as int, Option::Some(g),
    );
    lemma_closest_unique(
        scene.tree_objects(), r, T_MIN_EPS as int, T_FAR as int, Option::Some(g),
        Option::Some(h),
    );
}

/// Quantize one accumulated channel: average over the sample count, apply
/// the gamma-2 square root, clamp to `[0, 1]` and scale to a byte by
/// `255.99 * value`, truncated.
pub open spec fn spec_quantize(c: int, ns: int) -> int {
    let avg = tdiv(c, ns);
    let g = sqrt_of(avg * FP_ONE);
    let clamped = if g > FP_ONE as int { FP_ONE as int } else { g };
    tdiv(clamped * 25599, 100 * FP_ONE as int)
}

pub fn quantize(c: i64, ns: i64) -> (q: u8)
    requires
        1 <= ns <= 0x10_0000,
        0 <= c <= ns * FP_ONE,
    ensures
        q == spec_quantize(c as int, ns as int),
{
    let avg: i64 = div_i64(c, ns);
    proof {
        crate::fixed::lemma_tdiv_bounds(c as int, ns as int);
        crate::fixed::lemma_tdiv_mono(c as int, ns as int * FP_ONE, ns as int);
        assert(ns as int * FP_ONE == FP_ONE as int * ns) by (nonlinear_arith);
        vstd::arithmetic::div_mod::lemma_div_multiples_vanish(FP_ONE as int, ns as int);
    }
    let g128: u128 = isqrt_u128((avg as u128) * (FP_ONE as u128));
    proof {
        crate::vec3::lemma_isqrt_unique(
            avg as int * FP_ONE, g128 as int, sqrt_of(avg as int * FP_ONE),
        );
        assert((avg as int) * FP_ONE <= FP_SQ as int) by (nonlinear_arith)
            requires avg <= FP_ONE;
        crate::fixed::lemma_isqrt_below_square(
            avg as int * FP_ONE, g128 as int, FP_ONE as int + 1,
        );
    }
    let g: i64 = g128 as i64;
    let clamped: i64 = if g > FP_ONE { FP_ONE } else { g };
    proof {
        lemma_mul_bound2(clamped as int, FP_ONE as int, 25599, 25599);
        crate::fixed::lemma_tdiv_bounds(clamped as int * 25599, 100 * FP_ONE as int);
        crate::fixed::lemma_tdiv_mono(
            clamped as int * 25599, FP_ONE as int * 25599, 100 * FP_ONE as int,
        );
        assert(clamped as int * 25599 <= FP_ONE as int * 25599) by (nonlinear_arith)
            requires clamped <= FP_ONE;
        assert(tdiv(FP_ONE as int * 25599, 100 * FP_ONE as int) == 255);
    }
    div_i64(clamped * 25599, 100 * FP_ONE) as u8
}

/// The sum of one channel over a sequence of sample colors.
pub open spec fn spec_sum_axis(s: Seq<Vec3>, a: int) -> int
    decreases s.len(),
{
    if s.len() == 0 {
        0
    } else {
        spec_sum_axis(s.drop_last(), a) + s.last().spec_axis(a)
    }
}

/// One admissible sample at pixel `(x, y)`: some jitter pair and lens
/// sample whose camera ray carries this radiance.
pub open spec fn spec_sample_ok(
    scene: BVHNode, cam: Camera, x: int, y: int, nx: int, ny: int, fuel: nat, col: Vec3,
) -> bool {
    exists|jx: i64, jy: i64, p: Vec3|
        0 <= jx < FP_ONE && 0 <= jy < FP_ONE && in_unit_disk(p) && #[trigger] spec_radiance_ok(
            scene,
            cam.spec_camera_ray(tdiv(x * FP_ONE + jx, nx), tdiv(y * FP_ONE + jy, ny), p),
            fuel,
            col,
        )
}

/// A rendered pixel: `ns` admissible samples, each a color in `[0, 1]`,
/// whose per-channel sums quantize to the returned bytes. With an empty
/// scene each sample is exactly the background of its jittered ray.
pub open spec fn spec_pixel_ok(
    scene: BVHNode, cam: Camera, x: int, y: int, nx: int, ny: int, ns: int, fuel: nat,
    rgb: (u8, u8, u8),
) -> bool {
    exists|samples: Seq<Vec3>|
        {
            &&& samples.len() == ns
            &&& forall|k: int|
                0 <= k < ns ==> color_ok(#[trigger] samples[k]) && spec_sample_ok(
                    scene, cam, x, y, nx, ny, fuel, samples[k],
                )
            &&& rgb.0 == spec_quantize(spec_sum_axis(samples, 0), ns)
            &&& rgb.1 == spec_quantize(spec_sum_axis(samples, 1), ns)
            &&& rgb.2 == spec_quantize(spec_sum_axis(samples, 2), ns)
        }
}

/// Render one pixel: `ns` jittered samples through the camera, averaged,
/// gamma corrected and quantized per channel.
pub fn render_pixel(
    scene: &BVHNode, cam: &Camera, x: usize, y: usize, nx: usize, ny: usize, ns: usize,
    max_depth: usize, rng: &mut StdRng,
) -> (rgb: (u8, u8, u8))
    requires
        scene.wf_tree(),
        cam.wf(),
        x < nx,
        y < ny,
        1 <= ns <= 1024,
        nx <= 0x10000,
        ny <= 0x10000,
    ensures
        spec_pixel_ok(
            *scene, *cam, x as int, y as int, nx as int, ny as int, ns as int,
            spec_fuel(0, max_depth as int), rgb,
        ),
{
    let ghost fuel = spec_fuel(0, max_depth as int);
    let ghost mut samples: Seq<Vec3> = Seq::empty();
    let mut cr: i64 = 0;
    let mut cg: i64 = 0;
    let mut cb: i64 = 0;
    let mut s: usize = 0;
    while s < ns
        invariant
            0 <= s <= ns,
            ns <= 1024,
            x < nx <= 0x10000,
            y < ny <= 0x10000,
            scene.wf_tree(),
            cam.wf(),
            fuel == spec_fuel(0, max_depth as int),
            samples.len() == s,
            forall|k: int|
                0 <= k < s ==> color_ok(#[trigger] samples[k]) && spec_sample_ok(
                    *scene, *cam, x as int, y as int, nx as int, ny as int, fuel, samples[k],
                ),
            cr == spec_sum_axis(samples, 0),
            cg == spec_sum_axis(samples, 1),
            cb == spec_sum_axis(samples, 2),
            0 <= cr <= s * FP_ONE,
            0 <= cg <= s * FP_ONE,
            0 <= cb <= s * FP_ONE,
        decreases ns - s,
    {
        let jx: i64 = random_fp(rng);
        let jy: i64 = random_fp(rng);
        let u: i64 = div_i64((x as i64) * FP_ONE + jx, nx as i64);
        let v: i64 = div_i64((y as i64) * FP_ONE + jy, ny as i64);
        proof {
            lemma_screen_coord(x as int, jx as int, nx as int);
            lemma_screen_coord(y as int, jy as int, ny as int);
        }
        let ray = cam.camera_ray(u, v, rng);
        let col = ray_color(&ray, scene, 0, max_depth, rng);
        proof {
            let p = choose|p: Vec3|
                in_unit_disk(p) && ray == cam.spec_camera_ray(u as int, v as int, p);
            assert(spec_sample_ok(
                *scene, *cam, x as int, y as int, nx as int, ny as int, fuel, col,
            )) by {
                assert(0 <= jx < FP_ONE && 0 <= jy < FP_ONE && in_unit_disk(p)
                    && spec_radiance_ok(*scene, cam.spec_camera_ray(u as int, v as int, p),
                        fuel, col));
            }
            assert(samples.push(col).drop_last() =~= samples);
            assert(forall|k: int| 0 <= k < s ==> samples.push(col)[k] == samples[k]);
            assert(samples.push(col)[s as int] == col);
        }
        proof {
            samples = samples.push(col);
        }
        cr = cr + col.x;
        cg = cg + col.y;
        cb = cb + col.z;
        s = s + 1;
    }
    (quantize(cr, ns as i64), quantize(cg, ns as i64), quantize(cb, ns as i64))
}

/// A jittered screen coordinate lies in `[0, 1]`.
proof fn lemma_screen_coord(x: int, j: int, nx: int)
    requires
        0 <= x < nx,
        0 <= j < FP_ONE,
        nx >= 1,
    ensures
        0 <= tdiv(x * FP_ONE + j, nx) <= FP_ONE,
{
    assert(x * FP_ONE + j <= nx * FP_ONE) by (nonlinear_arith)
        requires x < nx && j < FP_ONE;
    assert(0 <= x * FP_ONE + j) by (nonlinear_arith)
        requires 0 <= x && 0 <= j;
    crate::fixed::lemma_tdiv_bounds(x * FP_ONE + j, nx);
    crate::fixed::lemma_tdiv_mono(x * FP_ONE + j, nx * FP_ONE, nx);
    assert(nx * FP_ONE == FP_ONE as int * nx) by (nonlinear_arith);
    vstd::arithmetic::div_mod::lemma_div_multiples_vanish(FP_ONE as int, nx);
}

/// Render one scanline, left to right: three bytes per pixel, each pixel
/// meeting the per-pixel sampling specification.
pub fn render_row(
    scene: &BVHNode, cam: &Camera, y: usize, nx: usize, ny: usize, ns: usize, max_depth: usize,
    rng: &mut StdRng,
) -> (row: Vec<u8>)
    requires
        scene.wf_tree(),
        cam.wf(),
        y < ny,
        1 <= ns <= 1024,
        nx <= 0x10000,
        ny <= 0x10000,
    ensures
        row@.len() == 3 * nx,
        forall|px: int| 0 <= px < nx ==> #[trigger] spec_pixel_ok(
            *scene, *cam, px, y as int, nx as int, ny as int, ns as int,
            spec_fuel(0, max_depth as int),
            (row@[3 * px], row@[3 * px + 1], row@[3 * px + 2]),
        ),
{
    let ghost fuel = spec_fuel(0, max_depth as int);
    let mut row: Vec<u8> = Vec::new();
    let mut x: usize = 0;
    while x < nx
        invariant
            0 <= x <= nx,
            scene.wf_tree(),
            cam.wf(),
            y < ny,
            1 <= ns <= 1024,
            nx <= 0x10000,
            ny <= 0x10000,
            fuel == spec_fuel(0, max_depth as int),
            row@.len() == 3 * x,
            forall|px: int| 0 <= px < x ==> #[trigger] spec_pixel_ok(
                *scene, *cam, px, y as int, nx as int, ny as int, ns as int, fuel,
                (row@[3 * px], row@[3 * px + 1], row@[3 * px + 2]),
            ),
        decreases nx - x,
    {
        let (r, g, b) = render_pixel(scene, cam, x, y, nx, ny, ns, max_depth, rng);
        row.push(r);
        row.push(g);
        row.push(b);
        x = x + 1;
    }
    row
}

/// Render the whole image, top scanline first, each row with a fresh
/// generator from the given seed (or from entropy when none is given);
/// every pixel meets the per-pixel sampling specification for its
/// scanline.
pub fn render_image(
    scene: &BVHNode, cam: &Camera, nx: usize, ny: usize, ns: usize, max_depth: usize,
    seed: Option<u64>,
) -> (image: Vec<u8>)
    requires
        scene.wf_tree(),
        cam.wf(),
        1 <= ns <= 1024,
        1 <= nx <= 0x1000,
        1 <= ny <= 0x1000,
    ensures
        image@.len() == 3 * nx * ny,
        forall|r: int, px: int| 0 <= r < ny && 0 <= px < nx ==> #[trigger] spec_pixel_ok(
            *scene, *cam, px, ny - 1 - r, nx as int, ny as int, ns as int,
            spec_fuel(0, max_depth as int),
            (
                image@[3 * nx * r + 3 * px],
                image@[3 * nx * r + 3 * px + 1],
                image@[3 * nx * r + 3 * px + 2],
            ),
        ),
{
    let ghost fuel = spec_fuel(0, max_depth as int);
    let mut image: Vec<u8> = Vec::new();
    let mut done: usize = 0;
    while done < ny
        invariant
            0 <= done <= ny,
            scene.wf_tree(),
            cam.wf(),
            1 <= ns <= 1024,
            1 <= nx <= 0x1000,
            1 <= ny <= 0x1000,
            fuel == spec_fuel(0, max_depth as int),
            image@.len() == 3 * nx * done,
            forall|r: int, px: int| 0 <= r < done && 0 <= px < nx ==> #[trigger] spec_pixel_ok(
                *scene, *cam, px, ny - 1 - r, nx as int, ny as int, ns as int, fuel,
                (
                    image@[3 * nx * r + 3 * px],
                    image@[3 * nx * r + 3 * px + 1],
                    image@[3 * nx * r + 3 * px + 2],
                ),
            ),
        decreases ny - done,
    {
        let ghost before = image@;
        let y = ny - 1 - done;
        let mut rng = get_rng(seed);
        let mut row = render_row(scene, cam, y, nx, ny, ns, max_depth, &mut rng);
        let ghost rowv = row@;
        image.append(&mut row);
        proof {
            assert(3 * nx as int * (done + 1) == 3 * nx as int * done + 3 * nx)
                by (nonlinear_arith);
            assert forall|r: int, px: int| 0 <= r < done + 1 && 0 <= px < nx implies
                #[trigger] spec_pixel_ok(
                    *scene, *cam, px, ny - 1 - r, nx as int, ny as int, ns as int, fuel,
                    (
                        image@[3 * nx * r + 3 * px],
                        image@[3 * nx * r + 3 * px + 1],
                        image@[3 * nx * r + 3 * px + 2],
                    ),
                ) by {
                assert(3 * nx as int * r + 3 * px + 2 < 3 * nx as int * (r + 1))
                    by (nonlinear_arith)
                    requires px < nx as int;
                assert(r < done ==> 3 * nx as int * (r + 1) <= 3 * nx as int * done)
                    by (nonlinear_arith);
                if r < done {
                    assert(image@[3 * nx * r + 3 * px] == before[3 * nx * r + 3 * px]);
                    assert(image@[3 * nx * r + 3 * px + 1] == before[3 * nx * r + 3 * px + 1]);
                    assert(image@[3 * nx * r + 3 * px + 2] == before[3 * nx * r + 3 * px + 2]);
                } else {
                    assert(image@[3 * nx * r + 3 * px] == rowv[3 * px]);
                    assert(image@[3 * nx * r + 3 * px + 1] == rowv[3 * px + 1]);
                    assert(image@[3 * nx * r + 3 * px + 2] == rowv[3 * px + 2]);
                }
            }
        }
        done = done + 1;
    }
    image
}

} // verus!
