//! Hit records, and closest-hit queries over lists of objects.
//!
//! `is_closest_hit` is the specification every intersection query meets:
//! the result is the hit of least distance among the objects, the earliest
//! object winning ties. The linear scan here establishes it directly; the
//! BVH traversal establishes the same predicate over its own objects, so
//! the two agree wherever the object collections agree.

use vstd::prelude::*;
use crate::fixed::{FP_ONE, WORLD_MAX};
use crate::vec3::Vec3;
use crate::ray::Ray;
use crate::material::Material;
use crate::sphere::Sphere;

verus! {

/// The outcome of one ray/object intersection: distance along the ray,
/// world position, unit surface normal, and the struck material.
#[derive(Clone, Copy, Debug, PartialEq, Eq, Structural)]
pub struct HitRecord {
    pub distance: i64,
    pub position: Vec3,
    pub normal: Vec3,
    pub material: Material,
}

impl HitRecord {
    /// What every record produced by an intersection satisfies: the point
    /// lies in world coordinates and the normal is unit-sized.
    pub open spec fn wf(self) -> bool {
        &&& self.position.bounded(WORLD_MAX as int)
        &&& self.normal.bounded(FP_ONE as int)
        &&& self.material.wf()
    }
}

/// Every object in the sequence is well-formed.
pub open spec fn wf_objs(objs: Seq<Sphere>) -> bool {
    forall|j: int| 0 <= j < objs.len() ==> (#[trigger] objs[j]).wf()
}

/// The hit of object `j` against the ray over `(t0, t1)`.
pub open spec fn hit_of(objs: Seq<Sphere>, j: int, r: Ray, t0: int, t1: int) -> Option<
    HitRecord,
> {
    objs[j].spec_hit(r, t0, t1)
}

/// No object is hit.
pub open spec fn misses_all(objs: Seq<Sphere>, r: Ray, t0: int, t1: int) -> bool {
    forall|j: int| 0 <= j < objs.len() ==> (#[trigger] hit_of(objs, j, r, t0, t1)) is None
}

/// No object beats the record `h`.
pub open spec fn beats_all(objs: Seq<Sphere>, r: Ray, t0: int, t1: int, h: HitRecord) -> bool {
    forall|j: int|
        0 <= j < objs.len() ==> match #[trigger] hit_of(objs, j, r, t0, t1) {
            Option::Some(g) => g.distance >= h.distance,
            Option::None => true,
        }
}

/// Object `k` produces `h`, and every earlier object is either missed or
/// strictly farther: `k` is the first object achieving the least distance.
pub open spec fn witness_at(
    objs: Seq<Sphere>, r: Ray, t0: int, t1: int, h: HitRecord, k: int,
) -> bool {
    &&& 0 <= k < objs.len()
    &&& hit_of(objs, k, r, t0, t1) == Option::Some(h)
    &&& forall|j: int|
        0 <= j < k ==> match #[trigger] hit_of(objs, j, r, t0, t1) {
            Option::Some(g) => g.distance > h.distance,
            Option::None => true,
        }
}

/// The closest-hit specification: `res` is the hit with the least distance
/// over `(t0, t1)`, the earliest object winning ties, or nothing when
/// every object is missed.
pub open spec fn is_closest_hit(
    objs: Seq<Sphere>, r: Ray, t0: int, t1: int, res: Option<HitRecord>,
) -> bool {
    match res {
        Option::None => misses_all(objs, r, t0, t1),
        Option::Some(h) => {
            &&& beats_all(objs, r, t0, t1, h)
            &&& exists|k: int| #[trigger] witness_at(objs, r, t0, t1, h, k)
        },
    }
}

/// The closest hit is determined: any two results satisfying the
/// specification over the same objects are equal.
pub proof fn lemma_closest_unique(
    objs: Seq<Sphere>, r: Ray, t0: int, t1: int, r1: Option<HitRecord>, r2: Option<HitRecord>,
)
    requires
        is_closest_hit(objs, r, t0, t1, r1),
        is_closest_hit(objs, r, t0, t1, r2),
    ensures
        r1 == r2,
{
    match (r1, r2) {
        (Option::None, Option::None) => {},
        (Option::None, Option::Some(h2)) => {
            let k2 = choose|k: int| witness_at(objs, r, t0, t1, h2, k);
            assert(hit_of(objs, k2, r, t0, t1) is None);
        },
        (Option::Some(h1), Option::None) => {
            let k1 = choose|k: int| witness_at(objs, r, t0, t1, h1, k);
            assert(hit_of(objs, k1, r, t0, t1) is None);
        },
        (Option::Some(h1), Option::Some(h2)) => {
            let k1 = choose|k: int| witness_at(objs, r, t0, t1, h1, k);
            let k2 = choose|k: int| witness_at(objs, r, t0, t1, h2, k);
            assert(witness_at(objs, r, t0, t1, h1, k1));
            assert(witness_at(objs, r, t0, t1, h2, k2));
            if k1 < k2 {
                assert(hit_of(objs, k1, r, t0, t1) == Option::Some(h1));
                assert(h1.distance > h2.distance);
                assert(h2.distance >= h1.distance);
            } else if k2 < k1 {
                assert(hit_of(objs, k2, r, t0, t1) == Option::Some(h2));
                assert(h2.distance > h1.distance);
                assert(h1.distance >= h2.distance);
            } else {
                assert(hit_of(objs, k1, r, t0, t1) == Option::Some(h1));
            }
        },
    }
}

/// Traversal order does not matter: over two collections holding the same
/// objects (as a multiset), the closest-hit results agree in presence and
/// in distance. Together with `BVHNode::hit` and `closest_hit` both
/// meeting `is_closest_hit`, and `BVHNode::build` preserving the multiset
/// of objects, the hit returned by BVH traversal has the same distance as
/// the hit found by a brute-force linear scan, for every interval.
pub proof fn lemma_closest_permutation(
    objs1: Seq<Sphere>, objs2: Seq<Sphere>, r: Ray, t0: int, t1: int, r1: Option<HitRecord>,
    r2: Option<HitRecord>,
)
    requires
        objs1.to_multiset() == objs2.to_multiset(),
        is_closest_hit(objs1, r, t0, t1, r1),
        is_closest_hit(objs2, r, t0, t1, r2),
    ensures
        r1 is Some <==> r2 is Some,
        match (r1, r2) {
            (Option::Some(h1), Option::Some(h2)) => h1.distance == h2.distance,
            _ => true,
        },
{
    objs1.to_multiset_ensures();
    objs2.to_multiset_ensures();
    if let Option::Some(h1) = r1 {
        let k1 = choose|k: int| witness_at(objs1, r, t0, t1, h1, k);
        assert(witness_at(objs1, r, t0, t1, h1, k1));
        assert(objs1.contains(objs1[k1]));
        assert(objs1.to_multiset().count(objs1[k1]) > 0);
        assert(objs2.to_multiset().count(objs1[k1]) > 0);
        assert(objs2.contains(objs1[k1]));
        let m = choose|m: int| 0 <= m < objs2.len() && objs2[m] == objs1[k1];
        assert(hit_of(objs2, m, r, t0, t1) == Option::Some(h1));
        match r2 {
            Option::None => {
                assert(hit_of(objs2, m, r, t0, t1) is None);
            },
            Option::Some(h2) => {
                assert(h1.distance >= h2.distance);
            },
        }
    }
    if let Option::Some(h2) = r2 {
        let k2 = choose|k: int| witness_at(objs2, r, t0, t1, h2, k);
        assert(witness_at(objs2, r, t0, t1, h2, k2));
        assert(objs2.contains(objs2[k2]));
        assert(objs2.to_multiset().count(objs2[k2]) > 0);
        assert(objs1.to_multiset().count(objs2[k2]) > 0);
        assert(objs1.contains(objs2[k2]));
        let m = choose|m: int| 0 <= m < objs1.len() && objs1[m] == objs2[k2];
        assert(hit_of(objs1, m, r, t0, t1) == Option::Some(h2));
        match r1 {
            Option::None => {
                assert(hit_of(objs1, m, r, t0, t1) is None);
            },
            Option::Some(h1) => {
                assert(h2.distance >= h1.distance);
            },
        }
    }
}

/// One step of the scan, when the current object hits below the running
/// bound: it becomes the new best over the whole prefix.
proof fn lemma_scan_step_some(
    objs: Seq<Sphere>, r: Ray, t0: int, t1: int, i: int, best: Option<HitRecord>, bound: int,
    hi: HitRecord,
)
    requires
        -0x8000_0000_0000_0000int <= t0,
        t1 <= 0x7FFF_FFFF_FFFF_FFFFint,
        0 <= i < objs.len(),
        is_closest_hit(objs.take(i), r, t0, t1, best),
        match best {
            Option::None => bound == t1,
            Option::Some(b) => bound == b.distance && b.distance < t1,
        },
        objs[i].spec_hit(r, t0, bound) == Option::Some(hi),
    ensures
        is_closest_hit(objs.take(i + 1), r, t0, t1, Option::Some(hi)),
        t0 < hi.distance < bound,
{
    let prefix = objs.take(i);
    let prefix1 = objs.take(i + 1);
    assert(prefix1[i] == objs[i]);
    assert(forall|j: int| 0 <= j < i ==> prefix1[j] == prefix[j]);
    objs[i].lemma_hit_distance_range(r, t0, bound);
    objs[i].lemma_hit_widen(r, t0, bound, t1);
    assert(hit_of(prefix1, i, r, t0, t1) == Option::Some(hi));
    if let Option::Some(b) = best {
        assert forall|j: int| 0 <= j < i implies match #[trigger] hit_of(
            prefix1, j, r, t0, t1,
        ) {
            Option::Some(g) => g.distance > hi.distance,
            Option::None => true,
        } by {
            assert(hit_of(prefix, j, r, t0, t1) == hit_of(prefix1, j, r, t0, t1));
        }
    } else {
        assert forall|j: int| 0 <= j < i implies (#[trigger] hit_of(
            prefix1, j, r, t0, t1,
        )) is None by {
            assert(hit_of(prefix, j, r, t0, t1) == hit_of(prefix1, j, r, t0, t1));
        }
    }
    assert(witness_at(prefix1, r, t0, t1, hi, i));
}

/// One step of the scan, when the current object misses within the
/// running bound: the best so far stays the closest over the prefix.
proof fn lemma_scan_step_none(
    objs: Seq<Sphere>, r: Ray, t0: int, t1: int, i: int, best: Option<HitRecord>, bound: int,
)
    requires
        -0x8000_0000_0000_0000int <= t0,
        t1 <= 0x7FFF_FFFF_FFFF_FFFFint,
        0 <= i < objs.len(),
        is_closest_hit(objs.take(i), r, t0, t1, best),
        match best {
            Option::None => bound == t1,
            Option::Some(b) => bound == b.distance && b.distance < t1,
        },
        objs[i].spec_hit(r, t0, bound) is None,
    ensures
        is_closest_hit(objs.take(i + 1), r, t0, t1, best),
{
    let prefix = objs.take(i);
    let prefix1 = objs.take(i + 1);
    assert(prefix1[i] == objs[i]);
    assert(forall|j: int| 0 <= j < i ==> prefix1[j] == prefix[j]);
    if let Option::Some(b) = best {
        if let Option::Some(g) = hit_of(prefix1, i, r, t0, t1) {
            objs[i].lemma_hit_restrict(r, t0, t1, bound);
            assert(g.distance >= b.distance);
        }
        let k = choose|k: int| witness_at(prefix, r, t0, t1, b, k);
        assert(witness_at(prefix, r, t0, t1, b, k));
        assert forall|j: int| 0 <= j < k implies match #[trigger] hit_of(
            prefix1, j, r, t0, t1,
        ) {
            Option::Some(g) => g.distance > b.distance,
            Option::None => true,
        } by {
            assert(hit_of(prefix, j, r, t0, t1) == hit_of(prefix1, j, r, t0, t1));
        }
        assert(hit_of(prefix1, k, r, t0, t1) == hit_of(prefix, k, r, t0, t1));
        assert(witness_at(prefix1, r, t0, t1, b, k));
        assert forall|j: int| 0 <= j < i + 1 implies match #[trigger] hit_of(
            prefix1, j, r, t0, t1,
        ) {
            Option::Some(g) => g.distance >= b.distance,
            Option::None => true,
        } by {
            if j < i {
                assert(hit_of(prefix, j, r, t0, t1) == hit_of(prefix1, j, r, t0, t1));
            }
        }
    } else {
        objs[i].lemma_hit_widen(r, t0, bound, t1);
        assert forall|j: int| 0 <= j < i + 1 implies (#[trigger] hit_of(
            prefix1, j, r, t0, t1,
        )) is None by {
            if j < i {
                assert(hit_of(prefix, j, r, t0, t1) == hit_of(prefix1, j, r, t0, t1));
            }
        }
    }
}

/// The closest hit of the list: a linear scan that shrinks the upper bound
/// to the nearest distance found so far, so a later object can only
/// replace the running best with something strictly closer.
pub fn closest_hit(objects: &Vec<Sphere>, ray: &Ray, t_min: i64, t_max: i64) -> (res: Option<
    HitRecord,
>)
    requires
        wf_objs(objects@),
        ray.wf(),
    ensures
        is_closest_hit(objects@, *ray, t_min as int, t_max as int, res),
{
    let ghost t1g: int = t_max as int;
    let mut closest: i64 = t_max;
    let mut best: Option<HitRecord> = Option::None;
    let n = objects.len();
    let mut i: usize = 0;
    while i < n
        invariant
            0 <= i <= n,
            n == objects@.len(),
            wf_objs(objects@),
            ray.wf(),
            t1g == t_max as int,
            match best {
                Option::None => closest == t_max,
                Option::Some(b) => closest == b.distance && b.distance < t1g,
            },
            is_closest_hit(objects@.take(i as int), *ray, t_min as int, t1g, best),
        decreases n - i,
    {
        let h = objects[i].hit(ray, t_min, closest);
        match h {
            Option::Some(hi) => {
                proof {
                    lemma_scan_step_some(
                        objects@, *ray, t_min as int, t1g, i as int, best, closest as int, hi,
                    );
                }
                closest = hi.distance;
                best = Option::Some(hi);
            },
            Option::None => {
                proof {
                    lemma_scan_step_none(
                        objects@, *ray, t_min as int, t1g, i as int, best, closest as int,
                    );
                }
            },
        }
        i = i + 1;
    }
    proof {
        assert(objects@.take(n as int) =~= objects@);
    }
    best
}

/// The list of objects a scene is built from.
#[derive(Default)]
pub struct HittableList {
    pub list: Vec<Sphere>,
}

impl HittableList {
    pub fn new() -> (l: HittableList)
        ensures
            l.list@ == Seq::<Sphere>::empty(),
    {
        HittableList { list: Vec::new() }
    }

    pub fn push(&mut self, hittable: Sphere)
        ensures
            final(self).list@ == old(self).list@.push(hittable),
    {
        self.list.push(hittable);
    }

    /// The closest hit across the whole list.
    pub fn hit(&self, ray: &Ray, t_min: i64, t_max: i64) -> (res: Option<HitRecord>)
        requires
            wf_objs(self.list@),
            ray.wf(),
        ensures
            is_closest_hit(self.list@, *ray, t_min as int, t_max as int, res),
    {
        closest_hit(&self.list, ray, t_min, t_max)
    }
}

} // verus!
