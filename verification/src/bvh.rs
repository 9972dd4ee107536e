//! The bounding volume hierarchy: a binary tree over the scene's objects,
//! built by median split on the longest axis, traversed with box-pruned
//! descent.
//!
//! Median split balances depth; it is not a surface-area-heuristic
//! optimizer and makes no claim of optimal query cost. Traversal meets the
//! same closest-hit specification as the linear scan over the tree's
//! objects, so box pruning is an optimization, never a change of result:
//! pruning is sound because every accepted sphere hit passes the slab test
//! of every enclosing box, and the progressively tightened upper bound
//! keeps the nearest hit.

use vstd::prelude::*;
use vstd::seq_lib::group_to_multiset_ensures;
use vstd::seq_lib::to_multiset_insert;
use crate::ray::Ray;
use crate::aabb::AaBb;
use crate::sphere::Sphere;
use crate::hittable::{
    HitRecord, wf_objs, hit_of, witness_at, is_closest_hit, closest_hit,
};

verus! {

/// Objects per leaf bucket; a tunable, not an invariant.
pub const MAX_OBJECTS: usize = 7;

/// A BVH node: a small bucket of objects, or two children with their
/// precomputed enclosing box.
pub enum BVHNode {
    Leaf { objects: Vec<Sphere> },
    Node { left: Box<BVHNode>, right: Box<BVHNode>, bbox: AaBb },
}

/// The box key an object is sorted by on an axis: the lower corner of its
/// bounding box.
pub open spec fn axis_key(s: Sphere, axis: int) -> int {
    s.spec_bbox().min.spec_axis(axis) as int
}

/// Sorted in nondecreasing key order on the axis.
pub open spec fn sorted_by_axis(s: Seq<Sphere>, axis: int) -> bool {
    forall|i: int, j: int| 0 <= i <= j < s.len() ==> axis_key(#[trigger] s[i], axis)
        <= axis_key(#[trigger] s[j], axis)
}

impl BVHNode {
    /// All objects under this node, leaves left to right.
    pub open spec fn tree_objects(self) -> Seq<Sphere>
        decreases self,
    {
        match self {
            BVHNode::Leaf { objects } => objects@,
            BVHNode::Node { left, right, bbox } => left.tree_objects() + right.tree_objects(),
        }
    }

    /// Well-formed tree: objects are well-formed and every internal box
    /// encloses the bounding boxes of all objects below it.
    pub open spec fn wf_tree(self) -> bool
        decreases self,
    {
        match self {
            BVHNode::Leaf { objects } => wf_objs(objects@),
            BVHNode::Node { left, right, bbox } => {
                &&& left.wf_tree()
                &&& right.wf_tree()
                &&& bbox.wf()
                &&& forall|j: int| 0 <= j < self.tree_objects().len() ==> AaBb::spec_contains(
                    bbox, (#[trigger] self.tree_objects()[j]).spec_bbox(),
                )
            },
        }
    }

    /// The structure the median split produces for an oversized input
    /// list: an internal node whose stored box is exactly the union of its
    /// children's boxes, whose left subtree holds the first half (by
    /// count) of the input sorted by bounding-box minimum on the longest
    /// axis of the input's enclosing box — so every object on the left has
    /// a key at most that of every object on the right.
    pub open spec fn spec_median_split(self, input: Seq<Sphere>) -> bool {
        let ax = spec_boxes_union(input).spec_split_axis();
        &&& self is Node
        &&& self->Node_bbox == AaBb::spec_union(
            self->Node_left.spec_node_box(), self->Node_right.spec_node_box(),
        )
        &&& self->Node_left.tree_objects().len() == input.len() / 2
        &&& self->Node_right.tree_objects().len() == input.len() - input.len() / 2
        &&& forall|i: int, j: int|
            0 <= i < self->Node_left.tree_objects().len() && 0 <= j
                < self->Node_right.tree_objects().len() ==> axis_key(
                #[trigger] self->Node_left.tree_objects()[i], ax,
            ) <= axis_key(#[trigger] self->Node_right.tree_objects()[j], ax)
    }

    /// The box of this node: stored on internal nodes, recomputed on
    /// leaves.
    pub open spec fn spec_node_box(self) -> AaBb {
        match self {
            BVHNode::Leaf { objects } => spec_boxes_union(objects@),
            BVHNode::Node { left, right, bbox } => bbox,
        }
    }

    pub proof fn lemma_wf_objs(self)
        requires
            self.wf_tree(),
        ensures
            wf_objs(self.tree_objects()),
        decreases self,
    {
        match self {
            BVHNode::Leaf { objects } => {},
            BVHNode::Node { left, right, bbox } => {
                left.lemma_wf_objs();
                right.lemma_wf_objs();
                assert forall|j: int| 0 <= j < self.tree_objects().len() implies (
                #[trigger] self.tree_objects()[j]).wf() by {
                    if j < left.tree_objects().len() {
                        assert(self.tree_objects()[j] == left.tree_objects()[j]);
                    } else {
                        assert(self.tree_objects()[j] == right.tree_objects()[
                            j - left.tree_objects().len()
                        ]);
                    }
                }
            },
        }
    }

    /// The node box encloses the bounding box of every object below.
    pub proof fn lemma_node_box(self)
        requires
            self.wf_tree(),
        ensures
            self.spec_node_box().wf(),
            forall|j: int| 0 <= j < self.tree_objects().len() ==> AaBb::spec_contains(
                self.spec_node_box(), (#[trigger] self.tree_objects()[j]).spec_bbox(),
            ),
        decreases self,
    {
        match self {
            BVHNode::Leaf { objects } => {
                lemma_boxes_union(objects@);
            },
            BVHNode::Node { left, right, bbox } => {},
        }
    }

    /// The node's own bounding box.
    pub fn bounding_box(&self) -> (b: AaBb)
        requires
            self.wf_tree(),
        ensures
            b == self.spec_node_box(),
    {
        match self {
            BVHNode::Leaf { objects } => all_surrounding_box(objects),
            BVHNode::Node { left, right, bbox } => *bbox,
        }
    }

    /// Build the tree: small lists become a leaf; larger ones are sorted
    /// by bounding-box minimum on the longest axis of their enclosing box
    /// and split at the median, and the children are built independently.
    pub fn build(objects: Vec<Sphere>) -> (node: BVHNode)
        requires
            wf_objs(objects@),
        ensures
            node.wf_tree(),
            node.tree_objects().to_multiset() == objects@.to_multiset(),
            objects@.len() <= MAX_OBJECTS ==> node is Leaf && node->Leaf_objects@ == objects@,
            objects@.len() > MAX_OBJECTS ==> node.spec_median_split(objects@),
        decreases objects@.len(),
    {
        let len = objects.len();
        if len <= MAX_OBJECTS {
            BVHNode::Leaf { objects }
        } else {
            let mut objects = objects;
            let ghost input = objects@;
            let surround = all_surrounding_box(&objects);
            let axis = surround.split_axis();
            sort_by_axis(&mut objects, axis);
            let ghost sorted = objects@;
            let mid = len / 2;
            let mut left_v: Vec<Sphere> = Vec::new();
            let mut right_v: Vec<Sphere> = Vec::new();
            let mut i: usize = 0;
            while i < mid
                invariant
                    0 <= i <= mid,
                    mid < len,
                    objects@ == sorted,
                    sorted.len() == len,
                    wf_objs(sorted),
                    left_v@ == sorted.subrange(0, i as int),
                decreases mid - i,
            {
                left_v.push(objects[i]);
                proof {
                    assert(left_v@ =~= sorted.subrange(0, i as int + 1));
                }
                i = i + 1;
            }
            let mut k: usize = mid;
            while k < len
                invariant
                    mid <= k <= len,
                    objects@ == sorted,
                    sorted.len() == len,
                    wf_objs(sorted),
                    right_v@ == sorted.subrange(mid as int, k as int),
                decreases len - k,
            {
                right_v.push(objects[k]);
                proof {
                    assert(right_v@ =~= sorted.subrange(mid as int, k as int + 1));
                }
                k = k + 1;
            }
            proof {
                assert(wf_objs(left_v@));
                assert(wf_objs(right_v@));
            }
            let left_node = BVHNode::build(left_v);
            let right_node = BVHNode::build(right_v);
            let lb = left_node.bounding_box();
            let rb = right_node.bounding_box();
            let bbox = AaBb::surrounding_box(&lb, &rb);
            let node = BVHNode::Node {
                left: Box::new(left_node),
                right: Box::new(right_node),
                bbox,
            };
            proof {
                let tl = node->Node_left.tree_objects();
                let tr = node->Node_right.tree_objects();
                node->Node_left.lemma_node_box();
                node->Node_right.lemma_node_box();
                crate::aabb::lemma_union_contains(lb, rb);
                assert forall|j: int| 0 <= j < node.tree_objects().len() implies
                    AaBb::spec_contains(
                        bbox, (#[trigger] node.tree_objects()[j]).spec_bbox(),
                    ) by {
                    if j < tl.len() {
                        assert(node.tree_objects()[j] == tl[j]);
                        crate::aabb::lemma_contains_trans(bbox, lb, tl[j].spec_bbox());
                    } else {
                        assert(node.tree_objects()[j] == tr[j - tl.len()]);
                        crate::aabb::lemma_contains_trans(
                            bbox, rb, tr[j - tl.len()].spec_bbox(),
                        );
                    }
                }
                lemma_to_multiset_concat(tl, tr);
                lemma_to_multiset_concat(
                    sorted.subrange(0, mid as int), sorted.subrange(mid as int, len as int),
                );
                assert(sorted.subrange(0, mid as int) + sorted.subrange(mid as int, len as int)
                    =~= sorted);
                assert(node.tree_objects().to_multiset() =~= objects@.to_multiset());
                // The median-split structure: lengths via the multisets,
                // the key split via membership in the sorted halves.
                let ax = spec_boxes_union(input).spec_split_axis();
                tl.to_multiset_ensures();
                tr.to_multiset_ensures();
                left_v@.to_multiset_ensures();
                right_v@.to_multiset_ensures();
                assert(tl.len() == left_v@.len());
                assert(tr.len() == right_v@.len());
                assert forall|i: int, j: int| 0 <= i < tl.len() && 0 <= j < tr.len()
                    implies axis_key(#[trigger] tl[i], ax)
                        <= axis_key(#[trigger] tr[j], ax) by {
                    assert(tl.contains(tl[i]));
                    assert(tl.to_multiset().count(tl[i]) > 0);
                    assert(left_v@.to_multiset().count(tl[i]) > 0);
                    assert(left_v@.contains(tl[i]));
                    let ii = choose|ii: int| 0 <= ii < left_v@.len() && left_v@[ii] == tl[i];
                    assert(tr.contains(tr[j]));
                    assert(tr.to_multiset().count(tr[j]) > 0);
                    assert(right_v@.to_multiset().count(tr[j]) > 0);
                    assert(right_v@.contains(tr[j]));
                    let jj = choose|jj: int| 0 <= jj < right_v@.len() && right_v@[jj] == tr[j];
                    assert(sorted[ii] == tl[i]);
                    assert(sorted[mid + jj] == tr[j]);
                    assert(axis_key(sorted[ii], ax) <= axis_key(sorted[mid + jj], ax));
                }
                assert(node.spec_median_split(input));
            }
            node
        }
    }

    /// The closest hit under this node: a leaf scans its bucket; an
    /// internal node prunes on its box, then searches left, then searches
    /// right with the upper bound tightened to the left result.
    pub fn hit(&self, ray: &Ray, t_min: i64, t_max: i64) -> (res: Option<HitRecord>)
        requires
            self.wf_tree(),
            ray.wf(),
        ensures
            is_closest_hit(self.tree_objects(), *ray, t_min as int, t_max as int, res),
        decreases *self,
    {
        match self {
            BVHNode::Leaf { objects } => closest_hit(objects, ray, t_min, t_max),
            BVHNode::Node { left, right, bbox } => {
                if !bbox.hit(ray, t_min, t_max) {
                    proof {
                        assert forall|j: int| 0 <= j < self.tree_objects().len() implies (
                        #[trigger] hit_of(
                            self.tree_objects(), j, *ray, t_min as int, t_max as int,
                        )) is None by {
                            if hit_of(self.tree_objects(), j, *ray, t_min as int, t_max as int)
                                is Some {
                                self.tree_objects()[j].lemma_hit_in_box(
                                    *ray, t_min as int, t_max as int, *bbox,
                                );
                            }
                        }
                    }
                    return Option::None;
                }
                let lres = left.hit(ray, t_min, t_max);
                match lres {
                    Option::Some(l) => {
                        let rres = right.hit(ray, t_min, l.distance);
                        proof {
                            lemma_combine_left_some(
                                left.tree_objects(), right.tree_objects(), *ray,
                                t_min as int, t_max as int, l, rres,
                            );
                        }
                        match rres {
                            Option::Some(rr) => {
                                if l.distance < rr.distance {
                                    Option::Some(l)
                                } else {
                                    Option::Some(rr)
                                }
                            },
                            Option::None => Option::Some(l),
                        }
                    },
                    Option::None => {
                        let rres = right.hit(ray, t_min, t_max);
                        proof {
                            lemma_combine_left_none(
                                left.tree_objects(), right.tree_objects(), *ray,
                                t_min as int, t_max as int, rres,
                            );
                        }
                        rres
                    },
                }
            },
        }
    }
}

/// The union of the bounding boxes of a list of objects, folded left to
/// right from the empty box.
pub open spec fn spec_boxes_union(objs: Seq<Sphere>) -> AaBb
    decreases objs.len(),
{
    if objs.len() == 0 {
        AaBb::spec_empty()
    } else {
        AaBb::spec_union(spec_boxes_union(objs.drop_last()), objs.last().spec_bbox())
    }
}

/// The folded union is well-formed and contains every object's box.
pub proof fn lemma_boxes_union(objs: Seq<Sphere>)
    requires
        wf_objs(objs),
    ensures
        spec_boxes_union(objs).wf(),
        forall|j: int| 0 <= j < objs.len() ==> AaBb::spec_contains(
            spec_boxes_union(objs), (#[trigger] objs[j]).spec_bbox(),
        ),
    decreases objs.len(),
{
    if objs.len() > 0 {
        assert(wf_objs(objs.drop_last()));
        lemma_boxes_union(objs.drop_last());
        let u = spec_boxes_union(objs);
        let prev = spec_boxes_union(objs.drop_last());
        crate::aabb::lemma_union_contains(prev, objs.last().spec_bbox());
        assert(objs.last().wf());
        assert forall|j: int| 0 <= j < objs.len() implies AaBb::spec_contains(
            u, (#[trigger] objs[j]).spec_bbox(),
        ) by {
            if j < objs.len() - 1 {
                assert(objs.drop_last()[j] == objs[j]);
                crate::aabb::lemma_contains_trans(u, prev, objs[j].spec_bbox());
            }
        }
    }
}

/// The enclosing box of a whole list of objects.
pub fn all_surrounding_box(objects: &Vec<Sphere>) -> (b: AaBb)
    requires
        wf_objs(objects@),
    ensures
        b == spec_boxes_union(objects@),
        b.wf(),
{
    let mut surround = AaBb::empty();
    let n = objects.len();
    let mut i: usize = 0;
    while i < n
        invariant
            0 <= i <= n,
            n == objects@.len(),
            wf_objs(objects@),
            surround == spec_boxes_union(objects@.take(i as int)),
        decreases n - i,
    {
        let bb = objects[i].bounding_box();
        surround = AaBb::surrounding_box(&surround, &bb);
        proof {
            assert(objects@.take(i as int + 1).drop_last() =~= objects@.take(i as int));
            assert(objects@.take(i as int + 1).last() == objects@[i as int]);
        }
        i = i + 1;
    }
    proof {
        assert(objects@.take(n as int) =~= objects@);
        lemma_boxes_union(objects@);
    }
    surround
}

/// Concatenation turns sequence-to-multiset into multiset addition.
proof fn lemma_to_multiset_concat(a: Seq<Sphere>, b: Seq<Sphere>)
    ensures
        (a + b).to_multiset() == a.to_multiset().add(b.to_multiset()),
    decreases b.len(),
{
    broadcast use group_to_multiset_ensures;

    if b.len() == 0 {
        assert(a + b =~= a);
        assert((a + b).to_multiset() =~= a.to_multiset().add(b.to_multiset()));
    } else {
        lemma_to_multiset_concat(a, b.drop_last());
        assert(a + b =~= (a + b.drop_last()).push(b.last()));
        assert(b =~= b.drop_last().push(b.last()));
        assert((a + b).to_multiset() =~= a.to_multiset().add(b.to_multiset()));
    }
}

/// Stable insertion sort by bounding-box minimum on the given axis.
fn sort_by_axis(v: &mut Vec<Sphere>, axis: usize)
    requires
        axis < 3,
        wf_objs(old(v)@),
    ensures
        final(v)@.to_multiset() == old(v)@.to_multiset(),
        final(v)@.len() == old(v)@.len(),
        wf_objs(final(v)@),
        sorted_by_axis(final(v)@, axis as int),
{
    broadcast use group_to_multiset_ensures;
    broadcast use to_multiset_insert;

    let n = v.len();
    if n < 2 {
        return;
    }
    let mut i: usize = 1;
    while i < n
        invariant
            1 <= i <= n,
            v@.len() == n,
            axis < 3,
            wf_objs(v@),
            v@.to_multiset() == old(v)@.to_multiset(),
            sorted_by_axis(v@.take(i as int), axis as int),
        decreases n - i,
    {
        let x: Sphere = v[i];
        let mut j: usize = i;
        while j > 0 && key_of(&v[j - 1], axis) > key_of(&x, axis)
            invariant
                0 <= j <= i < n,
                v@.len() == n,
                axis < 3,
                wf_objs(v@),
                x == v@[i as int],
                forall|m: int| j <= m < i ==> axis_key(#[trigger] v@[m], axis as int)
                    > axis_key(x, axis as int),
            decreases j,
        {
            j = j - 1;
        }
        let ghost before = v@;
        let removed = v.remove(i);
        v.insert(j, removed);
        proof {
            let after = v@;
            let mid_seq = before.remove(i as int);
            assert(after == mid_seq.insert(j as int, x));
            assert(mid_seq.to_multiset() =~= before.to_multiset().remove(x)) by {
                before.to_multiset_ensures();
                assert(before[i as int] == x);
            }
            assert(after.to_multiset() =~= mid_seq.to_multiset().insert(x)) by {
                vstd::seq_lib::to_multiset_insert(mid_seq, j as int, x);
            }
            assert(before.to_multiset().count(x) > 0) by {
                before.to_multiset_ensures();
                assert(before[i as int] == x);
                assert(before.contains(x));
            }
            assert(after.to_multiset() =~= before.to_multiset());
            assert forall|m: int| 0 <= m < after.len() implies (#[trigger] after[m]).wf() by {
                if m < j {
                    assert(after[m] == before[m]);
                } else if m == j {
                    assert(after[m] == x);
                } else if m <= i {
                    assert(after[m] == before[m - 1]);
                } else {
                    assert(after[m] == before[m]);
                }
            }
            assert forall|a: int, b: int| 0 <= a <= b < i + 1 implies axis_key(
                #[trigger] after.take(i as int + 1)[a], axis as int,
            ) <= axis_key(#[trigger] after.take(i as int + 1)[b], axis as int) by {
                assert(after.take(i as int + 1)[a] == if a < j { before[a] } else if a == j {
                    x
                } else {
                    before[a - 1]
                });
                assert(after.take(i as int + 1)[b] == if b < j { before[b] } else if b == j {
                    x
                } else {
                    before[b - 1]
                });
                if j > 0 {
                    assert(axis_key(before[j - 1], axis as int) <= axis_key(x, axis as int));
                }
                if a < j && b < j {
                    assert(before.take(i as int)[a] == before[a]);
                    assert(before.take(i as int)[b] == before[b]);
                } else if a < j && b == j {
                    assert(before.take(i as int)[a] == before[a]);
                    assert(before.take(i as int)[j - 1] == before[j - 1]);
                } else if a < j {
                    assert(before.take(i as int)[a] == before[a]);
                    assert(before.take(i as int)[b - 1] == before[b - 1]);
                    if b - 1 < i {
                        if b - 1 >= j {
                            assert(axis_key(before[b - 1], axis as int)
                                > axis_key(x, axis as int));
                        }
                    }
                } else if a == j && b == j {
                } else if a == j {
                    if b - 1 >= j && b - 1 < i {
                        assert(axis_key(before[b - 1], axis as int)
                            > axis_key(x, axis as int));
                    }
                } else {
                    assert(before.take(i as int)[a - 1] == before[a - 1]);
                    assert(before.take(i as int)[b - 1] == before[b - 1]);
                }
            }
        }
        i = i + 1;
    }
    proof {
        assert(v@.take(n as int) =~= v@);
    }
}

/// The sort key, executable: the lower corner of the bounding box.
fn key_of(s: &Sphere, axis: usize) -> (k: i64)
    requires
        axis < 3,
        s.wf(),
    ensures
        k == axis_key(*s, axis as int),
{
    s.center.axis(axis) - s.radius
}

/// Combining results when the left subtree found a hit: the right subtree
/// is searched below that hit's distance, so whichever result stands is
/// the closest over the concatenation.
proof fn lemma_combine_left_some(
    ls: Seq<Sphere>, rs: Seq<Sphere>, r: Ray, t0: int, t1: int, l: HitRecord,
    rres: Option<HitRecord>,
)
    requires
        -0x8000_0000_0000_0000int <= t0,
        t1 <= 0x7FFF_FFFF_FFFF_FFFFint,
        t0 < l.distance < t1,
        is_closest_hit(ls, r, t0, t1, Option::Some(l)),
        is_closest_hit(rs, r, t0, l.distance as int, rres),
    ensures
        is_closest_hit(
            ls + rs, r, t0, t1,
            match rres {
                Option::Some(rr) => Option::Some(rr),
                Option::None => Option::Some(l),
            },
        ),
{
    let cat = ls + rs;
    assert(forall|j: int| 0 <= j < ls.len() ==> cat[j] == ls[j]);
    assert(forall|j: int| 0 <= j < rs.len() ==> cat[ls.len() + j] == rs[j]);
    match rres {
        Option::Some(rr) => {
            let k = choose|k: int| witness_at(rs, r, t0, l.distance as int, rr, k);
            assert(witness_at(rs, r, t0, l.distance as int, rr, k));
            assert(t0 < rr.distance < l.distance) by {
                rs[k].lemma_hit_distance_range(r, t0, l.distance as int);
            }
            rs[k].lemma_hit_widen(r, t0, l.distance as int, t1);
            assert(hit_of(cat, ls.len() + k, r, t0, t1) == Option::Some(rr));
            assert forall|j: int| 0 <= j < ls.len() + k implies match #[trigger] hit_of(
                cat, j, r, t0, t1,
            ) {
                Option::Some(g) => g.distance > rr.distance,
                Option::None => true,
            } by {
                if j < ls.len() {
                    assert(hit_of(cat, j, r, t0, t1) == hit_of(ls, j, r, t0, t1));
                    if let Option::Some(g) = hit_of(ls, j, r, t0, t1) {
                        assert(g.distance >= l.distance > rr.distance);
                    }
                } else {
                    let j2 = j - ls.len();
                    assert(hit_of(cat, j, r, t0, t1) == hit_of(rs, j2, r, t0, t1));
                    if let Option::Some(g) = hit_of(rs, j2, r, t0, t1) {
                        rs[j2].lemma_hit_restrict(r, t0, t1, l.distance as int);
                        if g.distance < l.distance {
                            assert(hit_of(rs, j2, r, t0, l.distance as int)
                                == Option::Some(g));
                            assert(g.distance > rr.distance);
                        } else {
                            assert(g.distance >= l.distance > rr.distance);
                        }
                    }
                }
            }
            assert(witness_at(cat, r, t0, t1, rr, ls.len() + k));
            assert forall|j: int| 0 <= j < cat.len() implies match #[trigger] hit_of(
                cat, j, r, t0, t1,
            ) {
                Option::Some(g) => g.distance >= rr.distance,
                Option::None => true,
            } by {
                if j < ls.len() {
                    assert(hit_of(cat, j, r, t0, t1) == hit_of(ls, j, r, t0, t1));
                    if let Option::Some(g) = hit_of(ls, j, r, t0, t1) {
                        assert(g.distance >= l.distance > rr.distance);
                    }
                } else {
                    let j2 = j - ls.len();
                    assert(hit_of(cat, j, r, t0, t1) == hit_of(rs, j2, r, t0, t1));
                    if let Option::Some(g) = hit_of(rs, j2, r, t0, t1) {
                        rs[j2].lemma_hit_restrict(r, t0, t1, l.distance as int);
                        if g.distance < l.distance {
                            assert(hit_of(rs, j2, r, t0, l.distance as int)
                                == Option::Some(g));
                        }
                    }
                }
            }
        },
        Option::None => {
            let k = choose|k: int| witness_at(ls, r, t0, t1, l, k);
            assert(witness_at(ls, r, t0, t1, l, k));
            assert(hit_of(cat, k, r, t0, t1) == hit_of(ls, k, r, t0, t1));
            assert forall|j: int| 0 <= j < k implies match #[trigger] hit_of(
                cat, j, r, t0, t1,
            ) {
                Option::Some(g) => g.distance > l.distance,
                Option::None => true,
            } by {
                assert(hit_of(cat, j, r, t0, t1) == hit_of(ls, j, r, t0, t1));
            }
            assert(witness_at(cat, r, t0, t1, l, k));
            assert forall|j: int| 0 <= j < cat.len() implies match #[trigger] hit_of(
                cat, j, r, t0, t1,
            ) {
                Option::Some(g) => g.distance >= l.distance,
                Option::None => true,
            } by {
                if j < ls.len() {
                    assert(hit_of(cat, j, r, t0, t1) == hit_of(ls, j, r, t0, t1));
                } else {
                    let j2 = j - ls.len();
                    assert(hit_of(cat, j, r, t0, t1) == hit_of(rs, j2, r, t0, t1));
                    if let Option::Some(g) = hit_of(rs, j2, r, t0, t1) {
                        rs[j2].lemma_hit_restrict(r, t0, t1, l.distance as int);
                        if g.distance < l.distance {
                            assert(hit_of(rs, j2, r, t0, l.distance as int)
                                == Option::Some(g));
                            assert(hit_of(rs, j2, r, t0, l.distance as int) is None);
                        }
                    }
                }
            }
        },
    }
}

/// Combining results when the left subtree found nothing.
proof fn lemma_combine_left_none(
    ls: Seq<Sphere>, rs: Seq<Sphere>, r: Ray, t0: int, t1: int, rres: Option<HitRecord>,
)
    requires
        is_closest_hit(ls, r, t0, t1, Option::None),
        is_closest_hit(rs, r, t0, t1, rres),
    ensures
        is_closest_hit(ls + rs, r, t0, t1, rres),
{
    let cat = ls + rs;
    assert(forall|j: int| 0 <= j < ls.len() ==> cat[j] == ls[j]);
    assert(forall|j: int| 0 <= j < rs.len() ==> cat[ls.len() + j] == rs[j]);
    match rres {
        Option::Some(h) => {
            let k = choose|k: int| witness_at(rs, r, t0, t1, h, k);
            assert(witness_at(rs, r, t0, t1, h, k));
            assert(hit_of(cat, ls.len() + k, r, t0, t1) == Option::Some(h));
            assert forall|j: int| 0 <= j < ls.len() + k implies match #[trigger] hit_of(
                cat, j, r, t0, t1,
            ) {
                Option::Some(g) => g.distance > h.distance,
                Option::None => true,
            } by {
                if j < ls.len() {
                    assert(hit_of(cat, j, r, t0, t1) == hit_of(ls, j, r, t0, t1));
                } else {
                    assert(hit_of(cat, j, r, t0, t1) == hit_of(rs, j - ls.len(), r, t0, t1));
                }
            }
            assert(witness_at(cat, r, t0, t1, h, ls.len() + k));
            assert forall|j: int| 0 <= j < cat.len() implies match #[trigger] hit_of(
                cat, j, r, t0, t1,
            ) {
                Option::Some(g) => g.distance >= h.distance,
                Option::None => true,
            } by {
                if j < ls.len() {
                    assert(hit_of(cat, j, r, t0, t1) == hit_of(ls, j, r, t0, t1));
                } else {
                    assert(hit_of(cat, j, r, t0, t1) == hit_of(rs, j - ls.len(), r, t0, t1));
                }
            }
        },
        Option::None => {
            assert forall|j: int| 0 <= j < cat.len() implies (#[trigger] hit_of(
                cat, j, r, t0, t1,
            )) is None by {
                if j < ls.len() {
                    assert(hit_of(cat, j, r, t0, t1) == hit_of(ls, j, r, t0, t1));
                } else {
                    assert(hit_of(cat, j, r, t0, t1) == hit_of(rs, j - ls.len(), r, t0, t1));
                }
            }
        },
    }
}

} // verus!
