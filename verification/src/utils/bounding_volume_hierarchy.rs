//! The bounding volume hierarchy: a binary tree of boxes over the
//! primitives of a scene, and the search for the nearest hit in it.

use crate::primitives::bounding_box::{
    lemma_enclosed_hit, lemma_merge_encloses, merged, BoundingBox,
};
use crate::primitives::sphere::lemma_sphere_hit_in_box;
use crate::primitives::triangle::lemma_triangle_hit_in_box;
use crate::primitives::{
    HasBoundingBox, HasCenter, HasColor, HasNormal, Intersectable, Primitive, WellFormed,
};
use crate::scalar::{DISTANCE_MAX, ONE};
use crate::utils::color::Color;
use crate::utils::ray::Ray;
use crate::vector::{distance2, Point3, Vector3};
use vstd::multiset::Multiset;
use vstd::prelude::*;

verus! {

/// A hit nearer than this to the origin of its ray is not reported: a ray
/// that starts on a surface does not hit that surface.
pub const HIT_THRESHOLD: i64 = ONE;

/// What is known of the place where a ray meets a surface.
#[derive(Clone, Copy, Debug, PartialEq, Eq)]
pub struct HitInfo {
    pub color: Color,
    pub normal: Vector3,
    pub p_hit: Point3,
    pub distance: i64,
}

impl HitInfo {
    /// Colour, normal and point lie in their ranges, and the distance
    /// lies beyond `HIT_THRESHOLD`.
    pub open spec fn wf(&self) -> bool {
        &&& self.color.wf()
        &&& self.normal@.is_direction()
        &&& self.p_hit.wf()
        &&& HIT_THRESHOLD < self.distance <= DISTANCE_MAX
    }
}

/// A node of the hierarchy: a leaf around one primitive, or a box around
/// two subtrees.
#[derive(Debug)]
pub enum BVHNode {
    Leaf { bbox: BoundingBox, primitive: Primitive },
    Internal { bbox: BoundingBox, left: Box<BVHNode>, right: Box<BVHNode> },
}

/// The hit of `ray` on one primitive, as a leaf reports it: nothing when
/// the primitive is missed or met within `HIT_THRESHOLD` of the origin.
pub open spec fn leaf_hit(p: Primitive, ray: Ray) -> Option<HitInfo> {
    match p.hit(&ray) {
        Some(x) => if x <= HIT_THRESHOLD {
            None
        } else {
            Some(
                HitInfo {
                    color: p.color(),
                    normal: p.normal_at(ray.at(x).as_point()).as_vector(),
                    p_hit: ray.at(x).as_point(),
                    distance: x as i64,
                },
            )
        },
        None => None,
    }
}

/// Of two optional hits the one at the smaller distance; the second one
/// when the distances are equal.
pub open spec fn nearer(a: Option<HitInfo>, b: Option<HitInfo>) -> Option<HitInfo> {
    match (a, b) {
        (None, _) => b,
        (_, None) => a,
        (Some(x), Some(y)) => if x.distance < y.distance {
            a
        } else {
            b
        },
    }
}

impl BVHNode {
    /// The box of the node.
    pub open spec fn bbox(&self) -> BoundingBox {
        match self {
            BVHNode::Leaf { bbox, .. } => *bbox,
            BVHNode::Internal { bbox, .. } => *bbox,
        }
    }

    /// A leaf holds a well-formed primitive and its box; an inner node
    /// holds two well-formed subtrees and the union of their boxes.
    pub open spec fn wf(&self) -> bool
        decreases self,
    {
        match self {
            BVHNode::Leaf { bbox, primitive } => primitive.wf() && *bbox == primitive.bounding_box(),
            BVHNode::Internal { bbox, left, right } => left.wf() && right.wf() && *bbox == merged(
                left.bbox(),
                right.bbox(),
            ),
        }
    }

    /// The primitives in the leaves, from left to right.
    pub open spec fn primitives(&self) -> Seq<Primitive>
        decreases self,
    {
        match self {
            BVHNode::Leaf { primitive, .. } => seq![*primitive],
            BVHNode::Internal { left, right, .. } => left.primitives() + right.primitives(),
        }
    }

    /// What the search below this node reports. A leaf reports the hit on
    /// its primitive. An inner node reports nothing when the ray misses
    /// its box, else the nearer of what its two subtrees report.
    pub open spec fn hit(&self, ray: &Ray) -> Option<HitInfo>
        decreases self,
    {
        match self {
            BVHNode::Leaf { primitive, .. } => leaf_hit(*primitive, *ray),
            BVHNode::Internal { bbox, left, right } => if bbox.hit(ray) is None {
                None
            } else {
                nearer(left.hit(ray), right.hit(ray))
            },
        }
    }

    /// The leaf around `primitive`.
    pub fn new_leaf(primitive: Primitive) -> (n: BVHNode)
        requires
            primitive.wf(),
        ensures
            n == (BVHNode::Leaf { bbox: primitive.bounding_box(), primitive }),
            n.wf(),
    {
        BVHNode::Leaf { bbox: BoundingBox::new(&primitive), primitive }
    }

    /// The inner node above `left` and `right`.
    pub fn new(left: Box<BVHNode>, right: Box<BVHNode>) -> (n: BVHNode)
        requires
            left.wf(),
            right.wf(),
        ensures
            n == (BVHNode::Internal { bbox: merged(left.bbox(), right.bbox()), left, right }),
            n.wf(),
    {
        let bbox = BoundingBox::new_from(left.bounding_box(), right.bounding_box());
        BVHNode::Internal { bbox, left, right }
    }

    /// The box of the node.
    pub fn bounding_box(&self) -> (b: &BoundingBox)
        ensures
            *b == self.bbox(),
    {
        match self {
            BVHNode::Leaf { bbox, .. } => bbox,
            BVHNode::Internal { bbox, .. } => bbox,
        }
    }

    /// The nearest hit of `ray` below this node.
    pub fn intersect(&self, ray: &Ray) -> (h: Option<HitInfo>)
        requires
            self.wf(),
            ray.wf(),
        ensures
            h == self.hit(ray),
            h matches Some(info) ==> info.wf(),
        decreases self,
    {
        match self {
            BVHNode::Leaf { primitive, .. } => {
                let inter_dist = primitive.intersect(ray);
                match inter_dist {
                    Some(x) => {
                        if x <= HIT_THRESHOLD {
                            return None;
                        }
                        let p_hit = ray.point_at(x);
                        let h_info = HitInfo {
                            color: primitive.get_color(),
                            normal: primitive.get_normal(p_hit),
                            p_hit,
                            distance: x,
                        };
                        Some(h_info)
                    },
                    None => None,
                }
            },
            BVHNode::Internal { bbox, left, right } => {
                proof {
                    lemma_node_box_wf(*self);
                }
                let bbox_inter = bbox.intersect(ray);
                match bbox_inter {
                    Some(_) => {
                        let left_inter = left.intersect(ray);
                        let right_inter = right.intersect(ray);
                        match (left_inter, right_inter) {
                            (None, _) => right_inter,
                            (_, None) => left_inter,
                            (Some(l), Some(r)) => {
                                if l.distance < r.distance {
                                    left_inter
                                } else {
                                    right_inter
                                }
                            },
                        }
                    },
                    None => None,
                }
            },
        }
    }
}

/// The squared distance between the centroids of the boxes of two nodes.
pub open spec fn centroid_gap(a: BVHNode, b: BVHNode) -> int {
    a.bbox().center().minus(b.bbox().center()).norm2()
}

/// `i` is the place in `nodes` of the node nearest to `target`, and the
/// first such place.
pub open spec fn is_nearest(nodes: Seq<BVHNode>, target: BVHNode, i: int) -> bool {
    &&& 0 <= i < nodes.len()
    &&& forall|j: int|
        0 <= j < nodes.len() ==> centroid_gap(nodes[i], target) <= #[trigger] centroid_gap(
            nodes[j],
            target,
        )
    &&& forall|j: int|
        0 <= j < i ==> centroid_gap(nodes[i], target) < #[trigger] centroid_gap(nodes[j], target)
}

/// The place in `nodes` of the node nearest to `target`: the first place
/// at the least distance.
pub open spec fn nearest_index(nodes: Seq<BVHNode>, target: BVHNode) -> int
    decreases nodes.len(),
{
    if nodes.len() <= 1 {
        0
    } else {
        let i = nearest_index(nodes.drop_last(), target);
        if centroid_gap(nodes.last(), target) < centroid_gap(nodes[i], target) {
            nodes.len() - 1
        } else {
            i
        }
    }
}

/// The inner node above two nodes.
pub open spec fn join(left: BVHNode, right: BVHNode) -> BVHNode {
    BVHNode::Internal {
        bbox: merged(left.bbox(), right.bbox()),
        left: Box::new(left),
        right: Box::new(right),
    }
}

/// `nodes` without the node at place `i`, which the last node fills.
pub open spec fn swap_removed(nodes: Seq<BVHNode>, i: int) -> Seq<BVHNode> {
    nodes.update(i, nodes.last()).drop_last()
}

/// One generation of the build. While more than one node remains, the
/// last node is taken, the node nearest to it among the others is taken
/// too, its place filled with the then last node, and the two are joined
/// and appended to `done`. A node left alone is appended as it is.
pub open spec fn pair_up(nodes: Seq<BVHNode>, done: Seq<BVHNode>) -> Seq<BVHNode>
    decreases nodes.len(),
    via pair_up_decreases
{
    if nodes.len() == 0 {
        done
    } else if nodes.len() == 1 {
        done.push(nodes[0])
    } else {
        let last = nodes.last();
        let rest = nodes.drop_last();
        let i = nearest_index(rest, last);
        pair_up(swap_removed(rest, i), done.push(join(last, rest[i])))
    }
}

#[via_fn]
proof fn pair_up_decreases(nodes: Seq<BVHNode>, done: Seq<BVHNode>) {
    if nodes.len() >= 2 {
        lemma_nearest_index(nodes.drop_last(), nodes.last());
    }
}

/// Generation after generation, until at most one node remains.
pub open spec fn reduce(nodes: Seq<BVHNode>) -> Seq<BVHNode>
    decreases nodes.len(),
    via reduce_decreases
{
    if nodes.len() <= 1 {
        nodes
    } else {
        reduce(pair_up(nodes, Seq::empty()))
    }
}

#[via_fn]
proof fn reduce_decreases(nodes: Seq<BVHNode>) {
    lemma_pair_up_len(nodes, Seq::empty());
}

/// The leaf around a primitive.
pub open spec fn leaf_of(p: Primitive) -> BVHNode {
    BVHNode::Leaf { bbox: p.bounding_box(), primitive: p }
}

/// One leaf for each primitive, in the same order.
pub open spec fn leaves(primitives: Seq<Primitive>) -> Seq<BVHNode> {
    Seq::new(primitives.len(), |i: int| leaf_of(primitives[i]))
}

/// The tree over `primitives`: none for no primitives, else the one node
/// that remains when the leaves have been reduced.
pub open spec fn built(primitives: Seq<Primitive>) -> Option<BVHNode> {
    if primitives.len() == 0 {
        None
    } else {
        Some(reduce(leaves(primitives))[0])
    }
}

/// Every node of `nodes` is well formed.
pub open spec fn all_wf(nodes: Seq<BVHNode>) -> bool {
    forall|i: int| 0 <= i < nodes.len() ==> (#[trigger] nodes[i]).wf()
}

/// `nearest_index` is the place of the nearest node.
pub proof fn lemma_nearest_index(nodes: Seq<BVHNode>, target: BVHNode)
    requires
        nodes.len() > 0,
    ensures
        is_nearest(nodes, target, nearest_index(nodes, target)),
    decreases nodes.len(),
{
    if nodes.len() > 1 {
        let front = nodes.drop_last();
        lemma_nearest_index(front, target);
        let i = nearest_index(front, target);
        let k = nearest_index(nodes, target);
        assert forall|j: int| 0 <= j < nodes.len() implies centroid_gap(nodes[k], target)
            <= #[trigger] centroid_gap(nodes[j], target) by {
            if j < front.len() {
                assert(front[j] == nodes[j]);
                assert(centroid_gap(front[i], target) <= centroid_gap(front[j], target));
            }
        }
        assert forall|j: int| 0 <= j < k implies centroid_gap(nodes[k], target)
            < #[trigger] centroid_gap(nodes[j], target) by {
            assert(front[j] == nodes[j]);
            assert(centroid_gap(front[i], target) <= centroid_gap(front[j], target));
            if k == i {
                assert(centroid_gap(front[i], target) < centroid_gap(front[j], target));
            }
        }
    }
}

/// The nearest node is found at one place only.
pub proof fn lemma_nearest_unique(nodes: Seq<BVHNode>, target: BVHNode, i: int, k: int)
    requires
        is_nearest(nodes, target, i),
        is_nearest(nodes, target, k),
    ensures
        i == k,
{
    if i < k {
        assert(centroid_gap(nodes[k], target) < centroid_gap(nodes[i], target));
        assert(centroid_gap(nodes[i], target) <= centroid_gap(nodes[k], target));
    } else if k < i {
        assert(centroid_gap(nodes[i], target) < centroid_gap(nodes[k], target));
        assert(centroid_gap(nodes[k], target) <= centroid_gap(nodes[i], target));
    }
}

/// A generation leaves `done` and one node for every two of `nodes`,
/// rounded up.
pub proof fn lemma_pair_up_len(nodes: Seq<BVHNode>, done: Seq<BVHNode>)
    ensures
        pair_up(nodes, done).len() == done.len() + (nodes.len() + 1) / 2,
    decreases nodes.len(),
{
    if nodes.len() >= 2 {
        let last = nodes.last();
        let rest = nodes.drop_last();
        lemma_nearest_index(rest, last);
        let i = nearest_index(rest, last);
        lemma_pair_up_len(swap_removed(rest, i), done.push(join(last, rest[i])));
    }
}

/// The box of a well-formed node is well formed.
pub proof fn lemma_node_box_wf(node: BVHNode)
    requires
        node.wf(),
    ensures
        node.bbox().wf(),
    decreases node,
{
    match node {
        BVHNode::Leaf { bbox, primitive } => {
            lemma_primitive_box_wf(primitive);
        },
        BVHNode::Internal { bbox, left, right } => {
            lemma_node_box_wf(*left);
            lemma_node_box_wf(*right);
        },
    }
}

/// The box of a well-formed primitive is well formed.
pub proof fn lemma_primitive_box_wf(p: Primitive)
    requires
        p.wf(),
    ensures
        p.bounding_box().wf(),
{
}

fn find_nearest(nodes: &Vec<BVHNode>, target: &BVHNode) -> (best: usize)
    requires
        nodes@.len() > 0,
        all_wf(nodes@),
        target.wf(),
    ensures
        is_nearest(nodes@, *target, best as int),
{
    proof {
        lemma_node_box_wf(*target);
        lemma_node_box_wf(nodes@[0]);
    }
    let target_center: Point3 = target.bounding_box().get_center();
    let mut min_dist: i128 = distance2(&nodes[0].bounding_box().get_center(), &target_center);
    let mut min_dist_idx: usize = 0;
    let mut i: usize = 1;
    while i < nodes.len()
        invariant
            1 <= i <= nodes@.len(),
            all_wf(nodes@),
            target.bbox().wf(),
            target_center@ == target.bbox().center(),
            0 <= min_dist_idx < i,
            min_dist == centroid_gap(nodes@[min_dist_idx as int], *target),
            forall|j: int|
                0 <= j < i ==> min_dist <= #[trigger] centroid_gap(nodes@[j], *target),
            forall|j: int|
                0 <= j < min_dist_idx ==> min_dist < #[trigger] centroid_gap(nodes@[j], *target),
        decreases nodes@.len() - i,
    {
        proof {
            lemma_node_box_wf(nodes@[i as int]);
        }
        let d: i128 = distance2(&nodes[i].bounding_box().get_center(), &target_center);
        if d < min_dist {
            min_dist = d;
            min_dist_idx = i;
        }
        i = i + 1;
    }
    min_dist_idx
}

/// The hierarchy over the primitives of a scene.
#[derive(Debug)]
pub struct BoundingVolumeHierarchy {
    pub root: Option<Box<BVHNode>>,
}

impl BoundingVolumeHierarchy {
    /// The root of the tree, if there is one.
    pub open spec fn tree(&self) -> Option<BVHNode> {
        match self.root {
            Some(node) => Some(*node),
            None => None,
        }
    }

    /// The tree, if there is one, is well formed.
    pub open spec fn wf(&self) -> bool {
        match self.root {
            Some(node) => node.wf(),
            None => true,
        }
    }

    /// The primitives of the tree.
    pub open spec fn primitives(&self) -> Seq<Primitive> {
        match self.root {
            Some(node) => node.primitives(),
            None => Seq::empty(),
        }
    }

    /// What `intersect` reports: the hit below the root, nothing without
    /// a tree.
    pub open spec fn hit(&self, ray: &Ray) -> Option<HitInfo> {
        match self.root {
            Some(node) => node.hit(ray),
            None => None,
        }
    }

    /// Builds the tree over `primitives`, bottom up: every primitive gets
    /// a leaf, and generation after generation each node is joined with
    /// the node nearest to it until one node remains.
    pub fn new(primitives: Vec<Primitive>) -> (bvh: BoundingVolumeHierarchy)
        requires
            forall|i: int| 0 <= i < primitives@.len() ==> (#[trigger] primitives@[i]).wf(),
        ensures
            bvh.tree() == built(primitives@),
            bvh.primitives().to_multiset() == primitives@.to_multiset(),
            bvh.wf(),
    {
        proof {
            if primitives@.len() > 0 {
                lemma_built_holds_every_primitive(primitives@);
            } else {
                assert(primitives@ =~= Seq::<Primitive>::empty());
            }
        }
        let mut nodes: Vec<BVHNode> = Vec::with_capacity(primitives.len());
        let mut k: usize = 0;
        while k < primitives.len()
            invariant
                k <= primitives@.len(),
                nodes@.len() == k,
                forall|i: int| 0 <= i < primitives@.len() ==> (#[trigger] primitives@[i]).wf(),
                forall|j: int| 0 <= j < k ==> #[trigger] nodes@[j] == leaf_of(primitives@[j]),
                all_wf(nodes@),
            decreases primitives@.len() - k,
        {
            let node = BVHNode::new_leaf(primitives[k]);
            nodes.push(node);
            k = k + 1;
        }
        assert(nodes@ =~= leaves(primitives@));
        while nodes.len() > 1
            invariant
                nodes@.len() == 0 <==> primitives@.len() == 0,
                all_wf(nodes@),
                reduce(nodes@) == reduce(leaves(primitives@)),
            decreases nodes@.len(),
        {
            let ghost start = nodes@;
            let mut merged_nodes: Vec<BVHNode> = Vec::new();
            while nodes.len() > 1
                invariant
                    all_wf(nodes@),
                    all_wf(merged_nodes@),
                    pair_up(nodes@, merged_nodes@) == pair_up(start, Seq::empty()),
                decreases nodes@.len(),
            {
                let ghost before = nodes@;
                let ghost done = merged_nodes@;
                let last = nodes.pop().unwrap();
                assert(nodes@ == before.drop_last());
                let idx = find_nearest(&nodes, &last);
                proof {
                    lemma_nearest_index(nodes@, last);
                    lemma_nearest_unique(nodes@, last, idx as int, nearest_index(nodes@, last));
                }
                let closest = nodes.swap_remove(idx);
                let joined = BVHNode::new(Box::new(last), Box::new(closest));
                merged_nodes.push(joined);
                assert(joined == join(last, closest));
                assert(nodes@ == swap_removed(before.drop_last(), idx as int));
                assert(pair_up(before, done) == pair_up(nodes@, merged_nodes@));
            }
            if nodes.len() == 1 {
                merged_nodes.push(nodes.pop().unwrap());
            }
            proof {
                lemma_pair_up_len(start, Seq::empty());
                assert(merged_nodes@ == pair_up(start, Seq::empty()));
            }
            nodes = merged_nodes;
        }
        let root = match nodes.pop() {
            Some(node) => Some(Box::new(node)),
            None => None,
        };
        BoundingVolumeHierarchy { root }
    }

    /// The nearest hit of `ray` in the scene.
    pub fn intersect(&self, ray: &Ray) -> (h: Option<HitInfo>)
        requires
            self.wf(),
            ray.wf(),
        ensures
            h == self.hit(ray),
            h matches Some(info) ==> info.wf(),
    {
        match &self.root {
            Some(node) => node.intersect(ray),
            None => None,
        }
    }
}

/// Whether `h` is what a search through all of `primitives` reports:
/// a hit on one of them that no hit on another is nearer than, or no hit
/// when the ray hits none.
pub open spec fn is_nearest_hit(primitives: Seq<Primitive>, ray: Ray, h: Option<HitInfo>) -> bool {
    match h {
        Some(info) => {
            &&& exists|i: int|
                0 <= i < primitives.len() && #[trigger] leaf_hit(primitives[i], ray) == Some(info)
            &&& forall|j: int|
                0 <= j < primitives.len() ==> (#[trigger] leaf_hit(primitives[j], ray) matches Some(
                    other,
                ) ==> info.distance <= other.distance)
        },
        None => forall|j: int|
            0 <= j < primitives.len() ==> #[trigger] leaf_hit(primitives[j], ray) is None,
    }
}

/// A ray that a leaf reports a hit for hits the box of the primitive.
pub proof fn lemma_primitive_hit_in_box(p: Primitive, ray: Ray)
    requires
        p.wf(),
        ray.wf(),
        leaf_hit(p, ray) is Some,
    ensures
        p.bounding_box().hit(&ray) is Some,
{
    match p {
        Primitive::Sphere(s) => {
            lemma_sphere_hit_in_box(s, ray);
        },
        Primitive::Triangle(t) => {
            lemma_triangle_hit_in_box(t, ray);
        },
    }
}

/// A ray that hits a primitive below a node hits the box of the node:
/// no subtree that holds a hit is passed over.
pub proof fn lemma_hit_below_hits_box(node: BVHNode, ray: Ray, j: int)
    requires
        node.wf(),
        ray.wf(),
        0 <= j < node.primitives().len(),
        leaf_hit(node.primitives()[j], ray) is Some,
    ensures
        node.bbox().hit(&ray) is Some,
    decreases node,
{
    match node {
        BVHNode::Leaf { bbox, primitive } => {
            lemma_primitive_hit_in_box(primitive, ray);
        },
        BVHNode::Internal { bbox, left, right } => {
            lemma_merge_encloses(left.bbox(), right.bbox());
            lemma_node_box_wf(*left);
            lemma_node_box_wf(*right);
            if j < left.primitives().len() {
                assert(node.primitives()[j] == left.primitives()[j]);
                lemma_hit_below_hits_box(*left, ray, j);
                lemma_enclosed_hit(left.bbox(), bbox, ray);
            } else {
                let k = j - left.primitives().len();
                assert(node.primitives()[j] == right.primitives()[k]);
                lemma_hit_below_hits_box(*right, ray, k);
                lemma_enclosed_hit(right.bbox(), bbox, ray);
            }
        },
    }
}

/// The nearer of the nearest hits of two collections is the nearest hit
/// of both together.
pub proof fn lemma_nearer_of_nearest(
    a: Seq<Primitive>,
    b: Seq<Primitive>,
    ray: Ray,
    ha: Option<HitInfo>,
    hb: Option<HitInfo>,
)
    requires
        is_nearest_hit(a, ray, ha),
        is_nearest_hit(b, ray, hb),
    ensures
        is_nearest_hit(a + b, ray, nearer(ha, hb)),
{
    let both = a + b;
    let h = nearer(ha, hb);
    assert forall|j: int| 0 <= j < both.len() implies (match h {
        Some(info) => (#[trigger] leaf_hit(both[j], ray) matches Some(other) ==> info.distance
            <= other.distance),
        None => leaf_hit(both[j], ray) is None,
    }) by {
        if j < a.len() {
            assert(both[j] == a[j]);
            assert(leaf_hit(a[j], ray) is Some ==> ha is Some);
        } else {
            assert(both[j] == b[j - a.len()]);
            assert(leaf_hit(b[j - a.len()], ray) is Some ==> hb is Some);
        }
    }
    if let Some(info) = h {
        if h == ha && ha is Some {
            let i = choose|i: int| 0 <= i < a.len() && #[trigger] leaf_hit(a[i], ray) == Some(info);
            assert(both[i] == a[i]);
            assert(leaf_hit(both[i], ray) == Some(info));
        } else {
            assert(h == hb);
            let i = choose|i: int| 0 <= i < b.len() && #[trigger] leaf_hit(b[i], ray) == Some(info);
            assert(both[a.len() + i] == b[i]);
            assert(leaf_hit(both[a.len() + i], ray) == Some(info));
        }
    }
}

/// The search finds the nearest hit: what a node reports is a hit on one
/// of the primitives below it, and no primitive below it is hit nearer;
/// it reports nothing only when the ray hits none of them. A search
/// through all the primitives, one by one, finds the same distance.
pub proof fn lemma_search_finds_nearest(node: BVHNode, ray: Ray)
    requires
        node.wf(),
        ray.wf(),
    ensures
        is_nearest_hit(node.primitives(), ray, node.hit(&ray)),
    decreases node,
{
    match node {
        BVHNode::Leaf { bbox, primitive } => {
            let prims = node.primitives();
            assert(prims[0] == primitive);
            if let Some(info) = node.hit(&ray) {
                assert(leaf_hit(prims[0], ray) == Some(info));
            }
        },
        BVHNode::Internal { bbox, left, right } => {
            if bbox.hit(&ray) is None {
                assert forall|j: int| 0 <= j < node.primitives().len() implies #[trigger] leaf_hit(
                    node.primitives()[j],
                    ray,
                ) is None by {
                    if leaf_hit(node.primitives()[j], ray) is Some {
                        lemma_hit_below_hits_box(node, ray, j);
                    }
                }
            } else {
                lemma_search_finds_nearest(*left, ray);
                lemma_search_finds_nearest(*right, ray);
                lemma_nearer_of_nearest(
                    left.primitives(),
                    right.primitives(),
                    ray,
                    left.hit(&ray),
                    right.hit(&ray),
                );
            }
        },
    }
}

/// The distance of an optional hit.
pub open spec fn distance_of(h: Option<HitInfo>) -> Option<int> {
    match h {
        Some(info) => Some(info.distance as int),
        None => None,
    }
}

/// Two nearest hits among the same primitives lie at the same distance.
pub proof fn lemma_nearest_distance_unique(
    a: Seq<Primitive>,
    b: Seq<Primitive>,
    ray: Ray,
    ha: Option<HitInfo>,
    hb: Option<HitInfo>,
)
    requires
        a.to_multiset() == b.to_multiset(),
        is_nearest_hit(a, ray, ha),
        is_nearest_hit(b, ray, hb),
    ensures
        distance_of(ha) == distance_of(hb),
{
    if let Some(info) = ha {
        let i = choose|i: int| 0 <= i < a.len() && #[trigger] leaf_hit(a[i], ray) == Some(info);
        lemma_same_members(a, b, a[i]);
        let k = choose|k: int| 0 <= k < b.len() && b[k] == a[i];
        assert(leaf_hit(b[k], ray) == Some(info));
        assert(hb is Some);
    }
    if let Some(info) = hb {
        let i = choose|i: int| 0 <= i < b.len() && #[trigger] leaf_hit(b[i], ray) == Some(info);
        lemma_same_members(b, a, b[i]);
        let k = choose|k: int| 0 <= k < a.len() && a[k] == b[i];
        assert(leaf_hit(a[k], ray) == Some(info));
        assert(ha is Some);
    }
}

/// What occurs in one of two rearrangements of a collection occurs in
/// the other.
proof fn lemma_same_members(a: Seq<Primitive>, b: Seq<Primitive>, p: Primitive)
    requires
        a.to_multiset() == b.to_multiset(),
        a.contains(p),
    ensures
        b.contains(p),
{
    vstd::seq_lib::to_multiset_contains(a, p);
    vstd::seq_lib::to_multiset_contains(b, p);
}

/// Two well-formed trees over the same primitives report the same
/// distance for every ray, however they were built.
pub proof fn lemma_same_primitives_same_distance(a: BVHNode, b: BVHNode, ray: Ray)
    requires
        a.wf(),
        b.wf(),
        ray.wf(),
        a.primitives().to_multiset() == b.primitives().to_multiset(),
    ensures
        distance_of(a.hit(&ray)) == distance_of(b.hit(&ray)),
{
    lemma_search_finds_nearest(a, ray);
    lemma_search_finds_nearest(b, ray);
    lemma_nearest_distance_unique(a.primitives(), b.primitives(), ray, a.hit(&ray), b.hit(&ray));
}

/// Two hierarchies built over the same primitives are the same tree, and
/// report the same hit for every ray.
pub proof fn lemma_build_is_repeatable(
    first: BoundingVolumeHierarchy,
    second: BoundingVolumeHierarchy,
    primitives: Seq<Primitive>,
    ray: Ray,
)
    requires
        first.tree() == built(primitives),
        second.tree() == built(primitives),
    ensures
        first.tree() == second.tree(),
        first.hit(&ray) == second.hit(&ray),
{
}

/// The primitives below the nodes of `nodes`, each as often as it
/// occurs.
pub open spec fn held(nodes: Seq<BVHNode>) -> Multiset<Primitive>
    decreases nodes.len(),
{
    if nodes.len() == 0 {
        Multiset::empty()
    } else {
        held(nodes.drop_last()).add(nodes.last().primitives().to_multiset())
    }
}

proof fn lemma_held_one(nodes: Seq<BVHNode>)
    requires
        nodes.len() == 1,
    ensures
        held(nodes) == nodes[0].primitives().to_multiset(),
{
    broadcast use vstd::multiset::group_multiset_axioms;

    assert(nodes.drop_last().len() == 0);
    assert(held(nodes.drop_last()) == Multiset::<Primitive>::empty());
    assert(held(nodes) =~= nodes[0].primitives().to_multiset());
}

proof fn lemma_held_push(nodes: Seq<BVHNode>, node: BVHNode)
    ensures
        held(nodes.push(node)) == held(nodes).add(node.primitives().to_multiset()),
{
    assert(nodes.push(node).drop_last() =~= nodes);
}

proof fn lemma_held_update(nodes: Seq<BVHNode>, i: int, node: BVHNode)
    requires
        0 <= i < nodes.len(),
    ensures
        held(nodes.update(i, node)).add(nodes[i].primitives().to_multiset()) == held(nodes).add(
            node.primitives().to_multiset(),
        ),
    decreases nodes.len(),
{
    broadcast use vstd::multiset::group_multiset_axioms;

    let changed = nodes.update(i, node);
    let front = nodes.drop_last();
    assert(held(nodes) == held(front).add(nodes.last().primitives().to_multiset()));
    assert(held(changed) == held(changed.drop_last()).add(
        changed.last().primitives().to_multiset(),
    ));
    if i == nodes.len() - 1 {
        assert(changed.drop_last() =~= front);
        assert(changed.last() == node);
    } else {
        lemma_held_update(front, i, node);
        assert(changed.drop_last() =~= front.update(i, node));
        assert(changed.last() == nodes.last());
        assert(front[i] == nodes[i]);
    }
    let at_i = nodes[i].primitives().to_multiset();
    let new = node.primitives().to_multiset();
    let at_last = nodes.last().primitives().to_multiset();
    if i == nodes.len() - 1 {
        lemma_add_commutes(held(front), new, at_i);
    } else {
        let changed_front = held(front.update(i, node));
        lemma_add_commutes(changed_front, at_last, at_i);
        lemma_add_commutes(held(front), new, at_last);
    }
}

proof fn lemma_add_commutes(a: Multiset<Primitive>, b: Multiset<Primitive>, c: Multiset<Primitive>)
    ensures
        a.add(b).add(c) == a.add(c).add(b),
{
    broadcast use vstd::multiset::group_multiset_axioms;

    assert(a.add(b).add(c) =~= a.add(c).add(b));
}

proof fn lemma_add_cancels(a: Multiset<Primitive>, b: Multiset<Primitive>, c: Multiset<Primitive>)
    requires
        a.add(c) == b.add(c),
    ensures
        a == b,
{
    broadcast use vstd::multiset::group_multiset_axioms;

    assert forall|p: Primitive| a.count(p) == b.count(p) by {
        assert(a.add(c).count(p) == a.count(p) + c.count(p));
        assert(b.add(c).count(p) == b.count(p) + c.count(p));
    }
    assert(a =~= b);
}

proof fn lemma_held_swap_removed(nodes: Seq<BVHNode>, i: int)
    requires
        0 <= i < nodes.len(),
    ensures
        held(swap_removed(nodes, i)).add(nodes[i].primitives().to_multiset()) == held(nodes),
{
    broadcast use vstd::multiset::group_multiset_axioms;

    let changed = nodes.update(i, nodes.last());
    lemma_held_update(nodes, i, nodes.last());
    assert(changed.last() == nodes.last());
    assert(swap_removed(nodes, i) == changed.drop_last());
    assert(held(changed) == held(changed.drop_last()).add(
        changed.last().primitives().to_multiset(),
    ));
    let at_i = nodes[i].primitives().to_multiset();
    let at_last = nodes.last().primitives().to_multiset();
    lemma_add_commutes(held(swap_removed(nodes, i)), at_last, at_i);
    lemma_add_cancels(held(swap_removed(nodes, i)).add(at_i), held(nodes), at_last);
}

/// A generation keeps the primitives: those below the nodes that it
/// returns are those below the nodes that it was given.
pub proof fn lemma_pair_up_holds(nodes: Seq<BVHNode>, done: Seq<BVHNode>)
    ensures
        held(pair_up(nodes, done)) == held(nodes).add(held(done)),
    decreases nodes.len(),
{
    broadcast use vstd::multiset::group_multiset_axioms;

    if nodes.len() == 0 {
        assert(held(pair_up(nodes, done)) =~= held(nodes).add(held(done)));
    } else if nodes.len() == 1 {
        lemma_held_push(done, nodes[0]);
        lemma_held_one(nodes);
        assert(held(pair_up(nodes, done)) =~= held(nodes).add(held(done)));
    } else {
        let last = nodes.last();
        let rest = nodes.drop_last();
        lemma_nearest_index(rest, last);
        let i = nearest_index(rest, last);
        let next = done.push(join(last, rest[i]));
        lemma_pair_up_holds(swap_removed(rest, i), next);
        lemma_held_push(done, join(last, rest[i]));
        lemma_held_swap_removed(rest, i);
        vstd::seq_lib::lemma_multiset_commutative(last.primitives(), rest[i].primitives());
        assert(held(pair_up(nodes, done)) =~= held(nodes).add(held(done)));
    }
}

/// A generation of well-formed nodes is a sequence of well-formed nodes.
pub proof fn lemma_pair_up_wf(nodes: Seq<BVHNode>, done: Seq<BVHNode>)
    requires
        all_wf(nodes),
        all_wf(done),
    ensures
        all_wf(pair_up(nodes, done)),
    decreases nodes.len(),
{
    if nodes.len() >= 2 {
        let last = nodes.last();
        let rest = nodes.drop_last();
        lemma_nearest_index(rest, last);
        let i = nearest_index(rest, last);
        assert(rest[i] == nodes[i]);
        assert(join(last, rest[i]).wf());
        let fewer = swap_removed(rest, i);
        assert forall|k: int| 0 <= k < fewer.len() implies (#[trigger] fewer[k]).wf() by {
            if k == i {
                assert(fewer[k] == nodes[nodes.len() - 2]);
            } else {
                assert(fewer[k] == nodes[k]);
            }
        }
        lemma_pair_up_wf(fewer, done.push(join(last, rest[i])));
    } else if nodes.len() == 1 {
        assert(nodes[0].wf());
    }
}

/// Reducing well-formed nodes, of which there is at least one, leaves
/// one well-formed node with all the primitives below it.
pub proof fn lemma_reduce(nodes: Seq<BVHNode>)
    requires
        nodes.len() > 0,
        all_wf(nodes),
    ensures
        reduce(nodes).len() == 1,
        reduce(nodes)[0].wf(),
        reduce(nodes)[0].primitives().to_multiset() == held(nodes),
    decreases nodes.len(),
{
    broadcast use vstd::multiset::group_multiset_axioms;

    if nodes.len() == 1 {
        lemma_held_one(nodes);
        assert(nodes[0].wf());
    } else {
        let next = pair_up(nodes, Seq::empty());
        lemma_pair_up_len(nodes, Seq::empty());
        lemma_pair_up_wf(nodes, Seq::empty());
        lemma_pair_up_holds(nodes, Seq::empty());
        lemma_reduce(next);
        assert(held(next) =~= held(nodes));
    }
}

/// The leaves hold the primitives that they were made of.
pub proof fn lemma_leaves_hold(primitives: Seq<Primitive>)
    ensures
        held(leaves(primitives)) == primitives.to_multiset(),
    decreases primitives.len(),
{
    broadcast use vstd::multiset::group_multiset_axioms;

    if primitives.len() == 0 {
        assert(primitives.to_multiset() =~= Multiset::empty()) by {
            vstd::seq_lib::to_multiset_len(primitives);
        }
    } else {
        let front = primitives.drop_last();
        let p = primitives.last();
        lemma_leaves_hold(front);
        assert(leaves(primitives).drop_last() =~= leaves(front));
        assert(leaves(primitives).last() == leaf_of(p));
        assert(primitives =~= front + seq![p]);
        vstd::seq_lib::lemma_multiset_commutative(front, seq![p]);
        assert(leaf_of(p).primitives() == seq![p]);
    }
}

/// The tree built over well-formed primitives is well formed and holds
/// every one of them in exactly one leaf.
pub proof fn lemma_built_holds_every_primitive(primitives: Seq<Primitive>)
    requires
        primitives.len() > 0,
        forall|i: int| 0 <= i < primitives.len() ==> (#[trigger] primitives[i]).wf(),
    ensures
        built(primitives) matches Some(tree) && tree.wf() && tree.primitives().to_multiset()
            == primitives.to_multiset(),
{
    let nodes = leaves(primitives);
    assert forall|i: int| 0 <= i < nodes.len() implies (#[trigger] nodes[i]).wf() by {
        assert(primitives[i].wf());
    }
    lemma_reduce(nodes);
    lemma_leaves_hold(primitives);
}

/// The hierarchy built over a scene finds, for every ray, the nearest
/// hit among the primitives of the scene: a hit on one of them that no
/// other is hit nearer than, and nothing only if the ray hits none.
pub proof fn lemma_hierarchy_finds_nearest(
    bvh: BoundingVolumeHierarchy,
    primitives: Seq<Primitive>,
    ray: Ray,
)
    requires
        forall|i: int| 0 <= i < primitives.len() ==> (#[trigger] primitives[i]).wf(),
        bvh.tree() == built(primitives),
        ray.wf(),
    ensures
        is_nearest_hit(primitives, ray, bvh.hit(&ray)),
{
    if primitives.len() > 0 {
        lemma_built_holds_every_primitive(primitives);
        let tree = built(primitives)->0;
        let below = tree.primitives();
        lemma_search_finds_nearest(tree, ray);
        let h = tree.hit(&ray);
        assert(bvh.hit(&ray) == h);
        assert forall|j: int| 0 <= j < primitives.len() implies (match h {
            Some(info) => (#[trigger] leaf_hit(primitives[j], ray) matches Some(other)
                ==> info.distance <= other.distance),
            None => leaf_hit(primitives[j], ray) is None,
        }) by {
            assert(primitives.contains(primitives[j]));
            lemma_same_members(primitives, below, primitives[j]);
            let k = choose|k: int| 0 <= k < below.len() && below[k] == primitives[j];
            assert(leaf_hit(below[k], ray) == leaf_hit(primitives[j], ray));
        }
        if let Some(info) = h {
            let i = choose|i: int|
                0 <= i < below.len() && #[trigger] leaf_hit(below[i], ray) == Some(info);
            assert(below.contains(below[i]));
            lemma_same_members(below, primitives, below[i]);
            let k = choose|k: int| 0 <= k < primitives.len() && primitives[k] == below[i];
            assert(leaf_hit(primitives[k], ray) == Some(info));
        }
    }
}

} // verus!
