use vstd::prelude::*;

use crate::aabb::AABB;
use crate::bvhnode::{index_list, BVHNode};
use crate::cube::Cube;
use crate::geom::Param;
use crate::hitrecord::HitRecord;
use crate::ray::Ray;
use crate::tree::{
    all_indices, build, cycled_tree, lemma_nearest_lowest_unique, lemma_nearest_transfer, lemma_nearest_unique, lowest_on_tie,
    lemma_root_holds_scene, nearest_in, scene_wf, Node,
};

verus! {

/// A median-split tree over a scene's boxes whose split axis cycles with depth, searched
/// without consulting its volumes.
#[derive(Debug)]
pub struct KdNode {
    pub objects: Vec<Cube>,
    pub root: Node,
}

impl KdNode {
    /// The tree holds every box of the scene exactly once and its volumes are unions of
    /// its children's.
    pub open spec fn wf(&self) -> bool {
        &&& scene_wf(self.objects@)
        &&& self.objects@.len() <= usize::MAX
        &&& self.root.wf(self.objects@)
        &&& self.root.objects().to_multiset() == all_indices(self.objects@.len()).to_multiset()
    }

    /// Builds the tree; the root splits on axis `depth % 3`, each level below on the next.
    pub fn new(objects: Vec<Cube>, depth: u32) -> (r: KdNode)
        requires
            objects@.len() >= 1,
            scene_wf(objects@),
        ensures
            r.wf(),
            r.objects@ == objects@,
            r.root.median_split(),
            r.root.ordered_split(objects@, depth as int, false),
            r.root == cycled_tree(objects@, all_indices(objects@.len()), depth as int),
    {
        let idx = index_list(objects.len());
        let root = build(&objects, idx, depth);
        KdNode { objects, root }
    }

    pub fn from_objects(objects: Vec<Cube>) -> (r: KdNode)
        requires
            objects@.len() >= 1,
            scene_wf(objects@),
        ensures
            r.wf(),
            r.objects@ == objects@,
            r.root.median_split(),
            r.root.ordered_split(objects@, 0, false),
            r.root == cycled_tree(objects@, all_indices(objects@.len()), 0),
    {
        KdNode::new(objects, 0)
    }

    /// The nearest crossing of a box of the scene within `(t_min, t_max)`.
    pub fn hit(&self, ray: &Ray, t_min: Param, t_max: Param) -> (r: Option<HitRecord>)
        requires
            self.wf(),
            ray.wf(),
            t_min.wf(),
            t_max.wf(),
        ensures
            nearest_in(self.objects@, all_indices(self.objects@.len()), *ray, t_min, t_max, r),
            lowest_on_tie(self.objects@, all_indices(self.objects@.len()), *ray, t_min, t_max, r),
    {
        let r = self.root.hit_unpruned(&self.objects, ray, t_min, t_max);
        proof {
            lemma_nearest_transfer(
                self.objects@,
                self.root.objects(),
                all_indices(self.objects@.len()),
                *ray,
                t_min,
                t_max,
                r,
            );
        }
        r
    }

    /// The volume of the whole scene.
    pub fn bounding_box(&self) -> (r: AABB)
        requires
            self.wf(),
        ensures
            r == self.root.bounds_of(),
            r.wf(),
            forall|i: int| 0 <= i < self.objects@.len() ==> r.contains(#[trigger] self.objects@[i].bounds()),
    {
        proof {
            lemma_root_holds_scene(self.root, self.objects@);
        }
        self.root.bounds()
    }
}

/// The unconditional traversal of the tree and a linear scan over every box report the same
/// nearest hit: both none, or the same box at the same parameter (the lowest index on a tie).
pub proof fn lemma_unpruned_matches_scan(tree: KdNode, ray: Ray, t_min: Param, t_max: Param, unpruned: Option<HitRecord>, scanned: Option<HitRecord>)
    requires
        tree.wf(),
        ray.wf(),
        t_min.wf(),
        t_max.wf(),
        nearest_in(tree.objects@, all_indices(tree.objects@.len()), ray, t_min, t_max, unpruned),
        lowest_on_tie(tree.objects@, all_indices(tree.objects@.len()), ray, t_min, t_max, unpruned),
        nearest_in(tree.objects@, all_indices(tree.objects@.len()), ray, t_min, t_max, scanned),
        lowest_on_tie(tree.objects@, all_indices(tree.objects@.len()), ray, t_min, t_max, scanned),
    ensures
        unpruned.is_some() == scanned.is_some(),
        unpruned.is_some() ==> unpruned.unwrap().t.same_value(scanned.unwrap().t)
            && unpruned.unwrap().object == scanned.unwrap().object,
{
    lemma_nearest_lowest_unique(
        tree.objects@,
        all_indices(tree.objects@.len()),
        ray,
        t_min,
        t_max,
        unpruned,
        scanned,
    );
}

/// The pruned traversal of one tree and the unconditional traversal of another over the same
/// boxes agree on the nearest hit: both report none, or both a hit at the same parameter.
pub proof fn lemma_pruned_agrees_with_unpruned(pruned_tree: BVHNode, tree: KdNode, ray: Ray, t_min: Param, t_max: Param, pruned: Option<HitRecord>, unpruned: Option<HitRecord>)
    requires
        pruned_tree.wf(),
        tree.wf(),
        pruned_tree.objects@ == tree.objects@,
        ray.wf(),
        t_min.wf(),
        t_max.wf(),
        pruned_tree.hit_result(ray, t_min, t_max, pruned),
        nearest_in(tree.objects@, all_indices(tree.objects@.len()), ray, t_min, t_max, unpruned),
    ensures
        pruned.is_some() == unpruned.is_some(),
        pruned.is_some() ==> pruned.unwrap().t.same_value(unpruned.unwrap().t),
{
    lemma_nearest_unique(
        tree.objects@,
        all_indices(tree.objects@.len()),
        ray,
        t_min,
        t_max,
        pruned,
        unpruned,
    );
}

} // verus!
