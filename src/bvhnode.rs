use vstd::prelude::*;

use rand::rngs::StdRng;
use crate::aabb::AABB;
use crate::cube::Cube;
use crate::geom::Param;
use crate::hitrecord::HitRecord;
use crate::ray::Ray;
use crate::tree::{
    all_indices, build_random, entropy_rng, seeded_rng, lemma_nearest_transfer, lemma_nearest_unique, lemma_root_holds_scene,
    nearest_in, scene_wf, Node,
};

verus! {

/// The indices `0..n` as a vector.
pub fn index_list(n: usize) -> (r: Vec<usize>)
    ensures
        r@ == all_indices(n as nat),
{
    let mut r: Vec<usize> = Vec::new();
    let mut i: usize = 0;
    while i < n
        invariant
            0 <= i <= n,
            r@ == all_indices(i as nat),
        decreases n - i,
    {
        r.push(i);
        i = i + 1;
        assert(r@ =~= all_indices(i as nat));
    }
    r
}

/// A bounding-volume hierarchy over a scene's boxes, searched with pruning; the split axis
/// of each node is drawn at random.
#[derive(Debug)]
pub struct BVHNode {
    pub objects: Vec<Cube>,
    pub root: Node,
}

impl BVHNode {
    /// The tree holds every box of the scene exactly once and its volumes are unions of
    /// its children's.
    pub open spec fn wf(&self) -> bool {
        &&& scene_wf(self.objects@)
        &&& self.objects@.len() <= usize::MAX
        &&& self.root.wf(self.objects@)
        &&& self.root.objects().to_multiset() == all_indices(self.objects@.len()).to_multiset()
    }

    /// What `hit` promises: the nearest crossing of any box of the scene within
    /// `(t_min, t_max)`, or none when every box is missed; and none without search when the
    /// ray fails the slab test of the whole scene's volume.
    pub open spec fn hit_result(&self, ray: Ray, t_min: Param, t_max: Param, r: Option<HitRecord>) -> bool {
        &&& nearest_in(self.objects@, all_indices(self.objects@.len()), ray, t_min, t_max, r)
        &&& !self.root.bounds_of().slab_hit(ray, t_min, t_max) ==> r.is_none()
    }

    /// Builds the tree with split axes drawn from a generator seeded by the operating system.
    pub fn new(objects: Vec<Cube>) -> (r: BVHNode)
        requires
            objects@.len() >= 1,
            scene_wf(objects@),
        ensures
            r.wf(),
            r.objects@ == objects@,
            r.root.median_split(),
            r.root.ordered_split(objects@, 0, true),
    {
        let mut rng = entropy_rng();
        BVHNode::with_rng(objects, &mut rng)
    }

    /// Builds the tree with split axes drawn from a generator fixed by `seed`.
    pub fn with_seed(objects: Vec<Cube>, seed: u64) -> (r: BVHNode)
        requires
            objects@.len() >= 1,
            scene_wf(objects@),
        ensures
            r.wf(),
            r.objects@ == objects@,
            r.root.median_split(),
            r.root.ordered_split(objects@, 0, true),
    {
        let mut rng = seeded_rng(seed);
        BVHNode::with_rng(objects, &mut rng)
    }

    /// Builds the tree with split axes drawn from the caller's generator.
    pub fn with_rng(objects: Vec<Cube>, rng: &mut StdRng) -> (r: BVHNode)
        requires
            objects@.len() >= 1,
            scene_wf(objects@),
        ensures
            r.wf(),
            r.objects@ == objects@,
            r.root.median_split(),
            r.root.ordered_split(objects@, 0, true),
    {
        let idx = index_list(objects.len());
        let root = build_random(&objects, idx, rng);
        BVHNode { objects, root }
    }

    /// The nearest crossing of a box of the scene within `(t_min, t_max)`.
    pub fn hit(&self, ray: &Ray, t_min: Param, t_max: Param) -> (r: Option<HitRecord>)
        requires
            self.wf(),
            ray.wf(),
            t_min.wf(),
            t_max.wf(),
        ensures
            self.hit_result(*ray, t_min, t_max, r),
    {
        let ghost all = all_indices(self.objects@.len());
        proof {
            lemma_nearest_transfer(
                self.objects@,
                all,
                self.root.objects(),
                *ray,
                t_min,
                t_max,
                None,
            );
        }
        let r = self.root.hit(&self.objects, ray, t_min, t_max);
        proof {
            lemma_nearest_transfer(
                self.objects@,
                self.root.objects(),
                all,
                *ray,
                t_min,
                t_max,
                r,
            );
        }
        r
    }

    /// The volume of the whole scene.
    pub fn bounding_box(&self) -> (r: AABB)
        requires
            self.wf(),
        ensures
            r == self.root.bounds_of(),
            r.wf(),
            forall|i: int| 0 <= i < self.objects@.len() ==> r.contains(#[trigger] self.objects@[i].bounds()),
    {
        proof {
            lemma_root_holds_scene(self.root, self.objects@);
        }
        self.root.bounds()
    }
}

/// The pruned traversal of the tree and a linear scan over every box agree on the nearest
/// hit: both report none, or both report a hit at the same parameter.
pub proof fn lemma_pruned_agrees_with_scan(tree: BVHNode, ray: Ray, t_min: Param, t_max: Param, pruned: Option<HitRecord>, scanned: Option<HitRecord>)
    requires
        tree.wf(),
        ray.wf(),
        t_min.wf(),
        t_max.wf(),
        tree.hit_result(ray, t_min, t_max, pruned),
        nearest_in(tree.objects@, all_indices(tree.objects@.len()), ray, t_min, t_max, scanned),
    ensures
        pruned.is_some() == scanned.is_some(),
        pruned.is_some() ==> pruned.unwrap().t.same_value(scanned.unwrap().t),
{
    lemma_nearest_unique(
        tree.objects@,
        all_indices(tree.objects@.len()),
        ray,
        t_min,
        t_max,
        pruned,
        scanned,
    );
}

} // verus!
