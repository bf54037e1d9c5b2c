use rand::rngs::StdRng;
use rand::{Rng, SeedableRng};
use vstd::prelude::*;

use crate::aabb::{lemma_slab_hit_grows, lemma_union_contains, AABB};
use crate::cube::{lemma_crossing_wf, lemma_face_hit_passes_slab, lemma_misses_shrink, lemma_records_grow, Cube};
use crate::geom::{lemma_le_lt_trans, lemma_lt_le_trans, lemma_same_value, Param, COORD_LIMIT};
use crate::hitrecord::HitRecord;
use crate::ray::Ray;

verus! {

broadcast use {vstd::seq_lib::group_seq_properties, vstd::multiset::group_multiset_axioms};

/// A node of the spatial partition tree: a leaf holds one object of the scene (by index),
/// an interior node two subtrees; each carries a bounding volume.
#[derive(Debug)]
pub enum Node {
    Leaf { object: usize, bounds: AABB },
    Interior { left: Box<Node>, right: Box<Node>, bounds: AABB },
}

/// Every box of the scene is well formed.
pub open spec fn scene_wf(objs: Seq<Cube>) -> bool {
    forall|i: int| 0 <= i < objs.len() ==> (#[trigger] objs[i]).wf()
}

/// The indices `0, 1, ..., n - 1`.
pub open spec fn all_indices(n: nat) -> Seq<usize> {
    Seq::new(n, |i: int| i as usize)
}

/// `r` is a crossing of the box under some index of `os` within `(t_min, t_max)`, or nothing.
pub open spec fn found_in(objs: Seq<Cube>, os: Seq<usize>, ray: Ray, t_min: Param, t_max: Param, r: Option<HitRecord>) -> bool {
    match r {
        None => true,
        Some(h) => {
            &&& os.contains(h.object)
            &&& h.object < objs.len()
            &&& objs[h.object as int].records(h.object, ray, t_min, t_max, h)
            &&& h.t.wf()
        },
    }
}

/// `r` is the nearest crossing within `(t_min, t_max)` of any box under an index of `os`:
/// none when all of them are missed; else no box is crossed strictly before it.
pub open spec fn nearest_in(objs: Seq<Cube>, os: Seq<usize>, ray: Ray, t_min: Param, t_max: Param, r: Option<HitRecord>) -> bool {
    &&& found_in(objs, os, ray, t_min, t_max, r)
    &&& match r {
        None => forall|k: int|
            0 <= k < os.len() ==> (#[trigger] objs[os[k] as int]).misses(ray, t_min, t_max),
        Some(h) => forall|k: int|
            0 <= k < os.len() ==> (#[trigger] objs[os[k] as int]).misses(ray, t_min, h.t),
    }
}

/// On a tie the reported box has the lowest index: no box under an index of `os` below
/// `h.object` is crossed within `(t_min, t_max)` at the parameter of `h`.
pub open spec fn lowest_on_tie(objs: Seq<Cube>, os: Seq<usize>, ray: Ray, t_min: Param, t_max: Param, r: Option<HitRecord>) -> bool {
    match r {
        None => true,
        Some(h) => forall|k: int|
            0 <= k < os.len() && os[k] < h.object ==> !(#[trigger] objs[os[k] as int]).crosses_at(
                ray,
                t_min,
                t_max,
                h.t,
            ),
    }
}

impl Node {
    pub open spec fn bounds_of(self) -> AABB {
        match self {
            Node::Leaf { bounds, .. } => bounds,
            Node::Interior { bounds, .. } => bounds,
        }
    }

    /// The indices of the objects held under this node, left to right.
    pub open spec fn objects(self) -> Seq<usize>
        decreases self,
    {
        match self {
            Node::Leaf { object, .. } => seq![object],
            Node::Interior { left, right, .. } => left.objects() + right.objects(),
        }
    }

    /// A leaf's volume is its object's; an interior node's is the union of its children's.
    pub open spec fn wf(self, objs: Seq<Cube>) -> bool
        decreases self,
    {
        match self {
            Node::Leaf { object, bounds } => object < objs.len() && bounds == objs[object as int].bounds(),
            Node::Interior { left, right, bounds } => {
                &&& left.wf(objs)
                &&& right.wf(objs)
                &&& bounds == AABB::union_of(left.bounds_of(), right.bounds_of())
            },
        }
    }

    /// Every interior node's volume holds both children's volumes.
    pub open spec fn encloses(self) -> bool
        decreases self,
    {
        match self {
            Node::Leaf { .. } => true,
            Node::Interior { left, right, bounds } => {
                &&& bounds.contains(left.bounds_of())
                &&& bounds.contains(right.bounds_of())
                &&& left.encloses()
                &&& right.encloses()
            },
        }
    }

    /// Every interior node holds the first half (rounded down) of its objects on the left.
    pub open spec fn median_split(self) -> bool
        decreases self,
    {
        match self {
            Node::Leaf { .. } => true,
            Node::Interior { left, right, .. } => {
                &&& left.objects().len() == (left.objects().len() + right.objects().len()) / 2
                &&& left.median_split()
                &&& right.median_split()
            },
        }
    }

    /// Every interior node's left objects have minima on its split axis no greater than its
    /// right objects'. The axis is `depth % 3` at the root and the next one down each level,
    /// or, with `randomized`, any axis at each node.
    pub open spec fn ordered_split(self, objs: Seq<Cube>, depth: int, randomized: bool) -> bool
        decreases self,
    {
        match self {
            Node::Leaf { .. } => true,
            Node::Interior { left, right, .. } => {
                &&& exists|a: int|
                    0 <= a < 3 && (randomized || a == depth % 3) && #[trigger] keys_ordered(
                        objs,
                        left.objects(),
                        right.objects(),
                        a,
                    )
                &&& left.ordered_split(objs, depth % 3 + 1, randomized)
                &&& right.ordered_split(objs, depth % 3 + 1, randomized)
            },
        }
    }

    pub fn bounds(&self) -> (r: AABB)
        ensures
            r == self.bounds_of(),
    {
        match self {
            Node::Leaf { bounds, .. } => *bounds,
            Node::Interior { bounds, .. } => *bounds,
        }
    }

    /// A well-formed node's volume is well formed and holds each object beneath it.
    pub proof fn lemma_bounds_hold_objects(self, objs: Seq<Cube>)
        requires
            scene_wf(objs),
            self.wf(objs),
        ensures
            self.bounds_of().wf(),
            forall|k: int| 0 <= k < self.objects().len() ==> #[trigger] self.objects()[k] < objs.len(),
            forall|k: int|
                0 <= k < self.objects().len() ==> self.bounds_of().contains(
                    (#[trigger] objs[self.objects()[k] as int]).bounds(),
                ),
        decreases self,
    {
        match self {
            Node::Leaf { object, bounds } => {
                assert(objs[object as int].wf());
                assert(self.objects() =~= seq![object]);
                assert(self.objects()[0] == object);
            },
            Node::Interior { left, right, bounds } => {
                left.lemma_bounds_hold_objects(objs);
                right.lemma_bounds_hold_objects(objs);
                lemma_union_contains(left.bounds_of(), right.bounds_of());
                let os = self.objects();
                let lo = left.objects();
                assert forall|k: int| 0 <= k < os.len() implies #[trigger] os[k] < objs.len() by {
                    if k < lo.len() {
                        assert(os[k] == lo[k]);
                    } else {
                        assert(os[k] == right.objects()[k - lo.len()]);
                    }
                }
                assert forall|k: int| 0 <= k < os.len() implies self.bounds_of().contains(
                    (#[trigger] objs[os[k] as int]).bounds(),
                ) by {
                    if k < lo.len() {
                        assert(os[k] == lo[k]);
                        assert(left.bounds_of().contains(objs[lo[k] as int].bounds()));
                    } else {
                        let ro = right.objects();
                        assert(os[k] == ro[k - lo.len()]);
                        assert(right.bounds_of().contains(objs[ro[k - lo.len()] as int].bounds()));
                    }
                }
            },
        }
    }
}

/// The sort key of an object: its bounding volume's minimum on `axis`.
pub open spec fn key(objs: Seq<Cube>, i: usize, axis: int) -> int {
    objs[i as int].min.coord(axis)
}

/// Object `i` comes no later than object `j` in the order by minimum on `axis`, ties broken
/// by index.
pub open spec fn key_le(objs: Seq<Cube>, i: usize, j: usize, axis: int) -> bool {
    key(objs, i, axis) < key(objs, j, axis) || (key(objs, i, axis) == key(objs, j, axis) && i
        <= j)
}

/// `s` is ordered by `key_le`.
pub open spec fn key_sorted(objs: Seq<Cube>, s: Seq<usize>, axis: int) -> bool {
    forall|a: int, b: int| 0 <= a < b < s.len() ==> key_le(objs, #[trigger] s[a], #[trigger] s[b], axis)
}

/// Every object of `a` has a minimum on `axis` no greater than every object of `b`.
pub open spec fn keys_ordered(objs: Seq<Cube>, a: Seq<usize>, b: Seq<usize>, axis: int) -> bool {
    forall|i: int, j: int|
        0 <= i < a.len() && 0 <= j < b.len() ==> key(objs, #[trigger] a[i], axis) <= key(
            objs,
            #[trigger] b[j],
            axis,
        )
}

/// Key order between two groups carries over to groups with the same members.
proof fn lemma_keys_ordered_members(objs: Seq<Cube>, a: Seq<usize>, b: Seq<usize>, a2: Seq<usize>, b2: Seq<usize>, axis: int)
    requires
        keys_ordered(objs, a, b, axis),
        a.to_multiset() == a2.to_multiset(),
        b.to_multiset() == b2.to_multiset(),
    ensures
        keys_ordered(objs, a2, b2, axis),
{
    broadcast use vstd::seq_lib::to_multiset_contains;

    assert forall|i: int, j: int| 0 <= i < a2.len() && 0 <= j < b2.len() implies key(
        objs,
        #[trigger] a2[i],
        axis,
    ) <= key(objs, #[trigger] b2[j], axis) by {
        assert(a2.contains(a2[i]));
        assert(a2.to_multiset().count(a2[i]) > 0);
        assert(a.contains(a2[i]));
        assert(b2.contains(b2[j]));
        assert(b2.to_multiset().count(b2[j]) > 0);
        assert(b.contains(b2[j]));
        let ia = choose|k: int| 0 <= k < a.len() && a[k] == a2[i];
        let jb = choose|k: int| 0 <= k < b.len() && b[k] == b2[j];
        assert(key(objs, a[ia], axis) <= key(objs, b[jb], axis));
    }
}

/// The indices of `idx` in the order `key_le` on `axis`.
pub open spec fn sorted_on(objs: Seq<Cube>, idx: Seq<usize>, axis: int) -> Seq<usize> {
    choose|s: Seq<usize>| s.to_multiset() == idx.to_multiset() && key_sorted(objs, s, axis)
}

/// The tree that the cycled build makes over `idx`: the indices sorted on axis `depth % 3`
/// (ties by index), a leaf for a single one, else the first half (rounded down) on the left
/// and the rest on the right, built one axis further on.
pub open spec fn cycled_tree(objs: Seq<Cube>, idx: Seq<usize>, depth: int) -> Node
    decreases idx.len(),
{
    let s = sorted_on(objs, idx, depth % 3);
    if idx.len() <= 1 {
        Node::Leaf { object: s[0], bounds: objs[s[0] as int].bounds() }
    } else {
        let mid = idx.len() / 2;
        let l = cycled_tree(objs, Seq::new(mid as nat, |k: int| s[k]), depth % 3 + 1);
        let r = cycled_tree(
            objs,
            Seq::new((idx.len() - mid) as nat, |k: int| s[mid + k]),
            depth % 3 + 1,
        );
        Node::Interior {
            left: Box::new(l),
            right: Box::new(r),
            bounds: AABB::union_of(l.bounds_of(), r.bounds_of()),
        }
    }
}

/// Two orderings by `key_le` of the same indices are the same sequence.
proof fn lemma_key_sorted_unique(objs: Seq<Cube>, s1: Seq<usize>, s2: Seq<usize>, axis: int)
    requires
        s1.to_multiset() == s2.to_multiset(),
        key_sorted(objs, s1, axis),
        key_sorted(objs, s2, axis),
    ensures
        s1 == s2,
    decreases s1.len(),
{
    broadcast use {
        vstd::seq_lib::to_multiset_contains,
        vstd::seq_lib::to_multiset_len,
        vstd::seq_lib::to_multiset_remove,
    };

    assert(s1.len() == s1.to_multiset().len());
    assert(s2.len() == s2.to_multiset().len());
    if s1.len() == 0 {
        assert(s1 =~= s2);
    } else {
        assert(s1.to_multiset().count(s1[0]) > 0);
        assert(s2.contains(s1[0]));
        let k2 = choose|k: int| 0 <= k < s2.len() && s2[k] == s1[0];
        assert(s2.to_multiset().count(s2[0]) > 0);
        assert(s1.contains(s2[0]));
        let k1 = choose|k: int| 0 <= k < s1.len() && s1[k] == s2[0];
        if k2 > 0 {
            assert(key_le(objs, s2[0], s2[k2], axis));
        }
        if k1 > 0 {
            assert(key_le(objs, s1[0], s1[k1], axis));
        }
        assert(s1[0] == s2[0]);
        let t1 = s1.drop_first();
        let t2 = s2.drop_first();
        assert(s1.remove(0) =~= t1);
        assert(s2.remove(0) =~= t2);
        assert(t1.to_multiset() == t2.to_multiset());
        assert forall|a: int, b: int| 0 <= a < b < t1.len() implies key_le(
            objs,
            #[trigger] t1[a],
            #[trigger] t1[b],
            axis,
        ) by {
            assert(t1[a] == s1[a + 1] && t1[b] == s1[b + 1]);
        }
        assert forall|a: int, b: int| 0 <= a < b < t2.len() implies key_le(
            objs,
            #[trigger] t2[a],
            #[trigger] t2[b],
            axis,
        ) by {
            assert(t2[a] == s2[a + 1] && t2[b] == s2[b + 1]);
        }
        lemma_key_sorted_unique(objs, t1, t2, axis);
        assert forall|i: int| 0 <= i < s1.len() implies s1[i] == s2[i] by {
            if i > 0 {
                assert(s1[i] == t1[i - 1] && s2[i] == t2[i - 1]);
            }
        }
        assert(s1 =~= s2);
    }
}

/// Every index of `idx` names an object of the scene.
pub open spec fn indices_valid(objs: Seq<Cube>, idx: Seq<usize>) -> bool {
    forall|k: int| 0 <= k < idx.len() ==> #[trigger] idx[k] < objs.len()
}

proof fn lemma_swap_multiset(s: Seq<usize>, i: int, j: int)
    requires
        0 <= i < s.len(),
        0 <= j < s.len(),
    ensures
        s.update(i, s[j]).update(j, s[i]).to_multiset() =~= s.to_multiset(),
{
    broadcast use vstd::seq_lib::to_multiset_update;

    let s1 = s.update(i, s[j]);
    assert(s1.to_multiset() == s.to_multiset().insert(s[j]).remove(s[i]));
    assert(s1.update(j, s[i]).to_multiset() == s1.to_multiset().insert(s[i]).remove(s1[j]));
}

/// Sorts object indices by the objects' bounding-volume minimum on `axis`, ties by index
/// (insertion sort).
pub fn sort_by_axis(objs: &Vec<Cube>, idx: &mut Vec<usize>, axis: usize)
    requires
        axis < 3,
        indices_valid(objs@, old(idx)@),
    ensures
        final(idx)@.len() == old(idx)@.len(),
        final(idx)@.to_multiset() == old(idx)@.to_multiset(),
        indices_valid(objs@, final(idx)@),
        forall|a: int, b: int|
            0 <= a < b < final(idx)@.len() ==> key_le(objs@, final(idx)@[a], final(idx)@[b], axis as int),
{
    let n = idx.len();
    let ghost orig = idx@;
    let mut i: usize = 1;
    while i < n
        invariant
            axis < 3,
            idx@.len() == n,
            idx@.to_multiset() == orig.to_multiset(),
            indices_valid(objs@, idx@),
            forall|a: int, b: int|
                0 <= a < b < i && b < n ==> key_le(objs@, idx@[a], idx@[b], axis as int),
        decreases n - i,
    {
        let mut j: usize = i;
        while j > 0 && (objs[idx[j - 1]].min.get(axis) > objs[idx[j]].min.get(axis) || (objs[idx[
            j - 1]].min.get(axis) == objs[idx[j]].min.get(axis) && idx[j - 1] > idx[j]))
            invariant
                axis < 3,
                0 <= j <= i < n,
                idx@.len() == n,
                idx@.to_multiset() == orig.to_multiset(),
                indices_valid(objs@, idx@),
                forall|a: int, b: int|
                    0 <= a < b <= i && a != j && b != j ==> key_le(objs@, idx@[a], idx@[b], axis as int),
                forall|b: int|
                    j < b <= i ==> key_le(objs@, idx@[j as int], idx@[b], axis as int),
            decreases j,
        {
            let x = idx[j];
            let y = idx[j - 1];
            proof {
                lemma_swap_multiset(idx@, j as int, j - 1);
            }
            idx.set(j, y);
            idx.set(j - 1, x);
            j = j - 1;
        }
        proof {
            assert forall|a: int, b: int| 0 <= a < b <= i implies key_le(
                objs@,
                #[trigger] idx@[a],
                #[trigger] idx@[b],
                axis as int,
            ) by {
                if b == j && a < j - 1 {
                    assert(key_le(objs@, idx@[a], idx@[j - 1], axis as int));
                    assert(key_le(objs@, idx@[j - 1], idx@[j as int], axis as int));
                }
            }
        }
        i = i + 1;
    }
}

/// rand's standard seedable generator, carried through the random build.
#[verifier::external_type_specification]
#[verifier::external_body]
pub struct ExStdRng(StdRng);

/// Relies on rand's `SeedableRng::from_entropy`: a generator seeded by the operating system.
#[verifier::external_body]
pub(crate) fn entropy_rng() -> StdRng {
    StdRng::from_entropy()
}

/// Relies on rand's `SeedableRng::seed_from_u64`: a generator fixed by `seed`.
#[verifier::external_body]
pub(crate) fn seeded_rng(seed: u64) -> StdRng {
    StdRng::seed_from_u64(seed)
}

/// Relies on rand's `Rng::gen_range`: a value drawn from `0..3`.
#[verifier::external_body]
fn draw_axis(rng: &mut StdRng) -> (r: usize)
    ensures
        r < 3,
{
    rng.gen_range(0..3)
}

/// Builds a tree over the objects under `idx`: sorts them on axis `depth % 3` (ties by
/// index), makes a leaf of a single object, and otherwise splits at the median index, builds
/// both halves on the next axis and joins their volumes.
pub fn build(objs: &Vec<Cube>, idx: Vec<usize>, depth: u32) -> (r: Node)
    requires
        idx@.len() >= 1,
        scene_wf(objs@),
        indices_valid(objs@, idx@),
    ensures
        r.wf(objs@),
        r.objects().to_multiset() == idx@.to_multiset(),
        r.objects().len() == idx@.len(),
        r.median_split(),
        r.ordered_split(objs@, depth as int, false),
        r == cycled_tree(objs@, idx@, depth as int),
    decreases idx@.len(),
{
    let axis: usize = (depth % 3) as usize;
    let mut idx = idx;
    let ghost orig = idx@;
    sort_by_axis(objs, &mut idx, axis);
    proof {
        assert(key_sorted(objs@, idx@, axis as int));
        let s = sorted_on(objs@, orig, axis as int);
        assert(s.to_multiset() == orig.to_multiset() && key_sorted(objs@, s, axis as int));
        lemma_key_sorted_unique(objs@, s, idx@, axis as int);
        assert(depth as int % 3 == axis as int);
    }
    let n = idx.len();
    if n == 1 {
        let object = idx[0];
        let r = Node::Leaf { object, bounds: objs[object].bounding_box() };
        proof {
            assert(r.objects() =~= idx@);
        }
        r
    } else {
        let mid = n / 2;
        let ghost sorted = idx@;
        let right_idx = idx.split_off(mid);
        assert(sorted =~= idx@ + right_idx@);
        let next = depth % 3 + 1;
        proof {
            assert(idx@ =~= Seq::new(mid as nat, |k: int| sorted[k]));
            assert(right_idx@ =~= Seq::new((n - mid) as nat, |k: int| sorted[mid + k]));
        }
        let left = build(objs, idx, next);
        let right = build(objs, right_idx, next);
        let bounds = left.bounds().union(&right.bounds());
        let r = Node::Interior { left: Box::new(left), right: Box::new(right), bounds };
        proof {
            vstd::seq_lib::lemma_multiset_commutative(left.objects(), right.objects());
            vstd::seq_lib::lemma_multiset_commutative(idx@, right_idx@);
            assert(keys_ordered(objs@, idx@, right_idx@, axis as int)) by {
                assert forall|i: int, j: int|
                    0 <= i < idx@.len() && 0 <= j < right_idx@.len() implies key(
                    objs@,
                    #[trigger] idx@[i],
                    axis as int,
                ) <= key(objs@, #[trigger] right_idx@[j], axis as int) by {
                    assert(idx@[i] == sorted[i]);
                    assert(right_idx@[j] == sorted[mid + j]);
                    assert(key_le(objs@, sorted[i], sorted[mid + j], axis as int));
                }
            }
            lemma_keys_ordered_members(
                objs@,
                idx@,
                right_idx@,
                left.objects(),
                right.objects(),
                axis as int,
            );
            assert(keys_ordered(objs@, left.objects(), right.objects(), axis as int));
            assert(depth as int % 3 + 1 == next as int);
        }
        r
    }
}

/// Builds a tree over the objects under `idx` as `build` does, but sorts each node's objects
/// on an axis drawn from `rng` (the caller's generator, seeded as the caller chooses).
pub fn build_random(objs: &Vec<Cube>, idx: Vec<usize>, rng: &mut StdRng) -> (r: Node)
    requires
        idx@.len() >= 1,
        scene_wf(objs@),
        indices_valid(objs@, idx@),
    ensures
        r.wf(objs@),
        r.objects().to_multiset() == idx@.to_multiset(),
        r.objects().len() == idx@.len(),
        r.median_split(),
        r.ordered_split(objs@, 0, true),
    decreases idx@.len(),
{
    let axis: usize = draw_axis(rng);
    let mut idx = idx;
    let ghost orig = idx@;
    sort_by_axis(objs, &mut idx, axis);
    let n = idx.len();
    if n == 1 {
        let object = idx[0];
        let r = Node::Leaf { object, bounds: objs[object].bounding_box() };
        proof {
            assert(r.objects() =~= idx@);
        }
        r
    } else {
        let mid = n / 2;
        let ghost sorted = idx@;
        let right_idx = idx.split_off(mid);
        assert(sorted =~= idx@ + right_idx@);
        let left = build_random(objs, idx, rng);
        let right = build_random(objs, right_idx, rng);
        let bounds = left.bounds().union(&right.bounds());
        let r = Node::Interior { left: Box::new(left), right: Box::new(right), bounds };
        proof {
            vstd::seq_lib::lemma_multiset_commutative(left.objects(), right.objects());
            vstd::seq_lib::lemma_multiset_commutative(idx@, right_idx@);
            assert(keys_ordered(objs@, idx@, right_idx@, axis as int)) by {
                assert forall|i: int, j: int|
                    0 <= i < idx@.len() && 0 <= j < right_idx@.len() implies key(
                    objs@,
                    #[trigger] idx@[i],
                    axis as int,
                ) <= key(objs@, #[trigger] right_idx@[j], axis as int) by {
                    assert(idx@[i] == sorted[i]);
                    assert(right_idx@[j] == sorted[mid + j]);
                    assert(key_le(objs@, sorted[i], sorted[mid + j], axis as int));
                }
            }
            lemma_keys_ordered_members(
                objs@,
                idx@,
                right_idx@,
                left.objects(),
                right.objects(),
                axis as int,
            );
            assert(keys_ordered(objs@, left.objects(), right.objects(), axis as int));
            lemma_ordered_split_any(left, objs@, 0, 1);
            lemma_ordered_split_any(right, objs@, 0, 1);
        }
        r
    }
}

/// With every axis allowed, the starting depth does not matter.
proof fn lemma_ordered_split_any(node: Node, objs: Seq<Cube>, d1: int, d2: int)
    requires
        node.ordered_split(objs, d1, true),
    ensures
        node.ordered_split(objs, d2, true),
    decreases node,
{
    if let Node::Interior { left, right, .. } = node {
        lemma_ordered_split_any(*left, objs, d1 % 3 + 1, d2 % 3 + 1);
        lemma_ordered_split_any(*right, objs, d1 % 3 + 1, d2 % 3 + 1);
        let a = choose|a: int|
            0 <= a < 3 && (true || a == d1 % 3) && #[trigger] keys_ordered(
                objs,
                left.objects(),
                right.objects(),
                a,
            );
        assert(keys_ordered(objs, left.objects(), right.objects(), a));
    }
}

/// The nearest hit over two groups of objects, from the nearest over the first group in
/// `(t_min, t_max)` and the nearest over the second group before the first one's hit.
proof fn lemma_join_pruned(objs: Seq<Cube>, a: Seq<usize>, b: Seq<usize>, ray: Ray, t_min: Param, t_max: Param, r1: Option<HitRecord>, r2: Option<HitRecord>)
    requires
        scene_wf(objs),
        ray.wf(),
        t_min.wf(),
        t_max.wf(),
        indices_valid(objs, a),
        indices_valid(objs, b),
        r1.is_some(),
        found_in(objs, a, ray, t_min, t_max, r1),
        found_in(objs, b, ray, t_min, r1.unwrap().t, r2),
        nearest_in(objs, a, ray, t_min, t_max, r1),
        nearest_in(objs, b, ray, t_min, r1.unwrap().t, r2),
    ensures
        r2.is_some() ==> r2.unwrap().t.lt(r1.unwrap().t),
        found_in(objs, a + b, ray, t_min, t_max, if r2.is_some() { r2 } else { r1 }),
        nearest_in(objs, a + b, ray, t_min, t_max, if r2.is_some() { r2 } else { r1 }),
{
    let h1 = r1.unwrap();
    let ab = a + b;
    assert(t_max.le(t_max));
    lemma_records_grow(objs[h1.object as int], h1.object, ray, t_min, t_max, t_max, h1);
    assert(h1.t.lt(t_max));
    assert(h1.t.le(t_max));
    if r2.is_some() {
        let h2 = r2.unwrap();
        assert(h2.t.lt(h1.t));
        lemma_records_grow(objs[h2.object as int], h2.object, ray, t_min, h1.t, t_max, h2);
        let k2 = choose|k: int| 0 <= k < b.len() && b[k] == h2.object;
        assert(ab[a.len() + k2] == h2.object);
        {
            assert forall|k: int| 0 <= k < ab.len() implies (#[trigger] objs[ab[k] as int]).misses(
                ray,
                t_min,
                h2.t,
            ) by {
                if k < a.len() {
                    assert(ab[k] == a[k]);
                    assert(objs[a[k] as int].misses(ray, t_min, h1.t));
                    assert(objs[a[k] as int].wf());
                    lemma_misses_shrink(objs[a[k] as int], ray, t_min, h1.t, h2.t);
                } else {
                    assert(ab[k] == b[k - a.len()]);
                }
            }
        }
    } else {
        let k1 = choose|k: int| 0 <= k < a.len() && a[k] == h1.object;
        assert(ab[k1] == h1.object);
        {
            assert forall|k: int| 0 <= k < ab.len() implies (#[trigger] objs[ab[k] as int]).misses(
                ray,
                t_min,
                h1.t,
            ) by {
                if k < a.len() {
                    assert(ab[k] == a[k]);
                } else {
                    assert(ab[k] == b[k - a.len()]);
                }
            }
        }
    }
}

/// The nearest hit over two groups of objects when the first group has none in
/// `(t_min, t_max)`.
proof fn lemma_join_missed(objs: Seq<Cube>, a: Seq<usize>, b: Seq<usize>, ray: Ray, t_min: Param, t_max: Param, r2: Option<HitRecord>)
    requires
        scene_wf(objs),
        ray.wf(),
        t_min.wf(),
        t_max.wf(),
        indices_valid(objs, a),
        indices_valid(objs, b),
        found_in(objs, b, ray, t_min, t_max, r2),
        nearest_in(objs, a, ray, t_min, t_max, None),
        nearest_in(objs, b, ray, t_min, t_max, r2),
    ensures
        found_in(objs, a + b, ray, t_min, t_max, r2),
        nearest_in(objs, a + b, ray, t_min, t_max, r2),
{
    let ab = a + b;
    if r2.is_some() {
        let h2 = r2.unwrap();
        let k2 = choose|k: int| 0 <= k < b.len() && b[k] == h2.object;
        assert(ab[a.len() + k2] == h2.object);
        lemma_crossing_lt(objs[h2.object as int], ray, t_min, t_max, h2);
        {
            assert forall|k: int| 0 <= k < ab.len() implies (#[trigger] objs[ab[k] as int]).misses(
                ray,
                t_min,
                h2.t,
            ) by {
                if k < a.len() {
                    assert(ab[k] == a[k]);
                    assert(objs[a[k] as int].wf());
                    lemma_misses_shrink(objs[a[k] as int], ray, t_min, t_max, h2.t);
                } else {
                    assert(ab[k] == b[k - a.len()]);
                }
            }
        }
    } else {
        assert forall|k: int| 0 <= k < ab.len() implies (#[trigger] objs[ab[k] as int]).misses(
            ray,
            t_min,
            t_max,
        ) by {
            if k < a.len() {
                assert(ab[k] == a[k]);
            } else {
                assert(ab[k] == b[k - a.len()]);
            }
        }
    }
}

proof fn lemma_crossing_lt(c: Cube, ray: Ray, t_min: Param, t_max: Param, h: HitRecord)
    requires
        c.wf(),
        ray.wf(),
        c.records(h.object, ray, t_min, t_max, h),
    ensures
        h.t.le(t_max),
{
}

/// Two index sequences with the same members in the same numbers give the same results.
pub proof fn lemma_nearest_transfer(objs: Seq<Cube>, s1: Seq<usize>, s2: Seq<usize>, ray: Ray, t_min: Param, t_max: Param, r: Option<HitRecord>)
    requires
        s1.to_multiset() == s2.to_multiset(),
    ensures
        found_in(objs, s1, ray, t_min, t_max, r) ==> found_in(objs, s2, ray, t_min, t_max, r),
        nearest_in(objs, s1, ray, t_min, t_max, r) ==> nearest_in(objs, s2, ray, t_min, t_max, r),
        lowest_on_tie(objs, s1, ray, t_min, t_max, r) ==> lowest_on_tie(objs, s2, ray, t_min, t_max, r),
{
    broadcast use vstd::seq_lib::to_multiset_contains;

    assert forall|x: usize| s1.contains(x) <==> s2.contains(x) by {
        assert(s1.contains(x) <==> s1.to_multiset().count(x) > 0);
        assert(s2.contains(x) <==> s2.to_multiset().count(x) > 0);
    }
    assert forall|k: int| 0 <= k < s2.len() implies exists|j: int|
        0 <= j < s1.len() && s1[j] == #[trigger] s2[k] by {
        assert(s2.contains(s2[k]));
        assert(s1.contains(s2[k]));
    }
    if lowest_on_tie(objs, s1, ray, t_min, t_max, r) && r.is_some() {
        let h = r.unwrap();
        assert forall|k: int| 0 <= k < s2.len() && s2[k] < h.object implies !(
        #[trigger] objs[s2[k] as int]).crosses_at(ray, t_min, t_max, h.t) by {
            let j = choose|j: int| 0 <= j < s1.len() && s1[j] == s2[k];
            assert(!objs[s1[j] as int].crosses_at(ray, t_min, t_max, h.t));
        }
    }
    if nearest_in(objs, s1, ray, t_min, t_max, r) {
        match r {
            None => {
                assert forall|k: int| 0 <= k < s2.len() implies (#[trigger] objs[s2[k] as int]).misses(
                    ray,
                    t_min,
                    t_max,
                ) by {
                    let j = choose|j: int| 0 <= j < s1.len() && s1[j] == s2[k];
                    assert(objs[s1[j] as int].misses(ray, t_min, t_max));
                }
            },
            Some(h) => {
                assert forall|k: int| 0 <= k < s2.len() implies (#[trigger] objs[s2[k] as int]).misses(
                    ray,
                    t_min,
                    h.t,
                ) by {
                    let j = choose|j: int| 0 <= j < s1.len() && s1[j] == s2[k];
                    assert(objs[s1[j] as int].misses(ray, t_min, h.t));
                }
            },
        }
    }
}

/// A ray that fails a node's slab test crosses none of the boxes beneath it.
proof fn lemma_slab_miss_misses_all(node: Node, objs: Seq<Cube>, ray: Ray, t_min: Param, t_max: Param)
    requires
        scene_wf(objs),
        node.wf(objs),
        ray.wf(),
        t_min.wf(),
        t_max.wf(),
        !node.bounds_of().slab_hit(ray, t_min, t_max),
    ensures
        forall|k: int|
            0 <= k < node.objects().len() ==> (#[trigger] objs[node.objects()[k] as int]).misses(
                ray,
                t_min,
                t_max,
            ),
{
    node.lemma_bounds_hold_objects(objs);
    let os = node.objects();
    assert forall|k: int| 0 <= k < os.len() implies (#[trigger] objs[os[k] as int]).misses(
        ray,
        t_min,
        t_max,
    ) by {
        let c = objs[os[k] as int];
        assert(os[k] < objs.len());
        assert(c.wf());
        assert forall|a: int, s: bool| !#[trigger] c.face_hit(ray, a, s, t_min, t_max) by {
            if c.face_hit(ray, a, s, t_min, t_max) {
                lemma_face_hit_passes_slab(c, ray, a, s, t_min, t_max);
                lemma_slab_hit_grows(node.bounds_of(), c.bounds(), ray, t_min, t_max);
            }
        }
    }
}

/// Index validity carries from a node's objects to each child's.
proof fn lemma_split_objects(objs: Seq<Cube>, a: Seq<usize>, b: Seq<usize>, ray: Ray)
    requires
        indices_valid(objs, a + b),
    ensures
        indices_valid(objs, a),
        indices_valid(objs, b),
{
    let ab = a + b;
    assert forall|k: int| 0 <= k < a.len() implies #[trigger] a[k] < objs.len() by {
        assert(ab[k] == a[k]);
    }
    assert forall|k: int| 0 <= k < b.len() implies #[trigger] b[k] < objs.len() by {
        assert(ab[a.len() + k] == b[k]);
    }
}

impl Node {
    proof fn lemma_leaf_result(self, objs: Seq<Cube>, ray: Ray, t_min: Param, t_max: Param, r: Option<HitRecord>)
        requires
            self is Leaf,
            self.wf(objs),
            ({
                let c = objs[self->Leaf_object as int];
                &&& r.is_none() ==> c.misses(ray, t_min, t_max)
                &&& r.is_some() ==> c.records(self->Leaf_object, ray, t_min, t_max, r.unwrap())
                    && c.misses(ray, t_min, r.unwrap().t) && r.unwrap().t.wf()
            }),
        ensures
            nearest_in(objs, self.objects(), ray, t_min, t_max, r),
    {
        let os = self.objects();
        assert(os =~= seq![self->Leaf_object]);
        assert(os[0] == self->Leaf_object);
    }
}

/// Whether the vector from the ray's origin to the volume's centre points against the ray's
/// direction.
fn centre_behind(bounds: &AABB, ray: &Ray) -> (r: bool)
    requires
        bounds.wf(),
        ray.wf(),
    ensures
        r == (centre_dot(*bounds, *ray) < 0),
{
    let mut sum: i64 = 0;
    let mut a: usize = 0;
    while a < 3
        invariant
            0 <= a <= 3,
            bounds.wf(),
            ray.wf(),
            sum == centre_dot_upto(*bounds, *ray, a as int),
            -0xC_0000_0000_0000 * a <= sum <= 0xC_0000_0000_0000 * a,
        decreases 3 - a,
    {
        let c = bounds.min.get(a) + bounds.max.get(a) - 2 * ray.origin.get(a);
        let d = ray.direction.get(a);
        proof {
            assert(-0xC_0000_0000_0000 <= c * d <= 0xC_0000_0000_0000) by (nonlinear_arith)
                requires
                    -4 * COORD_LIMIT <= c <= 4 * COORD_LIMIT,
                    -COORD_LIMIT <= d <= COORD_LIMIT,
            ;
        }
        sum = sum + c * d;
        a = a + 1;
    }
    sum < 0
}

/// Twice the dot product of the ray's direction with the vector from its origin to the
/// volume's centre, over the first `n` axes.
pub open spec fn centre_dot_upto(bounds: AABB, ray: Ray, n: int) -> int
    decreases n,
{
    if n <= 0 {
        0
    } else {
        centre_dot_upto(bounds, ray, n - 1) + (bounds.min.coord(n - 1) + bounds.max.coord(n - 1)
            - 2 * ray.origin.coord(n - 1)) * ray.direction.coord(n - 1)
    }
}

/// Twice the dot product of the ray's direction with the vector from its origin to the
/// volume's centre.
pub open spec fn centre_dot(bounds: AABB, ray: Ray) -> int {
    centre_dot_upto(bounds, ray, 3)
}

impl Node {
    /// Pruned traversal: a node whose volume fails the slab test reports nothing. Otherwise
    /// one child is searched first (the left one when the vector from the ray's origin to
    /// the volume's centre points against the ray's direction), and the other only before
    /// the first one's hit.
    pub fn hit(&self, objs: &Vec<Cube>, ray: &Ray, t_min: Param, t_max: Param) -> (r: Option<HitRecord>)
        requires
            scene_wf(objs@),
            self.wf(objs@),
            ray.wf(),
            t_min.wf(),
            t_max.wf(),
        ensures
            nearest_in(objs@, self.objects(), *ray, t_min, t_max, r),
            !self.bounds_of().slab_hit(*ray, t_min, t_max) ==> r.is_none(),
        decreases self,
    {
        match self {
            Node::Leaf { object, .. } => {
                let r = objs[*object].hit(*object, ray, t_min, t_max);
                proof {
                    self.lemma_leaf_result(objs@, *ray, t_min, t_max, r);
                    if let Some(h) = r {
                        assert(objs@[*object as int].wf());
                        lemma_face_hit_passes_slab(
                            objs@[*object as int],
                            *ray,
                            h.axis as int,
                            h.positive,
                            t_min,
                            t_max,
                        );
                    }
                }
                r
            },
            Node::Interior { left, right, bounds } => {
                proof {
                    self.lemma_bounds_hold_objects(objs@);
                    left.lemma_bounds_hold_objects(objs@);
                    right.lemma_bounds_hold_objects(objs@);
                    lemma_split_objects(objs@, left.objects(), right.objects(), *ray);
                }
                if !bounds.hit(ray, t_min, t_max) {
                    proof {
                        lemma_slab_miss_misses_all(*self, objs@, *ray, t_min, t_max);
                    }
                    return None;
                }
                let left_first = centre_behind(bounds, ray);
                let (near, far) = if left_first {
                    (left, right)
                } else {
                    (right, left)
                };
                let ghost a = near.objects();
                let ghost b = far.objects();
                proof {
                    vstd::seq_lib::lemma_seq_union_to_multiset_commutative(a, b);
                    assert((a + b).to_multiset() == self.objects().to_multiset());
                    lemma_nearest_transfer(objs@, self.objects(), a + b, *ray, t_min, t_max, None);
                }
                let first = near.hit(objs, ray, t_min, t_max);
                let r = match first {
                    Some(h1) => {
                        let second = far.hit(objs, ray, t_min, h1.t);
                        proof {
                            lemma_join_pruned(
                                objs@,
                                a,
                                b,
                                *ray,
                                t_min,
                                t_max,
                                first,
                                second,
                            );
                        }
                        match second {
                            Some(h2) => Some(
                                if h1.t.less_than(&h2.t) {
                                    h1
                                } else {
                                    h2
                                },
                            ),
                            None => Some(h1),
                        }
                    },
                    None => {
                        let second = far.hit(objs, ray, t_min, t_max);
                        proof {
                            lemma_join_missed(objs@, a, b, *ray, t_min, t_max, second);
                        }
                        second
                    },
                };
                proof {
                    lemma_nearest_transfer(objs@, a + b, self.objects(), *ray, t_min, t_max, r);
                }
                r
            },
        }
    }
}

/// The nearest hit over two groups of objects from the nearest over each group in
/// `(t_min, t_max)`, taking the first group's on a tie.
proof fn lemma_join_both(objs: Seq<Cube>, a: Seq<usize>, b: Seq<usize>, ray: Ray, t_min: Param, t_max: Param, r1: Option<HitRecord>, r2: Option<HitRecord>, r: Option<HitRecord>)
    requires
        scene_wf(objs),
        ray.wf(),
        t_min.wf(),
        t_max.wf(),
        indices_valid(objs, a),
        indices_valid(objs, b),
        nearest_in(objs, a, ray, t_min, t_max, r1),
        nearest_in(objs, b, ray, t_min, t_max, r2),
        lowest_on_tie(objs, a, ray, t_min, t_max, r1),
        lowest_on_tie(objs, b, ray, t_min, t_max, r2),
        r == match (r1, r2) {
            (Some(h1), Some(h2)) => if h1.t.lt(h2.t) {
                r1
            } else if h2.t.lt(h1.t) {
                r2
            } else if h1.object <= h2.object {
                r1
            } else {
                r2
            },
            (Some(_), None) => r1,
            _ => r2,
        },
    ensures
        nearest_in(objs, a + b, ray, t_min, t_max, r),
        lowest_on_tie(objs, a + b, ray, t_min, t_max, r),
{
    lemma_join_both_tie(objs, a, b, ray, t_min, t_max, r1, r2, r);
    let ab = a + b;
    match r {
        Some(h) => {
            let from_a = r1.is_some() && r == r1;
            if from_a {
                let k = choose|k: int| 0 <= k < a.len() && a[k] == h.object;
                assert(ab[k] == h.object);
            } else {
                let k = choose|k: int| 0 <= k < b.len() && b[k] == h.object;
                assert(ab[a.len() + k] == h.object);
            }
            assert forall|k: int| 0 <= k < ab.len() implies (#[trigger] objs[ab[k] as int]).misses(
                ray,
                t_min,
                h.t,
            ) by {
                if k < a.len() {
                    assert(ab[k] == a[k]);
                    assert(objs[a[k] as int].wf());
                    if let Some(h1) = r1 {
                        if !from_a {
                            lemma_misses_shrink(objs[a[k] as int], ray, t_min, h1.t, h.t);
                        }
                    } else {
                        lemma_crossing_lt(objs[h.object as int], ray, t_min, t_max, h);
                        lemma_misses_shrink(objs[a[k] as int], ray, t_min, t_max, h.t);
                    }
                } else {
                    assert(ab[k] == b[k - a.len()]);
                    assert(objs[b[k - a.len()] as int].wf());
                    if let Some(h2) = r2 {
                        if from_a {
                            assert(h.t.le(h2.t)) by {
                                if !h.t.lt(h2.t) {
                                    lemma_same_value(h.t, h2.t, h2.t);
                                }
                            }
                            lemma_misses_shrink(objs[b[k - a.len()] as int], ray, t_min, h2.t, h.t);
                        }
                    } else {
                        lemma_crossing_lt(objs[h.object as int], ray, t_min, t_max, h);
                        lemma_misses_shrink(objs[b[k - a.len()] as int], ray, t_min, t_max, h.t);
                    }
                }
            }
        },
        None => {
            assert forall|k: int| 0 <= k < ab.len() implies (#[trigger] objs[ab[k] as int]).misses(
                ray,
                t_min,
                t_max,
            ) by {
                if k < a.len() {
                    assert(ab[k] == a[k]);
                } else {
                    assert(ab[k] == b[k - a.len()]);
                }
            }
        },
    }
}

/// The box kept by the unconditional traversal takes the lowest index on a tie.
proof fn lemma_join_both_tie(objs: Seq<Cube>, a: Seq<usize>, b: Seq<usize>, ray: Ray, t_min: Param, t_max: Param, r1: Option<HitRecord>, r2: Option<HitRecord>, r: Option<HitRecord>)
    requires
        scene_wf(objs),
        ray.wf(),
        t_min.wf(),
        t_max.wf(),
        indices_valid(objs, a),
        indices_valid(objs, b),
        nearest_in(objs, a, ray, t_min, t_max, r1),
        nearest_in(objs, b, ray, t_min, t_max, r2),
        lowest_on_tie(objs, a, ray, t_min, t_max, r1),
        lowest_on_tie(objs, b, ray, t_min, t_max, r2),
        r == match (r1, r2) {
            (Some(h1), Some(h2)) => if h1.t.lt(h2.t) {
                r1
            } else if h2.t.lt(h1.t) {
                r2
            } else if h1.object <= h2.object {
                r1
            } else {
                r2
            },
            (Some(_), None) => r1,
            _ => r2,
        },
    ensures
        lowest_on_tie(objs, a + b, ray, t_min, t_max, r),
{
    let ab = a + b;
    if let Some(h) = r {
        assert forall|k: int| 0 <= k < ab.len() && ab[k] < h.object implies !(
        #[trigger] objs[ab[k] as int]).crosses_at(ray, t_min, t_max, h.t) by {
            let (g, other, mine) = if k < a.len() {
                (a, r2, r1)
            } else {
                (b, r1, r2)
            };
            let i = if k < a.len() {
                k
            } else {
                k - a.len()
            };
            assert(ab[k] == g[i]);
            let c = objs[g[i] as int];
            assert(c.wf());
            if c.crosses_at(ray, t_min, t_max, h.t) {
                let (fa, fs) = choose|fa: int, fs: bool|
                    #[trigger] c.face_hit(ray, fa, fs, t_min, t_max) && c.crossing(
                        ray,
                        fa,
                        fs,
                    ).same_value(h.t);
                let x = c.crossing(ray, fa, fs);
                lemma_crossing_wf(c, ray, fa, fs);
                if let Some(hm) = mine {
                    // The group's own hit: not crossed before it, and lowest at its parameter.
                    assert(c.misses(ray, t_min, hm.t));
                    if h == hm {
                        assert(!c.crosses_at(ray, t_min, t_max, hm.t));
                    } else {
                        let ho = other.unwrap();
                        assert(h == ho);
                        if hm.t.lt(ho.t) {
                        } else if ho.t.lt(hm.t) {
                            lemma_same_value(x, h.t, h.t);
                            lemma_le_lt_trans(x, h.t, hm.t);
                            assert(c.face_hit(ray, fa, fs, t_min, hm.t));
                        } else {
                            lemma_same_value(x, ho.t, hm.t);
                            assert(c.crosses_at(ray, t_min, t_max, hm.t));
                        }
                    }
                } else {
                    assert(c.misses(ray, t_min, t_max));
                }
            }
        }
    }
}

impl Node {
    /// Unconditional traversal: both children are searched over the whole interval and the
    /// nearer hit is kept; no volume is consulted.
    pub fn hit_unpruned(&self, objs: &Vec<Cube>, ray: &Ray, t_min: Param, t_max: Param) -> (r: Option<HitRecord>)
        requires
            scene_wf(objs@),
            self.wf(objs@),
            ray.wf(),
            t_min.wf(),
            t_max.wf(),
        ensures
            nearest_in(objs@, self.objects(), *ray, t_min, t_max, r),
            lowest_on_tie(objs@, self.objects(), *ray, t_min, t_max, r),
        decreases self,
    {
        match self {
            Node::Leaf { object, .. } => {
                let r = objs[*object].hit(*object, ray, t_min, t_max);
                proof {
                    self.lemma_leaf_result(objs@, *ray, t_min, t_max, r);
                }
                r
            },
            Node::Interior { left, right, .. } => {
                proof {
                    self.lemma_bounds_hold_objects(objs@);
                    left.lemma_bounds_hold_objects(objs@);
                    right.lemma_bounds_hold_objects(objs@);
                    lemma_split_objects(objs@, left.objects(), right.objects(), *ray);
                }
                let left_hit = left.hit_unpruned(objs, ray, t_min, t_max);
                let right_hit = right.hit_unpruned(objs, ray, t_min, t_max);
                let r = match (left_hit, right_hit) {
                    (Some(l), Some(rr)) => {
                        if l.t.less_than(&rr.t) {
                            Some(l)
                        } else if rr.t.less_than(&l.t) {
                            Some(rr)
                        } else if l.object <= rr.object {
                            Some(l)
                        } else {
                            Some(rr)
                        }
                    },
                    (Some(l), None) => Some(l),
                    (None, Some(rr)) => Some(rr),
                    _ => None,
                };
                proof {
                    lemma_join_both(
                        objs@,
                        left.objects(),
                        right.objects(),
                        *ray,
                        t_min,
                        t_max,
                        left_hit,
                        right_hit,
                        r,
                    );
                }
                r
            },
        }
    }
}

/// Linear scan: the nearest hit over every object of the scene, each tested over the interval
/// shortened to the nearest hit found so far; on a tie the earliest object is kept.
pub fn list_hit(objs: &Vec<Cube>, ray: &Ray, t_min: Param, t_max: Param) -> (r: Option<HitRecord>)
    requires
        scene_wf(objs@),
        ray.wf(),
        t_min.wf(),
        t_max.wf(),
    ensures
        nearest_in(objs@, all_indices(objs@.len()), *ray, t_min, t_max, r),
        lowest_on_tie(objs@, all_indices(objs@.len()), *ray, t_min, t_max, r),
{
    let ghost all = all_indices(objs@.len());
    let mut closest: Option<HitRecord> = None;
    let mut closest_t = t_max;
    let mut i: usize = 0;
    while i < objs.len()
        invariant
            0 <= i <= objs@.len(),
            all == all_indices(objs@.len()),
            scene_wf(objs@),
            ray.wf(),
            t_min.wf(),
            t_max.wf(),
            closest_t.wf(),
            closest_t.le(t_max),
            closest.is_none() ==> closest_t == t_max,
            closest.is_some() ==> closest_t == closest.unwrap().t && closest.unwrap().object < i
                && objs@[closest.unwrap().object as int].records(
                closest.unwrap().object,
                *ray,
                t_min,
                t_max,
                closest.unwrap(),
            ),
            forall|k: int| 0 <= k < i ==> (#[trigger] objs@[k]).misses(*ray, t_min, closest_t),
            closest.is_some() ==> forall|k: int|
                0 <= k < closest.unwrap().object ==> !(#[trigger] objs@[k]).crosses_at(
                    *ray,
                    t_min,
                    t_max,
                    closest_t,
                ),
        decreases objs@.len() - i,
    {
        assert(objs@[i as int].wf());
        if let Some(h) = objs[i].hit(i, ray, t_min, closest_t) {
            proof {
                assert forall|k: int| 0 <= k < i implies (#[trigger] objs@[k]).misses(
                    *ray,
                    t_min,
                    h.t,
                ) by {
                    assert(objs@[k].wf());
                    lemma_crossing_lt(objs@[i as int], *ray, t_min, closest_t, h);
                    lemma_misses_shrink(objs@[k], *ray, t_min, closest_t, h.t);
                }
                assert forall|k: int| 0 <= k < i implies !(#[trigger] objs@[k]).crosses_at(
                    *ray,
                    t_min,
                    t_max,
                    h.t,
                ) by {
                    let c = objs@[k];
                    assert(c.wf());
                    if c.crosses_at(*ray, t_min, t_max, h.t) {
                        let (fa, fs) = choose|fa: int, fs: bool|
                            #[trigger] c.face_hit(*ray, fa, fs, t_min, t_max) && c.crossing(
                                *ray,
                                fa,
                                fs,
                            ).same_value(h.t);
                        let x = c.crossing(*ray, fa, fs);
                        lemma_crossing_wf(c, *ray, fa, fs);
                        lemma_same_value(x, h.t, h.t);
                        lemma_le_lt_trans(x, h.t, closest_t);
                        assert(c.face_hit(*ray, fa, fs, t_min, closest_t));
                    }
                }
                lemma_records_grow(objs@[i as int], i, *ray, t_min, closest_t, t_max, h);
                lemma_crossing_lt(objs@[i as int], *ray, t_min, closest_t, h);
                crate::geom::lemma_le_trans(h.t, closest_t, t_max);
            }
            closest_t = h.t;
            closest = Some(h);
        }
        i = i + 1;
    }
    proof {
        if let Some(h) = closest {
            assert(all[h.object as int] == h.object);
            assert forall|k: int| 0 <= k < all.len() && all[k] < h.object implies !(
            #[trigger] objs@[all[k] as int]).crosses_at(*ray, t_min, t_max, h.t) by {
                assert(all[k] as int == k);
            }
        }
        assert forall|k: int| 0 <= k < all.len() implies (#[trigger] objs@[all[k] as int]).misses(
            *ray,
            t_min,
            closest_t,
        ) by {
            assert(all[k] as int == k);
        }
    }
    closest
}

/// Two nearest hits over the same objects agree: both are none, or both lie at the same
/// parameter.
pub proof fn lemma_nearest_unique(objs: Seq<Cube>, os: Seq<usize>, ray: Ray, t_min: Param, t_max: Param, a: Option<HitRecord>, b: Option<HitRecord>)
    requires
        scene_wf(objs),
        ray.wf(),
        nearest_in(objs, os, ray, t_min, t_max, a),
        nearest_in(objs, os, ray, t_min, t_max, b),
    ensures
        a.is_some() == b.is_some(),
        a.is_some() ==> a.unwrap().t.same_value(b.unwrap().t),
{
    if let Some(ha) = a {
        let ka = choose|k: int| 0 <= k < os.len() && os[k] == ha.object;
        let ca = objs[ha.object as int];
        assert(objs[os[ka] as int] == ca);
        match b {
            None => {
                assert(ca.misses(ray, t_min, t_max));
                assert(!ca.face_hit(ray, ha.axis as int, ha.positive, t_min, t_max));
            },
            Some(hb) => {
                let kb = choose|k: int| 0 <= k < os.len() && os[k] == hb.object;
                let cb = objs[hb.object as int];
                assert(objs[os[kb] as int] == cb);
                assert(ca.misses(ray, t_min, hb.t));
                assert(!ca.face_hit(ray, ha.axis as int, ha.positive, t_min, hb.t));
                assert(cb.misses(ray, t_min, ha.t));
                assert(!cb.face_hit(ray, hb.axis as int, hb.positive, t_min, ha.t));
            },
        }
    } else if let Some(hb) = b {
        let kb = choose|k: int| 0 <= k < os.len() && os[k] == hb.object;
        let cb = objs[hb.object as int];
        assert(objs[os[kb] as int] == cb);
        assert(cb.misses(ray, t_min, t_max));
        assert(!cb.face_hit(ray, hb.axis as int, hb.positive, t_min, t_max));
    }
}

/// The root of a tree over a whole scene holds every box of the scene.
pub proof fn lemma_root_holds_scene(root: Node, objs: Seq<Cube>)
    requires
        scene_wf(objs),
        objs.len() <= usize::MAX,
        root.wf(objs),
        root.objects().to_multiset() == all_indices(objs.len()).to_multiset(),
    ensures
        root.bounds_of().wf(),
        forall|i: int| 0 <= i < objs.len() ==> root.bounds_of().contains(#[trigger] objs[i].bounds()),
{
    root.lemma_bounds_hold_objects(objs);
    let all = all_indices(objs.len());
    let os = root.objects();
    assert forall|i: int| 0 <= i < objs.len() implies root.bounds_of().contains(
        #[trigger] objs[i].bounds(),
    ) by {
        broadcast use vstd::seq_lib::to_multiset_contains;

        assert(all[i] == i as usize);
        assert(all.contains(i as usize));
        assert(all.to_multiset().count(i as usize) > 0);
        assert(os.contains(i as usize));
        let k = choose|k: int| 0 <= k < os.len() && os[k] == i as usize;
        assert(os[k] as int == i);
    }
}

/// Shrinking the upper bound to `t2` keeps the nearest hit while it lies before `t2`, and
/// leaves no hit once it does not.
pub proof fn lemma_nearest_shrink(objs: Seq<Cube>, os: Seq<usize>, ray: Ray, t_min: Param, t_max: Param, t2: Param, a: Option<HitRecord>, b: Option<HitRecord>)
    requires
        scene_wf(objs),
        ray.wf(),
        indices_valid(objs, os),
        t_max.wf(),
        t2.wf(),
        t2.le(t_max),
        nearest_in(objs, os, ray, t_min, t_max, a),
        nearest_in(objs, os, ray, t_min, t2, b),
    ensures
        a.is_some() && a.unwrap().t.lt(t2) ==> b.is_some() && b.unwrap().t.same_value(a.unwrap().t),
        a.is_none() || !a.unwrap().t.lt(t2) ==> b.is_none(),
{
    if a.is_some() && a.unwrap().t.lt(t2) {
        let h = a.unwrap();
        assert(nearest_in(objs, os, ray, t_min, t2, a));
        lemma_nearest_unique(objs, os, ray, t_min, t2, b, a);
    } else {
        let bound = if a.is_some() { a.unwrap().t } else { t_max };
        assert forall|k: int| 0 <= k < os.len() implies (#[trigger] objs[os[k] as int]).misses(
            ray,
            t_min,
            t2,
        ) by {
            assert(objs[os[k] as int].wf());
            lemma_misses_shrink(objs[os[k] as int], ray, t_min, bound, t2);
        }
        lemma_nearest_unique(objs, os, ray, t_min, t2, b, None);
    }
}

/// Two nearest hits over the same objects that both take the lowest index on a tie report
/// the same object at the same parameter.
pub proof fn lemma_nearest_lowest_unique(objs: Seq<Cube>, os: Seq<usize>, ray: Ray, t_min: Param, t_max: Param, a: Option<HitRecord>, b: Option<HitRecord>)
    requires
        scene_wf(objs),
        ray.wf(),
        nearest_in(objs, os, ray, t_min, t_max, a),
        nearest_in(objs, os, ray, t_min, t_max, b),
        lowest_on_tie(objs, os, ray, t_min, t_max, a),
        lowest_on_tie(objs, os, ray, t_min, t_max, b),
    ensures
        a.is_some() == b.is_some(),
        a.is_some() ==> a.unwrap().t.same_value(b.unwrap().t) && a.unwrap().object == b.unwrap().object,
{
    lemma_nearest_unique(objs, os, ray, t_min, t_max, a, b);
    if let (Some(ha), Some(hb)) = (a, b) {
        let ka = choose|k: int| 0 <= k < os.len() && os[k] == ha.object;
        let kb = choose|k: int| 0 <= k < os.len() && os[k] == hb.object;
        let ca = objs[ha.object as int];
        let cb = objs[hb.object as int];
        assert(objs[os[ka] as int] == ca && objs[os[kb] as int] == cb);
        lemma_crossing_wf(ca, ray, ha.axis as int, ha.positive);
        lemma_crossing_wf(cb, ray, hb.axis as int, hb.positive);
        lemma_same_value(ha.t, ha.t, hb.t);
        lemma_same_value(hb.t, ha.t, ha.t);
        lemma_same_value(hb.t, hb.t, ha.t);
        assert(ca.face_hit(ray, ha.axis as int, ha.positive, t_min, t_max));
        assert(ca.crosses_at(ray, t_min, t_max, hb.t));
        assert(cb.face_hit(ray, hb.axis as int, hb.positive, t_min, t_max));
        assert(cb.crosses_at(ray, t_min, t_max, ha.t));
    }
}

/// In a well-formed tree every interior node's volume holds both children's volumes.
pub proof fn lemma_tree_encloses(node: Node, objs: Seq<Cube>)
    requires
        scene_wf(objs),
        node.wf(objs),
    ensures
        node.encloses(),
    decreases node,
{
    match node {
        Node::Leaf { .. } => {},
        Node::Interior { left, right, bounds } => {
            left.lemma_bounds_hold_objects(objs);
            right.lemma_bounds_hold_objects(objs);
            lemma_union_contains(left.bounds_of(), right.bounds_of());
            lemma_tree_encloses(*left, objs);
            lemma_tree_encloses(*right, objs);
        },
    }
}

} // verus!
