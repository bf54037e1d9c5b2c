use raytracer::bvhnode::{index_list, BVHNode};
use raytracer::cube::Cube;
use raytracer::geom::{Param, Point3};
use raytracer::kdnode::KdNode;
use raytracer::aabb::AABB;
use raytracer::ray::Ray;
use rand::SeedableRng;
use raytracer::tree::{build, build_random, list_hit, sort_by_axis, Node};

fn p(x: i64, y: i64, z: i64) -> Point3 {
    Point3::new(x, y, z)
}

struct Lcg(u64);

impl Lcg {
    fn next(&mut self, lo: i64, hi: i64) -> i64 {
        self.0 = self.0.wrapping_mul(6364136223846793005).wrapping_add(1442695040888963407);
        lo + ((self.0 >> 33) % ((hi - lo + 1) as u64)) as i64
    }
}

fn scene(seed: u64, n: usize) -> Vec<Cube> {
    let mut g = Lcg(seed);
    let mut objs = Vec::new();
    for i in 0..n {
        let x = g.next(-50, 50);
        let y = g.next(-50, 50);
        let z = g.next(-50, 50);
        let sx = g.next(1, 9);
        let sy = g.next(1, 9);
        let sz = g.next(1, 9);
        objs.push(Cube::new(p(x, y, z), p(x + sx, y + sy, z + sz), i));
    }
    objs
}

fn random_ray(g: &mut Lcg, objs: &[Cube]) -> Ray {
    let target = objs[g.next(0, objs.len() as i64 - 1) as usize].centre();
    let mut d = p(0, 0, 0);
    let mut o = p(0, 0, 0);
    while d.x == 0 && d.y == 0 && d.z == 0 {
        o = p(g.next(-80, 80), g.next(-80, 80), g.next(-80, 80));
        d = p(target.x - o.x + g.next(-2, 2), target.y - o.y + g.next(-2, 2), target.z - o.z);
    }
    Ray::new(o, d)
}

fn same_t(a: &Param, b: &Param) -> bool {
    !a.less_than(b) && !b.less_than(a)
}

fn contains(outer: &AABB, inner: &AABB) -> bool {
    outer.min.x <= inner.min.x
        && outer.min.y <= inner.min.y
        && outer.min.z <= inner.min.z
        && inner.max.x <= outer.max.x
        && inner.max.y <= outer.max.y
        && inner.max.z <= outer.max.z
}

fn check_encloses(node: &Node, objs: &[Cube], seen: &mut Vec<usize>) {
    match node {
        Node::Leaf { object, bounds } => {
            let b = objs[*object].bounding_box();
            assert_eq!((bounds.min.x, bounds.min.y, bounds.min.z), (b.min.x, b.min.y, b.min.z));
            assert_eq!((bounds.max.x, bounds.max.y, bounds.max.z), (b.max.x, b.max.y, b.max.z));
            seen.push(*object);
        }
        Node::Interior { left, right, bounds } => {
            assert!(contains(bounds, &left.bounds()));
            assert!(contains(bounds, &right.bounds()));
            check_encloses(left, objs, seen);
            check_encloses(right, objs, seen);
        }
    }
}

#[test]
fn pruned_traversal_agrees_with_scan() {
    let objs = scene(11, 40);
    let tree = BVHNode::new(objs.clone());
    let mut g = Lcg(99);
    let mut found = 0;
    for _ in 0..400 {
        let ray = random_ray(&mut g, &objs);
        let a = tree.hit(&ray, Param::new(1, 1000), Param::new(1000, 1));
        let b = list_hit(&objs, &ray, Param::new(1, 1000), Param::new(1000, 1));
        assert_eq!(a.is_some(), b.is_some());
        if let (Some(x), Some(y)) = (a, b) {
            assert!(same_t(&x.t, &y.t));
            found += 1;
        }
    }
    assert!(found > 20);
}

#[test]
fn unpruned_traversal_agrees_with_scan() {
    let objs = scene(5, 33);
    let tree = KdNode::new(objs.clone(), 20);
    let mut g = Lcg(7);
    let mut found = 0;
    for _ in 0..400 {
        let ray = random_ray(&mut g, &objs);
        let a = tree.hit(&ray, Param::new(1, 1000), Param::new(1000, 1));
        let b = list_hit(&objs, &ray, Param::new(1, 1000), Param::new(1000, 1));
        assert_eq!(a.is_some(), b.is_some());
        if let (Some(x), Some(y)) = (a, b) {
            assert!(same_t(&x.t, &y.t));
            found += 1;
        }
    }
    assert!(found > 20);
}

#[test]
fn built_trees_enclose_children() {
    let objs = scene(3, 25);
    let bvh = BVHNode::new(objs.clone());
    let mut seen = Vec::new();
    check_encloses(&bvh.root, &objs, &mut seen);
    seen.sort();
    assert_eq!(seen, (0..25).collect::<Vec<usize>>());
    let kd = KdNode::from_objects(objs.clone());
    let mut seen_kd = Vec::new();
    check_encloses(&kd.root, &objs, &mut seen_kd);
    seen_kd.sort();
    assert_eq!(seen_kd, (0..25).collect::<Vec<usize>>());
    let whole = bvh.bounding_box();
    for c in objs.iter() {
        assert!(contains(&whole, &c.bounding_box()));
    }
    let whole_kd = kd.bounding_box();
    assert_eq!((whole.min.x, whole.max.y), (whole_kd.min.x, whole_kd.max.y));
}

#[test]
fn single_object_tree_is_a_leaf() {
    let objs = vec![Cube::new(p(0, 0, 0), p(1, 1, 1), 0)];
    let tree = KdNode::new(objs, 0);
    assert!(matches!(tree.root, Node::Leaf { object: 0, .. }));
}

#[test]
fn two_object_tree_splits_in_two_leaves() {
    let objs = vec![Cube::new(p(5, 0, 0), p(6, 1, 1), 0), Cube::new(p(0, 0, 0), p(1, 1, 1), 1)];
    let tree = KdNode::new(objs, 0);
    match &tree.root {
        Node::Interior { left, right, bounds } => {
            // Sorted on x: the box at x = 0 comes first.
            assert!(matches!(**left, Node::Leaf { object: 1, .. }));
            assert!(matches!(**right, Node::Leaf { object: 0, .. }));
            assert_eq!((bounds.min.x, bounds.max.x), (0, 6));
        }
        Node::Leaf { .. } => panic!("expected an interior node"),
    }
}

#[test]
fn sort_orders_by_axis_minimum() {
    let objs = scene(21, 15);
    for axis in 0..3 {
        let mut idx = index_list(objs.len());
        sort_by_axis(&objs, &mut idx, axis);
        let key = |i: usize| objs[i].min.get(axis);
        for w in idx.windows(2) {
            assert!(key(w[0]) <= key(w[1]));
        }
        let mut sorted = idx.clone();
        sorted.sort();
        assert_eq!(sorted, (0..15).collect::<Vec<usize>>());
    }
}

#[test]
fn random_build_keeps_every_object() {
    let objs = scene(8, 17);
    for _ in 0..5 {
        let mut rng = rand::rngs::StdRng::seed_from_u64(5);
        let root = build_random(&objs, index_list(objs.len()), &mut rng);
        let mut seen = Vec::new();
        check_encloses(&root, &objs, &mut seen);
        seen.sort();
        assert_eq!(seen, (0..17).collect::<Vec<usize>>());
    }
}

#[test]
fn ground_box_scenario() {
    // A large ground slab below y = 0 and a camera-side ray from above.
    let objs = vec![Cube::new(p(-1000, -2000, -1000), p(1000, 0, 1000), 0)];
    let tree = BVHNode::new(objs.clone());
    let t_max = tree.bounding_box().diagonal_bound();
    let down = Ray::new(p(0, 2, 5), p(0, -1, 0));
    let h = tree.hit(&down, Param::new(1, 1000), t_max).unwrap();
    assert_eq!((h.t.num, h.t.den), (2, 1));
    assert_eq!((h.normal(0), h.normal(1), h.normal(2)), (0, 1, 0));
    let up = Ray::new(p(0, 2, 5), p(0, 1, 0));
    assert!(tree.hit(&up, Param::new(1, 1000), t_max).is_none());
    assert!(list_hit(&objs, &up, Param::new(1, 1000), t_max).is_none());
}

#[test]
fn grazing_rays_miss_in_every_search() {
    // The ray touches the first box only along its edge x = 2, y = 2; the root volume is
    // touched at that single parameter too.
    let objs = vec![Cube::new(p(0, 0, 0), p(2, 2, 2), 0), Cube::new(p(-200, -200, -200), p(-198, -198, -198), 1)];
    for ray in [Ray::new(p(0, 4, 1), p(1, -1, 0)), Ray::new(p(0, 4, -1), p(1, -1, 1))] {
        let t_max = Param::new(10, 1);
        assert!(list_hit(&objs, &ray, Param::new(0, 1), t_max).is_none());
        assert!(KdNode::new(objs.clone(), 0).hit(&ray, Param::new(0, 1), t_max).is_none());
        assert!(BVHNode::new(objs.clone()).hit(&ray, Param::new(0, 1), t_max).is_none());
    }
}

#[test]
fn ties_report_the_lowest_index() {
    // Boxes 0 and 2 share the entry plane x = 0 where the ray comes in; box 1 lies behind.
    let objs = vec![
        Cube::new(p(5, 0, 0), p(6, 2, 2), 0),
        Cube::new(p(0, 0, 0), p(1, 2, 2), 1),
        Cube::new(p(0, 0, 0), p(3, 2, 2), 2),
        Cube::new(p(0, -1, 0), p(2, 3, 2), 3),
    ];
    let ray = Ray::new(p(-1, 1, 1), p(1, 0, 0));
    let scan = list_hit(&objs, &ray, Param::new(1, 1000), Param::new(100, 1)).unwrap();
    assert_eq!(scan.object, 1);
    assert_eq!((scan.t.num, scan.t.den), (1, 1));
    for depth in 0..3 {
        let kd = KdNode::new(objs.clone(), depth).hit(&ray, Param::new(1, 1000), Param::new(100, 1)).unwrap();
        assert_eq!(kd.object, 1);
    }
    let bvh = BVHNode::with_seed(objs.clone(), 3).hit(&ray, Param::new(1, 1000), Param::new(100, 1)).unwrap();
    assert!(!bvh.t.less_than(&scan.t) && !scan.t.less_than(&bvh.t));
}

#[test]
fn shrinking_the_bound_keeps_the_nearest_hit() {
    let objs = scene(17, 30);
    let tree = BVHNode::with_seed(objs.clone(), 9);
    let mut g = Lcg(4);
    for _ in 0..100 {
        let ray = random_ray(&mut g, &objs);
        if let Some(h) = tree.hit(&ray, Param::new(1, 1000), Param::new(1000, 1)) {
            let beyond = Param::new(h.t.num * 2 + 1, h.t.den * 2);
            let again = tree.hit(&ray, Param::new(1, 1000), beyond).unwrap();
            assert!(same_t(&again.t, &h.t));
            assert!(tree.hit(&ray, Param::new(1, 1000), h.t).is_none());
        }
    }
}

#[test]
fn builds_are_reproducible() {
    let objs = scene(23, 21);
    let (mut a, mut b) = (Vec::new(), Vec::new());
    leaves(&KdNode::new(objs.clone(), 2).root, &mut a);
    leaves(&KdNode::new(objs.clone(), 2).root, &mut b);
    assert_eq!(a, b);
    let (mut c, mut d) = (Vec::new(), Vec::new());
    leaves(&BVHNode::with_seed(objs.clone(), 77).root, &mut c);
    leaves(&BVHNode::with_seed(objs.clone(), 77).root, &mut d);
    assert_eq!(c, d);
    let cycled = build(&objs, index_list(objs.len()), 2);
    let mut e = Vec::new();
    leaves(&cycled, &mut e);
    assert_eq!(a, e);
}

fn leaves(node: &Node, out: &mut Vec<usize>) {
    match node {
        Node::Leaf { object, .. } => out.push(*object),
        Node::Interior { left, right, .. } => {
            leaves(left, out);
            leaves(right, out);
        }
    }
}

fn check_split(node: &Node, objs: &[Cube], axis: Option<usize>) {
    if let Node::Interior { left, right, .. } = node {
        let (mut l, mut r) = (Vec::new(), Vec::new());
        leaves(left, &mut l);
        leaves(right, &mut r);
        assert_eq!(l.len(), (l.len() + r.len()) / 2);
        let ordered_on = |a: usize| {
            l.iter().all(|&i| r.iter().all(|&j| objs[i].min.get(a) <= objs[j].min.get(a)))
        };
        match axis {
            Some(a) => assert!(ordered_on(a)),
            None => assert!((0..3).any(ordered_on)),
        }
        let next = axis.map(|a| (a + 1) % 3);
        check_split(left, objs, next);
        check_split(right, objs, next);
    }
}

#[test]
fn trees_split_at_the_median_in_key_order() {
    let objs = scene(13, 29);
    let kd = KdNode::new(objs.clone(), 4);
    check_split(&kd.root, &objs, Some(1));
    let bvh = BVHNode::new(objs.clone());
    check_split(&bvh.root, &objs, None);
}
