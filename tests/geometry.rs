use raytracer::aabb::{surrounding_box, AABB};
use raytracer::geom::{Param, Point3};
use raytracer::ray::Ray;

fn p(x: i64, y: i64, z: i64) -> Point3 {
    Point3::new(x, y, z)
}

fn t(n: i64) -> Param {
    Param::new(n, 1)
}

fn cube_box() -> AABB {
    AABB::new(p(0, 0, 0), p(2, 2, 2))
}

fn mirror_box(b: &AABB) -> AABB {
    AABB::new(p(-b.max.x, -b.max.y, -b.max.z), p(-b.min.x, -b.min.y, -b.min.z))
}

fn mirror_ray(r: &Ray) -> Ray {
    Ray::new(
        p(-r.origin.x, -r.origin.y, -r.origin.z),
        p(-r.direction.x, -r.direction.y, -r.direction.z),
    )
}

#[test]
fn param_ordering() {
    let a = Param::from_ratio(1, 3);
    let b = Param::from_ratio(-1, -2);
    assert_eq!(b.num, 1);
    assert_eq!(b.den, 2);
    assert!(a.less_than(&b));
    assert!(!b.less_than(&a));
    let c = Param::from_ratio(2, 6);
    assert!(!a.less_than(&c));
    assert!(!c.less_than(&a));
}

#[test]
fn slab_test_hits_box_ahead() {
    let ray = Ray::new(p(-1, 1, 1), p(1, 0, 0));
    assert!(cube_box().hit(&ray, Param::new(0, 1), t(100)));
    // The entry lies at t = 1: an interval ending there misses.
    assert!(!cube_box().hit(&ray, Param::new(0, 1), t(1)));
    assert!(cube_box().hit(&ray, Param::new(0, 1), Param::new(3, 2)));
}

#[test]
fn slab_test_misses_box_behind() {
    let ray = Ray::new(p(5, 1, 1), p(1, 0, 0));
    assert!(!cube_box().hit(&ray, Param::new(0, 1), t(100)));
    let back = Ray::new(p(5, 1, 1), p(-1, 0, 0));
    assert!(cube_box().hit(&back, Param::new(0, 1), t(100)));
}

#[test]
fn slab_test_symmetric_under_reflection() {
    let boxes = [cube_box(), AABB::new(p(-3, 1, -7), p(4, 5, -2)), AABB::new(p(1, 1, 1), p(1, 9, 3))];
    let rays = [
        Ray::new(p(-1, 1, 1), p(1, 0, 0)),
        Ray::new(p(-5, -4, 3), p(2, 3, -1)),
        Ray::new(p(10, 10, 10), p(-1, -1, -1)),
        Ray::new(p(1, -6, 2), p(0, 1, 0)),
        Ray::new(p(0, 0, -9), p(0, 0, 5)),
        Ray::new(p(7, 3, -4), p(-3, 0, 1)),
    ];
    let mut hits = 0;
    for b in boxes.iter() {
        for r in rays.iter() {
            let a = b.hit(r, Param::new(1, 1000), t(50));
            let m = mirror_box(b).hit(&mirror_ray(r), Param::new(1, 1000), t(50));
            assert_eq!(a, m);
            if a {
                hits += 1;
            }
        }
    }
    assert!(hits > 0);
}

#[test]
fn slab_test_parallel_rays() {
    // Parallel to the x slab and outside it: a miss whatever the interval.
    let outside = Ray::new(p(-1, -5, 1), p(0, 1, 0));
    assert!(!cube_box().hit(&outside, Param::new(0, 1), t(1000)));
    // Parallel and inside: only the y slab bounds the interval.
    let inside = Ray::new(p(1, -5, 1), p(0, 1, 0));
    assert!(cube_box().hit(&inside, Param::new(0, 1), t(1000)));
    // On the boundary plane counts as inside.
    let boundary = Ray::new(p(0, -5, 2), p(0, 1, 0));
    assert!(cube_box().hit(&boundary, Param::new(0, 1), t(1000)));
    // Parallel to every axis: the origin decides.
    let still_in = Ray::new(p(1, 1, 1), p(0, 0, 0));
    assert!(cube_box().hit(&still_in, Param::new(0, 1), t(1)));
    let still_out = Ray::new(p(3, 1, 1), p(0, 0, 0));
    assert!(!cube_box().hit(&still_out, Param::new(0, 1), t(1)));
}

#[test]
fn union_is_componentwise() {
    let a = AABB::new(p(0, -2, 3), p(1, 5, 4));
    let b = AABB::new(p(-1, 0, 3), p(2, 1, 9));
    let u = a.union(&b);
    assert_eq!((u.min.x, u.min.y, u.min.z), (-1, -2, 3));
    assert_eq!((u.max.x, u.max.y, u.max.z), (2, 5, 9));
    let v = surrounding_box(&b, &a);
    assert_eq!((v.min.x, v.min.y, v.min.z, v.max.x, v.max.y, v.max.z), (-1, -2, 3, 2, 5, 9));
    let w = AABB::surrounding_box(&a, &b);
    assert_eq!((w.min.x, w.max.z), (-1, 9));
}

#[test]
fn centroid_rounds_down() {
    let a = AABB::new(p(0, -3, -4), p(3, 0, 4));
    let c = a.centroid();
    assert_eq!((c.x, c.y, c.z), (1, -2, 0));
}

#[test]
fn surface_area_and_extent() {
    let a = AABB::new(p(0, 0, 0), p(1, 2, 3));
    assert_eq!(a.surface_area(), 22);
    assert_eq!(a.maximum_extent(), 2);
    let b = AABB::new(p(0, 0, 0), p(5, 2, 3));
    assert_eq!(b.maximum_extent(), 0);
    let tie = AABB::new(p(0, 0, 0), p(4, 4, 1));
    assert_eq!(tie.maximum_extent(), 1);
    let flat = AABB::new(p(0, 0, 0), p(0, 0, 0));
    assert_eq!(flat.surface_area(), 0);
    assert_eq!(flat.maximum_extent(), 2);
}

#[test]
fn diagonal_bound_rounds_up() {
    let a = AABB::new(p(0, 0, 0), p(3, 4, 0));
    let d = a.diagonal_bound();
    assert_eq!((d.num, d.den), (5, 1));
    let b = AABB::new(p(0, 0, 0), p(1, 1, 1));
    assert_eq!(b.diagonal_bound().num, 2);
    let c = AABB::new(p(2, 2, 2), p(2, 2, 2));
    assert_eq!(c.diagonal_bound().num, 0);
}

#[test]
fn point_at_parameter_is_scaled_by_denominator() {
    let ray = Ray::new(p(1, -2, 3), p(4, 6, -2));
    let q = ray.point_at_parameter(Param::new(1, 2));
    // (1, -2, 3) + (2, 3, -1) = (3, 1, 2), times 2.
    assert_eq!((q.x, q.y, q.z), (6, 2, 4));
    let r = ray.point_at_parameter(Param::new(-3, 1));
    assert_eq!((r.x, r.y, r.z), (-11, -20, 9));
}
