use raytracer::cube::Cube;
use raytracer::dielectric::{reflect, Dielectric, ScatterChoice};
use raytracer::geom::{Param, Point3};
use raytracer::hitrecord::HitRecord;
use raytracer::ray::Ray;

fn p(x: i64, y: i64, z: i64) -> Point3 {
    Point3::new(x, y, z)
}

fn unit_cube() -> Cube {
    Cube::new(p(0, 0, 0), p(2, 2, 2), 7)
}

#[test]
fn cube_hit_reports_entry_face() {
    let ray = Ray::new(p(-1, 1, 1), p(1, 0, 0));
    let h = unit_cube().hit(3, &ray, Param::new(1, 1000), Param::new(100, 1)).unwrap();
    assert_eq!((h.t.num, h.t.den), (1, 1));
    assert_eq!(h.object, 3);
    assert_eq!(h.material, 7);
    assert_eq!(h.axis, 0);
    assert!(!h.positive);
    assert_eq!((h.normal(0), h.normal(1), h.normal(2)), (-1, 0, 0));
}

#[test]
fn cube_hit_from_inside_reports_exit_face() {
    let ray = Ray::new(p(1, 1, 1), p(0, 0, -2));
    let h = unit_cube().hit(0, &ray, Param::new(1, 1000), Param::new(100, 1)).unwrap();
    // Leaves through z = 0 at t = 1/2.
    assert_eq!(h.axis, 2);
    assert!(!h.positive);
    assert!(!h.t.less_than(&Param::new(1, 2)) && !Param::new(1, 2).less_than(&h.t));
}

#[test]
fn cube_hit_misses() {
    let ray = Ray::new(p(-1, 5, 1), p(1, 0, 0));
    assert!(unit_cube().hit(0, &ray, Param::new(1, 1000), Param::new(100, 1)).is_none());
    let short = Ray::new(p(-10, 1, 1), p(1, 0, 0));
    assert!(unit_cube().hit(0, &short, Param::new(1, 1000), Param::new(5, 1)).is_none());
}

#[test]
fn grazing_ray_does_not_hit() {
    // The ray meets the box only along the edge x = 0, y = 2 at t = 1.
    let ray = Ray::new(p(-1, 1, 1), p(1, 1, 0));
    let c = unit_cube();
    assert!(c.bounding_box().grazed_by(&ray));
    assert!(c.hit(0, &ray, Param::new(1, 1000), Param::new(100, 1)).is_none());
    assert!(!c.bounding_box().hit(&ray, Param::new(1, 1000), Param::new(100, 1)));
    // Sliding along a face is not grazing: the ray passes through a whole segment of the box.
    let along = Ray::new(p(-1, 2, 1), p(1, 0, 0));
    assert!(!c.bounding_box().grazed_by(&along));
    assert!(c.hit(0, &along, Param::new(1, 1000), Param::new(100, 1)).is_some());
}

#[test]
fn cube_centre_and_box() {
    let c = Cube::new(p(-3, 0, 1), p(1, 4, 2), 0);
    let m = c.centre();
    assert_eq!((m.x, m.y, m.z), (-1, 2, 1));
    let b = c.bounding_box();
    assert_eq!((b.min.x, b.max.y), (-3, 4));
}

fn record(axis: usize, positive: bool) -> HitRecord {
    HitRecord { t: Param::new(1, 1), object: 0, axis, positive, material: 0 }
}

#[test]
fn total_internal_reflection_always_reflects() {
    let glass = Dielectric::new(3, 2);
    // Leaving the glass through its top face at a grazing angle.
    let ray = Ray::new(p(0, 0, 0), p(5, 0, 1));
    let hit = record(2, true);
    assert!(!glass.can_refract(&ray, &hit));
    assert_eq!(glass.scatter_choice(&ray, &hit, false), ScatterChoice::Reflect);
    assert_eq!(glass.scatter_choice(&ray, &hit, true), ScatterChoice::Reflect);
}

#[test]
fn refraction_follows_the_draw() {
    let glass = Dielectric::new(3, 2);
    // Entering through the top face, head on.
    let ray = Ray::new(p(0, 0, 5), p(0, 0, -1));
    let hit = record(2, true);
    assert!(glass.can_refract(&ray, &hit));
    assert_eq!(glass.scatter_choice(&ray, &hit, false), ScatterChoice::Refract);
    assert_eq!(glass.scatter_choice(&ray, &hit, true), ScatterChoice::Reflect);
    // Leaving steeply still refracts.
    let out = Ray::new(p(0, 0, 0), p(1, 0, 4));
    assert!(glass.can_refract(&out, &hit));
}

#[test]
fn reflect_flips_normal_component() {
    let v = p(3, -4, 5);
    let r = reflect(&v, &record(1, true));
    assert_eq!((r.x, r.y, r.z), (3, 4, 5));
    let s = reflect(&v, &record(0, false));
    assert_eq!((s.x, s.y, s.z), (-3, -4, 5));
}
