use vstd::prelude::*;

use crate::geom::{Point3, COORD_LIMIT};
use crate::hitrecord::HitRecord;
use crate::ray::Ray;

verus! {

/// Largest numerator or denominator of a refractive index.
pub const INDEX_LIMIT: u64 = 1000;

/// A refractive material whose index is the exact ratio `ref_num / ref_den`.
#[derive(Clone, Copy, Debug)]
pub struct Dielectric {
    pub ref_num: u64,
    pub ref_den: u64,
}

/// Which way a refractive surface sends a ray on.
#[derive(Clone, Copy, Debug, PartialEq, Eq)]
pub enum ScatterChoice {
    Reflect,
    Refract,
}

/// The dot product of the ray's direction with the hit's outward normal.
pub open spec fn direction_dot_normal(ray: Ray, hit: HitRecord) -> int {
    ray.direction.coord(0) * hit.normal_coord(0) + ray.direction.coord(1) * hit.normal_coord(1)
        + ray.direction.coord(2) * hit.normal_coord(2)
}

/// The squared length of a vector.
pub open spec fn length_sq(v: Point3) -> int {
    v.x * v.x + v.y * v.y + v.z * v.z
}

/// The direction mirrored about the plane of a face with the given normal axis.
pub open spec fn mirrored_about(v: Point3, axis: int) -> Point3 {
    Point3 {
        x: if axis == 0 { (-v.x) as i64 } else { v.x },
        y: if axis == 1 { (-v.y) as i64 } else { v.y },
        z: if axis == 2 { (-v.z) as i64 } else { v.z },
    }
}

impl Dielectric {
    pub open spec fn wf(self) -> bool {
        1 <= self.ref_num <= INDEX_LIMIT && 1 <= self.ref_den <= INDEX_LIMIT
    }

    /// The ray leaves the medium: its direction points along the outward normal.
    pub open spec fn exiting(ray: Ray, hit: HitRecord) -> bool {
        direction_dot_normal(ray, hit) > 0
    }

    /// Snell's law has a solution: with `n = ni / nt` (the index on leaving, its inverse on
    /// entering) and `c` the cosine between direction and normal, `1 - n^2 (1 - c^2) > 0`,
    /// multiplied out by the squared denominators.
    pub open spec fn refraction_possible(self, ray: Ray, hit: HitRecord) -> bool {
        let (p, q) = if Dielectric::exiting(ray, hit) {
            (self.ref_num as int, self.ref_den as int)
        } else {
            (self.ref_den as int, self.ref_num as int)
        };
        let d2 = length_sq(ray.direction);
        let dn = direction_dot_normal(ray, hit);
        q * q * d2 > p * p * (d2 - dn * dn)
    }

    pub fn new(ref_num: u64, ref_den: u64) -> (r: Dielectric)
        requires
            1 <= ref_num <= INDEX_LIMIT,
            1 <= ref_den <= INDEX_LIMIT,
        ensures
            r.ref_num == ref_num && r.ref_den == ref_den,
            r.wf(),
    {
        Dielectric { ref_num, ref_den }
    }

    /// Whether Snell refraction succeeds at the hit (no total internal reflection).
    pub fn can_refract(&self, ray: &Ray, hit: &HitRecord) -> (r: bool)
        requires
            self.wf(),
            ray.wf(),
            hit.axis < 3,
        ensures
            r == self.refraction_possible(*ray, *hit),
    {
        let d = ray.direction;
        let dn: i128 = if hit.positive {
            d.get(hit.axis) as i128
        } else {
            -(d.get(hit.axis) as i128)
        };
        proof {
            assert(dn == direction_dot_normal(*ray, *hit));
            lemma_square_bound(d.x as int);
            lemma_square_bound(d.y as int);
            lemma_square_bound(d.z as int);
            lemma_square_bound(dn as int);
        }
        let d2: i128 = (d.x as i128) * (d.x as i128) + (d.y as i128) * (d.y as i128) + (d.z as i128)
            * (d.z as i128);
        let (p, q): (i128, i128) = if dn > 0 {
            (self.ref_num as i128, self.ref_den as i128)
        } else {
            (self.ref_den as i128, self.ref_num as i128)
        };
        let rest = d2 - dn * dn;
        proof {
            let (x, y, z) = (d.x as int, d.y as int, d.z as int);
            let a = d.coord(hit.axis as int);
            assert(dn == a || dn == -a);
            assert(dn * dn == a * a) by (nonlinear_arith)
                requires
                    dn == a || dn == -a,
            ;
            assert(a == x || a == y || a == z);
            assert(0 <= rest <= 3 * COORD_LIMIT * COORD_LIMIT);
            lemma_scaled_bound(q as int, d2 as int);
            lemma_scaled_bound(p as int, rest as int);
            assert(1 <= q * q <= INDEX_LIMIT * INDEX_LIMIT) by (nonlinear_arith)
                requires
                    1 <= q <= INDEX_LIMIT,
            ;
            assert(1 <= p * p <= INDEX_LIMIT * INDEX_LIMIT) by (nonlinear_arith)
                requires
                    1 <= p <= INDEX_LIMIT,
            ;
        }
        q * q * d2 > p * p * rest
    }

    /// The way the ray goes on: reflected under total internal reflection; otherwise
    /// reflected exactly when `reflect_draw` holds, the caller's uniform draw having fallen
    /// below the reflection probability.
    pub fn scatter_choice(&self, ray: &Ray, hit: &HitRecord, reflect_draw: bool) -> (r: ScatterChoice)
        requires
            self.wf(),
            ray.wf(),
            hit.axis < 3,
        ensures
            !self.refraction_possible(*ray, *hit) ==> r == ScatterChoice::Reflect,
            self.refraction_possible(*ray, *hit) ==> (r == ScatterChoice::Reflect <==> reflect_draw),
    {
        if self.can_refract(ray, hit) {
            if reflect_draw {
                ScatterChoice::Reflect
            } else {
                ScatterChoice::Refract
            }
        } else {
            ScatterChoice::Reflect
        }
    }
}

/// The mirror reflection `v - 2 (v . n) n` of a direction about a face's unit normal.
pub fn reflect(v: &Point3, hit: &HitRecord) -> (r: Point3)
    requires
        v.in_grid(),
        hit.axis < 3,
    ensures
        r == mirrored_about(*v, hit.axis as int),
        r.in_grid(),
{
    Point3 {
        x: if hit.axis == 0 { -v.x } else { v.x },
        y: if hit.axis == 1 { -v.y } else { v.y },
        z: if hit.axis == 2 { -v.z } else { v.z },
    }
}

proof fn lemma_square_bound(a: int)
    requires
        -COORD_LIMIT <= a <= COORD_LIMIT,
    ensures
        0 <= a * a <= COORD_LIMIT * COORD_LIMIT,
{
    assert(0 <= a * a <= COORD_LIMIT * COORD_LIMIT) by (nonlinear_arith)
        requires
            -COORD_LIMIT <= a <= COORD_LIMIT,
    ;
}

proof fn lemma_scaled_bound(p: int, v: int)
    requires
        1 <= p <= INDEX_LIMIT,
        0 <= v <= 3 * COORD_LIMIT * COORD_LIMIT,
    ensures
        0 <= p * p * v <= INDEX_LIMIT * INDEX_LIMIT * 3 * COORD_LIMIT * COORD_LIMIT,
{
    assert(0 <= p * p * v <= INDEX_LIMIT * INDEX_LIMIT * 3 * COORD_LIMIT * COORD_LIMIT)
        by (nonlinear_arith)
        requires
            1 <= p <= INDEX_LIMIT,
            0 <= v <= 3 * COORD_LIMIT * COORD_LIMIT,
    ;
}

} // verus!
