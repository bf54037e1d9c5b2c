use vstd::prelude::*;

use crate::aabb::{lemma_inside_point_passes, AABB};
use crate::geom::{lemma_lt_le_trans, lemma_lt_trans, Param, Point3, COORD_LIMIT};
use crate::hitrecord::HitRecord;
use crate::ray::Ray;

verus! {

/// An axis-aligned solid box with a material.
#[derive(Clone, Copy, Debug)]
pub struct Cube {
    pub min: Point3,
    pub max: Point3,
    pub material: usize,
}

impl Cube {
    pub open spec fn bounds(self) -> AABB {
        AABB { min: self.min, max: self.max }
    }

    pub open spec fn wf(self) -> bool {
        self.bounds().wf()
    }

    /// The parameter at which the ray crosses the plane of a face (`side`: the `max` face).
    pub open spec fn crossing(self, ray: Ray, axis: int, side: bool) -> Param {
        let edge = if side {
            self.max.coord(axis)
        } else {
            self.min.coord(axis)
        };
        Param::ratio(edge - ray.origin.coord(axis), ray.direction.coord(axis))
    }

    /// The ray crosses the plane of the face at a point of the closed box.
    pub open spec fn on_face(self, ray: Ray, axis: int, side: bool) -> bool {
        &&& 0 <= axis < 3
        &&& ray.direction.coord(axis) != 0
        &&& self.bounds().point_inside(ray, self.crossing(ray, axis, side))
    }

    /// The ray crosses the face strictly within `(t_min, t_max)` and passes through the box
    /// over more than a single point (it does not graze the box).
    pub open spec fn face_hit(self, ray: Ray, axis: int, side: bool, t_min: Param, t_max: Param) -> bool {
        &&& !self.bounds().grazes(ray)
        &&& self.on_face(ray, axis, side)
        &&& t_min.lt(self.crossing(ray, axis, side))
        &&& self.crossing(ray, axis, side).lt(t_max)
    }

    /// The ray crosses a face within `(t_min, t_max)` at a parameter equal to `t`.
    pub open spec fn crosses_at(self, ray: Ray, t_min: Param, t_max: Param, t: Param) -> bool {
        exists|a: int, s: bool|
            #[trigger] self.face_hit(ray, a, s, t_min, t_max) && self.crossing(ray, a, s).same_value(t)
    }

    /// The ray crosses no face within `(t_min, t_max)`.
    pub open spec fn misses(self, ray: Ray, t_min: Param, t_max: Param) -> bool {
        forall|a: int, s: bool| !#[trigger] self.face_hit(ray, a, s, t_min, t_max)
    }

    /// `h` records a crossing of a face of this box, held under index `object`, in
    /// `(t_min, t_max)`.
    pub open spec fn records(self, object: usize, ray: Ray, t_min: Param, t_max: Param, h: HitRecord) -> bool {
        &&& h.object == object
        &&& h.material == self.material
        &&& h.axis < 3
        &&& h.t == self.crossing(ray, h.axis as int, h.positive)
        &&& self.face_hit(ray, h.axis as int, h.positive, t_min, t_max)
    }

    pub fn new(min: Point3, max: Point3, material: usize) -> (r: Cube)
        ensures
            r.min == min && r.max == max && r.material == material,
    {
        Cube { min, max, material }
    }

    pub fn bounding_box(&self) -> (r: AABB)
        ensures
            r == self.bounds(),
    {
        AABB::new(self.min, self.max)
    }

    pub fn centre(&self) -> (r: Point3)
        requires
            self.wf(),
        ensures
            forall|a: int|
                0 <= a < 3 ==> 2 * #[trigger] r.coord(a) <= self.min.coord(a) + self.max.coord(a)
                    <= 2 * r.coord(a) + 1,
    {
        self.bounding_box().centroid()
    }

    /// Where the ray crosses the plane of a face at a point of the closed box, the parameter
    /// of that crossing.
    fn face_crossing(&self, ray: &Ray, axis: usize, side: bool) -> (r: Option<Param>)
        requires
            self.wf(),
            ray.wf(),
            axis < 3,
        ensures
            r.is_some() == self.on_face(*ray, axis as int, side),
            r.is_some() ==> r.unwrap() == self.crossing(*ray, axis as int, side) && r.unwrap().wf()
                && -2 * COORD_LIMIT <= r.unwrap().num <= 2 * COORD_LIMIT && r.unwrap().den
                <= COORD_LIMIT,
    {
        let d = ray.direction.get(axis);
        if d == 0 {
            return None;
        }
        let edge = if side {
            self.max.get(axis)
        } else {
            self.min.get(axis)
        };
        let t = Param::from_ratio(edge - ray.origin.get(axis), d);
        let bv = self.bounding_box();
        proof {
            lemma_crossing_on_own_axis(bv, *ray, t, axis as int, edge as int);
        }
        let mut k: usize = 0;
        while k < 3
            invariant
                0 <= k <= 3,
                self.wf(),
                ray.wf(),
                bv == self.bounds(),
                t == self.crossing(*ray, axis as int, side),
                -2 * COORD_LIMIT <= t.num <= 2 * COORD_LIMIT,
                0 < t.den <= COORD_LIMIT,
                forall|j: int| 0 <= j < k ==> #[trigger] bv.point_within(*ray, t, j),
                axis < 3,
                bv.point_within(*ray, t, axis as int),
            decreases 3 - k,
        {
            if k != axis && !point_within_exec(&bv, ray, &t, k) {
                return None;
            }
            k = k + 1;
        }
        assert(bv.point_within(*ray, t, 0) && bv.point_within(*ray, t, 1) && bv.point_within(
            *ray,
            t,
            2,
        ));
        Some(t)
    }

    /// The nearest crossing of a face of the box within `(t_min, t_max)`, recorded under
    /// index `object`; none for a ray that meets the box at a single parameter only.
    pub fn hit(&self, object: usize, ray: &Ray, t_min: Param, t_max: Param) -> (r: Option<
        HitRecord,
    >)
        requires
            self.wf(),
            ray.wf(),
            t_min.wf(),
            t_max.wf(),
        ensures
            r.is_none() ==> self.misses(*ray, t_min, t_max),
            r.is_some() ==> self.records(object, *ray, t_min, t_max, r.unwrap()) && self.misses(
                *ray,
                t_min,
                r.unwrap().t,
            ) && r.unwrap().t.wf(),
    {
        if self.bounding_box().grazed_by(ray) {
            return None;
        }
        let mut best: Option<HitRecord> = None;
        let mut current = t_max;
        let mut f: usize = 0;
        while f < 6
            invariant
                0 <= f <= 6,
                self.wf(),
                ray.wf(),
                t_min.wf(),
                t_max.wf(),
                current.wf(),
                !self.bounds().grazes(*ray),
                best.is_none() ==> current == t_max,
                best.is_some() ==> current == best.unwrap().t && self.records(
                    object,
                    *ray,
                    t_min,
                    t_max,
                    best.unwrap(),
                ),
                forall|a: int, s: bool|
                    0 <= a < 3 && 2 * a + (if s {
                        1int
                    } else {
                        0int
                    }) < f ==> !#[trigger] self.face_hit(*ray, a, s, t_min, current),
            decreases 6 - f,
        {
            let axis = f / 2;
            let side = f % 2 == 1;
            if let Some(t) = self.face_crossing(ray, axis, side) {
                if t_min.less_than(&t) && t.less_than(&current) {
                    proof {
                        assert forall|a: int, s: bool|
                            0 <= a < 3 && 2 * a + (if s {
                                1int
                            } else {
                                0int
                            }) < f implies !#[trigger] self.face_hit(*ray, a, s, t_min, t) by {
                            if self.face_hit(*ray, a, s, t_min, t) {
                                self.bounds().lemma_slab_params_wf(*ray);
                                lemma_crossing_wf(*self, *ray, a, s);
                                lemma_lt_trans(self.crossing(*ray, a, s), t, current);
                                assert(self.face_hit(*ray, a, s, t_min, current));
                            }
                        }
                        if best.is_some() {
                            lemma_lt_trans(t, current, t_max);
                        }
                    }
                    current = t;
                    best = Some(
                        HitRecord { t, object, axis, positive: side, material: self.material },
                    );
                }
            }
            f = f + 1;
        }
        proof {
            assert forall|a: int, s: bool| !#[trigger] self.face_hit(*ray, a, s, t_min, current) by {
                if 0 <= a < 3 {
                    assert(2 * a + (if s {
                        1int
                    } else {
                        0int
                    }) < 6);
                }
            }
        }
        best
    }
}

/// A face crossing within `(t_min, t_max)` passes the slab test of the box's bounds.
pub proof fn lemma_face_hit_passes_slab(c: Cube, ray: Ray, a: int, s: bool, t_min: Param, t_max: Param)
    requires
        c.wf(),
        ray.wf(),
        t_min.wf(),
        t_max.wf(),
        c.face_hit(ray, a, s, t_min, t_max),
    ensures
        c.bounds().slab_hit(ray, t_min, t_max),
{
    lemma_crossing_wf(c, ray, a, s);
    lemma_inside_point_passes(c.bounds(), ray, c.crossing(ray, a, s), t_min, t_max);
}

/// A box missed over `(t_min, t1)` is missed over any shorter interval `(t_min, t2)`.
pub proof fn lemma_misses_shrink(c: Cube, ray: Ray, t_min: Param, t1: Param, t2: Param)
    requires
        c.wf(),
        ray.wf(),
        t1.wf(),
        t2.wf(),
        c.misses(ray, t_min, t1),
        t2.le(t1),
    ensures
        c.misses(ray, t_min, t2),
{
    assert forall|a: int, s: bool| !#[trigger] c.face_hit(ray, a, s, t_min, t2) by {
        if c.face_hit(ray, a, s, t_min, t2) {
            lemma_crossing_wf(c, ray, a, s);
            lemma_lt_le_trans(c.crossing(ray, a, s), t2, t1);
            assert(c.face_hit(ray, a, s, t_min, t1));
        }
    }
}

/// A crossing recorded within `(t_min, t1)` is also one within any longer `(t_min, t2)`.
pub proof fn lemma_records_grow(c: Cube, object: usize, ray: Ray, t_min: Param, t1: Param, t2: Param, h: HitRecord)
    requires
        c.wf(),
        ray.wf(),
        t1.wf(),
        t2.wf(),
        c.records(object, ray, t_min, t1, h),
        t1.le(t2),
    ensures
        c.records(object, ray, t_min, t2, h),
{
    lemma_crossing_wf(c, ray, h.axis as int, h.positive);
    lemma_lt_le_trans(h.t, t1, t2);
}

/// The crossing parameters of a box are well formed.
pub proof fn lemma_crossing_wf(c: Cube, ray: Ray, a: int, s: bool)
    requires
        c.wf(),
        ray.wf(),
        0 <= a < 3,
        ray.direction.coord(a) != 0,
    ensures
        c.crossing(ray, a, s).wf(),
{
}

proof fn lemma_crossing_on_own_axis(bv: AABB, ray: Ray, t: Param, axis: int, edge: int)
    requires
        bv.wf(),
        ray.wf(),
        0 <= axis < 3,
        ray.direction.coord(axis) != 0,
        edge == bv.min.coord(axis) || edge == bv.max.coord(axis),
        t == Param::ratio(edge - ray.origin.coord(axis), ray.direction.coord(axis)),
    ensures
        bv.point_within(ray, t, axis),
        -2 * COORD_LIMIT <= t.num <= 2 * COORD_LIMIT,
        0 < t.den <= COORD_LIMIT,
{
    let d = ray.direction.coord(axis);
    let o = ray.origin.coord(axis);
    let (n, m) = (t.num as int, t.den as int);
    if d > 0 {
        assert(m * o + n * d == m * edge) by (nonlinear_arith)
            requires
                m == d,
                n == edge - o,
        ;
    } else {
        assert(m * o + n * d == m * edge) by (nonlinear_arith)
            requires
                m == -d,
                n == -(edge - o),
        ;
    }
    let (mn, mx) = (bv.min.coord(axis), bv.max.coord(axis));
    assert(m * mn <= m * edge <= m * mx) by (nonlinear_arith)
        requires
            m > 0,
            mn <= edge <= mx,
    ;
}

fn point_within_exec(bv: &AABB, ray: &Ray, t: &Param, axis: usize) -> (r: bool)
    requires
        bv.wf(),
        ray.wf(),
        axis < 3,
        -2 * COORD_LIMIT <= t.num <= 2 * COORD_LIMIT,
        0 < t.den <= COORD_LIMIT,
    ensures
        r == bv.point_within(*ray, *t, axis as int),
{
    let o = ray.origin.get(axis);
    let d = ray.direction.get(axis);
    let lo = bv.min.get(axis);
    let hi = bv.max.get(axis);
    proof {
        lemma_grid_product(t.den as int, o as int, 1);
        lemma_grid_product(t.num as int, d as int, 2);
        lemma_grid_product(t.den as int, lo as int, 1);
        lemma_grid_product(t.den as int, hi as int, 1);
    }
    let p = t.den * o + t.num * d;
    t.den * lo <= p && p <= t.den * hi
}

proof fn lemma_grid_product(a: int, b: int, k: int)
    requires
        1 <= k <= 2,
        -k * COORD_LIMIT <= a <= k * COORD_LIMIT,
        -COORD_LIMIT <= b <= COORD_LIMIT,
    ensures
        -k * COORD_LIMIT * COORD_LIMIT <= a * b <= k * COORD_LIMIT * COORD_LIMIT,
{
    assert(-k * COORD_LIMIT * COORD_LIMIT <= a * b <= k * COORD_LIMIT * COORD_LIMIT)
        by (nonlinear_arith)
        requires
            1 <= k <= 2,
            -k * COORD_LIMIT <= a <= k * COORD_LIMIT,
            -COORD_LIMIT <= b <= COORD_LIMIT,
    ;
}

} // verus!
