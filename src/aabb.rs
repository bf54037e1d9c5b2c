use vstd::prelude::*;

use crate::geom::{Param, Point3, COORD_LIMIT, PARAM_LIMIT};
use crate::geom::{lemma_le_lt_trans, lemma_le_trans, lemma_lt_le_trans, lemma_lt_trans};
use crate::ray::Ray;

verus! {

/// An axis-aligned bounding volume `[min, max]` on the integer grid.
#[derive(Clone, Copy, Debug)]
pub struct AABB {
    pub min: Point3,
    pub max: Point3,
}

impl AABB {
    pub open spec fn wf(self) -> bool {
        &&& self.min.in_grid()
        &&& self.max.in_grid()
        &&& self.min.x <= self.max.x
        &&& self.min.y <= self.max.y
        &&& self.min.z <= self.max.z
    }

    /// Every point of `o` lies in `self`.
    pub open spec fn contains(self, o: AABB) -> bool {
        &&& self.min.x <= o.min.x && o.max.x <= self.max.x
        &&& self.min.y <= o.min.y && o.max.y <= self.max.y
        &&& self.min.z <= o.min.z && o.max.z <= self.max.z
    }

    /// The smallest volume holding both.
    pub open spec fn union_of(a: AABB, b: AABB) -> AABB {
        AABB {
            min: Point3 {
                x: if a.min.x <= b.min.x { a.min.x } else { b.min.x },
                y: if a.min.y <= b.min.y { a.min.y } else { b.min.y },
                z: if a.min.z <= b.min.z { a.min.z } else { b.min.z },
            },
            max: Point3 {
                x: if a.max.x >= b.max.x { a.max.x } else { b.max.x },
                y: if a.max.y >= b.max.y { a.max.y } else { b.max.y },
                z: if a.max.z >= b.max.z { a.max.z } else { b.max.z },
            },
        }
    }

    /// The extent on `axis`.
    pub open spec fn span(self, axis: int) -> int {
        self.max.coord(axis) - self.min.coord(axis)
    }

    /// The volume reflected through the origin.
    pub open spec fn mirrored(self) -> AABB {
        AABB { min: self.max.negated(), max: self.min.negated() }
    }

    /// Parameter at which the ray enters the slab on `axis` (for a nonzero component).
    pub open spec fn slab_lo(self, ray: Ray, axis: int) -> Param {
        let d = ray.direction.coord(axis);
        let o = ray.origin.coord(axis);
        if d > 0 {
            Param::ratio(self.min.coord(axis) - o, d)
        } else {
            Param::ratio(self.max.coord(axis) - o, d)
        }
    }

    /// Parameter at which the ray leaves the slab on `axis` (for a nonzero component).
    pub open spec fn slab_hi(self, ray: Ray, axis: int) -> Param {
        let d = ray.direction.coord(axis);
        let o = ray.origin.coord(axis);
        if d > 0 {
            Param::ratio(self.max.coord(axis) - o, d)
        } else {
            Param::ratio(self.min.coord(axis) - o, d)
        }
    }

    /// The point of the ray at parameter `t` lies within the slab on `axis` (closed).
    pub open spec fn point_within(self, ray: Ray, t: Param, axis: int) -> bool {
        let p_scaled = t.den * ray.origin.coord(axis) + t.num * ray.direction.coord(axis);
        t.den * self.min.coord(axis) <= p_scaled <= t.den * self.max.coord(axis)
    }

    /// The point of the ray at parameter `t` lies within the closed volume.
    pub open spec fn point_inside(self, ray: Ray, t: Param) -> bool {
        self.point_within(ray, t, 0) && self.point_within(ray, t, 1) && self.point_within(ray, t, 2)
    }

    /// Some point of the ray strictly between `t_min` and `t_max` lies in the closed volume.
    pub open spec fn meets(self, ray: Ray, t_min: Param, t_max: Param) -> bool {
        exists|t: Param| t.den > 0 && t_min.lt(t) && t.lt(t_max) && #[trigger] self.point_inside(ray, t)
    }

    /// The larger of `m` and the entry on `axis`, where the ray is not parallel to that slab.
    pub open spec fn raise(self, ray: Ray, m: Param, axis: int) -> Param {
        if ray.direction.coord(axis) != 0 && m.lt(self.slab_lo(ray, axis)) {
            self.slab_lo(ray, axis)
        } else {
            m
        }
    }

    /// The smaller of `m` and the exit on `axis`, where the ray is not parallel to that slab.
    pub open spec fn lower(self, ray: Ray, m: Param, axis: int) -> Param {
        if ray.direction.coord(axis) != 0 && self.slab_hi(ray, axis).lt(m) {
            self.slab_hi(ray, axis)
        } else {
            m
        }
    }

    /// The greatest lower bound of the parameter: `t_min` and every entry.
    pub open spec fn last_entry(self, ray: Ray, t_min: Param) -> Param {
        self.raise(ray, self.raise(ray, self.raise(ray, t_min, 0), 1), 2)
    }

    /// The least upper bound of the parameter: `t_max` and every exit.
    pub open spec fn first_exit(self, ray: Ray, t_max: Param) -> Param {
        self.lower(ray, self.lower(ray, self.lower(ray, t_max, 0), 1), 2)
    }

    /// A ray parallel to the slab on `axis` starts within it.
    pub open spec fn parallel_inside(self, ray: Ray, axis: int) -> bool {
        self.min.coord(axis) <= ray.origin.coord(axis) <= self.max.coord(axis)
    }

    /// The slab test: every lower bound of the parameter (`t_min` and the slab entries)
    /// lies strictly below every upper bound (`t_max` and the slab exits), and a ray
    /// parallel to a slab starts within it.
    pub open spec fn slab_hit(self, ray: Ray, t_min: Param, t_max: Param) -> bool {
        &&& t_min.lt(t_max)
        &&& forall|a: int|
            0 <= a < 3 && #[trigger] ray.direction.coord(a) == 0 ==> self.parallel_inside(ray, a)
        &&& forall|a: int|
            0 <= a < 3 && ray.direction.coord(a) != 0 ==> (#[trigger] self.slab_lo(ray, a)).lt(
                t_max,
            )
        &&& forall|a: int|
            0 <= a < 3 && ray.direction.coord(a) != 0 ==> t_min.lt(
                #[trigger] self.slab_hi(ray, a),
            )
        &&& forall|a: int, b: int|
            0 <= a < 3 && 0 <= b < 3 && ray.direction.coord(a) != 0 && ray.direction.coord(b)
                != 0 ==> (#[trigger] self.slab_lo(ray, a)).lt(#[trigger] self.slab_hi(ray, b))
    }

    /// The ray meets the closed volume at a single parameter only: some entry equals some exit.
    pub open spec fn grazes(self, ray: Ray) -> bool {
        exists|a: int, b: int|
            0 <= a < 3 && 0 <= b < 3 && ray.direction.coord(a) != 0 && ray.direction.coord(b) != 0
                && (#[trigger] self.slab_lo(ray, a)).same_value(#[trigger] self.slab_hi(ray, b))
    }

    /// The slab test of `ray` against the volume over the open interval `(t_min, t_max)`.
    pub fn hit(&self, ray: &Ray, t_min: Param, t_max: Param) -> (r: bool)
        requires
            self.wf(),
            ray.wf(),
            t_min.wf(),
            t_max.wf(),
        ensures
            r == self.slab_hit(*ray, t_min, t_max),
    {
        let mut lo = t_min;
        let mut hi = t_max;
        let ghost mut lo_src: int = -1;
        let ghost mut hi_src: int = -1;
        if !lo.less_than(&hi) {
            return false;
        }
        let mut a: usize = 0;
        while a < 3
            invariant
                0 <= a <= 3,
                self.wf(),
                ray.wf(),
                t_min.wf(),
                t_max.wf(),
                lo.wf(),
                hi.wf(),
                lo.lt(hi),
                t_min.lt(t_max),
                -1 <= lo_src < a,
                -1 <= hi_src < a,
                lo_src == -1 ==> lo == t_min,
                lo_src >= 0 ==> ray.direction.coord(lo_src) != 0 && lo == self.slab_lo(
                    *ray,
                    lo_src,
                ),
                hi_src == -1 ==> hi == t_max,
                hi_src >= 0 ==> ray.direction.coord(hi_src) != 0 && hi == self.slab_hi(
                    *ray,
                    hi_src,
                ),
                t_min.le(lo),
                hi.le(t_max),
                forall|b: int|
                    0 <= b < a && ray.direction.coord(b) != 0 ==> (#[trigger] self.slab_lo(
                        *ray,
                        b,
                    )).le(lo),
                forall|b: int|
                    0 <= b < a && ray.direction.coord(b) != 0 ==> hi.le(
                        #[trigger] self.slab_hi(*ray, b),
                    ),
                forall|b: int|
                    0 <= b < a && #[trigger] ray.direction.coord(b) == 0 ==> self.parallel_inside(
                        *ray,
                        b,
                    ),
            decreases 3 - a,
        {
            let d = ray.direction.get(a);
            let o = ray.origin.get(a);
            let lo_edge = self.min.get(a);
            let hi_edge = self.max.get(a);
            if d == 0 {
                if o < lo_edge || o > hi_edge {
                    return false;
                }
            } else {
                let (t0, t1) = if d > 0 {
                    (Param::from_ratio(lo_edge - o, d), Param::from_ratio(hi_edge - o, d))
                } else {
                    (Param::from_ratio(hi_edge - o, d), Param::from_ratio(lo_edge - o, d))
                };
                assert(t0 == self.slab_lo(*ray, a as int));
                assert(t1 == self.slab_hi(*ray, a as int));
                if lo.less_than(&t0) {
                    proof {
                        assert forall|b: int|
                            0 <= b < a && ray.direction.coord(b) != 0 implies (
                        #[trigger] self.slab_lo(*ray, b)).le(t0) by {
                            lemma_le_lt_trans(self.slab_lo(*ray, b), lo, t0);
                        }
                        lemma_le_lt_trans(t_min, lo, t0);
                    }
                    lo = t0;
                    proof {
                        lo_src = a as int;
                    }
                }
                if t1.less_than(&hi) {
                    proof {
                        assert forall|b: int|
                            0 <= b < a && ray.direction.coord(b) != 0 implies t1.le(
                            #[trigger] self.slab_hi(*ray, b),
                        ) by {
                            lemma_lt_le_trans(t1, hi, self.slab_hi(*ray, b));
                        }
                        lemma_lt_le_trans(t1, hi, t_max);
                    }
                    hi = t1;
                    proof {
                        hi_src = a as int;
                    }
                }
                if !lo.less_than(&hi) {
                    return false;
                }
            }
            a = a + 1;
        }
        proof {
            self.lemma_running_interval(*ray, t_min, t_max, lo, hi);
        }
        true
    }

    /// The slab parameters of a ray with a nonzero component are well formed.
    pub proof fn lemma_slab_params_wf(self, ray: Ray)
        requires
            self.wf(),
            ray.wf(),
        ensures
            forall|a: int|
                0 <= a < 3 && ray.direction.coord(a) != 0 ==> (#[trigger] self.slab_lo(
                    ray,
                    a,
                )).wf() && self.slab_hi(ray, a).wf(),
            forall|a: int|
                0 <= a < 3 && ray.direction.coord(a) != 0 ==> (#[trigger] self.slab_hi(
                    ray,
                    a,
                )).wf(),
    {
    }

    proof fn lemma_running_interval(self, ray: Ray, t_min: Param, t_max: Param, lo: Param, hi: Param)
        requires
            t_min.wf(),
            t_max.wf(),
            lo.wf(),
            hi.wf(),
            lo.lt(hi),
            t_min.lt(t_max),
            t_min.le(lo),
            hi.le(t_max),
            forall|b: int|
                0 <= b < 3 && ray.direction.coord(b) != 0 ==> (#[trigger] self.slab_lo(
                    ray,
                    b,
                )).le(lo),
            forall|b: int|
                0 <= b < 3 && ray.direction.coord(b) != 0 ==> hi.le(
                    #[trigger] self.slab_hi(ray, b),
                ),
            forall|b: int|
                0 <= b < 3 && #[trigger] ray.direction.coord(b) == 0 ==> self.parallel_inside(
                    ray,
                    b,
                ),
            self.wf(),
            ray.wf(),
        ensures
            self.slab_hit(ray, t_min, t_max),
    {
        self.lemma_slab_params_wf(ray);
        assert forall|a: int| 0 <= a < 3 && ray.direction.coord(a) != 0 implies (
        #[trigger] self.slab_lo(ray, a)).lt(t_max) by {
            lemma_le_lt_trans(self.slab_lo(ray, a), lo, hi);
            lemma_lt_le_trans(self.slab_lo(ray, a), hi, t_max);
        }
        assert forall|a: int| 0 <= a < 3 && ray.direction.coord(a) != 0 implies t_min.lt(
            #[trigger] self.slab_hi(ray, a),
        ) by {
            lemma_le_lt_trans(t_min, lo, hi);
            lemma_lt_le_trans(t_min, hi, self.slab_hi(ray, a));
        }
        assert forall|a: int, b: int|
            0 <= a < 3 && 0 <= b < 3 && ray.direction.coord(a) != 0 && ray.direction.coord(b)
                != 0 implies (#[trigger] self.slab_lo(ray, a)).lt(
            #[trigger] self.slab_hi(ray, b),
        ) by {
            lemma_le_lt_trans(self.slab_lo(ray, a), lo, hi);
            lemma_lt_le_trans(self.slab_lo(ray, a), hi, self.slab_hi(ray, b));
        }
    }

    /// Whether some slab entry equals some slab exit (see `grazes`).
    pub fn grazed_by(&self, ray: &Ray) -> (r: bool)
        requires
            self.wf(),
            ray.wf(),
        ensures
            r == self.grazes(*ray),
    {
        proof {
            self.lemma_slab_params_wf(*ray);
        }
        let mut a: usize = 0;
        while a < 3
            invariant
                0 <= a <= 3,
                self.wf(),
                ray.wf(),
                forall|i: int, j: int|
                    0 <= i < a && 0 <= j < 3 && ray.direction.coord(i) != 0
                        && ray.direction.coord(j) != 0 ==> !(#[trigger] self.slab_lo(
                        *ray,
                        i,
                    )).same_value(#[trigger] self.slab_hi(*ray, j)),
            decreases 3 - a,
        {
            let mut b: usize = 0;
            while b < 3
                invariant
                    0 <= a < 3,
                    0 <= b <= 3,
                    self.wf(),
                    ray.wf(),
                    forall|i: int, j: int|
                        0 <= i < a && 0 <= j < 3 && ray.direction.coord(i) != 0
                            && ray.direction.coord(j) != 0 ==> !(#[trigger] self.slab_lo(
                            *ray,
                            i,
                        )).same_value(#[trigger] self.slab_hi(*ray, j)),
                    forall|j: int|
                        0 <= j < b && ray.direction.coord(a as int) != 0
                            && ray.direction.coord(j) != 0 ==> !self.slab_lo(
                            *ray,
                            a as int,
                        ).same_value(#[trigger] self.slab_hi(*ray, j)),
                decreases 3 - b,
            {
                if ray.direction.get(a) != 0 && ray.direction.get(b) != 0 {
                    let (lo, hi) = (self.entry(ray, a), self.exit(ray, b));
                    if lo.same_as(&hi) {
                        return true;
                    }
                }
                b = b + 1;
            }
            a = a + 1;
        }
        false
    }

    /// The entry parameter on `axis`, for a ray not parallel to that slab.
    pub fn entry(&self, ray: &Ray, axis: usize) -> (r: Param)
        requires
            self.wf(),
            ray.wf(),
            axis < 3,
            ray.direction.coord(axis as int) != 0,
        ensures
            r == self.slab_lo(*ray, axis as int),
            r.wf(),
    {
        proof {
            self.lemma_slab_params_wf(*ray);
        }
        let d = ray.direction.get(axis);
        let o = ray.origin.get(axis);
        if d > 0 {
            Param::from_ratio(self.min.get(axis) - o, d)
        } else {
            Param::from_ratio(self.max.get(axis) - o, d)
        }
    }

    /// The exit parameter on `axis`, for a ray not parallel to that slab.
    pub fn exit(&self, ray: &Ray, axis: usize) -> (r: Param)
        requires
            self.wf(),
            ray.wf(),
            axis < 3,
            ray.direction.coord(axis as int) != 0,
        ensures
            r == self.slab_hi(*ray, axis as int),
            r.wf(),
    {
        proof {
            self.lemma_slab_params_wf(*ray);
        }
        let d = ray.direction.get(axis);
        let o = ray.origin.get(axis);
        if d > 0 {
            Param::from_ratio(self.max.get(axis) - o, d)
        } else {
            Param::from_ratio(self.min.get(axis) - o, d)
        }
    }

    pub fn new(min: Point3, max: Point3) -> (r: AABB)
        ensures
            r.min == min && r.max == max,
    {
        AABB { min, max }
    }

    /// The centre `(min + max) / 2`, rounded down on each axis.
    pub fn centroid(&self) -> (r: Point3)
        requires
            self.wf(),
        ensures
            forall|a: int|
                0 <= a < 3 ==> 2 * #[trigger] r.coord(a) <= self.min.coord(a) + self.max.coord(a)
                    <= 2 * r.coord(a) + 1,
    {
        Point3 {
            x: half_down(self.min.x + self.max.x),
            y: half_down(self.min.y + self.max.y),
            z: half_down(self.min.z + self.max.z),
        }
    }

    pub fn union(&self, other: &AABB) -> (r: AABB)
        ensures
            r == AABB::union_of(*self, *other),
    {
        surrounding_box(self, other)
    }

    pub fn surrounding_box(a: &AABB, b: &AABB) -> (r: AABB)
        ensures
            r == AABB::union_of(*a, *b),
    {
        surrounding_box(a, b)
    }

    /// The axis of largest extent; ties go to the later axis.
    pub fn maximum_extent(&self) -> (r: usize)
        requires
            self.wf(),
        ensures
            r < 3,
            forall|a: int| 0 <= a < 3 ==> #[trigger] self.span(a) <= self.span(r as int),
            forall|a: int| r < a < 3 ==> #[trigger] self.span(a) < self.span(r as int),
    {
        let ex = self.max.x - self.min.x;
        let ey = self.max.y - self.min.y;
        let ez = self.max.z - self.min.z;
        if ex > ey && ex > ez {
            0
        } else if ey > ez {
            1
        } else {
            2
        }
    }

    /// The squared length of the diagonal.
    pub open spec fn diagonal_sq(self) -> int {
        self.span(0) * self.span(0) + self.span(1) * self.span(1) + self.span(2) * self.span(2)
    }

    /// The length of the diagonal rounded up to a whole parameter: the smallest `n` with
    /// `diagonal_sq() <= n * n`.
    pub fn diagonal_bound(&self) -> (r: Param)
        requires
            self.wf(),
        ensures
            r.wf(),
            r.den == 1,
            0 <= r.num,
            self.diagonal_sq() <= r.num * r.num,
            r.num == 0 || (r.num - 1) * (r.num - 1) < self.diagonal_sq(),
    {
        let dx = self.max.x - self.min.x;
        let dy = self.max.y - self.min.y;
        let dz = self.max.z - self.min.z;
        proof {
            lemma_span_product(dx, dx);
            lemma_span_product(dy, dy);
            lemma_span_product(dz, dz);
        }
        let d2 = dx * dx + dy * dy + dz * dz;
        let n = ceil_sqrt(d2);
        Param::new(n, 1)
    }

    pub fn surface_area(&self) -> (r: i64)
        requires
            self.wf(),
        ensures
            r == 2 * (self.span(0) * self.span(1) + self.span(0) * self.span(2) + self.span(1)
                * self.span(2)),
    {
        let dx = self.max.x - self.min.x;
        let dy = self.max.y - self.min.y;
        let dz = self.max.z - self.min.z;
        proof {
            lemma_span_product(dx, dy);
            lemma_span_product(dx, dz);
            lemma_span_product(dy, dz);
        }
        2 * (dx * dy + dx * dz + dy * dz)
    }
}

proof fn lemma_span_product(a: i64, b: i64)
    requires
        0 <= a <= 2 * COORD_LIMIT,
        0 <= b <= 2 * COORD_LIMIT,
    ensures
        0 <= a * b <= 4 * COORD_LIMIT * COORD_LIMIT,
{
    assert(0 <= a * b <= 4 * COORD_LIMIT * COORD_LIMIT) by (nonlinear_arith)
        requires
            0 <= a <= 2 * COORD_LIMIT,
            0 <= b <= 2 * COORD_LIMIT,
    ;
}

/// The union holds both volumes and is itself a well-formed volume.
pub proof fn lemma_union_contains(a: AABB, b: AABB)
    requires
        a.wf(),
        b.wf(),
    ensures
        AABB::union_of(a, b).wf(),
        AABB::union_of(a, b).contains(a),
        AABB::union_of(a, b).contains(b),
{
}

/// Union does not depend on the order of its operands.
pub proof fn lemma_union_commutative(a: AABB, b: AABB)
    ensures
        AABB::union_of(a, b) == AABB::union_of(b, a),
{
}

/// Union does not depend on how operands are grouped.
pub proof fn lemma_union_associative(a: AABB, b: AABB, c: AABB)
    ensures
        AABB::union_of(AABB::union_of(a, b), c) == AABB::union_of(a, AABB::union_of(b, c)),
{
}

/// The slab test gives the same answer for a ray and a volume as for both reflected through
/// the origin: the ray's direction negated and its origin reflected.
pub proof fn lemma_slab_hit_mirror(bv: AABB, ray: Ray, t_min: Param, t_max: Param)
    requires
        bv.wf(),
        ray.wf(),
    ensures
        bv.slab_hit(ray, t_min, t_max) == bv.mirrored().slab_hit(ray.mirrored(), t_min, t_max),
{
    let m = bv.mirrored();
    let mr = ray.mirrored();
    assert forall|a: int| 0 <= a < 3 implies #[trigger] mr.direction.coord(a)
        == -ray.direction.coord(a) by {
        lemma_mirror_axis(bv, ray, a);
    }
    if bv.slab_hit(ray, t_min, t_max) {
        assert forall|a: int|
            0 <= a < 3 && #[trigger] mr.direction.coord(a) == 0 implies m.parallel_inside(mr, a) by {
            lemma_mirror_axis(bv, ray, a);
            assert(ray.direction.coord(a) == 0);
        }
        assert forall|a: int| 0 <= a < 3 && mr.direction.coord(a) != 0 implies (
        #[trigger] m.slab_lo(mr, a)).lt(t_max) && t_min.lt(m.slab_hi(mr, a)) by {
            lemma_mirror_axis(bv, ray, a);
            assert(ray.direction.coord(a) != 0);
            assert(bv.slab_lo(ray, a).lt(t_max));
            assert(t_min.lt(bv.slab_hi(ray, a)));
        }
        assert forall|a: int| 0 <= a < 3 && mr.direction.coord(a) != 0 implies t_min.lt(
            #[trigger] m.slab_hi(mr, a),
        ) by {
            lemma_mirror_axis(bv, ray, a);
            assert(ray.direction.coord(a) != 0);
            assert(t_min.lt(bv.slab_hi(ray, a)));
        }
        assert forall|a: int, b: int|
            0 <= a < 3 && 0 <= b < 3 && mr.direction.coord(a) != 0 && mr.direction.coord(b)
                != 0 implies (#[trigger] m.slab_lo(mr, a)).lt(#[trigger] m.slab_hi(mr, b)) by {
            lemma_mirror_axis(bv, ray, a);
            lemma_mirror_axis(bv, ray, b);
            assert(ray.direction.coord(a) != 0 && ray.direction.coord(b) != 0);
            assert(bv.slab_lo(ray, a).lt(bv.slab_hi(ray, b)));
        }
    }
    if m.slab_hit(mr, t_min, t_max) {
        assert forall|a: int|
            0 <= a < 3 && #[trigger] ray.direction.coord(a) == 0 implies bv.parallel_inside(
            ray,
            a,
        ) by {
            lemma_mirror_axis(bv, ray, a);
            assert(mr.direction.coord(a) == 0);
        }
        assert forall|a: int| 0 <= a < 3 && ray.direction.coord(a) != 0 implies (
        #[trigger] bv.slab_lo(ray, a)).lt(t_max) by {
            lemma_mirror_axis(bv, ray, a);
            assert(mr.direction.coord(a) != 0);
            assert(m.slab_lo(mr, a).lt(t_max));
        }
        assert forall|a: int| 0 <= a < 3 && ray.direction.coord(a) != 0 implies t_min.lt(
            #[trigger] bv.slab_hi(ray, a),
        ) by {
            lemma_mirror_axis(bv, ray, a);
            assert(mr.direction.coord(a) != 0);
            assert(t_min.lt(m.slab_hi(mr, a)));
        }
        assert forall|a: int, b: int|
            0 <= a < 3 && 0 <= b < 3 && ray.direction.coord(a) != 0 && ray.direction.coord(b)
                != 0 implies (#[trigger] bv.slab_lo(ray, a)).lt(#[trigger] bv.slab_hi(ray, b)) by {
            lemma_mirror_axis(bv, ray, a);
            lemma_mirror_axis(bv, ray, b);
            assert(mr.direction.coord(a) != 0 && mr.direction.coord(b) != 0);
            assert(m.slab_lo(mr, a).lt(m.slab_hi(mr, b)));
        }
    }
}

proof fn lemma_mirror_axis(bv: AABB, ray: Ray, a: int)
    requires
        bv.wf(),
        ray.wf(),
        0 <= a < 3,
    ensures
        ray.direction.coord(a) != 0 ==> bv.mirrored().slab_lo(ray.mirrored(), a) == bv.slab_lo(
            ray,
            a,
        ),
        ray.direction.coord(a) != 0 ==> bv.mirrored().slab_hi(ray.mirrored(), a) == bv.slab_hi(
            ray,
            a,
        ),
        ray.mirrored().direction.coord(a) == -ray.direction.coord(a),
        bv.mirrored().parallel_inside(ray.mirrored(), a) == bv.parallel_inside(ray, a),
{
    let m = bv.mirrored();
    let mr = ray.mirrored();
    assert(m.min.coord(a) == -bv.max.coord(a));
    assert(m.max.coord(a) == -bv.min.coord(a));
    assert(mr.origin.coord(a) == -ray.origin.coord(a));
    assert(mr.direction.coord(a) == -ray.direction.coord(a));
}

/// A ray parallel to a slab that starts outside it misses the volume, whatever the interval.
pub proof fn lemma_parallel_outside_misses(bv: AABB, ray: Ray, axis: int, t_min: Param, t_max: Param)
    requires
        0 <= axis < 3,
        ray.direction.coord(axis) == 0,
        !bv.parallel_inside(ray, axis),
    ensures
        !bv.slab_hit(ray, t_min, t_max),
{
}

/// A ray parallel to a slab that starts inside it is held back by no bound on that axis.
pub proof fn lemma_parallel_inside_unbounded(bv: AABB, ray: Ray, t_min: Param, t_max: Param)
    requires
        t_min.lt(t_max),
        forall|a: int| 0 <= a < 3 ==> #[trigger] ray.direction.coord(a) == 0,
        forall|a: int| 0 <= a < 3 ==> #[trigger] bv.parallel_inside(ray, a),
    ensures
        bv.slab_hit(ray, t_min, t_max),
{
}

/// A ray that passes the slab test of a volume passes that of any volume holding it.
pub proof fn lemma_slab_hit_grows(big: AABB, small: AABB, ray: Ray, t_min: Param, t_max: Param)
    requires
        big.wf(),
        small.wf(),
        ray.wf(),
        t_min.wf(),
        t_max.wf(),
        big.contains(small),
        small.slab_hit(ray, t_min, t_max),
    ensures
        big.slab_hit(ray, t_min, t_max),
{
    big.lemma_slab_params_wf(ray);
    small.lemma_slab_params_wf(ray);
    assert forall|a: int| 0 <= a < 3 && ray.direction.coord(a) != 0 implies (
    #[trigger] big.slab_lo(ray, a)).le(small.slab_lo(ray, a)) && small.slab_hi(ray, a).le(
        big.slab_hi(ray, a),
    ) by {
        lemma_slab_bounds_grow(big, small, ray, a);
    }
    assert forall|a: int| 0 <= a < 3 && ray.direction.coord(a) != 0 implies (
    #[trigger] big.slab_hi(ray, a)).wf() && small.slab_hi(ray, a).le(big.slab_hi(ray, a)) by {
        lemma_slab_bounds_grow(big, small, ray, a);
    }
    assert forall|a: int| 0 <= a < 3 && ray.direction.coord(a) != 0 implies (
    #[trigger] big.slab_lo(ray, a)).lt(t_max) by {
        lemma_le_lt_trans(big.slab_lo(ray, a), small.slab_lo(ray, a), t_max);
    }
    assert forall|a: int| 0 <= a < 3 && ray.direction.coord(a) != 0 implies t_min.lt(
        #[trigger] big.slab_hi(ray, a),
    ) by {
        lemma_lt_le_trans(t_min, small.slab_hi(ray, a), big.slab_hi(ray, a));
    }
    assert forall|a: int, b: int|
        0 <= a < 3 && 0 <= b < 3 && ray.direction.coord(a) != 0 && ray.direction.coord(b)
            != 0 implies (#[trigger] big.slab_lo(ray, a)).lt(#[trigger] big.slab_hi(ray, b)) by {
        lemma_le_lt_trans(big.slab_lo(ray, a), small.slab_lo(ray, a), small.slab_hi(ray, b));
        lemma_lt_le_trans(big.slab_lo(ray, a), small.slab_hi(ray, b), big.slab_hi(ray, b));
    }
}

proof fn lemma_slab_bounds_grow(big: AABB, small: AABB, ray: Ray, a: int)
    requires
        big.wf(),
        small.wf(),
        ray.wf(),
        big.contains(small),
        0 <= a < 3,
        ray.direction.coord(a) != 0,
    ensures
        big.slab_lo(ray, a).le(small.slab_lo(ray, a)),
        small.slab_hi(ray, a).le(big.slab_hi(ray, a)),
{
    let d = ray.direction.coord(a);
    let o = ray.origin.coord(a);
    let (bmin, bmax, smin, smax) = (big.min.coord(a), big.max.coord(a), small.min.coord(a),
    small.max.coord(a));
    assert(bmin <= smin && smax <= bmax);
    if d > 0 {
        assert((bmin - o) * d <= (smin - o) * d) by (nonlinear_arith)
            requires
                bmin <= smin,
                d > 0,
        ;
        assert((smax - o) * d <= (bmax - o) * d) by (nonlinear_arith)
            requires
                smax <= bmax,
                d > 0,
        ;
    } else {
        assert((-(bmax - o)) * (-d) <= (-(smax - o)) * (-d)) by (nonlinear_arith)
            requires
                smax <= bmax,
                d < 0,
        ;
        assert((-(smin - o)) * (-d) <= (-(bmin - o)) * (-d)) by (nonlinear_arith)
            requires
                bmin <= smin,
                d < 0,
        ;
    }
}

/// Where the ray's point at `t` lies within a slab, `t` lies between the slab's entry and exit.
pub proof fn lemma_within_slab(bv: AABB, ray: Ray, t: Param, b: int)
    requires
        bv.wf(),
        ray.wf(),
        t.den > 0,
        0 <= b < 3,
        bv.point_within(ray, t, b),
    ensures
        ray.direction.coord(b) != 0 ==> bv.slab_lo(ray, b).le(t) && t.le(bv.slab_hi(ray, b)),
        ray.direction.coord(b) == 0 ==> bv.parallel_inside(ray, b),
{
    let d = ray.direction.coord(b);
    let o = ray.origin.coord(b);
    let (mn, mx) = (bv.min.coord(b), bv.max.coord(b));
    let (n, m) = (t.num as int, t.den as int);
    assert(m * mn <= m * o + n * d <= m * mx);
    if d > 0 {
        assert((mn - o) * m <= n * d) by (nonlinear_arith)
            requires
                m * mn <= m * o + n * d,
        ;
        assert(n * d <= (mx - o) * m) by (nonlinear_arith)
            requires
                m * o + n * d <= m * mx,
        ;
    } else if d < 0 {
        assert((-(mx - o)) * m <= n * (-d)) by (nonlinear_arith)
            requires
                m * o + n * d <= m * mx,
        ;
        assert(n * (-d) <= (-(mn - o)) * m) by (nonlinear_arith)
            requires
                m * mn <= m * o + n * d,
        ;
    } else {
        assert(mn <= o <= mx) by (nonlinear_arith)
            requires
                m * mn <= m * o + n * d,
                m * o + n * d <= m * mx,
                d == 0,
                m > 0,
        ;
    }
}

/// The slab test is exact: a ray that passes it has a point strictly between `t_min` and
/// `t_max` in the closed volume, and one with such a point passes it unless it grazes the
/// volume.
pub proof fn lemma_slab_test_exact(bv: AABB, ray: Ray, t_min: Param, t_max: Param)
    requires
        bv.wf(),
        ray.wf(),
        t_min.wf(),
        t_max.wf(),
    ensures
        bv.slab_hit(ray, t_min, t_max) ==> bv.meets(ray, t_min, t_max),
        bv.meets(ray, t_min, t_max) && !bv.grazes(ray) ==> bv.slab_hit(ray, t_min, t_max),
{
    if bv.meets(ray, t_min, t_max) && !bv.grazes(ray) {
        let t = choose|t: Param| t.den > 0 && t_min.lt(t) && t.lt(t_max) && #[trigger] bv.point_inside(ray, t);
        lemma_inside_point_passes(bv, ray, t, t_min, t_max);
    }
    if bv.slab_hit(ray, t_min, t_max) {
        bv.lemma_slab_params_wf(ray);
        let lo = bv.last_entry(ray, t_min);
        let hi = bv.first_exit(ray, t_max);
        lemma_bounds_order(bv, ray, t_min, t_max);
        let t = midpoint(lo, hi);
        lemma_midpoint(lo, hi);
        lemma_le_lt_trans(t_min, lo, t);
        lemma_lt_le_trans(t, hi, t_max);
        assert forall|a: int| 0 <= a < 3 implies #[trigger] bv.point_within(ray, t, a) by {
            if ray.direction.coord(a) != 0 {
                lemma_le_lt_trans(bv.slab_lo(ray, a), lo, t);
                lemma_lt_le_trans(t, hi, bv.slab_hi(ray, a));
            }
            lemma_between_within(bv, ray, t, a);
        }
        assert(bv.point_inside(ray, t));
    }
}

/// The parameter halfway between `a` and `b`.
pub open spec fn midpoint(a: Param, b: Param) -> Param {
    Param { num: (a.num * b.den + b.num * a.den) as i64, den: (2 * (a.den * b.den)) as i64 }
}

proof fn lemma_midpoint(a: Param, b: Param)
    requires
        a.wf(),
        b.wf(),
        a.lt(b),
    ensures
        midpoint(a, b).den > 0,
        a.lt(midpoint(a, b)),
        midpoint(a, b).lt(b),
{
    let (an, ad, bn, bd) = (a.num as int, a.den as int, b.num as int, b.den as int);
    assert(-0x10_0000_0000_0000 <= an * bd <= 0x10_0000_0000_0000) by (nonlinear_arith)
        requires
            -0x400_0000 <= an <= 0x400_0000,
            0 < bd <= 0x400_0000,
    ;
    assert(-0x10_0000_0000_0000 <= bn * ad <= 0x10_0000_0000_0000) by (nonlinear_arith)
        requires
            -0x400_0000 <= bn <= 0x400_0000,
            0 < ad <= 0x400_0000,
    ;
    assert(0 < ad * bd <= 0x10_0000_0000_0000) by (nonlinear_arith)
        requires
            0 < ad <= 0x400_0000,
            0 < bd <= 0x400_0000,
    ;
    let mn = an * bd + bn * ad;
    let md = 2 * (ad * bd);
    assert(midpoint(a, b).num == mn && midpoint(a, b).den == md);
    assert(an * md < mn * ad) by (nonlinear_arith)
        requires
            an * bd < bn * ad,
            ad > 0,
            mn == an * bd + bn * ad,
            md == 2 * (ad * bd),
    ;
    assert(mn * bd < bn * md) by (nonlinear_arith)
        requires
            an * bd < bn * ad,
            bd > 0,
            mn == an * bd + bn * ad,
            md == 2 * (ad * bd),
    ;
}

proof fn lemma_bounds_order(bv: AABB, ray: Ray, t_min: Param, t_max: Param)
    requires
        bv.wf(),
        ray.wf(),
        t_min.wf(),
        t_max.wf(),
        bv.slab_hit(ray, t_min, t_max),
    ensures
        bv.last_entry(ray, t_min).wf(),
        bv.first_exit(ray, t_max).wf(),
        bv.last_entry(ray, t_min).lt(bv.first_exit(ray, t_max)),
        t_min.le(bv.last_entry(ray, t_min)),
        bv.first_exit(ray, t_max).le(t_max),
        forall|a: int|
            0 <= a < 3 && ray.direction.coord(a) != 0 ==> (#[trigger] bv.slab_lo(ray, a)).le(
                bv.last_entry(ray, t_min),
            ) && bv.first_exit(ray, t_max).le(bv.slab_hi(ray, a)),
{
    bv.lemma_slab_params_wf(ray);
    let l0 = bv.raise(ray, t_min, 0);
    let l1 = bv.raise(ray, l0, 1);
    let l2 = bv.raise(ray, l1, 2);
    let u0 = bv.lower(ray, t_max, 0);
    let u1 = bv.lower(ray, u0, 1);
    let u2 = bv.lower(ray, u1, 2);
    // The last entry is `t_min` or some entry; the first exit is `t_max` or some exit.
    assert(l2 == t_min || exists|a: int| 0 <= a < 3 && ray.direction.coord(a) != 0 && l2 == #[trigger] bv.slab_lo(ray, a));
    assert(u2 == t_max || exists|b: int| 0 <= b < 3 && ray.direction.coord(b) != 0 && u2 == #[trigger] bv.slab_hi(ray, b));
    // Raising only grows a bound and lowering only shrinks one.
    lemma_raise_le(bv, ray, t_min, 0);
    lemma_raise_le(bv, ray, l0, 1);
    lemma_raise_le(bv, ray, l1, 2);
    lemma_lower_le(bv, ray, t_max, 0);
    lemma_lower_le(bv, ray, u0, 1);
    lemma_lower_le(bv, ray, u1, 2);
    crate::geom::lemma_le_trans(t_min, l0, l1);
    crate::geom::lemma_le_trans(t_min, l1, l2);
    crate::geom::lemma_le_trans(u2, u1, u0);
    crate::geom::lemma_le_trans(u2, u0, t_max);
    assert forall|a: int|
        0 <= a < 3 && ray.direction.coord(a) != 0 implies (#[trigger] bv.slab_lo(ray, a)).le(l2)
        && u2.le(bv.slab_hi(ray, a)) by {
        if a == 0 {
            crate::geom::lemma_le_trans(bv.slab_lo(ray, a), l0, l1);
            crate::geom::lemma_le_trans(bv.slab_lo(ray, a), l1, l2);
            crate::geom::lemma_le_trans(u2, u1, u0);
            crate::geom::lemma_le_trans(u2, u0, bv.slab_hi(ray, a));
        } else if a == 1 {
            crate::geom::lemma_le_trans(bv.slab_lo(ray, a), l1, l2);
            crate::geom::lemma_le_trans(u2, u1, bv.slab_hi(ray, a));
        }
    }
}

proof fn lemma_raise_le(bv: AABB, ray: Ray, m: Param, a: int)
    requires
        bv.wf(),
        ray.wf(),
        m.wf(),
        0 <= a < 3,
    ensures
        m.le(bv.raise(ray, m, a)),
        ray.direction.coord(a) != 0 ==> bv.slab_lo(ray, a).le(bv.raise(ray, m, a)),
        bv.raise(ray, m, a).wf(),
{
    bv.lemma_slab_params_wf(ray);
}

proof fn lemma_lower_le(bv: AABB, ray: Ray, m: Param, a: int)
    requires
        bv.wf(),
        ray.wf(),
        m.wf(),
        0 <= a < 3,
    ensures
        bv.lower(ray, m, a).le(m),
        ray.direction.coord(a) != 0 ==> bv.lower(ray, m, a).le(bv.slab_hi(ray, a)),
        bv.lower(ray, m, a).wf(),
{
    bv.lemma_slab_params_wf(ray);
}

/// A parameter between a slab's entry and exit puts the ray's point within the slab; so does
/// any parameter, for a ray parallel to a slab that it starts within.
proof fn lemma_between_within(bv: AABB, ray: Ray, t: Param, b: int)
    requires
        bv.wf(),
        ray.wf(),
        t.den > 0,
        0 <= b < 3,
        ray.direction.coord(b) != 0 ==> bv.slab_lo(ray, b).le(t) && t.le(bv.slab_hi(ray, b)),
        ray.direction.coord(b) == 0 ==> bv.parallel_inside(ray, b),
    ensures
        bv.point_within(ray, t, b),
{
    let d = ray.direction.coord(b);
    let o = ray.origin.coord(b);
    let (mn, mx) = (bv.min.coord(b), bv.max.coord(b));
    let (n, m) = (t.num as int, t.den as int);
    if d > 0 {
        assert(m * mn <= m * o + n * d) by (nonlinear_arith)
            requires
                (mn - o) * m <= n * d,
        ;
        assert(m * o + n * d <= m * mx) by (nonlinear_arith)
            requires
                n * d <= (mx - o) * m,
        ;
    } else if d < 0 {
        assert(m * o + n * d <= m * mx) by (nonlinear_arith)
            requires
                (-(mx - o)) * m <= n * (-d),
        ;
        assert(m * mn <= m * o + n * d) by (nonlinear_arith)
            requires
                n * (-d) <= (-(mn - o)) * m,
        ;
    } else {
        assert(m * mn <= m * o + n * d <= m * mx) by (nonlinear_arith)
            requires
                mn <= o <= mx,
                d == 0,
                m > 0,
        ;
    }
}

/// A parameter in `(t_min, t_max)` at which the ray's point lies within a volume that the ray
/// does not graze passes the slab test.
pub proof fn lemma_inside_point_passes(bv: AABB, ray: Ray, t: Param, t_min: Param, t_max: Param)
    requires
        bv.wf(),
        ray.wf(),
        t.den > 0,
        t_min.wf(),
        t_max.wf(),
        t_min.lt(t),
        t.lt(t_max),
        bv.point_inside(ray, t),
        !bv.grazes(ray),
    ensures
        bv.slab_hit(ray, t_min, t_max),
{
    bv.lemma_slab_params_wf(ray);
    lemma_lt_trans(t_min, t, t_max);
    assert forall|b: int| 0 <= b < 3 implies (ray.direction.coord(b) != 0 ==> (
    #[trigger] bv.slab_lo(ray, b)).le(t) && t.le(bv.slab_hi(ray, b))) && (ray.direction.coord(b)
        == 0 ==> bv.parallel_inside(ray, b)) by {
        lemma_within_slab(bv, ray, t, b);
    }
    assert forall|b: int| 0 <= b < 3 && ray.direction.coord(b) != 0 implies t.le(
        #[trigger] bv.slab_hi(ray, b),
    ) by {
        assert(bv.slab_lo(ray, b).le(t));
    }
    assert forall|b: int|
        0 <= b < 3 && #[trigger] ray.direction.coord(b) == 0 implies bv.parallel_inside(ray, b) by {
        lemma_within_slab(bv, ray, t, b);
    }
    assert forall|a: int| 0 <= a < 3 && ray.direction.coord(a) != 0 implies (
    #[trigger] bv.slab_lo(ray, a)).lt(t_max) by {
        lemma_le_lt_trans(bv.slab_lo(ray, a), t, t_max);
    }
    assert forall|a: int| 0 <= a < 3 && ray.direction.coord(a) != 0 implies t_min.lt(
        #[trigger] bv.slab_hi(ray, a),
    ) by {
        lemma_lt_le_trans(t_min, t, bv.slab_hi(ray, a));
    }
    assert forall|a: int, b: int|
        0 <= a < 3 && 0 <= b < 3 && ray.direction.coord(a) != 0 && ray.direction.coord(b)
            != 0 implies (#[trigger] bv.slab_lo(ray, a)).lt(#[trigger] bv.slab_hi(ray, b)) by {
        lemma_le_trans(bv.slab_lo(ray, a), t, bv.slab_hi(ray, b));
        assert(!bv.slab_lo(ray, a).same_value(bv.slab_hi(ray, b)));
    }
}

/// The smallest `r` with `v <= r * r`.
fn ceil_sqrt(v: i64) -> (r: i64)
    requires
        0 <= v <= 12 * COORD_LIMIT * COORD_LIMIT,
    ensures
        0 <= r <= PARAM_LIMIT,
        v <= r * r,
        r == 0 || (r - 1) * (r - 1) < v,
{
    if v == 0 {
        return 0;
    }
    let mut lo: i64 = 0;
    let mut hi: i64 = PARAM_LIMIT;
    assert(v <= hi * hi) by (nonlinear_arith)
        requires
            v <= 12 * COORD_LIMIT * COORD_LIMIT,
            hi == PARAM_LIMIT,
    ;
    while hi - lo > 1
        invariant
            0 <= lo < hi <= PARAM_LIMIT,
            lo * lo < v <= hi * hi,
        decreases hi - lo,
    {
        let mid = lo + (hi - lo) / 2;
        assert(0 <= mid * mid <= PARAM_LIMIT * PARAM_LIMIT) by (nonlinear_arith)
            requires
                0 <= mid <= PARAM_LIMIT,
        ;
        if mid * mid < v {
            lo = mid;
        } else {
            hi = mid;
        }
    }
    hi
}

/// `s / 2` rounded towards negative infinity.
fn half_down(s: i64) -> (r: i64)
    requires
        -4 * COORD_LIMIT <= s <= 4 * COORD_LIMIT,
    ensures
        2 * r <= s <= 2 * r + 1,
{
    if s >= 0 {
        s / 2
    } else {
        -((1 - s) / 2)
    }
}

pub fn surrounding_box(a: &AABB, b: &AABB) -> (r: AABB)
    ensures
        r == AABB::union_of(*a, *b),
{
    let small = Point3 {
        x: if a.min.x <= b.min.x { a.min.x } else { b.min.x },
        y: if a.min.y <= b.min.y { a.min.y } else { b.min.y },
        z: if a.min.z <= b.min.z { a.min.z } else { b.min.z },
    };
    let big = Point3 {
        x: if a.max.x >= b.max.x { a.max.x } else { b.max.x },
        y: if a.max.y >= b.max.y { a.max.y } else { b.max.y },
        z: if a.max.z >= b.max.z { a.max.z } else { b.max.z },
    };
    AABB::new(small, big)
}

} // verus!
