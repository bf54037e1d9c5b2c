use vstd::prelude::*;

use crate::geom::{Param, Point3, COORD_LIMIT, PARAM_LIMIT};

verus! {

/// A ray `origin + t * direction` on the integer grid.
#[derive(Clone, Copy, Debug)]
pub struct Ray {
    pub origin: Point3,
    pub direction: Point3,
}

impl Ray {
    pub open spec fn wf(self) -> bool {
        self.origin.in_grid() && self.direction.in_grid()
    }

    /// The same line run backwards from the reflected origin.
    pub open spec fn mirrored(self) -> Ray {
        Ray { origin: self.origin.negated(), direction: self.direction.negated() }
    }

    pub fn new(origin: Point3, direction: Point3) -> (r: Ray)
        ensures
            r.origin == origin && r.direction == direction,
    {
        Ray { origin, direction }
    }

    /// The point `origin + t * direction`, scaled by `t.den` so that it stays on the grid.
    pub fn point_at_parameter(&self, t: Param) -> (r: Point3)
        requires
            self.wf(),
            t.wf(),
        ensures
            forall|a: int|
                0 <= a < 3 ==> #[trigger] r.coord(a) == t.den * self.origin.coord(a) + t.num
                    * self.direction.coord(a),
    {
        proof {
            lemma_scaled_coord(t, self.origin.x as int, self.direction.x as int);
            lemma_scaled_coord(t, self.origin.y as int, self.direction.y as int);
            lemma_scaled_coord(t, self.origin.z as int, self.direction.z as int);
        }
        Point3 {
            x: t.den * self.origin.x + t.num * self.direction.x,
            y: t.den * self.origin.y + t.num * self.direction.y,
            z: t.den * self.origin.z + t.num * self.direction.z,
        }
    }
}

proof fn lemma_scaled_coord(t: Param, o: int, d: int)
    requires
        t.wf(),
        -COORD_LIMIT <= o <= COORD_LIMIT,
        -COORD_LIMIT <= d <= COORD_LIMIT,
    ensures
        -PARAM_LIMIT * COORD_LIMIT <= t.den * o <= PARAM_LIMIT * COORD_LIMIT,
        -PARAM_LIMIT * COORD_LIMIT <= t.num * d <= PARAM_LIMIT * COORD_LIMIT,
{
    let (n, m) = (t.num as int, t.den as int);
    assert(-PARAM_LIMIT * COORD_LIMIT <= m * o <= PARAM_LIMIT * COORD_LIMIT) by (nonlinear_arith)
        requires
            0 < m <= PARAM_LIMIT,
            -COORD_LIMIT <= o <= COORD_LIMIT,
    ;
    assert(-PARAM_LIMIT * COORD_LIMIT <= n * d <= PARAM_LIMIT * COORD_LIMIT) by (nonlinear_arith)
        requires
            -PARAM_LIMIT <= n <= PARAM_LIMIT,
            -COORD_LIMIT <= d <= COORD_LIMIT,
    ;
}

} // verus!
