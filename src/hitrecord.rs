use vstd::prelude::*;

use crate::geom::Param;

verus! {

/// Where a ray struck a surface: the parameter, the object struck, the face's outward normal
/// (an axis and a sign) and the struck surface's material.
#[derive(Clone, Copy, Debug)]
pub struct HitRecord {
    pub t: Param,
    pub object: usize,
    pub axis: usize,
    pub positive: bool,
    pub material: usize,
}

impl HitRecord {
    /// The outward normal's component on `axis`: `1`, `-1` or `0`.
    pub open spec fn normal_coord(self, axis: int) -> int {
        if axis != self.axis {
            0
        } else if self.positive {
            1
        } else {
            -1
        }
    }

    /// The outward normal's component on `axis`.
    pub fn normal(&self, axis: usize) -> (r: i64)
        ensures
            r == self.normal_coord(axis as int),
    {
        if axis != self.axis {
            0
        } else if self.positive {
            1
        } else {
            -1
        }
    }
}

} // verus!
