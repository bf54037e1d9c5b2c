use vstd::prelude::*;

verus! {

/// Largest magnitude of a grid coordinate of a point or a direction.
pub const COORD_LIMIT: i64 = 0x100_0000;

/// Largest magnitude of the numerator and denominator of a ray parameter.
pub const PARAM_LIMIT: i64 = 0x400_0000;

/// A point (or a direction vector) on the integer grid.
#[derive(Clone, Copy, Debug)]
pub struct Point3 {
    pub x: i64,
    pub y: i64,
    pub z: i64,
}

impl Point3 {
    /// The component on `axis` (0, 1, 2 for x, y, z).
    pub open spec fn coord(self, axis: int) -> int {
        if axis == 0 {
            self.x as int
        } else if axis == 1 {
            self.y as int
        } else {
            self.z as int
        }
    }

    /// Every component lies within the grid.
    pub open spec fn in_grid(self) -> bool {
        &&& -COORD_LIMIT <= self.x <= COORD_LIMIT
        &&& -COORD_LIMIT <= self.y <= COORD_LIMIT
        &&& -COORD_LIMIT <= self.z <= COORD_LIMIT
    }

    /// The point reflected through the origin.
    pub open spec fn negated(self) -> Point3 {
        Point3 { x: (-self.x) as i64, y: (-self.y) as i64, z: (-self.z) as i64 }
    }

    pub fn new(x: i64, y: i64, z: i64) -> (r: Point3)
        ensures
            r.x == x && r.y == y && r.z == z,
    {
        Point3 { x, y, z }
    }

    pub fn get(&self, axis: usize) -> (r: i64)
        requires
            axis < 3,
        ensures
            r == self.coord(axis as int),
    {
        if axis == 0 {
            self.x
        } else if axis == 1 {
            self.y
        } else {
            self.z
        }
    }
}

/// An exact ray parameter `num / den`, with a positive denominator.
#[derive(Clone, Copy, Debug)]
pub struct Param {
    pub num: i64,
    pub den: i64,
}

impl Param {
    pub open spec fn wf(self) -> bool {
        &&& 0 < self.den <= PARAM_LIMIT
        &&& -PARAM_LIMIT <= self.num <= PARAM_LIMIT
    }

    /// `self < o` as rational numbers.
    pub open spec fn lt(self, o: Param) -> bool {
        self.num * o.den < o.num * self.den
    }

    /// `self <= o` as rational numbers.
    pub open spec fn le(self, o: Param) -> bool {
        self.num * o.den <= o.num * self.den
    }

    /// `self` and `o` denote the same rational number.
    pub open spec fn same_value(self, o: Param) -> bool {
        self.num * o.den == o.num * self.den
    }

    /// The parameter `num / den` for a nonzero `den` of either sign.
    pub open spec fn ratio(num: int, den: int) -> Param {
        if den > 0 {
            Param { num: num as i64, den: den as i64 }
        } else {
            Param { num: (-num) as i64, den: (-den) as i64 }
        }
    }

    pub fn new(num: i64, den: i64) -> (r: Param)
        requires
            0 < den <= PARAM_LIMIT,
            -PARAM_LIMIT <= num <= PARAM_LIMIT,
        ensures
            r.num == num && r.den == den,
            r.wf(),
    {
        Param { num, den }
    }

    /// The parameter `num / den`; the denominator's sign moves to the numerator.
    pub fn from_ratio(num: i64, den: i64) -> (r: Param)
        requires
            den != 0,
            -PARAM_LIMIT <= num <= PARAM_LIMIT,
            -PARAM_LIMIT <= den <= PARAM_LIMIT,
        ensures
            r == Param::ratio(num as int, den as int),
            r.wf(),
    {
        if den > 0 {
            Param { num, den }
        } else {
            Param { num: -num, den: -den }
        }
    }

    pub fn same_as(&self, o: &Param) -> (r: bool)
        requires
            self.wf(),
            o.wf(),
        ensures
            r == self.same_value(*o),
    {
        proof {
            lemma_param_product_bound(self.num, o.den);
            lemma_param_product_bound(o.num, self.den);
        }
        self.num * o.den == o.num * self.den
    }

    pub fn less_than(&self, o: &Param) -> (r: bool)
        requires
            self.wf(),
            o.wf(),
        ensures
            r == self.lt(*o),
    {
        proof {
            lemma_param_product_bound(self.num, o.den);
            lemma_param_product_bound(o.num, self.den);
        }
        self.num * o.den < o.num * self.den
    }
}

proof fn lemma_param_product_bound(a: i64, b: i64)
    requires
        -PARAM_LIMIT <= a <= PARAM_LIMIT,
        0 < b <= PARAM_LIMIT,
    ensures
        -PARAM_LIMIT * PARAM_LIMIT <= a * b <= PARAM_LIMIT * PARAM_LIMIT,
{
    assert(-PARAM_LIMIT * PARAM_LIMIT <= a * b <= PARAM_LIMIT * PARAM_LIMIT) by (nonlinear_arith)
        requires
            -PARAM_LIMIT <= a <= PARAM_LIMIT,
            0 < b <= PARAM_LIMIT,
    ;
}

pub proof fn lemma_lt_le_trans(a: Param, b: Param, c: Param)
    requires
        a.den > 0,
        b.den > 0,
        c.den > 0,
        a.lt(b),
        b.le(c),
    ensures
        a.lt(c),
{
    let (an, ad, bn, bd, cn, cd) = (a.num as int, a.den as int, b.num as int, b.den as int,
    c.num as int, c.den as int);
    assert(an * cd < cn * ad) by (nonlinear_arith)
        requires
            ad > 0,
            bd > 0,
            cd > 0,
            an * bd < bn * ad,
            bn * cd <= cn * bd,
    {
        assert(an * bd * cd < bn * ad * cd);
        assert(bn * cd * ad <= cn * bd * ad);
        assert(an * cd * bd < cn * ad * bd);
    }
}

pub proof fn lemma_le_lt_trans(a: Param, b: Param, c: Param)
    requires
        a.den > 0,
        b.den > 0,
        c.den > 0,
        a.le(b),
        b.lt(c),
    ensures
        a.lt(c),
{
    let (an, ad, bn, bd, cn, cd) = (a.num as int, a.den as int, b.num as int, b.den as int,
    c.num as int, c.den as int);
    assert(an * cd < cn * ad) by (nonlinear_arith)
        requires
            ad > 0,
            bd > 0,
            cd > 0,
            an * bd <= bn * ad,
            bn * cd < cn * bd,
    {
        assert(an * bd * cd <= bn * ad * cd);
        assert(bn * cd * ad < cn * bd * ad);
        assert(an * cd * bd < cn * ad * bd);
    }
}

pub proof fn lemma_le_trans(a: Param, b: Param, c: Param)
    requires
        a.den > 0,
        b.den > 0,
        c.den > 0,
        a.le(b),
        b.le(c),
    ensures
        a.le(c),
{
    let (an, ad, bn, bd, cn, cd) = (a.num as int, a.den as int, b.num as int, b.den as int,
    c.num as int, c.den as int);
    assert(an * cd <= cn * ad) by (nonlinear_arith)
        requires
            ad > 0,
            bd > 0,
            cd > 0,
            an * bd <= bn * ad,
            bn * cd <= cn * bd,
    {
        assert(an * bd * cd <= bn * ad * cd);
        assert(bn * cd * ad <= cn * bd * ad);
        assert(an * cd * bd <= cn * ad * bd);
    }
}

/// Equal values: transitive, and each is at most the other.
pub proof fn lemma_same_value(a: Param, b: Param, c: Param)
    requires
        a.den > 0,
        b.den > 0,
        c.den > 0,
        a.same_value(b),
    ensures
        a.le(b) && b.le(a),
        b.same_value(c) ==> a.same_value(c),
{
    let (an, ad, bn, bd, cn, cd) = (a.num as int, a.den as int, b.num as int, b.den as int,
    c.num as int, c.den as int);
    if b.same_value(c) {
        assert(an * cd == cn * ad) by (nonlinear_arith)
            requires
                ad > 0,
                bd > 0,
                cd > 0,
                an * bd == bn * ad,
                bn * cd == cn * bd,
        {
            assert(an * bd * cd == bn * ad * cd);
            assert(bn * cd * ad == cn * bd * ad);
            assert(an * cd * bd == cn * ad * bd);
        }
    }
}

pub proof fn lemma_lt_trans(a: Param, b: Param, c: Param)
    requires
        a.den > 0,
        b.den > 0,
        c.den > 0,
        a.lt(b),
        b.lt(c),
    ensures
        a.lt(c),
{
    lemma_lt_le_trans(a, b, c);
}

} // verus!
