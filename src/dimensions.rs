use vstd::prelude::*;

use crate::point::{pt, Point};

verus! {

/// 2D dimensions with a width and a height.
///
/// Dimensions are partially ordered by containment: `a <= b` iff `a` fits
/// inside `b`. An empty dimension (either side zero) is below every other one,
/// and all empty dimensions are equal.
#[derive(Debug, Copy, Clone, Default, Hash)]
pub struct Dimensions {
    pub width: usize,
    pub height: usize,
}

/// A dimension with a zero side.
pub open spec fn is_empty(d: Dimensions) -> bool {
    d.width == 0 || d.height == 0
}

/// Equality under the containment order.
pub open spec fn dims_eq(a: Dimensions, b: Dimensions) -> bool {
    (is_empty(a) && is_empty(b)) || (a.width == b.width && a.height == b.height)
}

/// `a` fits inside `b`.
pub open spec fn dims_le(a: Dimensions, b: Dimensions) -> bool {
    is_empty(a) || (a.width <= b.width && a.height <= b.height)
}

/// `a` fits strictly inside `b`.
pub open spec fn dims_lt(a: Dimensions, b: Dimensions) -> bool {
    dims_le(a, b) && !dims_eq(a, b)
}

/// The containment order as a three-way comparison, `None` if incomparable.
pub open spec fn dims_cmp(a: Dimensions, b: Dimensions) -> Option<std::cmp::Ordering> {
    if dims_eq(a, b) {
        Some(std::cmp::Ordering::Equal)
    } else if dims_le(a, b) {
        Some(std::cmp::Ordering::Less)
    } else if dims_le(b, a) {
        Some(std::cmp::Ordering::Greater)
    } else {
        None
    }
}

/// The point lies inside the rectangle `[0, w) x [0, h)`.
pub open spec fn in_dims(d: Dimensions, p: Point) -> bool {
    0 <= p.x < d.width && 0 <= p.y < d.height
}

/// Width and height swapped.
pub open spec fn flip(d: Dimensions) -> Dimensions {
    Dimensions { width: d.height, height: d.width }
}

/// Number of cells.
pub open spec fn area(d: Dimensions) -> int {
    d.width * d.height
}

/// The `i`-th point of `d` in row-major order.
pub open spec fn point_at(d: Dimensions, i: int) -> Point {
    pt(i % (d.width as int), i / (d.width as int))
}

/// The points of `d` in row-major order.
pub open spec fn row_major(d: Dimensions) -> Seq<Point> {
    Seq::new(area(d) as nat, |i: int| point_at(d, i))
}

/// Both sides fit in `isize`.
pub open spec fn dims_fit(d: Dimensions) -> bool {
    d.width <= isize::MAX && d.height <= isize::MAX
}

impl Dimensions {
    pub fn new(width: usize, height: usize) -> (r: Dimensions)
        ensures
            r.width == width,
            r.height == height,
    {
        Dimensions { width, height }
    }

    pub fn width(self) -> (r: usize)
        ensures
            r == self.width,
    {
        self.width
    }

    pub fn height(self) -> (r: usize)
        ensures
            r == self.height,
    {
        self.height
    }

    /// Width and height swapped.
    pub fn flipped(self) -> (r: Dimensions)
        ensures
            r == flip(self),
    {
        Dimensions { width: self.height, height: self.width }
    }

    /// The far corner inside these dimensions, `(w - 1, h - 1)`, or `None`
    /// if they are empty or the corner does not fit in `isize`.
    pub fn corner_point_incl(self) -> (r: Option<Point>)
        ensures
            r == (if is_empty(self) || self.width - 1 > isize::MAX || self.height - 1 > isize::MAX {
                None
            } else {
                Some(pt(self.width - 1, self.height - 1))
            }),
    {
        if self.width == 0 || self.height == 0 {
            return None;
        }
        let x = self.width - 1;
        let y = self.height - 1;
        if x > isize::MAX as usize || y > isize::MAX as usize {
            return None;
        }
        Some(Point::new(x as isize, y as isize))
    }

    pub fn contains(self, point: Point) -> (r: bool)
        ensures
            r == in_dims(self, point),
    {
        point.x >= 0 && (point.x as usize) < self.width && point.y >= 0 && (point.y as usize)
            < self.height
    }

    /// `other` fits inside `self`.
    pub fn contains_dims(self, other: Dimensions) -> (r: bool)
        ensures
            r == dims_le(other, self),
    {
        other.empty() || (self.width >= other.width && self.height >= other.height)
    }

    /// Iterates the points inside this rectangle in row-major order.
    pub fn iter_within(self) -> (r: DimensionsIter)
        ensures
            r.dims == self,
            r.index == 0,
    {
        DimensionsIter::new(self)
    }

    /// The points inside this rectangle in row-major order.
    pub fn points(self) -> (r: Vec<Point>)
        requires
            dims_fit(self),
            area(self) <= usize::MAX,
        ensures
            r@ == row_major(self),
    {
        let mut out: Vec<Point> = Vec::new();
        let mut y: usize = 0;
        while y < self.height
            invariant
                y <= self.height,
                dims_fit(self),
                area(self) <= usize::MAX,
                out@.len() == y * self.width,
                forall|i: int| 0 <= i < out@.len() ==> out@[i] == point_at(self, i),
            decreases self.height - y,
        {
            let mut x: usize = 0;
            while x < self.width
                invariant
                    x <= self.width,
                    y < self.height,
                    dims_fit(self),
                    area(self) <= usize::MAX,
                    out@.len() == y * self.width + x,
                    forall|i: int| 0 <= i < out@.len() ==> out@[i] == point_at(self, i),
                decreases self.width - x,
            {
                proof {
                    lemma_point_at(self, y as int, x as int);
                }
                out.push(Point::new(x as isize, y as isize));
                x = x + 1;
            }
            proof {
                assert((y + 1) * self.width == y * self.width + self.width) by (nonlinear_arith);
            }
            y = y + 1;
        }
        proof {
            assert(self.height * self.width == area(self)) by (nonlinear_arith);
            assert(out@ =~= row_major(self));
        }
        out
    }

    pub fn empty(self) -> (r: bool)
        ensures
            r == is_empty(self),
    {
        self.width == 0 || self.height == 0
    }
}

/// Row-major position `y * w + x` holds the point `(x, y)`.
pub proof fn lemma_point_at(d: Dimensions, y: int, x: int)
    requires
        0 <= x < d.width,
        0 <= y,
    ensures
        point_at(d, y * d.width + x) == pt(x, y),
{
    let w = d.width as int;
    vstd::arithmetic::div_mod::lemma_fundamental_div_mod_converse(y * w + x, w, y, x);
}

/// Every row-major position of `d` holds a point inside `d`.
pub proof fn lemma_point_at_in(d: Dimensions, i: int)
    requires
        0 <= i < area(d),
        i <= isize::MAX,
    ensures
        in_dims(d, point_at(d, i)),
        point_at(d, i).y * d.width + point_at(d, i).x == i,
        0 <= i % (d.width as int) <= i,
        0 <= i / (d.width as int) <= i,
{
    let w = d.width as int;
    assert(w > 0) by (nonlinear_arith)
        requires
            0 <= i < w * d.height,
            d.height >= 0,
    ;
    vstd::arithmetic::div_mod::lemma_fundamental_div_mod(i, w);
    vstd::arithmetic::div_mod::lemma_div_pos_is_pos(i, w);
    vstd::arithmetic::div_mod::lemma_mod_bound(i, w);
    let q = i / w;
    let r = i % w;
    assert(q < d.height) by (nonlinear_arith)
        requires
            i == w * q + r,
            0 <= r < w,
            i < w * d.height,
    ;
    assert(q <= i) by (nonlinear_arith)
        requires
            i == w * q + r,
            0 <= r,
            w >= 1,
            q >= 0,
    ;
    assert(point_at(d, i).x == r);
    assert(point_at(d, i).y == q);
    assert(q * w + r == i) by (nonlinear_arith)
        requires
            i == w * q + r,
    ;
}

impl PartialEq for Dimensions {
    fn eq(&self, other: &Dimensions) -> (r: bool) {
        (self.empty() && other.empty()) || (self.width == other.width && self.height
            == other.height)
    }
}

impl vstd::std_specs::cmp::PartialEqSpecImpl for Dimensions {
    open spec fn obeys_eq_spec() -> bool {
        true
    }

    open spec fn eq_spec(&self, other: &Dimensions) -> bool {
        dims_eq(*self, *other)
    }
}

impl Eq for Dimensions {

}

impl PartialOrd for Dimensions {
    /// `a <= b` iff `a` fits inside `b`; `None` when neither fits in the other.
    fn partial_cmp(&self, other: &Dimensions) -> (r: Option<std::cmp::Ordering>) {
        let a = *self;
        let b = *other;
        if (a.empty() && b.empty()) || (a.width == b.width && a.height == b.height) {
            Some(std::cmp::Ordering::Equal)
        } else if b.contains_dims(a) {
            Some(std::cmp::Ordering::Less)
        } else if a.contains_dims(b) {
            Some(std::cmp::Ordering::Greater)
        } else {
            None
        }
    }
}

impl vstd::std_specs::cmp::PartialOrdSpecImpl for Dimensions {
    open spec fn obeys_partial_cmp_spec() -> bool {
        true
    }

    open spec fn partial_cmp_spec(&self, other: &Dimensions) -> Option<std::cmp::Ordering> {
        dims_cmp(*self, *other)
    }
}

/// Walks the points inside a rectangle in row-major order.
pub struct DimensionsIter {
    pub dims: Dimensions,
    pub index: usize,
}

impl DimensionsIter {
    pub fn new(dims: Dimensions) -> (r: DimensionsIter)
        ensures
            r.dims == dims,
            r.index == 0,
    {
        DimensionsIter { dims, index: 0 }
    }

    /// The next point in row-major order, or `None` past the last one.
    pub fn next(&mut self) -> (r: Option<Point>)
        requires
            area(old(self).dims) <= isize::MAX,
        ensures
            final(self).dims == old(self).dims,
            old(self).index >= area(old(self).dims) ==> r is None && final(self).index
                == old(self).index,
            old(self).index < area(old(self).dims) ==> r == Some(
                point_at(old(self).dims, old(self).index as int),
            ) && final(self).index == old(self).index + 1,
    {
        let d = self.dims;
        let total = d.width * d.height;
        if self.index >= total {
            return None;
        }
        let i = self.index;
        proof {
            lemma_point_at_in(d, i as int);
        }
        let x = i % d.width;
        let y = i / d.width;
        self.index = i + 1;
        Some(Point::new(x as isize, y as isize))
    }
}

} // verus!
