use vstd::prelude::*;

verus! {

/// A signed point on the 2D grid.
#[derive(Debug, Copy, Clone, Default, PartialEq, Eq, Structural, Hash, PartialOrd, Ord)]
pub struct Point {
    pub x: isize,
    pub y: isize,
}

/// Absolute value of an integer.
pub open spec fn iabs(v: int) -> int {
    if v < 0 {
        -v
    } else {
        v
    }
}

/// Manhattan magnitude `|x| + |y|`.
pub open spec fn manhattan(x: int, y: int) -> int {
    iabs(x) + iabs(y)
}

/// Both coordinates lie at least `m` away from the ends of `isize`.
pub open spec fn within_margin(p: Point, m: int) -> bool {
    isize::MIN + m <= p.x <= isize::MAX - m && isize::MIN + m <= p.y <= isize::MAX - m
}

/// The point built from two integer coordinates.
pub open spec fn pt(x: int, y: int) -> Point {
    Point { x: x as isize, y: y as isize }
}

/// The four-neighbourhood of `p`, in the order east, south, west, north.
pub open spec fn neighbors_of(p: Point) -> Seq<Point> {
    seq![
        pt(p.x + 1, p.y as int),
        pt(p.x as int, p.y + 1),
        pt(p.x - 1, p.y as int),
        pt(p.x as int, p.y - 1),
    ]
}

impl Point {
    pub fn new(x: isize, y: isize) -> (r: Point)
        ensures
            r.x == x,
            r.y == y,
    {
        Point { x, y }
    }

    /// `|x| + |y|` as an unsigned number.
    pub fn manhattan_mag(self) -> (r: usize)
        requires
            manhattan(self.x as int, self.y as int) <= usize::MAX,
        ensures
            r == manhattan(self.x as int, self.y as int),
    {
        let ax = unsigned_abs(self.x);
        let ay = unsigned_abs(self.y);
        ax + ay
    }

    /// Coordinate-wise absolute value.
    pub fn abs(self) -> (r: Point)
        requires
            self.x > isize::MIN,
            self.y > isize::MIN,
        ensures
            r.x == iabs(self.x as int),
            r.y == iabs(self.y as int),
    {
        let x = if self.x < 0 {
            -self.x
        } else {
            self.x
        };
        let y = if self.y < 0 {
            -self.y
        } else {
            self.y
        };
        Point { x, y }
    }

    /// Manhattan distance between two points.
    pub fn manhattan_to(self, other: Point) -> (r: usize)
        requires
            isize::MIN <= self.x - other.x <= isize::MAX,
            isize::MIN <= self.y - other.y <= isize::MAX,
            manhattan(self.x - other.x, self.y - other.y) <= usize::MAX,
        ensures
            r == manhattan(self.x - other.x, self.y - other.y),
    {
        self.sub(other).manhattan_mag()
    }

    /// Iterates the points whose Manhattan distance to `self` is at most `dist`.
    pub fn iter_within_manhattan(self, dist: usize) -> (r: IterManhattan)
        requires
            dist <= isize::MAX,
        ensures
            r.center == self,
            r.dist == dist,
            r.rel == pt(0, -(dist as int)),
    {
        IterManhattan::new(self, dist)
    }

    /// The four axis neighbours: east, south, west, north.
    pub fn neighbors(self) -> (r: [Point; 4])
        requires
            within_margin(self, 1),
        ensures
            r@ == neighbors_of(self),
    {
        [
            Point::new(self.x + 1, self.y),
            Point::new(self.x, self.y + 1),
            Point::new(self.x - 1, self.y),
            Point::new(self.x, self.y - 1),
        ]
    }

    /// Swaps x and y.
    pub fn flipped(self) -> (r: Point)
        ensures
            r.x == self.y,
            r.y == self.x,
    {
        Point::new(self.y, self.x)
    }

    /// Swaps x and y when `cond` holds.
    pub fn flipped_if(self, cond: bool) -> (r: Point)
        ensures
            r == (if cond {
                pt(self.y as int, self.x as int)
            } else {
                self
            }),
    {
        if cond {
            self.flipped()
        } else {
            self
        }
    }

    /// Coordinate-wise sum.
    pub fn add(self, rhs: Point) -> (r: Point)
        requires
            isize::MIN <= self.x + rhs.x <= isize::MAX,
            isize::MIN <= self.y + rhs.y <= isize::MAX,
        ensures
            r == pt(self.x + rhs.x, self.y + rhs.y),
    {
        Point::new(self.x + rhs.x, self.y + rhs.y)
    }

    /// Coordinate-wise negation.
    pub fn neg(self) -> (r: Point)
        requires
            self.x > isize::MIN,
            self.y > isize::MIN,
        ensures
            r == pt(-self.x, -self.y),
    {
        Point::new(-self.x, -self.y)
    }

    /// Coordinate-wise difference.
    pub fn sub(self, rhs: Point) -> (r: Point)
        requires
            isize::MIN <= self.x - rhs.x <= isize::MAX,
            isize::MIN <= self.y - rhs.y <= isize::MAX,
        ensures
            r == pt(self.x - rhs.x, self.y - rhs.y),
    {
        Point::new(self.x - rhs.x, self.y - rhs.y)
    }

    /// Scales both coordinates.
    pub fn mul(self, rhs: isize) -> (r: Point)
        requires
            isize::MIN <= self.x * rhs <= isize::MAX,
            isize::MIN <= self.y * rhs <= isize::MAX,
        ensures
            r == pt(self.x * rhs, self.y * rhs),
    {
        Point::new(self.x * rhs, self.y * rhs)
    }
}

fn unsigned_abs(v: isize) -> (r: usize)
    ensures
        r == iabs(v as int),
{
    if v >= 0 {
        v as usize
    } else {
        ((-(v + 1)) as usize) + 1
    }
}

/// The step after `rel` when walking the Manhattan ball of radius `dist`
/// row by row, bottom (`y = -dist`) to top.
pub open spec fn manhattan_step(rel: Point, dist: int) -> Point {
    if manhattan(rel.x + 1, rel.y as int) > dist {
        pt(-(dist - iabs(rel.y + 1)), rel.y + 1)
    } else {
        pt(rel.x + 1, rel.y as int)
    }
}

/// Walks the points within a Manhattan distance of a center, row by row.
pub struct IterManhattan {
    pub center: Point,
    pub dist: usize,
    pub rel: Point,
}

impl IterManhattan {
    pub fn new(center: Point, dist: usize) -> (r: IterManhattan)
        requires
            dist <= isize::MAX,
        ensures
            r.center == center,
            r.dist == dist,
            r.rel == pt(0, -(dist as int)),
    {
        IterManhattan { center, dist, rel: Point::new(0, -(dist as isize)) }
    }

    /// Well-formed state: the relative position stays inside the ball or one
    /// row above it, and the absolute position fits in `isize`.
    pub open spec fn wf(&self) -> bool {
        &&& self.dist <= isize::MAX / 4
        &&& -(self.dist as int) <= self.rel.y <= self.dist + 1
        &&& iabs(self.rel.x as int) <= self.dist + 1
        &&& self.rel.y <= self.dist ==> manhattan(self.rel.x as int, self.rel.y as int)
            <= self.dist
        &&& within_margin(self.center, 2 * self.dist + 2)
    }

    /// The next point, or `None` once the top row is done.
    pub fn next(&mut self) -> (r: Option<Point>)
        requires
            old(self).wf(),
        ensures
            final(self).wf(),
            final(self).center == old(self).center,
            final(self).dist == old(self).dist,
            old(self).rel.y > old(self).dist ==> r is None && final(self).rel == old(self).rel,
            old(self).rel.y <= old(self).dist ==> r == Some(
                pt(old(self).rel.x + old(self).center.x, old(self).rel.y + old(self).center.y),
            ) && final(self).rel == manhattan_step(old(self).rel, old(self).dist as int),
    {
        if self.rel.y > self.dist as isize {
            return None;
        }
        let val = self.rel.add(self.center);
        let nx = self.rel.x + 1;
        let probe = Point::new(nx, self.rel.y);
        if probe.manhattan_mag() > self.dist {
            let ny = self.rel.y + 1;
            let ay = if ny < 0 {
                -ny
            } else {
                ny
            };
            self.rel = Point::new(-(self.dist as isize - ay), ny);
        } else {
            self.rel = probe;
        }
        Some(val)
    }
}

} // verus!
