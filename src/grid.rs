use vstd::prelude::*;

use crate::dimensions::{area, in_dims, lemma_point_at, lemma_point_at_in, point_at, row_major, Dimensions};
use crate::point::{neighbors_of, Point};

verus! {

/// A dense row-major matrix with fixed dimensions.
#[derive(Clone, Debug)]
pub struct Grid<T> {
    data: Vec<T>,
    dims: Dimensions,
}

/// Row-major position of an in-bounds point.
pub open spec fn flat_index(d: Dimensions, p: Point) -> int {
    p.y * d.width + p.x
}

impl<T> Grid<T> {
    /// The cells in row-major order.
    pub closed spec fn cells(&self) -> Seq<T> {
        self.data@
    }

    /// The dimensions, as a spec value.
    pub closed spec fn spec_dims(&self) -> Dimensions {
        self.dims
    }

    /// One cell per point of the dimensions, and a cell count that fits in
    /// `isize`.
    pub open spec fn wf(&self) -> bool {
        &&& self.cells().len() == area(self.spec_dims())
        &&& self.cells().len() <= isize::MAX
    }

    /// The cell at an in-bounds point.
    pub open spec fn at(&self, p: Point) -> T {
        self.cells()[flat_index(self.spec_dims(), p)]
    }

    /// The cells in row-major order, by reference.
    pub fn cells_ref(&self) -> (r: &Vec<T>)
        ensures
            r@ == self.cells(),
    {
        &self.data
    }

    pub fn dims(&self) -> (r: Dimensions)
        ensures
            r == self.spec_dims(),
    {
        self.dims
    }

    /// Row-major position of a point, `None` outside the grid.
    fn data_index(&self, point: Point) -> (r: Option<usize>)
        requires
            self.wf(),
        ensures
            r == (if in_dims(self.spec_dims(), point) {
                Some(flat_index(self.spec_dims(), point) as usize)
            } else {
                None
            }),
            r matches Some(i) ==> i < self.cells().len(),
            in_dims(self.spec_dims(), point) ==> 0 <= flat_index(self.spec_dims(), point)
                < self.cells().len(),
    {
        if self.dims.contains(point) {
            proof {
                lemma_flat_index_in(self.dims, point);
            }
            Some(point.x as usize + point.y as usize * self.dims.width)
        } else {
            None
        }
    }

    /// The point at a row-major position.
    fn index_to_point(&self, index: usize) -> (r: Point)
        requires
            self.wf(),
            index < self.cells().len(),
        ensures
            r == point_at(self.spec_dims(), index as int),
            in_dims(self.spec_dims(), r),
    {
        proof {
            lemma_point_at_in(self.dims, index as int);
        }
        let x = index % self.dims.width;
        let y = index / self.dims.width;
        Point::new(x as isize, y as isize)
    }

    /// The cell at `point`, `None` outside the grid.
    pub fn get(&self, point: Point) -> (r: Option<&T>)
        requires
            self.wf(),
        ensures
            r == (if in_dims(self.spec_dims(), point) {
                Some(&self.at(point))
            } else {
                None
            }),
    {
        match self.data_index(point) {
            Some(i) => Some(&self.data[i]),
            None => None,
        }
    }

    /// A mutable reference to the cell at `point`, `None` outside the grid.
    pub fn get_mut(&mut self, point: Point) -> (r: Option<&mut T>)
        requires
            old(self).wf(),
        ensures
            final(self).spec_dims() == old(self).spec_dims(),
            !in_dims(old(self).spec_dims(), point) ==> r is None && final(self).cells()
                == old(self).cells(),
            in_dims(old(self).spec_dims(), point) ==> r is Some,
            r matches Some(e) ==> *e == old(self).at(point) && final(self).cells() == old(
                self,
            ).cells().update(flat_index(old(self).spec_dims(), point), *final(e)),
    {
        match self.data_index(point) {
            Some(i) => Some(&mut self.data[i]),
            None => None,
        }
    }

    /// Replaces the cell at `point`, returning the previous value, or `None`
    /// (and no change) outside the grid.
    pub fn set(&mut self, point: Point, item: T) -> (r: Option<T>)
        requires
            old(self).wf(),
        ensures
            final(self).wf(),
            final(self).spec_dims() == old(self).spec_dims(),
            in_dims(old(self).spec_dims(), point) ==> r == Some(old(self).at(point))
                && final(self).cells() == old(self).cells().update(
                flat_index(old(self).spec_dims(), point),
                item,
            ),
            !in_dims(old(self).spec_dims(), point) ==> r is None && final(self).cells()
                == old(self).cells(),
    {
        match self.data_index(point) {
            Some(i) => {
                let mut item = item;
                std::mem::swap(&mut self.data[i], &mut item);
                Some(item)
            },
            None => None,
        }
    }

    /// A grid over existing row-major data, `None` when the length is not
    /// `width * height` (or exceeds `isize::MAX`).
    pub fn try_from_vec(dims: Dimensions, data: Vec<T>) -> (r: Option<Grid<T>>)
        ensures
            r is Some <==> (data@.len() == area(dims) && data@.len() <= isize::MAX),
            r matches Some(g) ==> g.wf() && g.spec_dims() == dims && g.cells() == data@,
    {
        match dims.width.checked_mul(dims.height) {
            Some(n) => {
                if n != data.len() || data.len() > isize::MAX as usize {
                    return None;
                }
            },
            None => {
                return None;
            },
        }
        Some(Grid { data, dims })
    }

    /// A grid whose cells are `f` applied to each point in row-major order.
    pub fn from_fn<F: Fn(Point) -> T>(dims: Dimensions, f: F) -> (r: Grid<T>)
        requires
            area(dims) <= isize::MAX,
            forall|p: Point| in_dims(dims, p) ==> #[trigger] f.requires((p,)),
        ensures
            r.wf(),
            r.spec_dims() == dims,
            forall|i: int|
                0 <= i < area(dims) ==> f.ensures((point_at(dims, i),), #[trigger] r.cells()[i]),
    {
        let total = dims.width * dims.height;
        let mut data: Vec<T> = Vec::new();
        let mut i: usize = 0;
        while i < total
            invariant
                total == area(dims),
                area(dims) <= isize::MAX,
                i <= total,
                data@.len() == i,
                forall|p: Point| in_dims(dims, p) ==> #[trigger] f.requires((p,)),
                forall|j: int| 0 <= j < i ==> f.ensures((point_at(dims, j),), #[trigger] data@[j]),
            decreases total - i,
        {
            proof {
                lemma_point_at_in(dims, i as int);
            }
            let x = i % dims.width;
            let y = i / dims.width;
            let v = f(Point::new(x as isize, y as isize));
            data.push(v);
            i = i + 1;
        }
        Grid { data, dims }
    }
}

impl<T: Copy> Grid<T> {
    /// The cells in row-major order.
    pub fn iter(&self) -> (r: Vec<T>)
        ensures
            r@ == self.cells(),
    {
        let mut out: Vec<T> = Vec::new();
        let mut i: usize = 0;
        while i < self.data.len()
            invariant
                i <= self.data@.len(),
                out@ == self.data@.subrange(0, i as int),
            decreases self.data@.len() - i,
        {
            out.push(self.data[i]);
            i = i + 1;
            proof {
                assert(out@ =~= self.data@.subrange(0, i as int));
            }
        }
        out
    }

    /// Each cell with its point, in row-major order.
    pub fn enumerate(&self) -> (r: Vec<(Point, T)>)
        requires
            self.wf(),
        ensures
            r@.len() == self.cells().len(),
            forall|i: int|
                0 <= i < r@.len() ==> #[trigger] r@[i] == (
                    point_at(self.spec_dims(), i),
                    self.cells()[i],
                ),
    {
        let mut out: Vec<(Point, T)> = Vec::new();
        let mut i: usize = 0;
        while i < self.data.len()
            invariant
                self.wf(),
                i <= self.data@.len(),
                out@.len() == i,
                forall|j: int|
                    0 <= j < i ==> #[trigger] out@[j] == (
                        point_at(self.spec_dims(), j),
                        self.cells()[j],
                    ),
            decreases self.data@.len() - i,
        {
            let p = self.index_to_point(i);
            out.push((p, self.data[i]));
            i = i + 1;
        }
        out
    }

    /// The rows, top to bottom.
    pub fn iter_rows(&self) -> (r: Vec<Vec<T>>)
        requires
            self.wf(),
        ensures
            r@.len() == self.spec_dims().height,
            forall|y: int|
                0 <= y < r@.len() ==> #[trigger] r@[y]@ == self.cells().subrange(
                    y * self.spec_dims().width,
                    (y + 1) * self.spec_dims().width,
                ),
    {
        let w = self.dims.width;
        let h = self.dims.height;
        let mut rows: Vec<Vec<T>> = Vec::new();
        let mut y: usize = 0;
        while y < h
            invariant
                self.wf(),
                w == self.spec_dims().width,
                h == self.spec_dims().height,
                y <= h,
                rows@.len() == y,
                forall|k: int|
                    0 <= k < y ==> #[trigger] rows@[k]@ == self.cells().subrange(
                        k * w,
                        (k + 1) * w,
                    ),
            decreases h - y,
        {
            proof {
                let (yi, wi, hi) = (y as int, w as int, h as int);
                assert((yi + 1) * wi <= hi * wi) by (nonlinear_arith)
                    requires
                        yi < hi,
                        wi >= 0,
                ;
                assert((yi + 1) * wi == yi * wi + wi) by (nonlinear_arith);
                assert(hi * wi == wi * hi) by (nonlinear_arith);
            }
            let start = y * w;
            let mut row: Vec<T> = Vec::new();
            let mut x: usize = 0;
            while x < w
                invariant
                    self.wf(),
                    w == self.spec_dims().width,
                    start + w <= self.cells().len(),
                    x <= w,
                    row@ == self.cells().subrange(start as int, start + x),
                decreases w - x,
            {
                row.push(self.data[start + x]);
                x = x + 1;
                proof {
                    assert(row@ =~= self.cells().subrange(start as int, start + x));
                }
            }
            rows.push(row);
            y = y + 1;
        }
        rows
    }
}

impl<T: Clone> Grid<T> {
    /// A grid with every cell a clone of `value`.
    pub fn new_fill(dims: Dimensions, value: T) -> (r: Grid<T>)
        requires
            area(dims) <= isize::MAX,
        ensures
            r.wf(),
            r.spec_dims() == dims,
            forall|i: int| 0 <= i < area(dims) ==> cloned(value, #[trigger] r.cells()[i]),
    {
        let n = dims.width * dims.height;
        Grid { data: vec![value; n], dims }
    }
}

impl<T: Default + Clone> Grid<T> {
    /// A grid with every cell a clone of `T::default()`.
    pub fn new(dims: Dimensions) -> (r: Grid<T>)
        requires
            area(dims) <= isize::MAX,
        ensures
            r.wf(),
            r.spec_dims() == dims,
    {
        Grid::new_fill(dims, T::default())
    }
}

/// An in-bounds point has a row-major position inside the grid.
pub proof fn lemma_flat_index_in(d: Dimensions, p: Point)
    requires
        in_dims(d, p),
    ensures
        0 <= flat_index(d, p) < area(d),
        point_at(d, flat_index(d, p)) == p,
{
    let w = d.width as int;
    let h = d.height as int;
    let x = p.x as int;
    let y = p.y as int;
    assert(y * w <= (h - 1) * w) by (nonlinear_arith)
        requires
            0 <= y < h,
            w >= 0,
    ;
    assert((h - 1) * w + w == w * h) by (nonlinear_arith);
    assert(0 <= y * w) by (nonlinear_arith)
        requires
            0 <= y,
            w >= 0,
    ;
    lemma_point_at(d, p.y as int, p.x as int);
}

/// `q` is reached from `start` within `k` steps, each step going to an axis
/// neighbour whose cell in `g` is `true`.
pub open spec fn reach(g: Grid<bool>, start: Point, q: Point, k: nat) -> bool
    decreases k,
{
    if k == 0 {
        q == start
    } else {
        let j = (k - 1) as nat;
        let open_q = in_dims(g.spec_dims(), q) && g.at(q);
        let nb = neighbors_of(q);
        reach(g, start, q, j) || (open_q && (reach(g, start, nb[0], j) || reach(g, start, nb[1], j)
            || reach(g, start, nb[2], j) || reach(g, start, nb[3], j)))
    }
}

/// Steps the reached set once.
fn reach_round(g: &Grid<bool>, start: Point, prev: &Vec<bool>, k: Ghost<nat>) -> (r: Vec<bool>)
    requires
        g.wf(),
        prev@.len() == g.cells().len(),
        forall|i: int|
            0 <= i < prev@.len() ==> #[trigger] prev@[i] == reach(*g, start, point_at(g.spec_dims(), i), k@),
    ensures
        r@.len() == g.cells().len(),
        forall|i: int|
            0 <= i < r@.len() ==> #[trigger] r@[i] == reach(*g, start, point_at(g.spec_dims(), i), k@ + 1),
{
    let wd = g.dims();
    let cells = g.cells_ref();
    let mut out: Vec<bool> = Vec::new();
    let mut i: usize = 0;
    while i < cells.len()
        invariant
            g.wf(),
            wd == g.spec_dims(),
            cells@ == g.cells(),
            prev@.len() == cells@.len(),
            forall|j: int|
                0 <= j < prev@.len() ==> #[trigger] prev@[j] == reach(*g, start, point_at(wd, j), k@),
            i <= cells@.len(),
            out@.len() == i,
            forall|j: int| 0 <= j < i ==> #[trigger] out@[j] == reach(*g, start, point_at(wd, j), k@ + 1),
        decreases cells@.len() - i,
    {
        proof {
            lemma_point_at_in(wd, i as int);
            assert(wd.width <= area(wd) && wd.height <= area(wd)) by (nonlinear_arith)
                requires
                    0 <= i < area(wd),
                    0 <= point_at(wd, i as int).x < wd.width,
                    0 <= point_at(wd, i as int).y < wd.height,
            ;
        }
        let q = Point::new((i % wd.width) as isize, (i / wd.width) as isize);
        let mut val = prev[i];
        let ghost nbq = neighbors_of(q);
        if !val && cells[i] {
            let nb = q.neighbors();
            let mut u: usize = 0;
            while u < 4
                invariant
                    g.wf(),
                    wd == g.spec_dims(),
                    cells@ == g.cells(),
                    prev@.len() == cells@.len(),
                    forall|j: int|
                        0 <= j < prev@.len() ==> #[trigger] prev@[j] == reach(*g, start, point_at(wd, j), k@),
                    nb@ == nbq,
                    u <= 4,
                    val == exists|u2: int| 0 <= u2 < u && #[trigger] reach(*g, start, nbq[u2], k@),
                decreases 4 - u,
            {
                let r = nb[u];
                if wd.contains(r) {
                    proof {
                        lemma_flat_index_in(wd, r);
                    }
                    let j = (r.y as usize) * wd.width + (r.x as usize);
                    if prev[j] {
                        val = true;
                    }
                } else if r == start {
                    proof {
                        lemma_reach_start(*g, start, k@);
                    }
                    val = true;
                } else {
                    proof {
                        lemma_reach_outside(*g, start, r, k@);
                    }
                }
                u = u + 1;
            }
        }
        proof {
            assert(q == point_at(wd, i as int));
            lemma_flat_index_in(wd, q);
            assert(g.at(q) == cells@[i as int]);
            let m = (k@ + 1) as nat;
            assert((m - 1) as nat == k@);
            if val {
                if !prev@[i as int] {
                    let u2 = choose|u2: int| 0 <= u2 < 4 && #[trigger] reach(*g, start, nbq[u2], k@);
                    assert(u2 == 0 || u2 == 1 || u2 == 2 || u2 == 3);
                }
            } else if cells@[i as int] {
                assert(!reach(*g, start, nbq[0], k@));
                assert(!reach(*g, start, nbq[1], k@));
                assert(!reach(*g, start, nbq[2], k@));
                assert(!reach(*g, start, nbq[3], k@));
            }
        }
        out.push(val);
        i = i + 1;
    }
    out
}

/// The start is always reached.
proof fn lemma_reach_start(g: Grid<bool>, start: Point, k: nat)
    ensures
        reach(g, start, start, k),
    decreases k,
{
    if k > 0 {
        lemma_reach_start(g, start, (k - 1) as nat);
    }
}

/// A point outside the grid other than the start is never reached.
proof fn lemma_reach_outside(g: Grid<bool>, start: Point, q: Point, k: nat)
    ensures
        !in_dims(g.spec_dims(), q) && q != start ==> !reach(g, start, q, k),
        !in_dims(g.spec_dims(), q) && q == start && in_dims(g.spec_dims(), start) ==> false,
    decreases k,
{
    if k > 0 {
        lemma_reach_outside(g, start, q, (k - 1) as nat);
    }
}

impl Point {
    /// The points reached from `self` within `depth` steps (at least one)
    /// through axis neighbours whose cell in `grid` is `true`, `self`
    /// included: the grid's points in row-major order, then `self` if it lies
    /// outside the grid.
    pub fn adjacent_points(self, depth: usize, grid: &Grid<bool>) -> (r: Vec<Point>)
        requires
            grid.wf(),
        ensures
            r@ == row_major(grid.spec_dims()).filter(
                |q: Point| reach(*grid, self, q, if depth == 0 { 1nat } else { depth as nat }),
            ) + if in_dims(grid.spec_dims(), self) {
                Seq::<Point>::empty()
            } else {
                seq![self]
            },
    {
        let wd = grid.dims();
        let cells = grid.cells_ref();
        let mut cur: Vec<bool> = Vec::new();
        let mut i: usize = 0;
        while i < cells.len()
            invariant
                grid.wf(),
                wd == grid.spec_dims(),
                cells@ == grid.cells(),
                i <= cells@.len(),
                cur@.len() == i,
                forall|j: int| 0 <= j < i ==> #[trigger] cur@[j] == reach(*grid, self, point_at(wd, j), 0),
            decreases cells@.len() - i,
        {
            proof {
                lemma_point_at_in(wd, i as int);
            }
            let q = Point::new((i % wd.width) as isize, (i / wd.width) as isize);
            proof {
                assert(q == point_at(wd, i as int));
            }
            cur.push(q == self);
            i = i + 1;
        }
        let rounds: usize = if depth == 0 {
            1
        } else {
            depth
        };
        let mut k: usize = 0;
        while k < rounds
            invariant
                grid.wf(),
                wd == grid.spec_dims(),
                cells@ == grid.cells(),
                k <= rounds,
                cur@.len() == cells@.len(),
                forall|j: int| 0 <= j < cur@.len() ==> #[trigger] cur@[j] == reach(*grid, self, point_at(wd, j), k as nat),
            decreases rounds - k,
        {
            cur = reach_round(grid, self, &cur, Ghost(k as nat));
            k = k + 1;
        }
        let ghost pred = |q: Point| reach(*grid, self, q, rounds as nat);
        let ghost all = row_major(wd);
        let mut out: Vec<Point> = Vec::new();
        let mut i: usize = 0;
        while i < cells.len()
            invariant
                grid.wf(),
                wd == grid.spec_dims(),
                cells@ == grid.cells(),
                all == row_major(wd),
                cur@.len() == cells@.len(),
                forall|j: int| 0 <= j < cur@.len() ==> #[trigger] cur@[j] == reach(*grid, self, point_at(wd, j), rounds as nat),
                pred == (|q: Point| reach(*grid, self, q, rounds as nat)),
                i <= cells@.len(),
                out@ == all.subrange(0, i as int).filter(pred),
            decreases cells@.len() - i,
        {
            proof {
                lemma_point_at_in(wd, i as int);
                assert(all.subrange(0, i + 1).drop_last() =~= all.subrange(0, i as int));
                assert(all.subrange(0, i + 1).last() == point_at(wd, i as int));
                reveal(Seq::filter);
            }
            if cur[i] {
                out.push(Point::new((i % wd.width) as isize, (i / wd.width) as isize));
            }
            i = i + 1;
        }
        proof {
            assert(all.subrange(0, cells@.len() as int) =~= all);
            assert(rounds as nat == if depth == 0 { 1nat } else { depth as nat });
        }
        let ghost inner = out@;
        if !wd.contains(self) {
            out.push(self);
            proof {
                assert(out@ =~= inner + seq![self]);
            }
        } else {
            proof {
                assert(out@ =~= inner + Seq::<Point>::empty());
            }
        }
        out
    }
}

} // verus!
