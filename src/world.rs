//! The terrain to support.
use vstd::prelude::*;

use crate::dimensions::{area, Dimensions};
use crate::grid::Grid;

verus! {

/// A grid of terrain flags: `true` marks a cell that needs support.
#[derive(Clone, Debug)]
pub struct WorldGrid(pub Grid<bool>);

/// A world: the terrain grid of a project.
#[derive(Clone, Debug)]
pub struct World {
    grid: WorldGrid,
}

impl World {
    pub closed spec fn spec_grid(&self) -> WorldGrid {
        self.grid
    }

    pub fn new(grid: WorldGrid) -> (r: World)
        ensures
            r.spec_grid() == grid,
    {
        World { grid }
    }

    pub fn grid(&self) -> (r: &WorldGrid)
        ensures
            *r == self.spec_grid(),
    {
        &self.grid
    }
}

/// A project: the world to support.
#[derive(Clone, Debug)]
pub struct Project {
    pub world: World,
}

/// Why rows of text do not form a world.
#[derive(Copy, Clone, Debug, PartialEq, Eq, Structural)]
pub enum WorldParseError {
    /// There are no rows.
    Empty,
    /// A byte other than `X` or a space, at this row and column.
    InvalidByte { row: usize, col: usize, byte: u8 },
    /// The grid would have more than `isize::MAX` cells.
    TooLarge,
}

/// The longest row length among the first `n` rows.
pub open spec fn max_len(rows: Seq<Seq<u8>>, n: int) -> nat
    decreases n,
{
    if n <= 0 {
        0
    } else {
        let m = max_len(rows, n - 1);
        if rows[n - 1].len() > m {
            rows[n - 1].len()
        } else {
            m
        }
    }
}

/// Every byte is `X` or a space.
pub open spec fn rows_ok(rows: Seq<Seq<u8>>) -> bool {
    forall|y: int, x: int|
        0 <= y < rows.len() && 0 <= x < rows[y].len() ==> ((#[trigger] rows[y][x]) == 88u8 || rows[y][x]
            == 32u8)
}

/// The cell at column `x` of row `y`: terrain where the row has an `X`,
/// empty past the row's end.
pub open spec fn row_cell(rows: Seq<Seq<u8>>, x: int, y: int) -> bool {
    x < rows[y].len() && rows[y][x] == 88u8
}

/// The cells of the world that `rows` describe, row-major over the width of
/// the longest row.
pub open spec fn parsed_cells(rows: Seq<Seq<u8>>) -> Seq<bool> {
    let w = max_len(rows, rows.len() as int);
    Seq::new(w * rows.len(), |i: int| row_cell(rows, i % (w as int), i / (w as int)))
}

proof fn lemma_max_len(rows: Seq<Seq<u8>>, n: int)
    requires
        0 <= n <= rows.len(),
    ensures
        forall|y: int| 0 <= y < n ==> #[trigger] rows[y].len() <= max_len(rows, n),
    decreases n,
{
    if n > 0 {
        lemma_max_len(rows, n - 1);
    }
}

/// The grid of the world that `rows` describe.
pub open spec fn parsed_grid(rows: Seq<Seq<u8>>, g: WorldGrid) -> bool {
    &&& g.0.wf()
    &&& g.0.spec_dims() == Dimensions {
        width: max_len(rows, rows.len() as int) as usize,
        height: rows.len() as usize,
    }
    &&& g.0.cells() == parsed_cells(rows)
}

/// What reading `rows` yields: `Empty` without rows, an `InvalidByte` that
/// names an offending byte when there is one, a world exactly when every
/// byte is valid and the grid fits, and then the world they describe.
pub open spec fn parse_outcome(rows: Seq<Seq<u8>>, r: Result<WorldGrid, WorldParseError>) -> bool {
    &&& rows.len() == 0 ==> r == Err::<WorldGrid, WorldParseError>(WorldParseError::Empty)
    &&& rows.len() > 0 && !rows_ok(rows) ==> match r {
        Err(WorldParseError::InvalidByte { row, col, byte }) => row < rows.len() && col < rows[row as int].len()
            && byte == rows[row as int][col as int] && byte != 88u8 && byte != 32u8,
        _ => false,
    }
    &&& r is Ok <==> (rows.len() > 0 && rows_ok(rows) && max_len(rows, rows.len() as int) * rows.len()
        <= isize::MAX)
    &&& r matches Ok(g) ==> parsed_grid(rows, g)
}

impl WorldGrid {
    /// Reads a world from rows of text: `X` marks terrain, a space an empty
    /// cell. Rows may differ in length; they are aligned left and padded with
    /// empty cells to the longest.
    pub fn from_rows(rows: &Vec<Vec<u8>>) -> (r: Result<WorldGrid, WorldParseError>)
        ensures
            parse_outcome(rows.deep_view(), r),
    {
        let ghost dv = rows.deep_view();
        if rows.len() == 0 {
            return Err(WorldParseError::Empty);
        }
        let mut w: usize = 0;
        let mut y: usize = 0;
        while y < rows.len()
            invariant
                dv == rows.deep_view(),
                y <= rows@.len(),
                w == max_len(dv, y as int),
                forall|yy: int, x: int|
                    0 <= yy < y && 0 <= x < dv[yy].len() ==> ((#[trigger] dv[yy][x]) == 88u8 || dv[yy][x]
                        == 32u8),
            decreases rows@.len() - y,
        {
            let row = &rows[y];
            proof {
                assert(row@ == dv[y as int]);
            }
            let mut x: usize = 0;
            while x < row.len()
                invariant
                    dv == rows.deep_view(),
                    y < rows@.len(),
                    row@ == dv[y as int],
                    x <= row@.len(),
                    forall|xx: int| 0 <= xx < x ==> ((#[trigger] row@[xx]) == 88u8 || row@[xx] == 32u8),
                decreases row@.len() - x,
            {
                let b = row[x];
                if b != 88u8 && b != 32u8 {
                    proof {
                        assert(dv[y as int][x as int] == b);
                        assert(!rows_ok(dv));
                    }
                    return Err(WorldParseError::InvalidByte { row: y, col: x, byte: b });
                }
                x = x + 1;
            }
            if row.len() > w {
                w = row.len();
            }
            y = y + 1;
        }
        let h = rows.len();
        match w.checked_mul(h) {
            Some(n) => {
                if n > isize::MAX as usize {
                    return Err(WorldParseError::TooLarge);
                }
            },
            None => {
                return Err(WorldParseError::TooLarge);
            },
        }
        proof {
            lemma_max_len(dv, h as int);
        }
        let total = w * h;
        let mut cells: Vec<bool> = Vec::new();
        let mut i: usize = 0;
        while i < total
            invariant
                dv == rows.deep_view(),
                h == rows@.len(),
                h > 0,
                w == max_len(dv, h as int),
                total == w * h,
                total <= isize::MAX,
                forall|yy: int| 0 <= yy < h ==> #[trigger] dv[yy].len() <= w,
                i <= total,
                cells@ == parsed_cells(dv).subrange(0, i as int),
            decreases total - i,
        {
            let ghost wi = w as int;
            proof {
                assert(w > 0) by (nonlinear_arith)
                    requires
                        i < total,
                        total == w * h,
                ;
                vstd::arithmetic::div_mod::lemma_fundamental_div_mod(i as int, wi);
                vstd::arithmetic::div_mod::lemma_mod_bound(i as int, wi);
                let ii = i as int;
                let hi = h as int;
                let q = ii / wi;
                let rr = ii % wi;
                assert(q < hi) by (nonlinear_arith)
                    requires
                        ii < wi * hi,
                        ii == wi * q + rr,
                        0 <= rr,
                        wi > 0,
                ;
                vstd::arithmetic::div_mod::lemma_div_pos_is_pos(i as int, wi);
            }
            let x = i % w;
            let yy = i / w;
            let row = &rows[yy];
            proof {
                assert(row@ == dv[yy as int]);
            }
            let c = x < row.len() && row[x] == 88u8;
            cells.push(c);
            i = i + 1;
            proof {
                assert(cells@ =~= parsed_cells(dv).subrange(0, i as int));
            }
        }
        proof {
            assert(parsed_cells(dv).subrange(0, total as int) =~= parsed_cells(dv));
            assert(total == area(Dimensions { width: w, height: h }));
        }
        match Grid::try_from_vec(Dimensions::new(w, h), cells) {
            Some(g) => Ok(WorldGrid(g)),
            None => {
                proof {
                    assert(false);
                }
                Err(WorldParseError::TooLarge)
            },
        }
    }

    /// Writes the world as rows of text: `X` for terrain, a space otherwise.
    pub fn to_rows(&self) -> (r: Vec<Vec<u8>>)
        requires
            self.0.wf(),
        ensures
            r@.len() == self.0.spec_dims().height,
            forall|y: int|
                0 <= y < r@.len() ==> (#[trigger] r@[y])@.len() == self.0.spec_dims().width,
            forall|y: int, x: int|
                0 <= y < r@.len() && 0 <= x < self.0.spec_dims().width ==> (#[trigger] r@[y]@[x]
                    == 88u8) == self.0.cells()[y * self.0.spec_dims().width + x] && (r@[y]@[x] == 88u8
                    || r@[y]@[x] == 32u8),
    {
        let rows = self.0.iter_rows();
        let mut out: Vec<Vec<u8>> = Vec::new();
        let mut y: usize = 0;
        while y < rows.len()
            invariant
                self.0.wf(),
                rows@.len() == self.0.spec_dims().height,
                forall|k: int|
                    0 <= k < rows@.len() ==> #[trigger] rows@[k]@ == self.0.cells().subrange(
                        k * self.0.spec_dims().width,
                        (k + 1) * self.0.spec_dims().width,
                    ),
                y <= rows@.len(),
                out@.len() == y,
                forall|k: int|
                    0 <= k < y ==> (#[trigger] out@[k])@.len() == self.0.spec_dims().width,
                forall|k: int, x: int|
                    0 <= k < y && 0 <= x < self.0.spec_dims().width ==> (#[trigger] out@[k]@[x]
                        == 88u8) == self.0.cells()[k * self.0.spec_dims().width + x] && (out@[k]@[x]
                        == 88u8 || out@[k]@[x] == 32u8),
            decreases rows@.len() - y,
        {
            let row = &rows[y];
            proof {
                let w = self.0.spec_dims().width as int;
                let hi = self.0.spec_dims().height as int;
                let yi = y as int;
                assert((yi + 1) * w == yi * w + w) by (nonlinear_arith);
                assert((yi + 1) * w <= hi * w) by (nonlinear_arith)
                    requires
                        yi < hi,
                        w >= 0,
                ;
                assert(hi * w == w * hi) by (nonlinear_arith);
                assert(row@.len() == w);
            }
            let mut line: Vec<u8> = Vec::new();
            let mut x: usize = 0;
            while x < row.len()
                invariant
                    x <= row@.len(),
                    line@.len() == x,
                    forall|k: int| 0 <= k < x ==> (#[trigger] line@[k] == 88u8) == row@[k] && (line@[k]
                        == 88u8 || line@[k] == 32u8),
                decreases row@.len() - x,
            {
                line.push(if row[x] { 88u8 } else { 32u8 });
                x = x + 1;
            }
            proof {
                assert forall|x: int| 0 <= x < self.0.spec_dims().width implies row@[x] == self.0.cells()[y * self.0.spec_dims().width + x] by {}
            }
            out.push(line);
            y = y + 1;
        }
        out
    }
}

} // verus!
