//! Tile-map model: a fixed rectangular grid of `Open`/`Solid` cells with a
//! shared tile size, plus the conversions between continuous world
//! coordinates and grid cell indices.
//!
//! Conventions, held everywhere in the crate:
//! - world `x` increases with the column index, world `y` with the row index
//!   (`row = floor(y / tile_size)`, `col = floor(x / tile_size)`);
//! - any coordinate outside the map is treated as `Solid` (fail closed).

use vstd::prelude::*;

verus! {

use vstd::arithmetic::div_mod::{
    lemma_div_is_ordered,
    lemma_div_multiples_vanish,
    lemma_div_pos_is_pos,
    lemma_fundamental_div_mod,
    lemma_fundamental_div_mod_converse,
    lemma_mod_division_less_than_divisor,
    lemma_multiply_divide_lt,
};
use vstd::arithmetic::mul::{
    lemma_mul_inequality,
    lemma_mul_is_commutative,
    lemma_mul_is_distributive_add_other_way,
    lemma_mul_nonnegative,
    lemma_mul_strictly_positive,
    lemma_mul_upper_bound,
};

/// Largest supported number of rows or columns of a map.
pub const MAX_DIM: usize = 4096;

/// Largest supported tile size, in world units per cell.
pub const MAX_TILE_SIZE: i64 = 1_000_000;

/// Largest world coordinate (either sign) the queries accept.
pub const MAX_COORD: i64 = 1_000_000_000_000;

/// One square of the tile map: passable, or a wall that blocks rays and movement.
#[derive(Clone, Copy, Debug, PartialEq, Eq, Structural)]
pub enum Cell {
    Open,
    Solid,
}

/// Why a map description is rejected at construction time.
#[derive(Clone, Copy, Debug, PartialEq, Eq, Structural)]
pub enum MapError {
    /// The tile size is not in `1..=MAX_TILE_SIZE`.
    BadTileSize,
    /// There are no rows, or the rows are empty.
    Empty,
    /// The rows do not all have the same length.
    NonRectangular,
    /// More than `MAX_DIM` rows or columns.
    TooLarge,
    /// A cell on the outer border is not `Solid`.
    OpenPerimeter,
}

/// An immutable rectangular tile map with a solid outer border.
pub struct TileMap {
    rows: usize,
    cols: usize,
    tile_size: i64,
    /// Row-major cell states, `rows * cols` entries.
    cells: Vec<Cell>,
}

/// Whether `(row, col)` lies on the outer border of a `rows x cols` grid.
pub open spec fn on_border(rows: int, cols: int, row: int, col: int) -> bool {
    row == 0 || row == rows - 1 || col == 0 || col == cols - 1
}

/// Whether every row of a map description has the length of the first.
pub open spec fn rows_rectangular(d: Seq<Vec<Cell>>) -> bool {
    forall|i: int| 0 <= i < d.len() ==> #[trigger] d[i]@.len() == d[0]@.len()
}

/// Whether a row-major flat sequence agrees with the description on every
/// index it holds, for a map `cols` columns wide.
pub open spec fn flat_matches(cells: Seq<Cell>, d: Seq<Vec<Cell>>, cols: int) -> bool {
    forall|k: int| 0 <= k < cells.len() ==> #[trigger] cells[k] == d[k / cols]@[k % cols]
}

/// Whether every border cell of a rectangular description is `Solid`.
pub open spec fn perimeter_solid(d: Seq<Vec<Cell>>) -> bool {
    forall|r: int, c: int|
        0 <= r < d.len() && 0 <= c < d[r]@.len() && on_border(d.len() as int, d[0]@.len() as int, r, c)
            ==> #[trigger] d[r]@[c] == Cell::Solid
}

/// For `0 <= x < n * ts` with `ts >= 1`, the quotient `x / ts` lies in `[0, n)`.
proof fn lemma_div_in_range(x: int, ts: int, n: int)
    requires
        0 <= x,
        1 <= ts,
        x < n * ts,
    ensures
        0 <= x / ts < n,
{
    lemma_div_pos_is_pos(x, ts);
    lemma_mul_is_commutative(n, ts);
    lemma_multiply_divide_lt(x, ts, n);
}

/// A point outside the map's extent converts to an out-of-range cell, which
/// reads as solid.
proof fn lemma_out_of_map_solid(m: TileMap, x: int, y: int)
    requires
        m.wf(),
        !m.point_in_map(x, y),
    ensures
        m.solid_at_point(x, y),
{
    let ts = m.spec_tile_size();
    lemma_fundamental_div_mod(x, ts);
    lemma_fundamental_div_mod(y, ts);
    lemma_mod_division_less_than_divisor(x, ts);
    lemma_mod_division_less_than_divisor(y, ts);
    if x < 0 && x / ts >= 0 {
        lemma_mul_nonnegative(ts, x / ts);
    }
    if y < 0 && y / ts >= 0 {
        lemma_mul_nonnegative(ts, y / ts);
    }
    if x >= m.spec_cols() * ts {
        lemma_mul_is_commutative(m.spec_cols(), ts);
        lemma_div_multiples_vanish(m.spec_cols(), ts);
        lemma_div_is_ordered(m.spec_cols() * ts, x, ts);
    }
    if y >= m.spec_rows() * ts {
        lemma_mul_is_commutative(m.spec_rows(), ts);
        lemma_div_multiples_vanish(m.spec_rows(), ts);
        lemma_div_is_ordered(m.spec_rows() * ts, y, ts);
    }
}

/// A well-formed map's world extent stays within the supported coordinate
/// bound on both axes.
pub proof fn lemma_extent_bound(m: TileMap)
    requires
        m.wf(),
    ensures
        0 < m.spec_cols() * m.spec_tile_size() <= MAX_COORD,
        0 < m.spec_rows() * m.spec_tile_size() <= MAX_COORD,
{
    m.lemma_wf_bounds();
    lemma_mul_upper_bound(m.spec_cols(), MAX_DIM as int, m.spec_tile_size(), MAX_TILE_SIZE as int);
    lemma_mul_upper_bound(m.spec_rows(), MAX_DIM as int, m.spec_tile_size(), MAX_TILE_SIZE as int);
    lemma_mul_strictly_positive(m.spec_cols(), m.spec_tile_size());
    lemma_mul_strictly_positive(m.spec_rows(), m.spec_tile_size());
}

/// A world point whose cell is open lies inside the map's extent: everything
/// outside reads as solid.
pub proof fn lemma_open_point_in_map(m: TileMap, x: int, y: int)
    requires
        m.wf(),
        !m.solid_at_point(x, y),
    ensures
        m.point_in_map(x, y),
{
    if !m.point_in_map(x, y) {
        lemma_out_of_map_solid(m, x, y);
    }
}

impl TileMap {
    /// Number of rows.
    pub closed spec fn spec_rows(&self) -> int {
        self.rows as int
    }

    /// Number of columns.
    pub closed spec fn spec_cols(&self) -> int {
        self.cols as int
    }

    /// World units per cell.
    pub closed spec fn spec_tile_size(&self) -> int {
        self.tile_size as int
    }

    /// The state of cell `(row, col)`; out-of-range cells read as `Solid`.
    pub closed spec fn cell(&self, row: int, col: int) -> Cell {
        if 0 <= row < self.spec_rows() && 0 <= col < self.spec_cols() {
            self.cells@[row * self.spec_cols() + col]
        } else {
            Cell::Solid
        }
    }

    /// Well-formedness: bounded dimensions, matching cell count, solid border.
    pub closed spec fn wf(&self) -> bool {
        &&& 1 <= self.rows <= MAX_DIM
        &&& 1 <= self.cols <= MAX_DIM
        &&& 1 <= self.tile_size <= MAX_TILE_SIZE
        &&& self.cells@.len() == self.rows * self.cols
        &&& forall|r: int, c: int|
            0 <= r < self.spec_rows() && 0 <= c < self.spec_cols()
                && on_border(self.spec_rows(), self.spec_cols(), r, c)
                ==> self.cell(r, c) == Cell::Solid
    }

    /// A well-formed map has its stated bounds; lets callers use them
    /// without seeing the private fields.
    pub proof fn lemma_wf_bounds(&self)
        requires
            self.wf(),
        ensures
            1 <= self.spec_rows() <= MAX_DIM,
            1 <= self.spec_cols() <= MAX_DIM,
            1 <= self.spec_tile_size() <= MAX_TILE_SIZE,
            forall|r: int, c: int|
                0 <= r < self.spec_rows() && 0 <= c < self.spec_cols()
                    && on_border(self.spec_rows(), self.spec_cols(), r, c)
                    ==> self.cell(r, c) == Cell::Solid,
            forall|r: int, c: int|
                !(0 <= r < self.spec_rows() && 0 <= c < self.spec_cols())
                    ==> self.cell(r, c) == Cell::Solid,
    {
    }

    /// Number of rows.
    pub fn rows(&self) -> (r: usize)
        ensures
            r == self.spec_rows(),
    {
        self.rows
    }

    /// Number of columns.
    pub fn cols(&self) -> (r: usize)
        ensures
            r == self.spec_cols(),
    {
        self.cols
    }

    /// World units per cell.
    pub fn tile_size(&self) -> (r: i64)
        ensures
            r == self.spec_tile_size(),
    {
        self.tile_size
    }

    /// Builds a map from row-major rows of cells and a tile size, validating
    /// the whole description once: a malformed map is rejected here with a
    /// descriptive error, never mid-query.
    ///
    /// The checks run in this order: tile size, emptiness, rectangularity,
    /// dimension bounds, solid perimeter; the error names the first that
    /// failed.
    #[verifier::loop_isolation(false)]
    pub fn new(desc: &Vec<Vec<Cell>>, tile_size: i64) -> (r: Result<TileMap, MapError>)
        ensures
            ({
                let d = desc@;
                if !(1 <= tile_size <= MAX_TILE_SIZE) {
                    r == Err::<TileMap, MapError>(MapError::BadTileSize)
                } else if d.len() == 0 {
                    r == Err::<TileMap, MapError>(MapError::Empty)
                } else if !rows_rectangular(d) {
                    r == Err::<TileMap, MapError>(MapError::NonRectangular)
                } else if d[0]@.len() == 0 {
                    r == Err::<TileMap, MapError>(MapError::Empty)
                } else if d.len() > MAX_DIM || d[0]@.len() > MAX_DIM {
                    r == Err::<TileMap, MapError>(MapError::TooLarge)
                } else if !perimeter_solid(d) {
                    r == Err::<TileMap, MapError>(MapError::OpenPerimeter)
                } else {
                    &&& r matches Ok(m)
                    &&& m.wf()
                    &&& m.spec_rows() == d.len()
                    &&& m.spec_cols() == d[0]@.len()
                    &&& m.spec_tile_size() == tile_size
                    &&& forall|rr: int, cc: int|
                        0 <= rr < d.len() && 0 <= cc < d[0]@.len()
                            ==> m.cell(rr, cc) == d[rr]@[cc]
                }
            }),
    {
        if tile_size < 1 || tile_size > MAX_TILE_SIZE {
            return Err(MapError::BadTileSize);
        }
        let rows: usize = desc.len();
        if rows == 0 {
            return Err(MapError::Empty);
        }
        let cols: usize = desc[0].len();
        let mut i: usize = 0;
        while i < rows
            invariant
                cols == desc@[0]@.len(),
                rows == desc@.len(),
                i <= rows,
                forall|j: int| 0 <= j < i ==> #[trigger] desc@[j]@.len() == cols,
            decreases rows - i,
        {
            if desc[i].len() != cols {
                assert(desc@[i as int]@.len() != desc@[0]@.len());
                assert(!rows_rectangular(desc@));
                return Err(MapError::NonRectangular);
            }
            i = i + 1;
        }
        assert(rows_rectangular(desc@));
        if cols == 0 {
            return Err(MapError::Empty);
        }
        if rows > MAX_DIM || cols > MAX_DIM {
            return Err(MapError::TooLarge);
        }
        let mut r: usize = 0;
        while r < rows
            invariant
                cols == desc@[0]@.len(),
                rows == desc@.len(),
                rows_rectangular(desc@),
                1 <= rows <= MAX_DIM,
                1 <= cols <= MAX_DIM,
                r <= rows,
                forall|rr: int, cc: int|
                    0 <= rr < r && 0 <= cc < cols && on_border(
                        rows as int,
                        cols as int,
                        rr,
                        cc,
                    ) ==> #[trigger] desc@[rr]@[cc] == Cell::Solid,
            decreases rows - r,
        {
            let mut c: usize = 0;
            while c < cols
                invariant
                    cols == desc@[0]@.len(),
                    rows == desc@.len(),
                    rows_rectangular(desc@),
                    1 <= rows <= MAX_DIM,
                    1 <= cols <= MAX_DIM,
                    r < rows,
                    c <= cols,
                    forall|rr: int, cc: int|
                        0 <= rr < r && 0 <= cc < cols && on_border(
                            rows as int,
                            cols as int,
                            rr,
                            cc,
                        ) ==> #[trigger] desc@[rr]@[cc] == Cell::Solid,
                    forall|cc: int|
                        0 <= cc < c && on_border(rows as int, cols as int, r as int, cc)
                            ==> #[trigger] desc@[r as int]@[cc] == Cell::Solid,
                decreases cols - c,
            {
                let border: bool = r == 0 || r == rows - 1 || c == 0 || c == cols - 1;
                if border && desc[r][c] == Cell::Open {
                    assert(on_border(rows as int, cols as int, r as int, c as int));
                    assert(desc@[r as int]@.len() == cols);
                    assert(desc@[r as int]@[c as int] != Cell::Solid);
                    assert(!perimeter_solid(desc@));
                    return Err(MapError::OpenPerimeter);
                }
                c = c + 1;
            }
            r = r + 1;
        }
        assert(perimeter_solid(desc@));
        let mut cells: Vec<Cell> = Vec::new();
        let mut fr: usize = 0;
        while fr < rows
            invariant
                cols == desc@[0]@.len(),
                rows == desc@.len(),
                rows_rectangular(desc@),
                1 <= rows <= MAX_DIM,
                1 <= cols <= MAX_DIM,
                fr <= rows,
                cells@.len() == fr * cols,
                flat_matches(cells@, desc@, cols as int),
            decreases rows - fr,
        {
            let mut fc: usize = 0;
            while fc < cols
                invariant
                    cols == desc@[0]@.len(),
                    rows == desc@.len(),
                    rows_rectangular(desc@),
                    1 <= rows <= MAX_DIM,
                    1 <= cols <= MAX_DIM,
                    fr < rows,
                    fc <= cols,
                    cells@.len() == fr * cols + fc,
                    flat_matches(cells@, desc@, cols as int),
                decreases cols - fc,
            {
                proof {
                    lemma_mul_upper_bound(fr as int, MAX_DIM as int - 1, cols as int,
                        MAX_DIM as int);
                    lemma_mul_nonnegative(fr as int, cols as int);
                    lemma_fundamental_div_mod_converse(
                        (fr * cols + fc) as int,
                        cols as int,
                        fr as int,
                        fc as int,
                    );
                }
                cells.push(desc[fr][fc]);
                fc = fc + 1;
            }
            proof {
                lemma_mul_is_distributive_add_other_way(cols as int, fr as int, 1);
            }
            fr = fr + 1;
        }
        let m = TileMap { rows, cols, tile_size, cells };
        proof {
            assert forall|rr: int, cc: int|
                0 <= rr < rows && 0 <= cc < cols implies #[trigger] m.cell(rr, cc) == desc@[rr]@[cc]
            by {
                lemma_mul_inequality(rr, rows as int - 1, cols as int);
                lemma_mul_nonnegative(rr, cols as int);
                lemma_mul_is_distributive_add_other_way(cols as int, rows as int - 1, 1);
                lemma_fundamental_div_mod_converse(
                    rr * (cols as int) + cc,
                    cols as int,
                    rr,
                    cc,
                );
                assert(cells@[rr * (cols as int) + cc] == desc@[rr]@[cc]);
            }
            assert(m.wf());
        }
        Ok(m)
    }

    /// The column holding world coordinate `x`.
    pub open spec fn col_of_x(&self, x: int) -> int {
        x / self.spec_tile_size()
    }

    /// The row holding world coordinate `y`.
    pub open spec fn row_of_y(&self, y: int) -> int {
        y / self.spec_tile_size()
    }

    /// Whether a world point lies inside the map's extent.
    pub open spec fn point_in_map(&self, x: int, y: int) -> bool {
        &&& 0 <= x < self.spec_cols() * self.spec_tile_size()
        &&& 0 <= y < self.spec_rows() * self.spec_tile_size()
    }

    /// Whether the cell holding world point `(x, y)` is solid; points outside
    /// the map read as solid.
    pub open spec fn solid_at_point(&self, x: int, y: int) -> bool {
        self.cell(self.row_of_y(y), self.col_of_x(x)) == Cell::Solid
    }

    /// Grid cell `(row, col)` holding the world point `(x, y)`, or `None`
    /// when the point lies outside the map.
    pub fn world_to_cell(&self, x: i64, y: i64) -> (r: Option<(usize, usize)>)
        requires
            self.wf(),
        ensures
            r is Some <==> self.point_in_map(x as int, y as int),
            match r {
                Some(rc) => rc.0 == self.row_of_y(y as int) && rc.1 == self.col_of_x(x as int),
                None => true,
            },
    {
        proof {
            lemma_mul_upper_bound(self.cols as int, MAX_DIM as int, self.tile_size as int,
                MAX_TILE_SIZE as int);
            lemma_mul_upper_bound(self.rows as int, MAX_DIM as int, self.tile_size as int,
                MAX_TILE_SIZE as int);
            lemma_mul_nonnegative(self.cols as int, self.tile_size as int);
            lemma_mul_nonnegative(self.rows as int, self.tile_size as int);
        }
        let extent_x: i64 = (self.cols as i64) * self.tile_size;
        let extent_y: i64 = (self.rows as i64) * self.tile_size;
        if x < 0 || y < 0 || x >= extent_x || y >= extent_y {
            None
        } else {
            let col: i64 = x / self.tile_size;
            let row: i64 = y / self.tile_size;
            proof {
                lemma_div_in_range(x as int, self.spec_tile_size(), self.spec_cols());
                lemma_div_in_range(y as int, self.spec_tile_size(), self.spec_rows());
            }
            Some((row as usize, col as usize))
        }
    }

    /// Whether the cell holding world point `(x, y)` is solid, failing closed
    /// outside the map.
    pub fn solid_at_world(&self, x: i64, y: i64) -> (r: bool)
        requires
            self.wf(),
        ensures
            r == self.solid_at_point(x as int, y as int),
    {
        match self.world_to_cell(x, y) {
            None => {
                proof {
                    lemma_out_of_map_solid(*self, x as int, y as int);
                }
                true
            },
            Some(rc) => self.is_solid(rc.0 as i64, rc.1 as i64),
        }
    }

    /// Whether cell `(row, col)` blocks rays and movement; out-of-range
    /// coordinates fail closed.
    pub fn is_solid(&self, row: i64, col: i64) -> (r: bool)
        requires
            self.wf(),
        ensures
            r == (self.cell(row as int, col as int) == Cell::Solid),
    {
        if row < 0 || col < 0 || row >= self.rows as i64 || col >= self.cols as i64 {
            true
        } else {
            proof {
                assert((row as int) * (self.cols as int) + (col as int) < (self.rows as int) * (
                self.cols as int) <= MAX_DIM * MAX_DIM) by (nonlinear_arith)
                    requires
                        0 <= (row as int) <= (self.rows as int) - 1,
                        0 <= (col as int) < (self.cols as int),
                        (self.cols as int) <= MAX_DIM as int,
                        (self.rows as int) <= MAX_DIM as int,
                ;
            }
            let idx: usize = (row as usize) * self.cols + (col as usize);
            self.cells[idx] == Cell::Solid
        }
    }
}

} // verus!
