//! The occupancy grid and the world geometry it lives in.
use vstd::prelude::*;

verus! {

/// Largest number of rows, and of columns, that a grid may have.
pub const MAX_CELLS: usize = 4096;

/// Largest side of a tile, in world units.
pub const MAX_TILE: u64 = 65536;

/// Largest magnitude of a world coordinate accepted as a ray origin.
pub const MAX_COORD: i64 = 1073741824;

/// Largest magnitude of a component of a ray direction.
pub const MAX_STEP: i64 = 65536;

/// A point of the world, in world units.
#[derive(Clone, Copy, Debug, PartialEq, Eq, Structural)]
pub struct Point {
    pub x: i64,
    pub y: i64,
}

/// A ray direction: the ray is `origin + t * (dx, dy)` for `t >= 0`.
#[derive(Clone, Copy, Debug, PartialEq, Eq, Structural)]
pub struct Direction {
    pub dx: i64,
    pub dy: i64,
}

impl Point {
    /// Coordinates small enough for every computation of the caster.
    pub open spec fn bounded(self) -> bool {
        -MAX_COORD <= self.x <= MAX_COORD && -MAX_COORD <= self.y <= MAX_COORD
    }
}

impl Direction {
    /// A non-zero direction with bounded components.
    pub open spec fn valid(self) -> bool {
        -MAX_STEP <= self.dx <= MAX_STEP && -MAX_STEP <= self.dy <= MAX_STEP && (self.dx != 0
            || self.dy != 0)
    }
}

/// The mathematical model of a grid map: `rows x columns` cells of side `tile`,
/// stored row-major, `true` meaning a wall.
pub struct Grid {
    pub rows: int,
    pub columns: int,
    pub tile: int,
    pub cells: Seq<bool>,
}

impl Grid {
    pub open spec fn wf(self) -> bool {
        &&& 1 <= self.rows <= MAX_CELLS
        &&& 1 <= self.columns <= MAX_CELLS
        &&& 1 <= self.tile <= MAX_TILE
        &&& self.cells.len() == self.rows * self.columns
    }

    /// Width of the field, `columns * tile`.
    pub open spec fn width(self) -> int {
        self.columns * self.tile
    }

    /// Height of the field, `rows * tile`.
    pub open spec fn height(self) -> int {
        self.rows * self.tile
    }

    pub open spec fn in_grid(self, row: int, column: int) -> bool {
        0 <= row < self.rows && 0 <= column < self.columns
    }

    pub open spec fn occupied(self, row: int, column: int) -> bool {
        self.cells[row * self.columns + column]
    }

    /// A cell stops a ray when it is a wall or lies outside the grid.
    pub open spec fn blocks(self, row: int, column: int) -> bool {
        !self.in_grid(row, column) || self.occupied(row, column)
    }

    /// The closed field rectangle `[0, width] x [0, height]`.
    pub open spec fn contains(self, x: int, y: int) -> bool {
        0 <= x <= self.width() && 0 <= y <= self.height()
    }
}

/// A fixed occupancy grid.
pub struct GridMap {
    rows: usize,
    columns: usize,
    tile: u64,
    cells: Vec<bool>,
}

impl View for GridMap {
    type V = Grid;

    closed spec fn view(&self) -> Grid {
        Grid {
            rows: self.rows as int,
            columns: self.columns as int,
            tile: self.tile as int,
            cells: self.cells@,
        }
    }
}

proof fn lemma_cell_index(g: Grid, row: int, column: int)
    requires
        g.wf(),
        g.in_grid(row, column),
    ensures
        0 <= row * g.columns + column < g.rows * g.columns,
        g.rows * g.columns <= MAX_CELLS * MAX_CELLS,
{
    assert(0 <= row * g.columns + column < g.rows * g.columns) by (nonlinear_arith)
        requires
            0 <= row < g.rows,
            0 <= column < g.columns,
    ;
    assert(g.rows * g.columns <= MAX_CELLS * MAX_CELLS) by (nonlinear_arith)
        requires
            1 <= g.rows <= MAX_CELLS,
            1 <= g.columns <= MAX_CELLS,
    ;
}

impl GridMap {
    /// Builds a map from its row-major cells; `None` unless the sizes are
    /// within bounds and `cells` holds exactly `rows * columns` entries.
    pub fn new(rows: usize, columns: usize, tile: u64, cells: Vec<bool>) -> (r: Option<GridMap>)
        ensures
            r is Some <==> (1 <= rows <= MAX_CELLS && 1 <= columns <= MAX_CELLS && 1 <= tile
                <= MAX_TILE && cells@.len() == rows * columns),
            r matches Some(m) ==> m@ == (Grid {
                rows: rows as int,
                columns: columns as int,
                tile: tile as int,
                cells: cells@,
            }),
            r matches Some(m) ==> m@.wf(),
    {
        if rows < 1 || rows > MAX_CELLS || columns < 1 || columns > MAX_CELLS || tile < 1 || tile
            > MAX_TILE {
            return None;
        }
        assert(rows * columns <= MAX_CELLS * MAX_CELLS) by (nonlinear_arith)
            requires
                rows <= MAX_CELLS,
                columns <= MAX_CELLS,
        ;
        if cells.len() != rows * columns {
            return None;
        }
        Some(GridMap { rows, columns, tile, cells })
    }

    pub fn rows(&self) -> (r: usize)
        ensures
            r == self@.rows,
    {
        self.rows
    }

    pub fn columns(&self) -> (r: usize)
        ensures
            r == self@.columns,
    {
        self.columns
    }

    pub fn tile(&self) -> (r: u64)
        ensures
            r == self@.tile,
    {
        self.tile
    }

    /// Whether the cell at `(row, column)` is a wall.
    pub fn occupied(&self, row: usize, column: usize) -> (r: bool)
        requires
            self@.wf(),
            row < self@.rows,
            column < self@.columns,
        ensures
            r == self@.occupied(row as int, column as int),
    {
        proof {
            lemma_cell_index(self@, row as int, column as int);
        }
        self.cells[row * self.columns + column]
    }

    /// Whether the cell at signed indices `(row, column)` stops a ray.
    pub fn blocks(&self, row: i64, column: i64) -> (r: bool)
        requires
            self@.wf(),
        ensures
            r == self@.blocks(row as int, column as int),
    {
        if row < 0 || column < 0 || row >= self.rows as i64 || column >= self.columns as i64 {
            true
        } else {
            self.occupied(row as usize, column as usize)
        }
    }

    /// Whether `p` lies in the closed field rectangle.
    pub fn contains(&self, p: Point) -> (r: bool)
        requires
            self@.wf(),
        ensures
            r == self@.contains(p.x as int, p.y as int),
    {
        proof {
            lemma_field_size(self@);
        }
        let w = (self.columns as u64 * self.tile) as i64;
        let h = (self.rows as u64 * self.tile) as i64;
        0 <= p.x && p.x <= w && 0 <= p.y && p.y <= h
    }

    /// Whether a body may stand at `p`: inside the half-open field and not in
    /// a wall. The cell of `p` is `(p.y / tile, p.x / tile)`.
    pub fn is_open(&self, p: Point) -> (r: bool)
        requires
            self@.wf(),
        ensures
            r == (0 <= p.x < self@.width() && 0 <= p.y < self@.height() && !self@.occupied(
                p.y as int / self@.tile,
                p.x as int / self@.tile,
            )),
    {
        proof {
            lemma_field_size(self@);
        }
        let w = (self.columns as u64 * self.tile) as i64;
        let h = (self.rows as u64 * self.tile) as i64;
        if p.x < 0 || p.x >= w || p.y < 0 || p.y >= h {
            return false;
        }
        let t = self.tile as i64;
        let row = p.y / t;
        let column = p.x / t;
        proof {
            lemma_index_below(p.y as int, self@.tile, self@.rows);
            lemma_index_below(p.x as int, self@.tile, self@.columns);
        }
        !self.occupied(row as usize, column as usize)
    }
}

/// The field's sides fit comfortably in an `i64`.
pub proof fn lemma_field_size(g: Grid)
    requires
        g.wf(),
    ensures
        g.tile <= g.width() <= MAX_CELLS * MAX_TILE,
        g.tile <= g.height() <= MAX_CELLS * MAX_TILE,
{
    assert(g.tile <= g.width() <= MAX_CELLS * MAX_TILE) by (nonlinear_arith)
        requires
            1 <= g.columns <= MAX_CELLS,
            1 <= g.tile <= MAX_TILE,
    ;
    assert(g.tile <= g.height() <= MAX_CELLS * MAX_TILE) by (nonlinear_arith)
        requires
            1 <= g.rows <= MAX_CELLS,
            1 <= g.tile <= MAX_TILE,
    ;
}

proof fn lemma_index_below(v: int, t: int, n: int)
    requires
        0 <= v < n * t,
        t > 0,
    ensures
        0 <= v / t < n,
{
    assert(0 <= v / t < n) by (nonlinear_arith)
        requires
            0 <= v < n * t,
            t > 0,
    ;
}

} // verus!
