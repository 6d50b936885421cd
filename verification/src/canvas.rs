//! The board: a fixed-size row-major occupancy grid with collision testing,
//! validated placement, and detection and clearing of completed lines.

use vstd::prelude::*;
use vstd::arithmetic::div_mod::{
    lemma_fundamental_div_mod, lemma_fundamental_div_mod_converse, lemma_mod_bound,
};
use crate::block::{Block, Point};

verus! {

/// What one cell of the board holds. `MarkedForRemoval` is a transient state
/// of the clearing pass and is never observable between operations.
#[derive(Copy, Clone, PartialEq, Eq, Structural, Debug)]
pub enum PointStatus {
    Occupied,
    Empty,
    MarkedForRemoval,
}

pub const DEFAULT_CANVAS_HEIGHT: usize = 8;

pub const DEFAULT_CANVAS_WIDTH: usize = 8;

/// The cell of a row-major grid at column `x`, row `y`.
pub open spec fn grid_cell(g: Seq<PointStatus>, cols: int, x: int, y: int) -> PointStatus {
    g[y * cols + x]
}

/// No cell is in the transient marked state.
pub open spec fn no_marked(g: Seq<PointStatus>) -> bool {
    forall|k: int| 0 <= k < g.len() ==> !((#[trigger] g[k]) is MarkedForRemoval)
}


/// Whether a shape fits with its origin at `(row, col)`: every translated
/// point either falls off the grid (silently ignored) or lands on a cell
/// that is not occupied.
pub open spec fn fits_at(
    g: Seq<PointStatus>,
    rows: int,
    cols: int,
    pts: Seq<Point>,
    row: int,
    col: int,
) -> bool {
    forall|i: int|
        0 <= i < pts.len() ==> !(0 <= col + (#[trigger] pts[i]).x < cols && 0 <= row + pts[i].y
            < rows && grid_cell(g, cols, col + pts[i].x, row + pts[i].y) is Occupied)
}

/// Whether a shape fits with its origin at some on-grid position.
pub open spec fn fits_somewhere(
    g: Seq<PointStatus>,
    rows: int,
    cols: int,
    pts: Seq<Point>,
) -> bool {
    exists|row: int, col: int|
        0 <= row < rows && 0 <= col < cols && #[trigger] fits_at(g, rows, cols, pts, row, col)
}

/// The grid after marking the single cell a translated point lands on as
/// occupied; a point that falls off the grid changes nothing.
pub open spec fn place1(
    g: Seq<PointStatus>,
    rows: int,
    cols: int,
    p: Point,
    row: int,
    col: int,
) -> Seq<PointStatus> {
    if 0 <= col + p.x < cols && 0 <= row + p.y < rows {
        g.update((row + p.y) * cols + (col + p.x), PointStatus::Occupied)
    } else {
        g
    }
}

/// The grid after marking every cell covered by the translated shape as
/// occupied; covered positions outside the grid change nothing.
pub open spec fn place(
    g: Seq<PointStatus>,
    rows: int,
    cols: int,
    pts: Seq<Point>,
    row: int,
    col: int,
) -> Seq<PointStatus>
    decreases pts.len(),
{
    if pts.len() == 0 {
        g
    } else {
        place1(place(g, rows, cols, pts.drop_last(), row, col), rows, cols, pts.last(), row, col)
    }
}

/// A row is complete when none of its cells is empty.
pub open spec fn row_filled(g: Seq<PointStatus>, cols: int, y: int) -> bool {
    forall|x: int| 0 <= x < cols ==> !((#[trigger] grid_cell(g, cols, x, y)) is Empty)
}

/// A column is complete when none of its cells is empty.
pub open spec fn col_filled(g: Seq<PointStatus>, rows: int, cols: int, x: int) -> bool {
    forall|y: int| 0 <= y < rows ==> !((#[trigger] grid_cell(g, cols, x, y)) is Empty)
}

/// The grid after emptying every cell that lies on a complete row or a
/// complete column, completeness judged on `g` itself.
pub open spec fn clear_lines(g: Seq<PointStatus>, rows: int, cols: int) -> Seq<PointStatus> {
    Seq::new(
        g.len(),
        |k: int|
            if col_filled(g, rows, cols, k % cols) || row_filled(g, cols, k / cols) {
                PointStatus::Empty
            } else {
                g[k]
            },
    )
}

/// How many of the rows below `n` are complete.
pub open spec fn filled_rows_up_to(g: Seq<PointStatus>, cols: int, n: int) -> nat
    decreases n,
{
    if n <= 0 {
        0
    } else {
        filled_rows_up_to(g, cols, n - 1) + (if row_filled(g, cols, n - 1) {
            1nat
        } else {
            0nat
        })
    }
}

/// How many of the columns left of `n` are complete.
pub open spec fn filled_cols_up_to(g: Seq<PointStatus>, rows: int, cols: int, n: int) -> nat
    decreases n,
{
    if n <= 0 {
        0
    } else {
        filled_cols_up_to(g, rows, cols, n - 1) + (if col_filled(g, rows, cols, n - 1) {
            1nat
        } else {
            0nat
        })
    }
}

/// Lines a clearing pass removes: complete columns and complete rows,
/// counted independently.
pub open spec fn lines_cleared(g: Seq<PointStatus>, rows: int, cols: int) -> nat {
    filled_cols_up_to(g, rows, cols, cols) + filled_rows_up_to(g, cols, rows)
}

/// The grid after placing a shape and then clearing the lines the placement
/// completed.
pub open spec fn place_and_clear(
    g: Seq<PointStatus>,
    rows: int,
    cols: int,
    pts: Seq<Point>,
    row: int,
    col: int,
) -> Seq<PointStatus> {
    clear_lines(place(g, rows, cols, pts, row, col), rows, cols)
}

/// Lines cleared by placing a shape at `(row, col)`.
pub open spec fn cleared_by_placing(
    g: Seq<PointStatus>,
    rows: int,
    cols: int,
    pts: Seq<Point>,
    row: int,
    col: int,
) -> nat {
    lines_cleared(place(g, rows, cols, pts, row, col), rows, cols)
}

/// How many of the first `n` cells are occupied.
pub open spec fn occupied_up_to(g: Seq<PointStatus>, n: int) -> nat
    decreases n,
{
    if n <= 0 {
        0
    } else {
        occupied_up_to(g, n - 1) + (if g[n - 1] is Occupied {
            1nat
        } else {
            0nat
        })
    }
}

/// How many cells of the grid are occupied.
pub open spec fn occupied_cells(g: Seq<PointStatus>) -> nat {
    occupied_up_to(g, g.len() as int)
}

/// Row-major index arithmetic: composing an index from a valid coordinate
/// pair and decomposing it again are inverses.
pub proof fn lemma_linear_index(cols: int, x: int, y: int)
    requires
        0 <= x < cols,
        0 <= y,
    ensures
        (y * cols + x) / cols == y,
        (y * cols + x) % cols == x,
        y * cols + x >= 0,
{
    lemma_fundamental_div_mod_converse(y * cols + x, cols, y, x);
    assert(y * cols >= 0) by (nonlinear_arith)
        requires
            y >= 0,
            cols > 0,
    ;
}

/// Every index below `rows * cols` decomposes into a valid coordinate pair.
pub proof fn lemma_index_decomp(rows: int, cols: int, k: int)
    requires
        0 <= rows,
        0 <= cols,
        0 <= k < rows * cols,
    ensures
        cols > 0,
        0 <= k % cols < cols,
        0 <= k / cols < rows,
        k == (k / cols) * cols + (k % cols),
{
    assert(cols > 0) by (nonlinear_arith)
        requires
            0 <= rows,
            0 <= cols,
            0 <= k < rows * cols,
    ;
    lemma_fundamental_div_mod(k, cols);
    lemma_mod_bound(k, cols);
    let q = k / cols;
    let r = k % cols;
    assert(q * cols == cols * q) by (nonlinear_arith);
    assert(0 <= q < rows) by (nonlinear_arith)
        requires
            k == cols * q + r,
            0 <= r < cols,
            0 <= k < rows * cols,
            cols > 0,
    ;
}

/// A transient, validated pairing of a shape with an absolute board
/// position, producible only through a successful fit-check.
pub struct PlayableBlock {
    block: Block,
    row: i32,
    column: i32,
}

impl PlayableBlock {
    /// The validated shape's point list.
    pub closed spec fn pts(&self) -> Seq<Point> {
        self.block@
    }

    /// The validated origin row.
    pub closed spec fn spec_row(&self) -> int {
        self.row as int
    }

    /// The validated origin column.
    pub closed spec fn spec_column(&self) -> int {
        self.column as int
    }
}

/// Canvas holds the state of the board. The grid is reachable as a field so
/// that contracts can speak of it; it is meant to be mutated only through
/// the methods below, which keep `wf`.
pub struct Canvas {
    pub columns: usize,
    pub rows: usize,
    pub contents: Vec<PointStatus>,
}

impl Canvas {
    /// The occupancy grid in row-major order.
    pub open spec fn grid(&self) -> Seq<PointStatus> {
        self.contents@
    }

    /// Well-formedness: the grid has exactly `rows * columns` cells, both
    /// dimensions are addressable by 32-bit coordinates, and no cell is in
    /// the transient marked state.
    pub open spec fn wf(&self) -> bool {
        &&& self.grid().len() == self.rows * self.columns
        &&& self.rows <= i32::MAX
        &&& self.columns <= i32::MAX
        &&& no_marked(self.grid())
    }

    /// Whether `(x, y)` is an on-grid coordinate pair.
    pub open spec fn in_bounds(&self, x: int, y: int) -> bool {
        0 <= x < self.columns && 0 <= y < self.rows
    }

    /// The cell at column `x`, row `y`.
    pub open spec fn cell(&self, x: int, y: int) -> PointStatus {
        grid_cell(self.grid(), self.columns as int, x, y)
    }

    pub fn new(rows: usize, columns: usize) -> (r: Self)
        requires
            rows <= i32::MAX as usize,
            columns <= i32::MAX as usize,
            rows * columns <= usize::MAX,
        ensures
            r.wf(),
            r.rows == rows,
            r.columns == columns,
            forall|k: int| 0 <= k < r.grid().len() ==> (#[trigger] r.grid()[k]) is Empty,
    {
        let total = rows * columns;
        let mut contents: Vec<PointStatus> = Vec::new();
        let mut i: usize = 0;
        while i < total
            invariant
                i <= total,
                contents@.len() == i,
                forall|k: int| 0 <= k < i ==> (#[trigger] contents@[k]) is Empty,
            decreases total - i,
        {
            contents.push(PointStatus::Empty);
            i = i + 1;
        }
        Canvas { columns, rows, contents }
    }

    /// A cell-by-cell snapshot of occupancy, for rendering.
    pub fn contents(&self) -> (r: Vec<PointStatus>)
        ensures
            r@ == self.grid(),
    {
        let mut out: Vec<PointStatus> = Vec::new();
        let n = self.contents.len();
        let mut i: usize = 0;
        while i < n
            invariant
                n == self.grid().len(),
                i <= n,
                out@.len() == i,
                forall|k: int| 0 <= k < i ==> out@[k] == self.grid()[k],
            decreases n - i,
        {
            out.push(self.contents[i]);
            i = i + 1;
        }
        proof {
            assert(out@ =~= self.grid());
        }
        out
    }

    /// Reset every cell to empty; dimensions are kept.
    pub fn clear_all(&mut self)
        ensures
            final(self).rows == old(self).rows,
            final(self).columns == old(self).columns,
            final(self).grid().len() == old(self).grid().len(),
            forall|k: int|
                0 <= k < final(self).grid().len() ==> (#[trigger] final(self).grid()[k]) is Empty,
    {
        let n = self.contents.len();
        let mut i: usize = 0;
        while i < n
            invariant
                n == self.grid().len(),
                i <= n,
                self.rows == old(self).rows,
                self.columns == old(self).columns,
                forall|k: int| 0 <= k < i ==> (#[trigger] self.grid()[k]) is Empty,
            decreases n - i,
        {
            self.contents.set(i, PointStatus::Empty);
            i = i + 1;
        }
    }

    /// Convert absolute coordinates to a grid index; coordinates outside
    /// `[0, columns) x [0, rows)` yield no index.
    fn position_to_index(&self, x: i64, y: i64) -> (r: Option<usize>)
        requires
            self.wf(),
        ensures
            r is Some <==> self.in_bounds(x as int, y as int),
            r is Some ==> r.unwrap() == y * self.columns + x && r.unwrap() < self.grid().len(),
    {
        if x < 0 || y < 0 || x >= self.columns as i64 || y >= self.rows as i64 {
            return None;
        }
        let n = self.contents.len();
        proof {
            assert(n == self.grid().len());
            lemma_linear_index(self.columns as int, x as int, y as int);
            assert((y as int) * (self.columns as int) + (x as int) < (self.rows as int) * (
            self.columns as int)) by (nonlinear_arith)
                requires
                    0 <= (x as int) && (x as int) < (self.columns as int),
                    0 <= (y as int) && (y as int) < (self.rows as int),
            ;
        }
        Some((y as usize) * self.columns + (x as usize))
    }

    /// Whether the shape fits with its origin at `(row, column)`: every
    /// translated point either falls off the grid (silently ignored) or
    /// lands on a cell that is not occupied. Never mutates state.
    pub fn can_fit_at(&self, block: &Block, row: i32, column: i32) -> (r: bool)
        requires
            self.wf(),
        ensures
            r == fits_at(
                self.grid(),
                self.rows as int,
                self.columns as int,
                block@,
                row as int,
                column as int,
            ),
    {
        let pts = block.coordinates();
        let n = pts.len();
        let mut i: usize = 0;
        while i < n
            invariant
                self.wf(),
                n == block@.len(),
                i <= n,
                pts@ == block@,
                forall|j: int|
                    0 <= j < i ==> !(0 <= column + (#[trigger] block@[j]).x < self.columns && 0
                        <= row + block@[j].y < self.rows && grid_cell(
                        self.grid(),
                        self.columns as int,
                        column + block@[j].x,
                        row + block@[j].y,
                    ) is Occupied),
            decreases n - i,
        {
            let p = pts[i];
            let cx: i64 = column as i64 + p.x as i64;
            let cy: i64 = row as i64 + p.y as i64;
            if let Some(index) = self.position_to_index(cx, cy) {
                if let PointStatus::Occupied = self.contents[index] {
                    proof {
                        assert(block@[i as int] == p);
                        assert(grid_cell(
                            self.grid(),
                            self.columns as int,
                            column + p.x,
                            row + p.y,
                        ) is Occupied);
                    }
                    return false;
                }
            }
            i = i + 1;
        }
        true
    }

    /// The first origin in row-major scan order where the shape fits, if
    /// any.
    pub(crate) fn first_fit(&self, block: &Block) -> (r: Option<(i32, i32)>)
        requires
            self.wf(),
        ensures
            r is Some <==> fits_somewhere(
                self.grid(),
                self.rows as int,
                self.columns as int,
                block@,
            ),
            r matches Some(rc) ==> 0 <= rc.0 < self.rows && 0 <= rc.1 < self.columns && fits_at(
                self.grid(),
                self.rows as int,
                self.columns as int,
                block@,
                rc.0 as int,
                rc.1 as int,
            ),
    {
        let mut row: usize = 0;
        while row < self.rows
            invariant
                self.wf(),
                row <= self.rows,
                forall|ro: int, co: int|
                    0 <= ro < row && 0 <= co < self.columns ==> !(#[trigger] fits_at(
                        self.grid(),
                        self.rows as int,
                        self.columns as int,
                        block@,
                        ro,
                        co,
                    )),
            decreases self.rows - row,
        {
            let mut col: usize = 0;
            while col < self.columns
                invariant
                    self.wf(),
                    row < self.rows,
                    col <= self.columns,
                    forall|ro: int, co: int|
                        0 <= ro < row && 0 <= co < self.columns ==> !(#[trigger] fits_at(
                            self.grid(),
                            self.rows as int,
                            self.columns as int,
                            block@,
                            ro,
                            co,
                        )),
                    forall|co: int|
                        0 <= co < col ==> !(#[trigger] fits_at(
                            self.grid(),
                            self.rows as int,
                            self.columns as int,
                            block@,
                            row as int,
                            co,
                        )),
                decreases self.columns - col,
            {
                if self.can_fit_at(block, row as i32, col as i32) {
                    return Some((row as i32, col as i32));
                }
                col = col + 1;
            }
            row = row + 1;
        }
        None
    }

    /// Whether the shape can still be played at all: true iff some origin
    /// position passes the fit-check.
    pub fn can_fit(&self, block: &Block) -> (r: bool)
        requires
            self.wf(),
        ensures
            r == fits_somewhere(self.grid(), self.rows as int, self.columns as int, block@),
    {
        self.first_fit(block).is_some()
    }

    /// The only path to a `PlayableBlock`: pair the shape with the exact
    /// origin iff the fit-check succeeds there.
    pub fn try_make_playable(&self, block: &Block, row: i32, column: i32) -> (r: Option<
        PlayableBlock,
    >)
        requires
            self.wf(),
        ensures
            r is Some <==> fits_at(
                self.grid(),
                self.rows as int,
                self.columns as int,
                block@,
                row as int,
                column as int,
            ),
            r matches Some(pb) ==> pb.pts() == block@ && pb.spec_row() == row as int
                && pb.spec_column() == column as int,
    {
        if !self.can_fit_at(block, row, column) {
            return None;
        }
        Some(PlayableBlock { block: block.clone(), row, column })
    }

    /// Mark every absolute cell covered by the validated shape as occupied.
    /// The pairing must have been validated against the current board state.
    pub fn add(&mut self, block: &PlayableBlock)
        requires
            old(self).wf(),
            fits_at(
                old(self).grid(),
                old(self).rows as int,
                old(self).columns as int,
                block.pts(),
                block.spec_row(),
                block.spec_column(),
            ),
        ensures
            final(self).wf(),
            final(self).rows == old(self).rows,
            final(self).columns == old(self).columns,
            final(self).grid() == place(
                old(self).grid(),
                old(self).rows as int,
                old(self).columns as int,
                block.pts(),
                block.spec_row(),
                block.spec_column(),
            ),
    {
        let ghost g0 = self.grid();
        let pts = block.block.coordinates();
        let n = pts.len();
        let mut i: usize = 0;
        while i < n
            invariant
                self.wf(),
                n == block.pts().len(),
                i <= n,
                pts@ == block.pts(),
                block.row == block.spec_row(),
                block.column == block.spec_column(),
                self.rows == old(self).rows,
                self.columns == old(self).columns,
                old(self).wf(),
                self.grid().len() == g0.len(),
                g0 == old(self).grid(),
                self.grid() == place(
                    g0,
                    self.rows as int,
                    self.columns as int,
                    block.pts().take(i as int),
                    block.spec_row(),
                    block.spec_column(),
                ),
            decreases n - i,
        {
            let p = pts[i];
            let cx: i64 = block.column as i64 + p.x as i64;
            let cy: i64 = block.row as i64 + p.y as i64;
            let ghost before = self.grid();
            if let Some(index) = self.position_to_index(cx, cy) {
                self.contents.set(index, PointStatus::Occupied);
            }
            proof {
                let r = self.rows as int;
                let c = self.columns as int;
                let pt = block.pts()[i as int];
                assert(pt == p);
                assert(self.grid() == place1(before, r, c, pt, block.spec_row(), block.spec_column()));
                assert(block.pts().take(i + 1).drop_last() =~= block.pts().take(i as int));
                assert(block.pts().take(i + 1).last() == pt);
                assert(self.grid() == place(
                    g0,
                    r,
                    c,
                    block.pts().take(i + 1),
                    block.spec_row(),
                    block.spec_column(),
                ));
            }
            i = i + 1;
        }
        proof {
            assert(block.pts().take(n as int) =~= block.pts());
            lemma_place_pointwise(
                g0,
                self.rows as int,
                self.columns as int,
                block.pts(),
                block.spec_row(),
                block.spec_column(),
            );
        }
    }
}

impl Canvas {
    /// `Some(true)` iff the row is completely occupied; out-of-range rows
    /// yield no answer. Cells marked for removal still count as occupied.
    pub fn is_complete_row(&self, row: usize) -> (r: Option<bool>)
        requires
            self.wf(),
        ensures
            r is Some <==> row < self.rows,
            row < self.rows ==> r == Some(row_filled(self.grid(), self.columns as int, row as int)),
    {
        if self.rows <= row {
            return None;
        }
        let mut sum: usize = 0;
        let mut col: usize = 0;
        while col < self.columns
            invariant
                self.wf(),
                row < self.rows,
                col <= self.columns,
                sum <= col,
                sum == col <==> (forall|x: int|
                    0 <= x < col ==> !((#[trigger] grid_cell(
                        self.grid(),
                        self.columns as int,
                        x,
                        row as int,
                    )) is Empty)),
            decreases self.columns - col,
        {
            if let Some(index) = self.position_to_index(col as i64, row as i64) {
                proof {
                    assert(self.grid()[index as int] == grid_cell(
                        self.grid(),
                        self.columns as int,
                        col as int,
                        row as int,
                    ));
                }
                sum = match self.contents[index] {
                    PointStatus::Occupied => sum + 1,
                    PointStatus::MarkedForRemoval => sum + 1,
                    PointStatus::Empty => sum,
                };
            }
            col = col + 1;
        }
        if sum != self.columns {
            return Some(false);
        }
        Some(true)
    }

    /// `Some(true)` iff the column is completely occupied; out-of-range
    /// columns yield no answer. Cells marked for removal still count as
    /// occupied.
    pub fn is_complete_column(&self, column: usize) -> (r: Option<bool>)
        requires
            self.wf(),
        ensures
            r is Some <==> column < self.columns,
            column < self.columns ==> r == Some(
                col_filled(self.grid(), self.rows as int, self.columns as int, column as int),
            ),
    {
        if self.columns <= column {
            return None;
        }
        let mut sum: usize = 0;
        let mut row: usize = 0;
        while row < self.rows
            invariant
                self.wf(),
                column < self.columns,
                row <= self.rows,
                sum <= row,
                sum == row <==> (forall|y: int|
                    0 <= y < row ==> !((#[trigger] grid_cell(
                        self.grid(),
                        self.columns as int,
                        column as int,
                        y,
                    )) is Empty)),
            decreases self.rows - row,
        {
            if let Some(index) = self.position_to_index(column as i64, row as i64) {
                proof {
                    assert(self.grid()[index as int] == grid_cell(
                        self.grid(),
                        self.columns as int,
                        column as int,
                        row as int,
                    ));
                }
                sum = match self.contents[index] {
                    PointStatus::Occupied => sum + 1,
                    PointStatus::MarkedForRemoval => sum + 1,
                    PointStatus::Empty => sum,
                };
            }
            row = row + 1;
        }
        if sum != self.rows {
            return Some(false);
        }
        Some(true)
    }

    /// Clear all completed rows and columns, completeness judged on the
    /// board as it stands before the pass, and return how many lines were
    /// removed; a cell at a cleared intersection counts toward both totals.
    pub fn clear_completed_lines(&mut self) -> (removed: usize)
        requires
            old(self).wf(),
        ensures
            final(self).wf(),
            final(self).rows == old(self).rows,
            final(self).columns == old(self).columns,
            final(self).grid() == clear_lines(
                old(self).grid(),
                old(self).rows as int,
                old(self).columns as int,
            ),
            removed == lines_cleared(
                old(self).grid(),
                old(self).rows as int,
                old(self).columns as int,
            ),
    {
        let ghost g0 = self.grid();
        let ghost r = self.rows as int;
        let ghost c = self.columns as int;
        let mut removed: usize = 0;

        let mut col_flags: Vec<bool> = Vec::new();
        let mut col: usize = 0;
        while col < self.columns
            invariant
                self.wf(),
                g0 == self.grid(),
                r == self.rows as int,
                c == self.columns as int,
                col <= self.columns,
                col_flags@.len() == col,
                forall|x: int| 0 <= x < col ==> col_flags@[x] == col_filled(g0, r, c, x),
                removed == filled_cols_up_to(g0, r, c, col as int),
                removed <= col,
            decreases self.columns - col,
        {
            let flag = match self.is_complete_column(col) {
                Some(b) => b,
                None => false,
            };
            col_flags.push(flag);
            if flag {
                removed = removed + 1;
            }
            col = col + 1;
        }

        let mut row_flags: Vec<bool> = Vec::new();
        let mut row: usize = 0;
        while row < self.rows
            invariant
                self.wf(),
                g0 == self.grid(),
                r == self.rows as int,
                c == self.columns as int,
                row <= self.rows,
                col_flags@.len() == c,
                forall|x: int| 0 <= x < c ==> col_flags@[x] == col_filled(g0, r, c, x),
                row_flags@.len() == row,
                forall|y: int| 0 <= y < row ==> row_flags@[y] == row_filled(g0, c, y),
                removed == filled_cols_up_to(g0, r, c, c) + filled_rows_up_to(g0, c, row as int),
                removed <= self.columns + row,
            decreases self.rows - row,
        {
            let flag = match self.is_complete_row(row) {
                Some(b) => b,
                None => false,
            };
            row_flags.push(flag);
            if flag {
                removed = removed + 1;
            }
            row = row + 1;
        }

        let total = self.contents.len();
        let mut k: usize = 0;
        while k < total
            invariant
                r == self.rows as int,
                c == self.columns as int,
                self.grid().len() == total,
                g0.len() == total,
                total == r * c,
                no_marked(g0),
                k <= total,
                col_flags@.len() == c,
                forall|x: int| 0 <= x < c ==> col_flags@[x] == col_filled(g0, r, c, x),
                row_flags@.len() == r,
                forall|y: int| 0 <= y < r ==> row_flags@[y] == row_filled(g0, c, y),
                forall|j: int| 0 <= j < k ==> self.grid()[j] == clear_lines(g0, r, c)[j],
                forall|j: int| k <= j < total ==> self.grid()[j] == g0[j],
            decreases total - k,
        {
            proof {
                lemma_index_decomp(r, c, k as int);
            }
            let x = k % self.columns;
            let y = k / self.columns;
            if col_flags[x] || row_flags[y] {
                self.contents.set(k, PointStatus::Empty);
            }
            k = k + 1;
        }
        proof {
            assert(self.grid() =~= clear_lines(g0, r, c));
            assert forall|j: int|
                0 <= j < self.grid().len() implies !((#[trigger] self.grid()[j])
                is MarkedForRemoval) by {
                assert(clear_lines(g0, r, c)[j] is Empty || clear_lines(g0, r, c)[j] == g0[j]);
            }
        }
        removed
    }
}

impl Clone for Canvas {
    /// An exact copy: same dimensions, same occupancy grid.
    fn clone(&self) -> (r: Self)
        ensures
            r.rows == self.rows,
            r.columns == self.columns,
            r.grid() == self.grid(),
    {
        let mut contents: Vec<PointStatus> = Vec::new();
        let n = self.contents.len();
        let mut i: usize = 0;
        while i < n
            invariant
                n == self.grid().len(),
                i <= n,
                contents@.len() == i,
                forall|k: int| 0 <= k < i ==> contents@[k] == self.grid()[k],
            decreases n - i,
        {
            contents.push(self.contents[i]);
            i = i + 1;
        }
        proof {
            assert(contents@ =~= self.grid());
        }
        Canvas { columns: self.columns, rows: self.rows, contents }
    }
}

impl Default for Canvas {
    /// The default board: 8 rows by 8 columns, all empty.
    fn default() -> (r: Self)
        ensures
            r.wf(),
            r.rows == DEFAULT_CANVAS_HEIGHT,
            r.columns == DEFAULT_CANVAS_WIDTH,
            forall|k: int| 0 <= k < r.grid().len() ==> (#[trigger] r.grid()[k]) is Empty,
    {
        Canvas::new(DEFAULT_CANVAS_HEIGHT, DEFAULT_CANVAS_WIDTH)
    }
}

/// A completed-line count over a prefix never exceeds the prefix length.
pub proof fn lemma_filled_rows_bound(g: Seq<PointStatus>, cols: int, n: int)
    requires
        0 <= n,
    ensures
        filled_rows_up_to(g, cols, n) <= n,
    decreases n,
{
    if n > 0 {
        lemma_filled_rows_bound(g, cols, n - 1);
    }
}

/// A completed-line count over a prefix never exceeds the prefix length.
pub proof fn lemma_filled_cols_bound(g: Seq<PointStatus>, rows: int, cols: int, n: int)
    requires
        0 <= n,
    ensures
        filled_cols_up_to(g, rows, cols, n) <= n,
    decreases n,
{
    if n > 0 {
        lemma_filled_cols_bound(g, rows, cols, n - 1);
    }
}

proof fn lemma_filled_rows_full(g: Seq<PointStatus>, cols: int, n: int)
    requires
        0 <= n,
        forall|y: int| 0 <= y < n ==> #[trigger] row_filled(g, cols, y),
    ensures
        filled_rows_up_to(g, cols, n) == n,
    decreases n,
{
    if n > 0 {
        lemma_filled_rows_full(g, cols, n - 1);
    }
}

proof fn lemma_filled_cols_full(g: Seq<PointStatus>, rows: int, cols: int, n: int)
    requires
        0 <= n,
        forall|x: int| 0 <= x < n ==> #[trigger] col_filled(g, rows, cols, x),
    ensures
        filled_cols_up_to(g, rows, cols, n) == n,
    decreases n,
{
    if n > 0 {
        lemma_filled_cols_full(g, rows, cols, n - 1);
    }
}

/// Clearing a board on which every cell is occupied (so every row and every
/// column is complete) empties every cell and removes `rows + cols` lines.
pub proof fn lemma_clear_full_board(g: Seq<PointStatus>, rows: int, cols: int)
    requires
        g.len() == rows * cols,
        0 <= rows,
        0 <= cols,
        forall|k: int| 0 <= k < g.len() ==> (#[trigger] g[k]) is Occupied,
    ensures
        forall|k: int| 0 <= k < g.len() ==> (#[trigger] clear_lines(g, rows, cols)[k]) is Empty,
        lines_cleared(g, rows, cols) == rows + cols,
{
    assert forall|y: int| 0 <= y < rows implies #[trigger] row_filled(g, cols, y) by {
        assert forall|x: int|
            0 <= x < cols implies !((#[trigger] grid_cell(g, cols, x, y)) is Empty) by {
            lemma_linear_index(cols, x, y);
            assert(y * cols + x < rows * cols) by (nonlinear_arith)
                requires
                    0 <= x < cols,
                    0 <= y < rows,
            ;
        }
    }
    assert forall|x: int| 0 <= x < cols implies #[trigger] col_filled(g, rows, cols, x) by {
        assert forall|y: int|
            0 <= y < rows implies !((#[trigger] grid_cell(g, cols, x, y)) is Empty) by {
            lemma_linear_index(cols, x, y);
            assert(y * cols + x < rows * cols) by (nonlinear_arith)
                requires
                    0 <= x < cols,
                    0 <= y < rows,
            ;
        }
    }
    lemma_filled_rows_full(g, cols, rows);
    lemma_filled_cols_full(g, rows, cols, cols);
    assert forall|k: int|
        0 <= k < g.len() implies (#[trigger] clear_lines(g, rows, cols)[k]) is Empty by {
        lemma_index_decomp(rows, cols, k);
    }
}

/// On a prefix whose cells are all occupied the occupancy count is exact.
pub proof fn lemma_occupied_full(g: Seq<PointStatus>, n: int)
    requires
        0 <= n <= g.len(),
        forall|k: int| 0 <= k < n ==> (#[trigger] g[k]) is Occupied,
    ensures
        occupied_up_to(g, n) == n,
    decreases n,
{
    if n > 0 {
        lemma_occupied_full(g, n - 1);
    }
}

proof fn lemma_occupied_update(g: Seq<PointStatus>, j: int, n: int)
    requires
        0 <= j < g.len(),
        0 <= n <= g.len(),
    ensures
        occupied_up_to(g.update(j, PointStatus::Occupied), n) <= occupied_up_to(g, n) + (if j < n {
            1int
        } else {
            0int
        }),
    decreases n,
{
    if n > 0 {
        lemma_occupied_update(g, j, n - 1);
    }
}

/// Placing a shape can raise the number of occupied cells by at most the
/// number of its points.
pub proof fn lemma_place_occupied_bound(
    g: Seq<PointStatus>,
    rows: int,
    cols: int,
    pts: Seq<Point>,
    row: int,
    col: int,
)
    requires
        g.len() == rows * cols,
        0 <= rows,
        0 <= cols,
    ensures
        occupied_cells(place(g, rows, cols, pts, row, col)) <= occupied_cells(g) + pts.len(),
    decreases pts.len(),
{
    if pts.len() > 0 {
        lemma_place_occupied_bound(g, rows, cols, pts.drop_last(), row, col);
        lemma_place_pointwise(g, rows, cols, pts.drop_last(), row, col);
        let h = place(g, rows, cols, pts.drop_last(), row, col);
        let p = pts.last();
        if 0 <= col + p.x < cols && 0 <= row + p.y < rows {
            lemma_linear_index(cols, col + p.x, row + p.y);
            assert((row + p.y) * cols + (col + p.x) < rows * cols) by (nonlinear_arith)
                requires
                    0 <= col + p.x < cols,
                    0 <= row + p.y < rows,
            ;
            lemma_occupied_update(h, (row + p.y) * cols + (col + p.x), h.len() as int);
        }
    }
}

/// A fit on a board transfers to any board whose occupied cells are a
/// subset of its own: removing occupation never blocks a placement.
pub proof fn lemma_fits_monotone(
    g1: Seq<PointStatus>,
    g2: Seq<PointStatus>,
    rows: int,
    cols: int,
    pts: Seq<Point>,
    row: int,
    col: int,
)
    requires
        g1.len() == g2.len(),
        g1.len() == rows * cols,
        0 <= rows,
        0 <= cols,
        forall|k: int| 0 <= k < g1.len() ==> ((#[trigger] g1[k]) is Occupied ==> g2[k] is Occupied),
        fits_at(g2, rows, cols, pts, row, col),
    ensures
        fits_at(g1, rows, cols, pts, row, col),
{
    assert forall|i: int|
        0 <= i < pts.len() implies !(0 <= col + (#[trigger] pts[i]).x < cols && 0 <= row + pts[i].y
        < rows && grid_cell(g1, cols, col + pts[i].x, row + pts[i].y) is Occupied) by {
        if 0 <= col + pts[i].x < cols && 0 <= row + pts[i].y < rows {
            lemma_linear_index(cols, col + pts[i].x, row + pts[i].y);
            assert((row + pts[i].y) * cols + (col + pts[i].x) < rows * cols) by (nonlinear_arith)
                requires
                    0 <= col + pts[i].x < cols,
                    0 <= row + pts[i].y < rows,
            ;
            assert(!(grid_cell(g2, cols, col + pts[i].x, row + pts[i].y) is Occupied));
        }
    }
}

/// Placing a shape changes cells only by making them occupied: every cell of
/// the result either kept its old status or is occupied, the length is kept,
/// and occupied cells stay occupied.
pub proof fn lemma_place_pointwise(
    g: Seq<PointStatus>,
    rows: int,
    cols: int,
    pts: Seq<Point>,
    row: int,
    col: int,
)
    requires
        g.len() == rows * cols,
        0 <= rows,
        0 <= cols,
    ensures
        place(g, rows, cols, pts, row, col).len() == g.len(),
        forall|k: int|
            0 <= k < g.len() ==> #[trigger] place(g, rows, cols, pts, row, col)[k] == g[k] || place(
                g,
                rows,
                cols,
                pts,
                row,
                col,
            )[k] is Occupied,
    decreases pts.len(),
{
    if pts.len() > 0 {
        lemma_place_pointwise(g, rows, cols, pts.drop_last(), row, col);
        let p = pts.last();
        if 0 <= col + p.x < cols && 0 <= row + p.y < rows {
            lemma_linear_index(cols, col + p.x, row + p.y);
            assert((row + p.y) * cols + (col + p.x) < rows * cols) by (nonlinear_arith)
                requires
                    0 <= col + p.x < cols,
                    0 <= row + p.y < rows,
            ;
        }
    }
}

} // verus!
