//! The playing board of the earlier model: a row-major grid whose cells are
//! empty or occupied, with queries for completed rows and columns.

use vstd::prelude::*;

verus! {

/// What one cell holds; an occupied cell carries a marker byte.
#[derive(Copy, Clone, PartialEq, Eq, Structural, Debug)]
pub enum PointStatus {
    Occupied(u8),
    Empty,
}

/// The cell of a row-major grid at column `x`, row `y`.
pub open spec fn cell_at(g: Seq<PointStatus>, cols: int, x: int, y: int) -> PointStatus {
    g[y * cols + x]
}

/// A row is complete when every cell of it is occupied.
pub open spec fn row_full(g: Seq<PointStatus>, cols: int, y: int) -> bool {
    forall|x: int| 0 <= x < cols ==> (#[trigger] cell_at(g, cols, x, y)) is Occupied
}

/// A column is complete when every cell of it is occupied.
pub open spec fn col_full(g: Seq<PointStatus>, rows: int, cols: int, x: int) -> bool {
    forall|y: int| 0 <= y < rows ==> (#[trigger] cell_at(g, cols, x, y)) is Occupied
}

/// Canvas holds the state of the board. The grid is reachable as a field so
/// that contracts can speak of it; it is meant to be read through the
/// methods below.
pub struct Canvas {
    pub columns: usize,
    pub rows: usize,
    pub contents: Vec<PointStatus>,
}

impl Canvas {
    /// The occupancy grid in row-major order.
    pub open spec fn grid(&self) -> Seq<PointStatus> {
        self.contents@
    }

    /// Well-formedness: the grid has exactly `rows * columns` cells.
    pub open spec fn wf(&self) -> bool {
        self.grid().len() == self.rows * self.columns
    }

    /// Construct a new canvas object, all cells empty.
    pub fn new(rows: usize, columns: usize) -> (r: Self)
        requires
            rows * columns <= usize::MAX,
        ensures
            r.wf(),
            r.rows == rows,
            r.columns == columns,
            forall|k: int| 0 <= k < r.grid().len() ==> (#[trigger] r.grid()[k]) is Empty,
    {
        let total = rows * columns;
        let mut contents: Vec<PointStatus> = Vec::new();
        let mut i: usize = 0;
        while i < total
            invariant
                i <= total,
                contents@.len() == i,
                forall|k: int| 0 <= k < i ==> (#[trigger] contents@[k]) is Empty,
            decreases total - i,
        {
            contents.push(PointStatus::Empty);
            i = i + 1;
        }
        Canvas { columns, rows, contents }
    }

    /// Return `Some(true)` if the row is completely occupied; rows outside
    /// the board yield no answer.
    pub fn is_complete_row(&self, row: usize) -> (r: Option<bool>)
        requires
            self.wf(),
        ensures
            r is Some <==> row < self.rows,
            row < self.rows ==> r == Some(row_full(self.grid(), self.columns as int, row as int)),
    {
        if self.rows <= row {
            return None;
        }
        let n = self.contents.len();
        let mut sum: usize = 0;
        let mut i: usize = 0;
        while i < self.columns
            invariant
                self.wf(),
                n == self.grid().len(),
                row < self.rows,
                i <= self.columns,
                sum <= i,
                sum == i <==> (forall|x: int|
                    0 <= x < i ==> (#[trigger] cell_at(
                        self.grid(),
                        self.columns as int,
                        x,
                        row as int,
                    )) is Occupied),
            decreases self.columns - i,
        {
            proof {
                assert((row as int) * (self.columns as int) + (i as int) < (self.rows as int) * (
                self.columns as int)) by (nonlinear_arith)
                    requires
                        0 <= (i as int) && (i as int) < (self.columns as int),
                        0 <= (row as int) && (row as int) < (self.rows as int),
                ;
            }
            let pos = i + row * self.columns;
            proof {
                assert(self.grid()[pos as int] == cell_at(
                    self.grid(),
                    self.columns as int,
                    i as int,
                    row as int,
                ));
            }
            sum = match self.contents[pos] {
                PointStatus::Occupied(_) => sum + 1,
                PointStatus::Empty => sum,
            };
            i = i + 1;
        }
        if sum != self.columns {
            return Some(false);
        }
        Some(true)
    }

    /// Return `Some(true)` if the column is completely occupied; columns
    /// outside the board yield no answer.
    pub fn is_complete_column(&self, column: usize) -> (r: Option<bool>)
        requires
            self.wf(),
        ensures
            r is Some <==> column < self.columns,
            column < self.columns ==> r == Some(
                col_full(self.grid(), self.rows as int, self.columns as int, column as int),
            ),
    {
        if self.columns <= column {
            return None;
        }
        let n = self.contents.len();
        let mut sum: usize = 0;
        let mut i: usize = 0;
        while i < self.rows
            invariant
                self.wf(),
                n == self.grid().len(),
                column < self.columns,
                i <= self.rows,
                sum <= i,
                sum == i <==> (forall|y: int|
                    0 <= y < i ==> (#[trigger] cell_at(
                        self.grid(),
                        self.columns as int,
                        column as int,
                        y,
                    )) is Occupied),
            decreases self.rows - i,
        {
            proof {
                assert((i as int) * (self.columns as int) + (column as int) < (self.rows as int) * (
                self.columns as int)) by (nonlinear_arith)
                    requires
                        0 <= (column as int) && (column as int) < (self.columns as int),
                        0 <= (i as int) && (i as int) < (self.rows as int),
                ;
            }
            let pos = column + self.columns * i;
            proof {
                assert(self.grid()[pos as int] == cell_at(
                    self.grid(),
                    self.columns as int,
                    column as int,
                    i as int,
                ));
            }
            sum = match self.contents[pos] {
                PointStatus::Occupied(_) => sum + 1,
                PointStatus::Empty => sum,
            };
            i = i + 1;
        }
        if sum != self.rows {
            return Some(false);
        }
        Some(true)
    }

    /// Return the indexes of all completed rows, in increasing order.
    pub fn check_rows(&self) -> (r: Vec<usize>)
        requires
            self.wf(),
        ensures
            forall|k: int|
                0 <= k < r@.len() ==> (#[trigger] r@[k]) < self.rows && row_full(
                    self.grid(),
                    self.columns as int,
                    r@[k] as int,
                ),
            forall|y: usize|
                y < self.rows && row_full(self.grid(), self.columns as int, y as int)
                    ==> r@.contains(y),
            forall|k: int, l: int| 0 <= k < l < r@.len() ==> r@[k] < r@[l],
    {
        let mut completed: Vec<usize> = Vec::new();
        let mut row: usize = 0;
        while row < self.rows
            invariant
                self.wf(),
                row <= self.rows,
                forall|k: int|
                    0 <= k < completed@.len() ==> (#[trigger] completed@[k]) < row && row_full(
                        self.grid(),
                        self.columns as int,
                        completed@[k] as int,
                    ),
                forall|y: usize|
                    y < row && row_full(self.grid(), self.columns as int, y as int)
                        ==> completed@.contains(y),
                forall|k: int, l: int| 0 <= k < l < completed@.len() ==> completed@[k] < completed@[l],
            decreases self.rows - row,
        {
            let ghost before = completed@;
            if let Some(true) = self.is_complete_row(row) {
                completed.push(row);
            }
            proof {
                assert forall|y: usize|
                    y < row + 1 && row_full(self.grid(), self.columns as int, y as int)
                        implies completed@.contains(y) by {
                    if y < row {
                        assert(before.contains(y));
                        let k = choose|k: int| 0 <= k < before.len() && before[k] == y;
                        assert(completed@[k] == y);
                    } else {
                        assert(completed@[completed@.len() - 1] == y);
                    }
                }
            }
            row = row + 1;
        }
        completed
    }

    /// Return the indexes of all completed columns, in increasing order.
    pub fn check_columns(&self) -> (r: Vec<usize>)
        requires
            self.wf(),
        ensures
            forall|k: int|
                0 <= k < r@.len() ==> (#[trigger] r@[k]) < self.columns && col_full(
                    self.grid(),
                    self.rows as int,
                    self.columns as int,
                    r@[k] as int,
                ),
            forall|x: usize|
                x < self.columns && col_full(
                    self.grid(),
                    self.rows as int,
                    self.columns as int,
                    x as int,
                ) ==> r@.contains(x),
            forall|k: int, l: int| 0 <= k < l < r@.len() ==> r@[k] < r@[l],
    {
        let mut completed: Vec<usize> = Vec::new();
        let mut column: usize = 0;
        while column < self.columns
            invariant
                self.wf(),
                column <= self.columns,
                forall|k: int|
                    0 <= k < completed@.len() ==> (#[trigger] completed@[k]) < column && col_full(
                        self.grid(),
                        self.rows as int,
                        self.columns as int,
                        completed@[k] as int,
                    ),
                forall|x: usize|
                    x < column && col_full(
                        self.grid(),
                        self.rows as int,
                        self.columns as int,
                        x as int,
                    ) ==> completed@.contains(x),
                forall|k: int, l: int| 0 <= k < l < completed@.len() ==> completed@[k] < completed@[l],
            decreases self.columns - column,
        {
            let ghost before = completed@;
            if let Some(true) = self.is_complete_column(column) {
                completed.push(column);
            }
            proof {
                assert forall|x: usize|
                    x < column + 1 && col_full(
                        self.grid(),
                        self.rows as int,
                        self.columns as int,
                        x as int,
                    ) implies completed@.contains(x) by {
                    if x < column {
                        assert(before.contains(x));
                        let k = choose|k: int| 0 <= k < before.len() && before[k] == x;
                        assert(completed@[k] == x);
                    } else {
                        assert(completed@[completed@.len() - 1] == x);
                    }
                }
            }
            column = column + 1;
        }
        completed
    }
}

} // verus!
