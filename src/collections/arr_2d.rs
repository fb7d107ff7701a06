//! A two-dimensional array stored row by row.
use vstd::prelude::*;
use crate::io::{read_many_u, Scanner};
use vstd::std_specs::iter::IteratorSpec;

verus! {

/// A `rows` by `cols` array; the cell at `(row, col)` is `data[row * cols + col]`.
#[derive(Debug, PartialEq, Eq)]
pub struct Arr<T> {
    data: Vec<T>,
    rows: usize,
    cols: usize,
}

/// Which neighbours of a cell to list.
#[derive(Debug, Clone, Copy, PartialEq, Eq, Structural)]
pub enum AdjacentCells {
    /// Above, left, below, right.
    Adjacent,
    /// The four diagonal neighbours.
    Diagonal,
    Both,
}

/// A reference to a cell's value, with its row and column.
#[derive(Debug, PartialEq, Eq)]
pub struct Cell<'a, T>(pub &'a T, pub usize, pub usize);

impl<'a, T> Cell<'a, T> {
    pub fn new(value: &'a T, row: usize, col: usize) -> (r: Cell<'a, T>)
        ensures
            *r.0 == *value,
            r.1 == row,
            r.2 == col,
    {
        Cell(value, row, col)
    }

    /// The cell of `arr` at `coords`.
    pub fn from_arr(arr: &'a Arr<T>, coords: (usize, usize)) -> (r: Cell<'a, T>)
        requires
            arr.wf(),
            coords.0 < arr.rows_spec(),
            coords.1 < arr.cols_spec(),
        ensures
            *r.0 == arr.at(coords.0 as int, coords.1 as int),
            r.1 == coords.0,
            r.2 == coords.1,
    {
        Cell(arr.get(coords.0, coords.1), coords.0, coords.1)
    }

    pub fn value(&self) -> (r: &T)
        ensures
            *r == *self.0,
    {
        self.0
    }

    pub fn row(&self) -> (r: usize)
        ensures
            r == self.1,
    {
        self.1
    }

    pub fn col(&self) -> (r: usize)
        ensures
            r == self.2,
    {
        self.2
    }
}

impl<T> Arr<T> {
    /// The data holds `rows * cols` cells.
    pub closed spec fn wf(&self) -> bool {
        &&& self.data@.len() == self.rows * self.cols
        &&& self.rows * self.cols <= usize::MAX
        &&& self.rows + self.cols <= usize::MAX
    }

    pub closed spec fn rows_spec(&self) -> nat {
        self.rows as nat
    }

    pub closed spec fn cols_spec(&self) -> nat {
        self.cols as nat
    }

    /// The cells, row by row.
    pub closed spec fn data_spec(&self) -> Seq<T> {
        self.data@
    }

    /// The cell at `(i, j)`.
    pub open spec fn at(&self, i: int, j: int) -> T {
        self.data_spec()[i * self.cols_spec() + j]
    }

    /// The cell `(i, j)` of a `rows` by `cols` array lies inside the data.
    pub proof fn lemma_index(rows: nat, cols: nat, i: int, j: int)
        requires
            0 <= i < rows,
            0 <= j < cols,
        ensures
            0 <= i * cols + j < rows * cols,
    {
        assert(0 <= i * cols + j < rows * cols) by (nonlinear_arith)
            requires 0 <= i < rows, 0 <= j < cols;
    }

    /// An array holding `data`, row by row.
    pub fn from_vec(data: Vec<T>, rows: usize, cols: usize) -> (r: Arr<T>)
        requires
            data@.len() == rows * cols,
            rows + cols <= usize::MAX,
        ensures
            r.wf(),
            r.data_spec() == data@,
            r.rows_spec() == rows,
            r.cols_spec() == cols,
    {
        let _n = data.len();
        Arr { data, rows, cols }
    }

    /// An array whose cell `(i, j)` is `generator(i, j)`, filled row by row.
    pub fn with_generator<F: Fn(usize, usize) -> T>(rows: usize, cols: usize, generator: F) -> (r: Arr<T>)
        requires
            rows * cols <= usize::MAX,
            rows + cols <= usize::MAX,
            forall|i: usize, j: usize| i < rows && j < cols ==> #[trigger] generator.requires((i, j)),
        ensures
            r.wf(),
            r.rows_spec() == rows,
            r.cols_spec() == cols,
            forall|i: int, j: int|
                0 <= i < rows && 0 <= j < cols ==> generator.ensures((i as usize, j as usize), #[trigger] r.at(i, j)),
    {
        let mut data: Vec<T> = Vec::new();
        let mut i: usize = 0;
        while i < rows
            invariant
                i <= rows,
                rows * cols <= usize::MAX,
                data@.len() == i * cols,
                forall|a: usize, b: usize| a < rows && b < cols ==> #[trigger] generator.requires((a, b)),
                forall|a: int, b: int|
                    0 <= a < i && 0 <= b < cols ==> generator.ensures((a as usize, b as usize), #[trigger] data@[a * cols + b]),
            decreases rows - i,
        {
            let mut j: usize = 0;
            while j < cols
                invariant
                    i < rows,
                    j <= cols,
                    rows * cols <= usize::MAX,
                    data@.len() == i * cols + j,
                    forall|a: usize, b: usize| a < rows && b < cols ==> #[trigger] generator.requires((a, b)),
                    forall|a: int, b: int|
                        0 <= a < i && 0 <= b < cols ==> generator.ensures((a as usize, b as usize), #[trigger] data@[a * cols + b]),
                    forall|b: int|
                        0 <= b < j ==> generator.ensures((i, b as usize), #[trigger] data@[i * cols + b]),
                decreases cols - j,
            {
                proof {
                    assert(i * cols + j < rows * cols) by (nonlinear_arith)
                        requires i < rows, j < cols;
                }
                let v = generator(i, j);
                let ghost before = data@;
                data.push(v);
                proof {
                    assert forall|a: int, b: int|
                        0 <= a < i && 0 <= b < cols implies generator.ensures((a as usize, b as usize), #[trigger] data@[a * cols + b]) by {
                        assert(a * cols + b < i * cols) by (nonlinear_arith)
                            requires 0 <= a < i, 0 <= b < cols;
                        assert(0 <= a * cols + b) by (nonlinear_arith)
                            requires 0 <= a, 0 <= b, cols >= 0;
                        assert(data@[a * cols + b] == before[a * cols + b]);
                    }
                    assert forall|b: int| 0 <= b < j + 1 implies generator.ensures((i, b as usize), #[trigger] data@[i * cols + b]) by {
                        if b < j {
                            assert(data@[i * cols + b] == before[i * cols + b]);
                        }
                    }
                }
                j += 1;
            }
            proof {
                assert(i * cols + cols == (i + 1) * cols) by (nonlinear_arith);
            }
            i += 1;
        }
        proof {
            assert(data@.len() == rows * cols);
        }
        Arr { data, rows, cols }
    }

    /// The cell at `(row, col)`.
    pub fn get(&self, row: usize, col: usize) -> (r: &T)
        requires
            self.wf(),
            row < self.rows_spec(),
            col < self.cols_spec(),
        ensures
            *r == self.at(row as int, col as int),
    {
        proof {
            Self::lemma_index(self.rows as nat, self.cols as nat, row as int, col as int);
        }
        &self.data[row * self.cols + col]
    }

    /// Sets the cell at `(row, col)`.
    pub fn set(&mut self, row: usize, col: usize, value: T)
        requires
            old(self).wf(),
            row < old(self).rows_spec(),
            col < old(self).cols_spec(),
        ensures
            final(self).wf(),
            final(self).rows_spec() == old(self).rows_spec(),
            final(self).cols_spec() == old(self).cols_spec(),
            final(self).data_spec() == old(self).data_spec().update(
                row * old(self).cols_spec() + col,
                value,
            ),
    {
        proof {
            Self::lemma_index(self.rows as nat, self.cols as nat, row as int, col as int);
        }
        let idx = row * self.cols + col;
        self.data.set(idx, value);
    }

    /// The cells, row by row.
    pub fn as_ref(&self) -> (r: &Vec<T>)
        ensures
            r@ == self.data_spec(),
    {
        &self.data
    }

    /// An iterator over the cells, row by row.
    pub fn iter(&self) -> (r: std::slice::Iter<'_, T>)
        ensures
            r.remaining() == self.data_spec().as_ref(),
    {
        let sl = self.data.as_slice();
        proof {
            vstd::std_specs::slice::axiom_spec_slice_iter(sl);
        }
        sl.iter()
    }

    /// The cells of row `idx`, left to right.
    pub fn row(&self, idx: usize) -> (r: Vec<&T>)
        requires
            self.wf(),
            idx < self.rows_spec(),
        ensures
            r@.len() == self.cols_spec(),
            forall|j: int| 0 <= j < r@.len() ==> *r@[j] == self.at(idx as int, j),
    {
        let mut r: Vec<&T> = Vec::new();
        let mut j: usize = 0;
        while j < self.cols
            invariant
                self.wf(),
                idx < self.rows_spec(),
                j <= self.cols,
                r@.len() == j,
                forall|k: int| 0 <= k < j ==> *r@[k] == self.at(idx as int, k),
            decreases self.cols - j,
        {
            r.push(self.get(idx, j));
            j += 1;
        }
        r
    }

    /// The cells of column `idx`, top to bottom.
    pub fn col(&self, idx: usize) -> (r: Vec<&T>)
        requires
            self.wf(),
            idx < self.cols_spec(),
        ensures
            r@.len() == self.rows_spec(),
            forall|i: int| 0 <= i < r@.len() ==> *r@[i] == self.at(i, idx as int),
    {
        let mut r: Vec<&T> = Vec::new();
        let mut i: usize = 0;
        while i < self.rows
            invariant
                self.wf(),
                idx < self.cols_spec(),
                i <= self.rows,
                r@.len() == i,
                forall|k: int| 0 <= k < i ==> *r@[k] == self.at(k, idx as int),
            decreases self.rows - i,
        {
            r.push(self.get(i, idx));
            i += 1;
        }
        r
    }

    /// The first row and column of diagonal `i` of a `rows` by `cols` array, and its length.
    pub open spec fn diag_start(rows: nat, cols: nat, i: nat) -> (nat, nat, nat) {
        if i < cols {
            (0, i, if i + 1 < rows { i + 1 } else { rows })
        } else {
            (
                (i - cols + 1) as nat,
                (cols - 1) as nat,
                if cols + rows - i - 1 < cols { (cols + rows - i - 1) as nat } else { cols },
            )
        }
    }

    /// The diagonals running down and to the left, starting from the top-left cell: the
    /// diagonal `i` holds the cells whose row and column add up to `i`, top row first.
    pub fn diags_sw(&self) -> (r: Vec<Vec<&T>>)
        requires
            self.wf(),
            self.rows_spec() >= 1,
            self.cols_spec() >= 1,
        ensures
            r@.len() == self.rows_spec() + self.cols_spec() - 1,
            forall|i: int|
                0 <= i < r@.len() ==> {
                    let (sr, sc, len) = Self::diag_start(self.rows_spec(), self.cols_spec(), i as nat);
                    &&& (#[trigger] r@[i])@.len() == len
                    &&& forall|j: int| 0 <= j < len ==> *r@[i]@[j] == self.at(sr + j, sc - j)
                },
    {
        let rows = self.rows;
        let cols = self.cols;
        let mut r: Vec<Vec<&T>> = Vec::new();
        let mut i: usize = 0;
        while i < rows + cols - 1
            invariant
                self.wf(),
                rows == self.rows_spec(),
                cols == self.cols_spec(),
                rows >= 1,
                cols >= 1,
                i <= rows + cols - 1,
                r@.len() == i,
                forall|k: int|
                    0 <= k < i ==> {
                        let (sr, sc, len) = Self::diag_start(rows as nat, cols as nat, k as nat);
                        &&& (#[trigger] r@[k])@.len() == len
                        &&& forall|j: int| 0 <= j < len ==> *r@[k]@[j] == self.at(sr + j, sc - j)
                    },
            decreases rows + cols - 1 - i,
        {
            let start_row = if i < cols { 0 } else { i - cols + 1 };
            let start_col = if i < cols { i } else { cols - 1 };
            let len = if i < cols {
                if i + 1 < rows { i + 1 } else { rows }
            } else {
                if cols + rows - i - 1 < cols { cols + rows - i - 1 } else { cols }
            };
            let mut d: Vec<&T> = Vec::new();
            let mut j: usize = 0;
            while j < len
                invariant
                    self.wf(),
                    rows == self.rows_spec(),
                    cols == self.cols_spec(),
                    i < rows + cols - 1,
                    (start_row as nat, start_col as nat, len as nat) == Self::diag_start(
                        rows as nat,
                        cols as nat,
                        i as nat,
                    ),
                    j <= len,
                    d@.len() == j,
                    forall|k: int| 0 <= k < j ==> *d@[k] == self.at(start_row + k, start_col - k),
                decreases len - j,
            {
                d.push(self.get(start_row + j, start_col - j));
                j += 1;
            }
            r.push(d);
            i += 1;
        }
        r
    }

    /// The diagonals running down and to the right, starting from the top-right cell: the
    /// diagonal `i` starts in the top row at column `cols - 1 - i`, or in the left column at
    /// row `i - cols + 1`.
    pub fn diags_se(&self) -> (r: Vec<Vec<&T>>)
        requires
            self.wf(),
            self.rows_spec() >= 1,
            self.cols_spec() >= 1,
        ensures
            r@.len() == self.rows_spec() + self.cols_spec() - 1,
            forall|i: int|
                0 <= i < r@.len() ==> {
                    let (sr, sc, len) = Self::diag_start(self.rows_spec(), self.cols_spec(), i as nat);
                    &&& (#[trigger] r@[i])@.len() == len
                    &&& forall|j: int|
                        0 <= j < len ==> *r@[i]@[j] == self.at(sr + j, self.cols_spec() - 1 - sc + j)
                },
    {
        let rows = self.rows;
        let cols = self.cols;
        let mut r: Vec<Vec<&T>> = Vec::new();
        let mut i: usize = 0;
        while i < rows + cols - 1
            invariant
                self.wf(),
                rows == self.rows_spec(),
                cols == self.cols_spec(),
                rows >= 1,
                cols >= 1,
                i <= rows + cols - 1,
                r@.len() == i,
                forall|k: int|
                    0 <= k < i ==> {
                        let (sr, sc, len) = Self::diag_start(rows as nat, cols as nat, k as nat);
                        &&& (#[trigger] r@[k])@.len() == len
                        &&& forall|j: int|
                            0 <= j < len ==> *r@[k]@[j] == self.at(sr + j, cols - 1 - sc + j)
                    },
            decreases rows + cols - 1 - i,
        {
            let start_row = if i < cols { 0 } else { i - cols + 1 };
            let start_col = if i < cols { cols - i - 1 } else { 0 };
            let len = if i < cols {
                if i + 1 < rows { i + 1 } else { rows }
            } else {
                if cols + rows - i - 1 < cols { cols + rows - i - 1 } else { cols }
            };
            let mut d: Vec<&T> = Vec::new();
            let mut j: usize = 0;
            while j < len
                invariant
                    self.wf(),
                    rows == self.rows_spec(),
                    cols == self.cols_spec(),
                    i < rows + cols - 1,
                    start_row as nat == Self::diag_start(rows as nat, cols as nat, i as nat).0,
                    start_col as nat == cols - 1 - Self::diag_start(rows as nat, cols as nat, i as nat).1,
                    len as nat == Self::diag_start(rows as nat, cols as nat, i as nat).2,
                    j <= len,
                    d@.len() == j,
                    forall|k: int| 0 <= k < j ==> *d@[k] == self.at(start_row + k, start_col + k),
                decreases len - j,
            {
                d.push(self.get(start_row + j, start_col + j));
                j += 1;
            }
            r.push(d);
            i += 1;
        }
        r
    }

    /// The indices of the two diagonals through `(row, col)`: in `diags_sw` and in `diags_se`.
    pub fn cell_diags(&self, row: usize, col: usize) -> (r: (usize, usize))
        requires
            self.wf(),
            row < self.rows_spec(),
            col < self.cols_spec(),
        ensures
            r.0 == row + col,
            r.1 == self.cols_spec() - (col + 1) + row,
    {
        (row + col, self.cols - (col + 1) + row)
    }

    /// The cell at `(row, col)`.
    pub fn cell(&self, row: usize, col: usize) -> (r: Cell<'_, T>)
        requires
            self.wf(),
            row < self.rows_spec(),
            col < self.cols_spec(),
        ensures
            *r.0 == self.at(row as int, col as int),
            r.1 == row,
            r.2 == col,
    {
        Cell::from_arr(self, (row, col))
    }

    /// The coordinates of the neighbours of `(row, col)` of the given kind, in this order:
    /// above, left, below, right; then above-left, above-right, below-left, below-right.
    pub open spec fn adj_coords(rows: int, cols: int, row: int, col: int, kind: AdjacentCells) -> Seq<(int, int)> {
        let straight = if kind is Diagonal {
            Seq::empty()
        } else {
            (if row > 0 { seq![(row - 1, col)] } else { Seq::empty() })
                + (if col > 0 { seq![(row, col - 1)] } else { Seq::empty() })
                + (if row + 1 < rows { seq![(row + 1, col)] } else { Seq::empty() })
                + (if col + 1 < cols { seq![(row, col + 1)] } else { Seq::empty() })
        };
        let diagonal = if kind is Adjacent {
            Seq::empty()
        } else {
            (if row > 0 && col > 0 { seq![(row - 1, col - 1)] } else { Seq::empty() })
                + (if row > 0 && col + 1 < cols { seq![(row - 1, col + 1)] } else { Seq::empty() })
                + (if row + 1 < rows && col > 0 { seq![(row + 1, col - 1)] } else { Seq::empty() })
                + (if row + 1 < rows && col + 1 < cols { seq![(row + 1, col + 1)] } else { Seq::empty() })
        };
        straight + diagonal
    }

    fn push_cell<'a>(&'a self, cells: &mut Vec<Cell<'a, T>>, row: usize, col: usize)
        requires
            self.wf(),
            row < self.rows_spec(),
            col < self.cols_spec(),
        ensures
            final(cells)@.len() == old(cells)@.len() + 1,
            final(cells)@.subrange(0, old(cells)@.len() as int) == old(cells)@,
            *final(cells)@.last().0 == self.at(row as int, col as int),
            final(cells)@.last().1 == row,
            final(cells)@.last().2 == col,
    {
        cells.push(self.cell(row, col));
        proof {
            assert(cells@.subrange(0, old(cells)@.len() as int) =~= old(cells)@);
        }
    }

    /// The neighbours of `(row, col)` of the given kind, in the order of `adj_coords`.
    pub fn adj_cells(&self, row: usize, col: usize, cell_type: AdjacentCells) -> (r: Vec<Cell<'_, T>>)
        requires
            self.wf(),
            row < self.rows_spec(),
            col < self.cols_spec(),
        ensures
            r@.len() == Self::adj_coords(
                self.rows_spec() as int,
                self.cols_spec() as int,
                row as int,
                col as int,
                cell_type,
            ).len(),
            forall|k: int|
                0 <= k < r@.len() ==> {
                    let c = Self::adj_coords(
                        self.rows_spec() as int,
                        self.cols_spec() as int,
                        row as int,
                        col as int,
                        cell_type,
                    )[k];
                    &&& (#[trigger] r@[k]).1 == c.0
                    &&& r@[k].2 == c.1
                    &&& *r@[k].0 == self.at(c.0, c.1)
                },
    {
        let ghost rows = self.rows_spec() as int;
        let ghost cols = self.cols_spec() as int;
        let ghost want = Self::adj_coords(rows, cols, row as int, col as int, cell_type);
        let mut cells: Vec<Cell<'_, T>> = Vec::new();
        let ghost mut got: Seq<(int, int)> = Seq::empty();
        if cell_type != AdjacentCells::Diagonal {
            if row > 0 {
                self.push_cell(&mut cells, row - 1, col);
                proof { got = got.push((row - 1, col as int)); }
            }
            if col > 0 {
                self.push_cell(&mut cells, row, col - 1);
                proof { got = got.push((row as int, col - 1)); }
            }
            if row + 1 < self.rows {
                self.push_cell(&mut cells, row + 1, col);
                proof { got = got.push((row + 1, col as int)); }
            }
            if col + 1 < self.cols {
                self.push_cell(&mut cells, row, col + 1);
                proof { got = got.push((row as int, col + 1)); }
            }
        }
        if cell_type != AdjacentCells::Adjacent {
            if row > 0 && col > 0 {
                self.push_cell(&mut cells, row - 1, col - 1);
                proof { got = got.push((row - 1, col - 1)); }
            }
            if row > 0 && col + 1 < self.cols {
                self.push_cell(&mut cells, row - 1, col + 1);
                proof { got = got.push((row - 1, col + 1)); }
            }
            if row + 1 < self.rows && col > 0 {
                self.push_cell(&mut cells, row + 1, col - 1);
                proof { got = got.push((row + 1, col - 1)); }
            }
            if row + 1 < self.rows && col + 1 < self.cols {
                self.push_cell(&mut cells, row + 1, col + 1);
                proof { got = got.push((row + 1, col + 1)); }
            }
        }
        proof {
            assert(got =~= want);
        }
        cells
    }

    pub fn rows(&self) -> (r: usize)
        ensures
            r == self.rows_spec(),
    {
        self.rows
    }

    pub fn cols(&self) -> (r: usize)
        ensures
            r == self.cols_spec(),
    {
        self.cols
    }
}

impl<T: Copy + Default> Arr<T> {
    /// A `rows` by `cols` array whose cells all hold `T::default()`.
    pub fn new(rows: usize, cols: usize) -> (r: Arr<T>)
        requires
            rows * cols <= usize::MAX,
            rows + cols <= usize::MAX,
        ensures
            r.wf(),
            r.rows_spec() == rows,
            r.cols_spec() == cols,
            forall|i: int, j: int| 0 <= i < rows && 0 <= j < cols ==> #[trigger] r.at(i, j) == r.at(0, 0),
    {
        let d = T::default();
        let n = rows * cols;
        let mut data: Vec<T> = Vec::new();
        let mut k: usize = 0;
        while k < n
            invariant
                k <= n,
                data@.len() == k,
                forall|x: int| 0 <= x < k ==> data@[x] == d,
            decreases n - k,
        {
            data.push(d);
            k += 1;
        }
        let r = Arr { data, rows, cols };
        proof {
            assert forall|i: int, j: int| 0 <= i < rows && 0 <= j < cols implies #[trigger] r.at(i, j) == r.at(0, 0) by {
                Self::lemma_index(rows as nat, cols as nat, i, j);
                Self::lemma_index(rows as nat, cols as nat, 0, 0);
            }
        }
        r
    }
}

impl<T: Copy> Arr<T> {
    /// Swaps the cells at `(row1, col1)` and `(row2, col2)`.
    pub fn swap(&mut self, row1: usize, col1: usize, row2: usize, col2: usize)
        requires
            old(self).wf(),
            row1 < old(self).rows_spec(),
            row2 < old(self).rows_spec(),
            col1 < old(self).cols_spec(),
            col2 < old(self).cols_spec(),
        ensures
            final(self).wf(),
            final(self).rows_spec() == old(self).rows_spec(),
            final(self).cols_spec() == old(self).cols_spec(),
            final(self).data_spec() == old(self).data_spec().update(
                row1 * old(self).cols_spec() + col1,
                old(self).at(row2 as int, col2 as int),
            ).update(row2 * old(self).cols_spec() + col2, old(self).at(row1 as int, col1 as int)),
    {
        proof {
            Self::lemma_index(self.rows as nat, self.cols as nat, row1 as int, col1 as int);
            Self::lemma_index(self.rows as nat, self.cols as nat, row2 as int, col2 as int);
        }
        let idx1 = row1 * self.cols + col1;
        let idx2 = row2 * self.cols + col2;
        let a = self.data[idx1];
        let b = self.data[idx2];
        self.data.set(idx1, b);
        self.data.set(idx2, a);
    }

    /// The array with rows and columns exchanged.
    pub fn transpose(&self) -> (r: Arr<T>)
        requires
            self.wf(),
        ensures
            r.wf(),
            r.rows_spec() == self.cols_spec(),
            r.cols_spec() == self.rows_spec(),
            forall|i: int, j: int|
                0 <= i < r.rows_spec() && 0 <= j < r.cols_spec() ==> #[trigger] r.at(i, j) == self.at(j, i),
    {
        let mut data: Vec<T> = Vec::new();
        let mut i: usize = 0;
        while i < self.cols
            invariant
                self.wf(),
                i <= self.cols,
                self.data@.len() == self.rows * self.cols,
                data@.len() == i * self.rows,
                forall|a: int, b: int|
                    0 <= a < i && 0 <= b < self.rows ==> #[trigger] data@[a * self.rows + b] == self.at(b, a),
            decreases self.cols - i,
        {
            let mut j: usize = 0;
            while j < self.rows
                invariant
                    self.wf(),
                    i < self.cols,
                    j <= self.rows,
                    self.data@.len() == self.rows * self.cols,
                    data@.len() == i * self.rows + j,
                    forall|a: int, b: int|
                        0 <= a < i && 0 <= b < self.rows ==> #[trigger] data@[a * self.rows + b] == self.at(b, a),
                    forall|b: int| 0 <= b < j ==> #[trigger] data@[i * self.rows + b] == self.at(b, i as int),
                decreases self.rows - j,
            {
                let ghost before = data@;
                data.push(*self.get(j, i));
                proof {
                    assert forall|a: int, b: int|
                        0 <= a < i && 0 <= b < self.rows implies #[trigger] data@[a * self.rows + b] == self.at(b, a) by {
                        assert(a * self.rows + b < i * self.rows) by (nonlinear_arith)
                            requires 0 <= a < i, 0 <= b < self.rows;
                        assert(0 <= a * self.rows + b) by (nonlinear_arith)
                            requires 0 <= a, 0 <= b, self.rows >= 0;
                    }
                }
                j += 1;
            }
            proof {
                assert(i * self.rows + self.rows == (i + 1) * self.rows) by (nonlinear_arith);
                assert forall|a: int, b: int|
                    0 <= a < i + 1 && 0 <= b < self.rows implies #[trigger] data@[a * self.rows + b] == self.at(b, a) by {
                    if a == i {
                    }
                }
            }
            i += 1;
        }
        proof {
            assert(data@.len() == self.cols * self.rows);
            assert(self.cols * self.rows == self.rows * self.cols) by (nonlinear_arith);
        }
        let r = Arr { data, rows: self.cols, cols: self.rows };
        r
    }
}

impl Arr<usize> {
    /// A `rows` by `cols` array of the next `rows * cols` numbers of the input, row by row;
    /// `None` if a token is not a number.
    pub fn from_scan(scan: &mut Scanner, rows: usize, cols: usize) -> (r: Option<Arr<usize>>)
        requires
            old(scan).wf(),
            rows * cols <= usize::MAX,
            rows + cols <= usize::MAX,
        ensures
            final(scan).wf(),
            final(scan).input() == old(scan).input(),
            ({
                let (v, p) = read_many_u(old(scan).input(), old(scan).position(), (rows * cols) as nat);
                &&& final(scan).position() == p
                &&& match v {
                    Some(s) => r matches Some(a) && a.wf() && a.rows_spec() == rows && a.cols_spec()
                        == cols && a.data_spec() == s,
                    None => r is None,
                }
            }),
    {
        let ghost buf = scan.input();
        let ghost p0 = scan.position();
        let n = rows * cols;
        let mut data: Vec<usize> = Vec::new();
        let mut ok = true;
        let mut k: usize = 0;
        while k < n
            invariant
                scan.wf(),
                scan.input() == buf,
                k <= n,
                ({
                    let (v, p) = read_many_u(buf, p0, k as nat);
                    &&& scan.position() == p
                    &&& ok == v is Some
                    &&& ok ==> data@ == v->Some_0
                }),
            decreases n - k,
        {
            match scan.u() {
                Some(x) => {
                    if ok {
                        data.push(x);
                    }
                },
                None => {
                    ok = false;
                },
            }
            k += 1;
        }
        if ok {
            proof {
                lemma_read_many_len(buf, p0, n as nat);
            }
            Some(Arr { data, rows, cols })
        } else {
            None
        }
    }
}

proof fn lemma_read_many_len(buf: Seq<u8>, pos: int, n: nat)
    ensures
        read_many_u(buf, pos, n).0 matches Some(s) ==> s.len() == n,
    decreases n,
{
    if n > 0 {
        lemma_read_many_len(buf, pos, (n - 1) as nat);
    }
}

} // verus!
