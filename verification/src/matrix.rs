//! A dense, bounds-checked two-dimensional container stored row by row.

use vstd::prelude::*;

verus! {

/// A `rows` by `cols` grid over a single vector, row-major.
#[derive(Debug)]
pub struct Matrix<T> {
    rows: usize,
    cols: usize,
    arr: Vec<T>,
}

impl<T> View for Matrix<T> {
    type V = Seq<Seq<T>>;

    /// The grid as a sequence of rows, each a sequence of `cols()` cells.
    open spec fn view(&self) -> Seq<Seq<T>> {
        Seq::new(self.rows(), |i: int| Seq::new(self.cols(), |j: int| self.cell(i, j)))
    }
}

impl<T> Matrix<T> {
    /// Number of rows.
    pub closed spec fn rows(&self) -> nat {
        self.rows as nat
    }

    /// Number of columns.
    pub closed spec fn cols(&self) -> nat {
        self.cols as nat
    }

    /// The value stored at row `i`, column `j`.
    pub closed spec fn cell(&self, i: int, j: int) -> T {
        self.arr@[i * self.cols + j]
    }

    /// The backing store holds exactly one element per cell.
    pub closed spec fn wf(&self) -> bool {
        &&& self.rows * self.cols <= usize::MAX
        &&& self.arr@.len() == self.rows * self.cols
    }

    /// A well-formed grid has no more cells than a machine integer can count.
    pub proof fn lemma_fits(&self)
        requires
            self.wf(),
        ensures
            self.rows() * self.cols() <= usize::MAX,
            self.rows() <= usize::MAX,
            self.cols() <= usize::MAX,
    {
    }

    /// Whether row `i`, column `j` names a cell of the grid.
    pub open spec fn has(&self, i: int, j: int) -> bool {
        0 <= i < self.rows() && 0 <= j < self.cols()
    }
}

/// A cell inside a `rows` by `cols` grid has a row-major index below `rows * cols`.
pub proof fn lemma_index_in_range(rows: int, cols: int, i: int, j: int)
    requires
        0 <= i < rows,
        0 <= j < cols,
    ensures
        0 <= i * cols <= i * cols + j < rows * cols,
{
    assert(i * cols >= 0) by (nonlinear_arith)
        requires
            i >= 0,
            cols >= 0,
    ;
    assert((i + 1) * cols <= rows * cols) by (nonlinear_arith)
        requires
            i + 1 <= rows,
            cols >= 0,
    ;
    assert((i + 1) * cols == i * cols + cols) by (nonlinear_arith);
}

/// Two cells of a grid with the same row-major index are the same cell.
pub proof fn lemma_index_injective(cols: int, i: int, j: int, k: int, l: int)
    requires
        0 <= j < cols,
        0 <= l < cols,
        i * cols + j == k * cols + l,
    ensures
        i == k,
        j == l,
{
    if i < k {
        assert((i + 1) * cols <= k * cols) by (nonlinear_arith)
            requires
                i + 1 <= k,
                cols >= 0,
        ;
        assert((i + 1) * cols == i * cols + cols) by (nonlinear_arith);
    } else if k < i {
        assert((k + 1) * cols <= i * cols) by (nonlinear_arith)
            requires
                k + 1 <= i,
                cols >= 0,
        ;
        assert((k + 1) * cols == k * cols + cols) by (nonlinear_arith);
    }
}

impl<T: Copy> Matrix<T> {
    /// The number of rows.
    pub fn row_count(&self) -> (n: usize)
        ensures
            n == self.rows(),
    {
        self.rows
    }

    /// The number of columns.
    pub fn col_count(&self) -> (n: usize)
        ensures
            n == self.cols(),
    {
        self.cols
    }

    /// Builds a `rows` by `cols` grid with `init_val` in every cell.
    pub fn new(rows: usize, cols: usize, init_val: T) -> (m: Self)
        requires
            rows * cols <= usize::MAX,
        ensures
            m.wf(),
            m.rows() == rows,
            m.cols() == cols,
            forall|i: int, j: int| m.has(i, j) ==> #[trigger] m@[i][j] == init_val,
    {
        let total: usize = rows * cols;
        let mut arr: Vec<T> = Vec::with_capacity(total);
        let mut k: usize = 0;
        while k < total
            invariant
                k <= total,
                arr@.len() == k,
                forall|x: int| 0 <= x < k ==> arr@[x] == init_val,
            decreases total - k,
        {
            arr.push(init_val);
            k += 1;
        }
        let m = Self { rows, cols, arr };
        proof {
            assert forall|i: int, j: int| m.has(i, j) implies #[trigger] m@[i][j] == init_val by {
                lemma_index_in_range(rows as int, cols as int, i, j);
            }
        }
        m
    }

    /// Check if row `i`, column `j` exists in the grid.
    pub fn in_bounds(&self, i: usize, j: usize) -> (b: bool)
        ensures
            b == self.has(i as int, j as int),
    {
        if i >= self.rows || j >= self.cols {
            false
        } else {
            true
        }
    }

    /// Sets the cell at row `i`, column `j` to `val` and reports whether the
    /// cell exists; a position outside the grid changes nothing.
    pub fn update(&mut self, i: usize, j: usize, val: T) -> (found: bool)
        requires
            old(self).wf(),
        ensures
            final(self).wf(),
            final(self).rows() == old(self).rows(),
            final(self).cols() == old(self).cols(),
            found == old(self).has(i as int, j as int),
            found ==> final(self)@ == old(self)@.update(
                i as int,
                old(self)@[i as int].update(j as int, val),
            ),
            !found ==> final(self)@ == old(self)@,
    {
        if self.in_bounds(i, j) {
            proof {
                lemma_index_in_range(self.rows as int, self.cols as int, i as int, j as int);
            }
            let idx: usize = i * self.cols + j;
            self.arr.set(idx, val);
            proof {
                let goal = old(self)@.update(i as int, old(self)@[i as int].update(j as int, val));
                assert(goal.len() == self.rows());
                assert forall|r: int, c: int| self.has(r, c) implies self.cell(r, c) == goal[r][c] by {
                    lemma_index_in_range(self.rows as int, self.cols as int, r, c);
                    if r != i || c != j {
                        if r * self.cols + c == i * self.cols + j {
                            lemma_index_injective(self.cols as int, r, c, i as int, j as int);
                        }
                    }
                }
                assert(self@ =~~= goal);
            }
            true
        } else {
            proof {
                assert(self@ =~~= old(self)@);
            }
            false
        }
    }

    /// Returns the value of the cell at row `i`, column `j` if it exists.
    pub fn at(&self, i: usize, j: usize) -> (r: Option<T>)
        requires
            self.wf(),
        ensures
            r == if self.has(i as int, j as int) {
                Some(self@[i as int][j as int])
            } else {
                None
            },
    {
        if !self.in_bounds(i, j) {
            return None;
        }
        proof {
            lemma_index_in_range(self.rows as int, self.cols as int, i as int, j as int);
        }
        Some(self.arr[i * self.cols + j])
    }
}

} // verus!
