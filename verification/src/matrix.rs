use vstd::prelude::*;

verus! {

/// A dense rectangular table of unsigned counts, described by a row count
/// and a column count, with a flat row-major backing vector of length
/// `rows * cols`.
pub struct Matrix {
    rows: usize,
    cols: usize,
    data: Vec<u64>,
}

impl View for Matrix {
    type V = Seq<Seq<u64>>;

    closed spec fn view(&self) -> Seq<Seq<u64>> {
        Seq::new(
            self.rows as nat,
            |i: int| Seq::new(self.cols as nat, |j: int| self.data@[i * (self.cols as int) + j]),
        )
    }
}

impl Matrix {
    pub closed spec fn spec_rows(&self) -> int {
        self.rows as int
    }

    pub closed spec fn spec_cols(&self) -> int {
        self.cols as int
    }

    /// The backing vector holds exactly one cell per (row, column) pair.
    pub closed spec fn wf(&self) -> bool {
        self.data@.len() == self.spec_rows() * self.spec_cols()
    }

    /// The view is a rectangle: one inner sequence per row, each of the
    /// column count's length.
    pub proof fn lemma_shape(&self)
        ensures
            self@.len() == self.spec_rows(),
            forall|i: int| 0 <= i < self@.len() ==> (#[trigger] self@[i]).len() == self.spec_cols(),
            0 <= self.spec_rows(),
            0 <= self.spec_cols(),
    {
    }

    pub fn rows(&self) -> (r: usize)
        ensures
            r == self.spec_rows(),
    {
        self.rows
    }

    pub fn cols(&self) -> (r: usize)
        ensures
            r == self.spec_cols(),
    {
        self.cols
    }

    pub fn get(&self, i: usize, j: usize) -> (r: u64)
        requires
            self.wf(),
            i < self.spec_rows(),
            j < self.spec_cols(),
        ensures
            r == self@[i as int][j as int],
    {
        // reading the length pins rows * cols within the machine's address range
        let len = self.data.len();
        proof {
            assert(i * self.cols + j < len) by {
                lemma_row_major_index(i as int, j as int, self.spec_rows(), self.spec_cols());
            }
        }
        self.data[i * self.cols + j]
    }

    pub fn set(&mut self, i: usize, j: usize, v: u64)
        requires
            old(self).wf(),
            i < old(self).spec_rows(),
            j < old(self).spec_cols(),
        ensures
            final(self).wf(),
            final(self).spec_rows() == old(self).spec_rows(),
            final(self).spec_cols() == old(self).spec_cols(),
            final(self)@ == old(self)@.update(i as int, old(self)@[i as int].update(j as int, v)),
    {
        // reading the length pins rows * cols within the machine's address range
        let len = self.data.len();
        proof {
            assert(i * self.cols + j < len) by {
                lemma_row_major_index(i as int, j as int, self.spec_rows(), self.spec_cols());
            }
        }
        let idx: usize = i * self.cols + j;
        self.data[idx] = v;
        proof {
            let updated = old(self)@.update(i as int, old(self)@[i as int].update(j as int, v));
            assert forall|a: int| 0 <= a < self.spec_rows() implies self@[a] =~= updated[a] by {
                assert forall|b: int| 0 <= b < self.spec_cols() implies self@[a][b] == updated[a][b]
                    by {
                    lemma_row_major_index(a, b, self.spec_rows(), self.spec_cols());
                    if a != i || b != j {
                        lemma_row_major_distinct(
                            a,
                            b,
                            i as int,
                            j as int,
                            self.spec_rows(),
                            self.spec_cols(),
                        );
                    }
                }
            }
            assert(self@ =~= updated);
        }
    }

    /// A matrix of the given shape with every cell zero.
    pub fn new_zeros(rows: usize, cols: usize) -> (m: Matrix)
        requires
            rows * cols <= usize::MAX,
        ensures
            m.wf(),
            m.spec_rows() == rows,
            m.spec_cols() == cols,
            forall|i: int, j: int|
                0 <= i < rows && 0 <= j < cols ==> #[trigger] m@[i][j] == 0u64,
    {
        proof {
            vstd::arithmetic::mul::lemma_mul_nonnegative(rows as int, cols as int);
        }
        let len: usize = rows * cols;
        let mut data: Vec<u64> = Vec::new();
        let mut k: usize = 0;
        while k < len
            invariant
                k <= len,
                data@.len() == k,
                forall|t: int| 0 <= t < k ==> data@[t] == 0u64,
            decreases len - k,
        {
            data.push(0u64);
            k = k + 1;
        }
        let m = Matrix { rows, cols, data };
        proof {
            assert forall|i: int, j: int|
                0 <= i < rows && 0 <= j < cols implies #[trigger] m@[i][j] == 0u64 by {
                lemma_row_major_index(i, j, rows as int, cols as int);
            }
        }
        m
    }

    /// Assembles a matrix from one vector per row, each of length `cols`.
    pub fn from_rows(source: Vec<Vec<u64>>, cols: usize) -> (m: Matrix)
        requires
            forall|i: int| 0 <= i < source@.len() ==> (#[trigger] source@[i])@.len() == cols,
        ensures
            m.wf(),
            m.spec_rows() == source@.len(),
            m.spec_cols() == cols,
            m@ == source.deep_view(),
    {
        let rows: usize = source.len();
        let mut data: Vec<u64> = Vec::new();
        let mut i: usize = 0;
        while i < rows
            invariant
                i <= rows,
                rows == source@.len(),
                forall|a: int| 0 <= a < rows ==> (#[trigger] source@[a])@.len() == cols,
                data@.len() == i * cols,
                forall|a: int, b: int|
                    0 <= a < i && 0 <= b < cols ==> #[trigger] data@[a * (cols as int) + b]
                        == source@[a]@[b],
            decreases rows - i,
        {
            let row = &source[i];
            let mut j: usize = 0;
            while j < cols
                invariant
                    j <= cols,
                    i < rows,
                    rows == source@.len(),
                    forall|a: int| 0 <= a < rows ==> (#[trigger] source@[a])@.len() == cols,
                    row@ == source@[i as int]@,
                    data@.len() == i * cols + j,
                    forall|a: int, b: int|
                        0 <= a < i && 0 <= b < cols ==> #[trigger] data@[a * (cols as int) + b]
                            == source@[a]@[b],
                    forall|b: int|
                        0 <= b < j ==> #[trigger] data@[i * (cols as int) + b] == source@[i as int]@[b],
                decreases cols - j,
            {
                proof {
                    lemma_row_major_index(i as int, j as int, rows as int, cols as int);
                }
                data.push(row[j]);
                proof {
                    assert forall|a: int, b: int|
                        0 <= a < i && 0 <= b < cols implies #[trigger] data@[a * (cols as int) + b]
                        == source@[a]@[b] by {
                        lemma_row_major_index(a, b, i as int, cols as int);
                    }
                }
                j = j + 1;
            }
            proof {
                vstd::arithmetic::mul::lemma_mul_is_distributive_add_other_way(
                    cols as int,
                    i as int,
                    1,
                );
                vstd::arithmetic::mul::lemma_mul_basics(cols as int);
            }
            i = i + 1;
        }
        let m = Matrix { rows, cols, data };
        proof {
            assert(m.wf());
            m.lemma_shape();
            assert(m@.len() == source.deep_view().len());
            assert forall|a: int| 0 <= a < rows implies m@[a] =~= source.deep_view()[a] by {
                assert forall|b: int| 0 <= b < cols implies m@[a][b] == source@[a]@[b] by {
                    lemma_row_major_index(a, b, rows as int, cols as int);
                }
            }
            assert(m@ =~= source.deep_view());
        }
        m
    }
}

/// In a row-major rectangle, the flat position of cell `(i, j)` lies inside
/// the backing storage, and strictly inside the first `i + 1` rows.
pub proof fn lemma_row_major_index(i: int, j: int, rows: int, cols: int)
    requires
        0 <= i < rows,
        0 <= j < cols,
    ensures
        0 <= i * cols + j < rows * cols,
        i * cols + j < (i + 1) * cols,
        i * cols + j <= (rows - 1) * cols + j,
{
    assert(0 <= i * cols + j < rows * cols && i * cols + j < (i + 1) * cols && i * cols + j <= (rows
        - 1) * cols + j) by (nonlinear_arith)
        requires
            0 <= i < rows,
            0 <= j < cols,
    {}
}

/// Distinct cells of a row-major rectangle have distinct flat positions.
pub proof fn lemma_row_major_distinct(a: int, b: int, i: int, j: int, rows: int, cols: int)
    requires
        0 <= a < rows,
        0 <= b < cols,
        0 <= i < rows,
        0 <= j < cols,
        a != i || b != j,
    ensures
        a * cols + b != i * cols + j,
{
    assert(a * cols + b != i * cols + j) by (nonlinear_arith)
        requires
            0 <= a < rows,
            0 <= b < cols,
            0 <= i < rows,
            0 <= j < cols,
            a != i || b != j,
    {}
}

} // verus!
