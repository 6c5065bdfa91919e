use vstd::prelude::*;

verus! {

/// The element in row `r`, column `c` of a row-major sequence whose rows are
/// `width` long.
pub open spec fn cell<T>(s: Seq<T>, width: int, r: int, c: int) -> T {
    s[r * width + c]
}

/// Laying out a `rows` by `width` grid row after row: each cell has an index of
/// its own, inside the sequence.
pub proof fn lemma_row_major(r: int, c: int, width: int, rows: int)
    requires
        0 <= r < rows,
        0 <= c < width,
    ensures
        0 <= r * width + c < rows * width,
        r * width + c < (r + 1) * width,
        (r + 1) * width == r * width + width,
{
    assert(0 <= r * width) by (nonlinear_arith)
        requires
            0 <= r,
            0 <= width,
    ;
    assert((r + 1) * width <= rows * width) by (nonlinear_arith)
        requires
            r + 1 <= rows,
            0 <= width,
    ;
    assert((r + 1) * width == r * width + width) by (nonlinear_arith);
}

/// Two distinct cells of a row-major grid lie at distinct indices.
pub proof fn lemma_row_major_distinct(r1: int, c1: int, r2: int, c2: int, width: int)
    requires
        0 <= r1,
        0 <= r2,
        0 <= c1 < width,
        0 <= c2 < width,
        r1 != r2 || c1 != c2,
    ensures
        r1 * width + c1 != r2 * width + c2,
{
    if r1 < r2 {
        assert((r1 + 1) * width <= r2 * width) by (nonlinear_arith)
            requires
                r1 + 1 <= r2,
                0 <= width,
        ;
        assert((r1 + 1) * width == r1 * width + width) by (nonlinear_arith);
    } else if r2 < r1 {
        assert((r2 + 1) * width <= r1 * width) by (nonlinear_arith)
            requires
                r2 + 1 <= r1,
                0 <= width,
        ;
        assert((r2 + 1) * width == r2 * width + width) by (nonlinear_arith);
    }
}

/// Why a list of elements cannot be made into a matrix.
#[derive(Debug, Clone, Copy, PartialEq, Eq, Structural)]
pub enum MatrixError {
    /// The number of elements is not that of a 2×2, 3×3 or 4×4 matrix.
    InvalidSize,
}

/// The side of the square matrix that `len` elements fill, among the sizes
/// that a matrix can be built with.
pub open spec fn side_for(len: nat) -> Option<nat> {
    if len == 4 {
        Some(2)
    } else if len == 9 {
        Some(3)
    } else if len == 16 {
        Some(4)
    } else {
        None
    }
}

/// The position in `0..n` that index `i` of a matrix with line `k` taken out
/// came from.
pub open spec fn skip(i: int, k: int) -> int {
    if i < k {
        i
    } else {
        i + 1
    }
}

/// A square matrix of side `size`, its elements stored row after row. The
/// arithmetic on elements is left to the element type; this type keeps the
/// shape and moves elements between positions.
#[derive(Clone, Debug, PartialEq)]
pub struct Matrix<T> {
    pub size: usize,
    pub data: Vec<T>,
}

impl<T: Copy> Matrix<T> {
    /// The side is between 1 and 4 and the elements fill the square exactly.
    /// (A 1×1 matrix arises only as a submatrix of a 2×2 one.)
    pub open spec fn wf(&self) -> bool {
        1 <= self.size <= 4 && self.data@.len() == self.size * self.size
    }

    pub open spec fn entry(&self, r: int, c: int) -> T {
        cell(self.data@, self.size as int, r, c)
    }

    /// Builds a matrix from its elements, row after row. Only the element
    /// counts of a 2×2, 3×3 or 4×4 matrix are accepted.
    pub fn new(data: Vec<T>) -> (r: Result<Matrix<T>, MatrixError>)
        ensures
            r.is_ok() <==> side_for(data@.len()).is_some(),
            r.is_err() ==> r == Err::<Matrix<T>, MatrixError>(MatrixError::InvalidSize),
            r matches Ok(m) ==> m.wf() && m.data@ == data@ && Some(m.size as nat) == side_for(
                data@.len(),
            ),
    {
        let len = data.len();
        let size: usize = if len == 4 {
            2
        } else if len == 9 {
            3
        } else if len == 16 {
            4
        } else {
            return Err(MatrixError::InvalidSize);
        };
        Ok(Matrix { size, data })
    }

    /// The element in row `row`, column `col`.
    pub fn at(&self, row: usize, col: usize) -> (r: T)
        requires
            self.wf(),
            row < self.size,
            col < self.size,
        ensures
            r == self.entry(row as int, col as int),
    {
        proof {
            lemma_row_major(row as int, col as int, self.size as int, self.size as int);
            assert(self.size * self.size <= 16) by (nonlinear_arith)
                requires
                    self.size <= 4,
            ;
        }
        self.data[row * self.size + col]
    }

    /// The matrix with rows and columns exchanged.
    pub fn transpose(&self) -> (r: Matrix<T>)
        requires
            self.wf(),
        ensures
            r.wf(),
            r.size == self.size,
            forall|i: int, j: int|
                0 <= i < self.size && 0 <= j < self.size ==> #[trigger] r.entry(i, j)
                    == self.entry(j, i),
    {
        let n = self.size;
        let mut data: Vec<T> = Vec::new();
        let mut i: usize = 0;
        while i < n
            invariant
                self.wf(),
                n == self.size,
                i <= n,
                data@.len() == i * n,
                forall|a: int, b: int|
                    0 <= a < i && 0 <= b < n ==> #[trigger] cell(data@, n as int, a, b)
                        == self.entry(b, a),
            decreases n - i,
        {
            let mut j: usize = 0;
            while j < n
                invariant
                    self.wf(),
                    n == self.size,
                    i < n,
                    j <= n,
                    data@.len() == i * n + j,
                    forall|a: int, b: int|
                        (0 <= a < i && 0 <= b < n) || (a == i && 0 <= b < j) ==> #[trigger] cell(
                            data@,
                            n as int,
                            a,
                            b,
                        ) == self.entry(b, a),
                decreases n - j,
            {
                proof {
                    lemma_row_major(i as int, j as int, n as int, n as int);
                }
                let x = self.at(j, i);
                let ghost before = data@;
                data.push(x);
                proof {
                    assert forall|a: int, b: int|
                        (0 <= a < i && 0 <= b < n) || (a == i && 0 <= b < j + 1) implies #[trigger] cell(
                        data@,
                        n as int,
                        a,
                        b,
                    ) == self.entry(b, a) by {
                        lemma_row_major(a, b, n as int, n as int);
                        if a == i && b == j {
                            assert(cell(data@, n as int, a, b) == x);
                        } else {
                            lemma_row_major_distinct(a, b, i as int, j as int, n as int);
                            if a < i {
                                assert(a * n + b < i * n) by (nonlinear_arith)
                                    requires
                                        a + 1 <= i,
                                        0 <= b < n,
                                ;
                            }
                            assert(cell(data@, n as int, a, b) == cell(before, n as int, a, b));
                        }
                    }
                }
                j += 1;
            }
            proof {
                lemma_row_major(i as int, 0, n as int, n as int);
            }
            i += 1;
        }
        Matrix { size: n, data }
    }

    /// The matrix with row `row` and column `col` taken out.
    pub fn submatrix(&self, row: usize, col: usize) -> (r: Matrix<T>)
        requires
            self.wf(),
            self.size >= 2,
            row < self.size,
            col < self.size,
        ensures
            r.wf(),
            r.size == self.size - 1,
            forall|i: int, j: int|
                0 <= i < r.size && 0 <= j < r.size ==> #[trigger] r.entry(i, j) == self.entry(
                    skip(i, row as int),
                    skip(j, col as int),
                ),
    {
        let n: usize = self.size - 1;
        let mut data: Vec<T> = Vec::new();
        let mut i: usize = 0;
        while i < n
            invariant
                self.wf(),
                n == self.size - 1,
                row < self.size,
                col < self.size,
                i <= n,
                data@.len() == i * n,
                forall|a: int, b: int|
                    0 <= a < i && 0 <= b < n ==> #[trigger] cell(data@, n as int, a, b)
                        == self.entry(skip(a, row as int), skip(b, col as int)),
            decreases n - i,
        {
            let mut j: usize = 0;
            while j < n
                invariant
                    self.wf(),
                    n == self.size - 1,
                    row < self.size,
                    col < self.size,
                    i < n,
                    j <= n,
                    data@.len() == i * n + j,
                    forall|a: int, b: int|
                        (0 <= a < i && 0 <= b < n) || (a == i && 0 <= b < j) ==> #[trigger] cell(
                            data@,
                            n as int,
                            a,
                            b,
                        ) == self.entry(skip(a, row as int), skip(b, col as int)),
                decreases n - j,
            {
                proof {
                    lemma_row_major(i as int, j as int, n as int, n as int);
                }
                let si: usize = if i < row {
                    i
                } else {
                    i + 1
                };
                let sj: usize = if j < col {
                    j
                } else {
                    j + 1
                };
                let x = self.at(si, sj);
                let ghost before = data@;
                data.push(x);
                proof {
                    assert forall|a: int, b: int|
                        (0 <= a < i && 0 <= b < n) || (a == i && 0 <= b < j + 1) implies #[trigger] cell(
                        data@,
                        n as int,
                        a,
                        b,
                    ) == self.entry(skip(a, row as int), skip(b, col as int)) by {
                        lemma_row_major(a, b, n as int, n as int);
                        if a == i && b == j {
                            assert(cell(data@, n as int, a, b) == x);
                        } else {
                            lemma_row_major_distinct(a, b, i as int, j as int, n as int);
                            if a < i {
                                assert(a * n + b < i * n) by (nonlinear_arith)
                                    requires
                                        a + 1 <= i,
                                        0 <= b < n,
                                ;
                            }
                            assert(cell(data@, n as int, a, b) == cell(before, n as int, a, b));
                        }
                    }
                }
                j += 1;
            }
            proof {
                lemma_row_major(i as int, 0, n as int, n as int);
            }
            i += 1;
        }
        Matrix { size: n, data }
    }
}

} // verus!
