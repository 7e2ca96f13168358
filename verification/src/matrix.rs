//! A dense two-dimensional matrix of machine integers with aligned rows.

use vstd::prelude::*;

use crate::unipoly::int_view;

verus! {

/// The matrix seen as a sequence of rows of mathematical integers.
pub open spec fn rows_view(rows: Seq<Vec<i64>>) -> Seq<Seq<int>> {
    rows.map_values(|r: Vec<i64>| int_view(r@))
}

/// Every row has the same length.
pub open spec fn aligned(rows: Seq<Seq<int>>) -> bool {
    forall|i: int| 0 <= i < rows.len() ==> (#[trigger] rows[i]).len() == rows[0].len()
}


/// The pointwise sum of two same-shaped matrices.
pub open spec fn madd(a: Seq<Seq<int>>, b: Seq<Seq<int>>) -> Seq<Seq<int>> {
    Seq::new(a.len(), |i: int| Seq::new(a[i].len(), |j: int| a[i][j] + b[i][j]))
}

/// Whether all pointwise sums of two same-shaped matrices are
/// representable.
pub open spec fn madd_fits(a: Seq<Seq<int>>, b: Seq<Seq<int>>) -> bool {
    forall|i: int, j: int|
        0 <= i < a.len() && 0 <= j < a[i].len() ==> i64::MIN <= #[trigger] (a[i][j] + b[i][j])
            <= i64::MAX
}

/// The first `n` terms of the inner product giving entry `(i, j)` of a
/// matrix product.
pub open spec fn mentry(a: Seq<Seq<int>>, b: Seq<Seq<int>>, i: int, j: int, n: int) -> int
    decreases n,
{
    if n <= 0 {
        0
    } else {
        mentry(a, b, i, j, n - 1) + a[i][n - 1] * b[n - 1][j]
    }
}

/// The number of columns of a matrix given by rows.
pub open spec fn mcols(a: Seq<Seq<int>>) -> int {
    if a.len() == 0 {
        0
    } else {
        a[0].len() as int
    }
}

/// The matrix product: entry `(i, j)` is the inner product of row `i` of
/// `a` with column `j` of `b`.
pub open spec fn mmul(a: Seq<Seq<int>>, b: Seq<Seq<int>>) -> Seq<Seq<int>> {
    Seq::new(a.len(), |i: int| Seq::new(mcols(b) as nat, |j: int| mentry(a, b, i, j, b.len() as int)))
}

/// Whether every partial inner product of a matrix product stays in the
/// double-width range and every entry is representable.
pub open spec fn mmul_fits(a: Seq<Seq<int>>, b: Seq<Seq<int>>) -> bool {
    forall|i: int, j: int, n: int|
        0 <= i < a.len() && 0 <= j < mcols(b) ==> i128::MIN <= #[trigger] mentry(a, b, i, j, n)
            <= i128::MAX && i64::MIN <= mentry(a, b, i, j, b.len() as int) <= i64::MAX
}

/// A rectangular matrix: a vector of rows, all of one width.
#[derive(Debug)]
pub struct Matrix2D {
    rows: Vec<Vec<i64>>,
}

impl View for Matrix2D {
    type V = Seq<Seq<int>>;

    closed spec fn view(&self) -> Seq<Seq<int>> {
        rows_view(self.rows@)
    }
}

impl Matrix2D {
    /// A well-formed matrix has aligned rows.
    pub open spec fn wf(&self) -> bool {
        aligned(self@)
    }

    /// Builds a matrix from rows; rows of differing lengths are reported,
    /// never silently accepted.
    pub fn new(nums: &Vec<Vec<i64>>) -> (r: Option<Matrix2D>)
        ensures
            r is Some <==> aligned(rows_view(nums@)),
            r is Some ==> r->Some_0@ == rows_view(nums@) && r->Some_0.wf(),
    {
        let mut rows: Vec<Vec<i64>> = Vec::new();
        let mut i: usize = 0;
        if nums.len() == 0 {
            proof {
                assert(rows_view(rows@) =~= rows_view(nums@));
            }
            return Some(Matrix2D { rows });
        }
        let width = nums[0].len();
        while i < nums.len()
            invariant
                i <= nums@.len(),
                nums@.len() >= 1,
                width as int == rows_view(nums@)[0].len(),
                rows@.len() == i as int,
                forall|j: int| 0 <= j < i as int ==> (#[trigger] rows_view(rows@)[j])
                    == rows_view(nums@)[j],
                forall|j: int| 0 <= j < i as int ==> (#[trigger] rows_view(nums@)[j]).len()
                    == width as int,
            decreases nums@.len() - i,
        {
            if nums[i].len() != width {
                proof {
                    assert(rows_view(nums@)[i as int].len() != rows_view(nums@)[0].len());
                }
                return None;
            }
            let row = &nums[i];
            let mut copy: Vec<i64> = Vec::new();
            let mut j: usize = 0;
            while j < row.len()
                invariant
                    j <= row@.len(),
                    copy@.len() == j as int,
                    forall|t: int| 0 <= t < j as int ==> copy@[t] == row@[t],
                decreases row@.len() - j,
            {
                copy.push(row[j]);
                j = j + 1;
            }
            proof {
                assert(int_view(copy@) =~= int_view(nums@[i as int]@));
                let ghost pushed = rows@.push(copy);
                assert forall|t: int| 0 <= t < i as int + 1 implies (#[trigger] rows_view(
                    pushed,
                )[t]) == rows_view(nums@)[t] by {
                    if t < i as int {
                        assert(rows_view(rows@)[t] == rows_view(nums@)[t]);
                        assert(rows_view(pushed)[t] == rows_view(rows@)[t]);
                    } else {
                        assert(rows_view(pushed)[t] == int_view(copy@));
                    }
                }
            }
            rows.push(copy);
            i = i + 1;
        }
        proof {
            assert(rows_view(rows@) =~= rows_view(nums@));
        }
        Some(Matrix2D { rows })
    }

    /// The number of rows.
    pub fn nrows(&self) -> (r: usize)
        ensures
            r as int == self@.len(),
    {
        self.rows.len()
    }

    /// The number of columns; zero for the empty matrix.
    pub fn ncols(&self) -> (r: usize)
        ensures
            self@.len() == 0 ==> r == 0,
            self@.len() > 0 ==> r as int == self@[0].len(),
    {
        if self.rows.len() == 0 {
            0
        } else {
            self.rows[0].len()
        }
    }

    /// Whether another matrix has the same shape.
    pub fn check_size(&self, rhs: &Self) -> (r: bool)
        ensures
            r == (self@.len() == rhs@.len() && (self@.len() > 0 ==> self@[0].len()
                == rhs@[0].len())),
    {
        self.nrows() == rhs.nrows() && (self.nrows() == 0 || self.ncols() == rhs.ncols())
    }


    /// The entry at row `i`, column `j`.
    pub fn entry(&self, i: usize, j: usize) -> (r: i64)
        requires
            (i as int) < self@.len(),
            (j as int) < self@[i as int].len(),
        ensures
            r as int == self@[i as int][j as int],
    {
        self.rows[i][j]
    }

    /// The pointwise sum of two matrices of one shape.
    pub fn add(&self, rhs: &Self) -> (r: Self)
        requires
            self.wf(),
            rhs.wf(),
            self@.len() == rhs@.len(),
            self@.len() > 0 ==> self@[0].len() == rhs@[0].len(),
            madd_fits(self@, rhs@),
        ensures
            r.wf(),
            r@ == madd(self@, rhs@),
    {
        let mut rows: Vec<Vec<i64>> = Vec::new();
        let mut i: usize = 0;
        while i < self.rows.len()
            invariant
                self.wf(),
                rhs.wf(),
                self@.len() == rhs@.len(),
                self@.len() > 0 ==> self@[0].len() == rhs@[0].len(),
                madd_fits(self@, rhs@),
                i <= self@.len(),
                rows@.len() == i as int,
                forall|t: int| 0 <= t < i as int ==> (#[trigger] rows_view(rows@)[t]) == madd(
                    self@,
                    rhs@,
                )[t],
            decreases self@.len() - i,
        {
            let a_row = &self.rows[i];
            let b_row = &rhs.rows[i];
            proof {
                assert(self@[i as int].len() == self@[0].len());
                assert(rhs@[i as int].len() == rhs@[0].len());
            }
            let mut out: Vec<i64> = Vec::new();
            let mut j: usize = 0;
            while j < a_row.len()
                invariant
                    self.wf(),
                    rhs.wf(),
                    madd_fits(self@, rhs@),
                    0 <= (i as int) < self@.len(),
                    self@.len() == rhs@.len(),
                    a_row@ == self.rows@[i as int]@,
                    b_row@ == rhs.rows@[i as int]@,
                    a_row@.len() == self@[i as int].len(),
                    b_row@.len() == rhs@[i as int].len(),
                    a_row@.len() == b_row@.len(),
                    j <= a_row@.len(),
                    out@.len() == j as int,
                    forall|t: int| 0 <= t < j as int ==> out@[t] as int == self@[i as int][t]
                        + rhs@[i as int][t],
                decreases a_row@.len() - j,
            {
                proof {
                    assert(a_row@[j as int] as int == self@[i as int][j as int]);
                    assert(b_row@[j as int] as int == rhs@[i as int][j as int]);
                    assert(i64::MIN <= self@[i as int][j as int] + rhs@[i as int][j as int]
                        <= i64::MAX);
                }
                out.push(a_row[j] + b_row[j]);
                j = j + 1;
            }
            proof {
                assert(int_view(out@) =~= madd(self@, rhs@)[i as int]);
                let ghost pushed = rows@.push(out);
                assert forall|t: int| 0 <= t < i as int + 1 implies (#[trigger] rows_view(
                    pushed,
                )[t]) == madd(self@, rhs@)[t] by {
                    if t < i as int {
                        assert(rows_view(pushed)[t] == rows_view(rows@)[t]);
                    } else {
                        assert(rows_view(pushed)[t] == int_view(out@));
                    }
                }
            }
            rows.push(out);
            i = i + 1;
        }
        proof {
            assert(rows_view(rows@) =~= madd(self@, rhs@));
            assert forall|t: int| 0 <= t < madd(self@, rhs@).len() implies (#[trigger] madd(
                self@,
                rhs@,
            )[t]).len() == madd(self@, rhs@)[0].len() by {
                assert(self@[t].len() == self@[0].len());
            }
        }
        Matrix2D { rows }
    }

    /// The matrix product; the left factor's column count must equal the
    /// right factor's row count, and each entry is accumulated in a
    /// double-width intermediate.
    pub fn mul(&self, rhs: &Self) -> (r: Self)
        requires
            self.wf(),
            rhs.wf(),
            self@.len() > 0 ==> self@[0].len() == rhs@.len(),
            mmul_fits(self@, rhs@),
        ensures
            r.wf(),
            r@ == mmul(self@, rhs@),
    {
        let width: usize = if rhs.rows.len() == 0 {
            0
        } else {
            rhs.rows[0].len()
        };
        let inner: usize = rhs.rows.len();
        let mut rows: Vec<Vec<i64>> = Vec::new();
        let mut i: usize = 0;
        while i < self.rows.len()
            invariant
                self.wf(),
                rhs.wf(),
                self@.len() > 0 ==> self@[0].len() == rhs@.len(),
                mmul_fits(self@, rhs@),
                width as int == mcols(rhs@),
                inner as int == rhs@.len(),
                i <= self@.len(),
                rows@.len() == i as int,
                forall|t: int| 0 <= t < i as int ==> (#[trigger] rows_view(rows@)[t]) == mmul(
                    self@,
                    rhs@,
                )[t],
            decreases self@.len() - i,
        {
            proof {
                assert(self@[i as int].len() == self@[0].len());
            }
            let mut out: Vec<i64> = Vec::new();
            let mut j: usize = 0;
            while j < width
                invariant
                    self.wf(),
                    rhs.wf(),
                    self@.len() > 0 ==> self@[0].len() == rhs@.len(),
                    mmul_fits(self@, rhs@),
                    width as int == mcols(rhs@),
                    inner as int == rhs@.len(),
                    0 <= (i as int) < self@.len(),
                    self@[i as int].len() == rhs@.len(),
                    j <= width,
                    out@.len() == j as int,
                    forall|t: int| 0 <= t < j as int ==> out@[t] as int == mentry(
                        self@,
                        rhs@,
                        i as int,
                        t,
                        rhs@.len() as int,
                    ),
                decreases width - j,
            {
                let mut acc: i128 = 0;
                let mut k: usize = 0;
                while k < inner
                    invariant
                        self.wf(),
                        rhs.wf(),
                        mmul_fits(self@, rhs@),
                        width as int == mcols(rhs@),
                        inner as int == rhs@.len(),
                        0 <= (i as int) < self@.len(),
                        0 <= (j as int) < mcols(rhs@),
                        self@[i as int].len() == rhs@.len(),
                        k <= inner,
                        acc as int == mentry(self@, rhs@, i as int, j as int, k as int),
                    decreases inner - k,
                {
                    proof {
                        assert(rhs@[k as int].len() == rhs@[0].len());
                        assert(self.rows@[i as int]@[k as int] as int
                            == self@[i as int][k as int]);
                        assert(rhs.rows@[k as int]@[j as int] as int == rhs@[k as int][j as int]);
                        crate::unipoly::lemma_i64_range_product(
                            self@[i as int][k as int],
                            rhs@[k as int][j as int],
                        );
                        assert(i128::MIN <= mentry(self@, rhs@, i as int, j as int, k as int + 1)
                            <= i128::MAX);
                    }
                    acc = acc + (self.rows[i][k] as i128) * (rhs.rows[k][j] as i128);
                    k = k + 1;
                }
                proof {
                    assert(i64::MIN <= mentry(self@, rhs@, i as int, j as int, rhs@.len() as int)
                        <= i64::MAX);
                }
                out.push(acc as i64);
                j = j + 1;
            }
            proof {
                assert(int_view(out@) =~= mmul(self@, rhs@)[i as int]);
                let ghost pushed = rows@.push(out);
                assert forall|t: int| 0 <= t < i as int + 1 implies (#[trigger] rows_view(
                    pushed,
                )[t]) == mmul(self@, rhs@)[t] by {
                    if t < i as int {
                        assert(rows_view(pushed)[t] == rows_view(rows@)[t]);
                    } else {
                        assert(rows_view(pushed)[t] == int_view(out@));
                    }
                }
            }
            rows.push(out);
            i = i + 1;
        }
        proof {
            assert(rows_view(rows@) =~= mmul(self@, rhs@));
        }
        Matrix2D { rows }
    }
}

} // verus!
