//! Dense matrices, stored row by row.
use vstd::prelude::*;
use crate::field::{Field, RandomRange};
use rayon::iter::{IntoParallelIterator, ParallelIterator};

verus! {

/// A dense matrix of `n` rows and `m` columns; `data[i][j]` is the entry in
/// row `i` and column `j`.
#[derive(Clone, Debug)]
pub struct Matrix<T> {
    pub n: usize,
    pub m: usize,
    pub data: Vec<Vec<T>>,
}

impl<T> View for Matrix<T> {
    type V = Seq<Seq<T>>;

    open spec fn view(&self) -> Seq<Seq<T>> {
        self.data@.map_values(|r: Vec<T>| r@)
    }
}

/// A table with `n` rows of `m` entries each.
pub open spec fn is_table<T>(t: Seq<Seq<T>>, n: nat, m: nat) -> bool {
    t.len() == n && forall|i: int| 0 <= i < n ==> (#[trigger] t[i]).len() == m
}

/// The transpose of a table with `m` columns.
pub open spec fn transposed<T>(t: Seq<Seq<T>>, m: nat) -> Seq<Seq<T>> {
    Seq::new(m, |j: int| Seq::new(t.len(), |i: int| t[i][j]))
}

/// The rows of a table one after another.
pub open spec fn flattened<T>(t: Seq<Seq<T>>, m: nat) -> Seq<T> {
    Seq::new(t.len() * m, |k: int| t[k / m as int][k % m as int])
}

impl<T> Matrix<T> {
    /// The dimensions agree with the rows that are stored.
    pub open spec fn wf(&self) -> bool {
        is_table(self@, self.n as nat, self.m as nat)
    }
}

impl<T: Copy> Matrix<T> {
    /// Builds a matrix from its rows; the table is non-empty and its rows
    /// have one length.
    pub fn from(data: Vec<Vec<T>>) -> (r: Self)
        requires
            data@.len() > 0,
            forall|i: int| 0 <= i < data@.len() ==> (#[trigger] data@[i])@.len() == data@[0]@.len(),
        ensures
            r.wf(),
            r.n == data@.len(),
            r.m == data@[0]@.len(),
            r@ == data@.map_values(|row: Vec<T>| row@),
    {
        let n = data.len();
        let m = data[0].len();
        Matrix { n, m, data }
    }

    /// The matrix whose row `j` is column `j` of this one.
    pub fn transpose(&self) -> (r: Self)
        requires
            self.wf(),
        ensures
            r.wf(),
            r.n == self.m,
            r.m == self.n,
            r@ == transposed(self@, self.m as nat),
    {
        let mut data: Vec<Vec<T>> = Vec::new();
        for j in 0..self.m
            invariant
                self.wf(),
                data@.len() == j,
                forall|q: int| 0 <= q < j ==> (#[trigger] data@[q])@ == transposed(self@, self.m as nat)[q],
        {
            let mut row: Vec<T> = Vec::new();
            for i in 0..self.n
                invariant
                    self.wf(),
                    j < self.m,
                    row@.len() == i,
                    forall|p: int| 0 <= p < i ==> row@[p] == self@[p][j as int],
            {
                assert(self@[i as int] == self.data@[i as int]@);
                row.push(self.data[i][j]);
            }
            assert(row@ =~= transposed(self@, self.m as nat)[j as int]);
            data.push(row);
        }
        let r = Matrix { n: self.m, m: self.n, data };
        assert(r@ =~= transposed(self@, self.m as nat));
        r
    }
}

/// Transposing twice gives back the table.
pub proof fn lemma_transpose_involutive<T>(t: Seq<Seq<T>>, n: nat, m: nat)
    requires
        is_table(t, n, m),
    ensures
        is_table(transposed(t, m), m, n),
        transposed(transposed(t, m), n) == t,
{
    let u = transposed(t, m);
    assert forall|i: int| 0 <= i < n implies (#[trigger] transposed(u, n)[i]) == t[i] by {
        assert(transposed(u, n)[i] =~= t[i]);
    }
    assert(transposed(u, n) =~= t);
}


/// Why a matrix operation gave no result.
#[derive(Clone, Copy, Debug, PartialEq, Eq, Structural)]
pub enum MatrixError {
    /// The shapes of the operands do not fit the operation.
    DimensionMismatch,
    /// An entry of the exact result, or a value on the way to it, does not
    /// fit in 64 bits.
    Overflow,
    /// The system has no solution in whole numbers.
    Inexact,
    /// A diagonal entry that a solve divides by is zero.
    Singular,
}

/// A value that an `i64` holds.
pub open spec fn in_i64(x: int) -> bool {
    i64::MIN <= x <= i64::MAX
}

/// The entries of a row as integers.
pub open spec fn row_ints(r: Seq<i64>) -> Seq<int> {
    r.map_values(|x: i64| x as int)
}

/// The table of `n` rows and `m` columns whose entry `(i, j)` is `f(i, j)`.
pub open spec fn table(n: nat, m: nat, f: spec_fn(int, int) -> int) -> Seq<Seq<int>> {
    Seq::new(n, |i: int| Seq::new(m, |j: int| f(i, j)))
}

/// `t` with the entries above the diagonal set to zero.
pub open spec fn lower_part(t: Seq<Seq<int>>, n: nat, m: nat) -> Seq<Seq<int>> {
    table(n, m, |i: int, j: int| if j <= i { t[i][j] } else { 0 })
}

/// `t` with the entries below the diagonal set to zero.
pub open spec fn upper_part(t: Seq<Seq<int>>, n: nat, m: nat) -> Seq<Seq<int>> {
    table(n, m, |i: int, j: int| if j >= i { t[i][j] } else { 0 })
}

impl Matrix<i64> {
    /// The entries as integers.
    pub open spec fn ints(&self) -> Seq<Seq<int>> {
        self@.map_values(|r: Seq<i64>| row_ints(r))
    }

    proof fn lemma_ints_entry(&self, i: int, j: int)
        requires
            self.wf(),
            0 <= i < self.n,
            0 <= j < self.m,
        ensures
            self.ints()[i][j] == self.data@[i]@[j] as int,
            self.ints()[i].len() == self.m,
    {
    }

    proof fn lemma_ints_from_rows(&self, want: Seq<Seq<int>>)
        requires
            self.data@.len() == self.n,
            want.len() == self.n,
            forall|q: int| 0 <= q < self.n ==> (#[trigger] want[q]).len() == self.m,
            forall|q: int| 0 <= q < self.n ==> row_ints((#[trigger] self.data@[q])@) == want[q],
        ensures
            self.wf(),
            self.ints() == want,
    {
        assert forall|q: int| 0 <= q < self.n implies (#[trigger] self@[q]).len() == self.m by {
            assert(row_ints(self.data@[q]@) == want[q]);
        }
        assert forall|q: int| 0 <= q < self.n implies #[trigger] self.ints()[q] == want[q] by {
            assert(row_ints(self.data@[q]@) == want[q]);
        }
        assert(self.ints() =~= want);
    }

    /// The `n` by `m` matrix of one value.
    fn filled(n: usize, m: usize, value: i64) -> (r: Matrix<i64>)
        ensures
            r.wf(),
            r.n == n,
            r.m == m,
            r.ints() == table(n as nat, m as nat, |i: int, j: int| value as int),
    {
        let ghost want = table(n as nat, m as nat, |i: int, j: int| value as int);
        let mut data: Vec<Vec<i64>> = Vec::new();
        for i in 0..n
            invariant
                want == table(n as nat, m as nat, |i: int, j: int| value as int),
                data@.len() == i,
                forall|q: int| 0 <= q < i ==> row_ints((#[trigger] data@[q])@) == want[q],
        {
            let mut row: Vec<i64> = Vec::new();
            for j in 0..m
                invariant
                    row@.len() == j,
                    forall|q: int| 0 <= q < j ==> row@[q] == value,
            {
                row.push(value);
            }
            assert(row_ints(row@) =~= want[i as int]);
            data.push(row);
        }
        let r = Matrix { n, m, data };
        proof {
            r.lemma_ints_from_rows(want);
        }
        r
    }

    /// The `n` by `m` matrix of zeros.
    pub fn zero(n: usize, m: usize) -> (r: Matrix<i64>)
        ensures
            r.wf(),
            r.n == n,
            r.m == m,
            r.ints() == table(n as nat, m as nat, |i: int, j: int| 0),
    {
        let r = Self::filled(n, m, i64::zero());
        assert(r.ints() =~= table(n as nat, m as nat, |i: int, j: int| 0));
        r
    }

    /// The `n` by `m` matrix of ones.
    pub fn ones(n: usize, m: usize) -> (r: Matrix<i64>)
        ensures
            r.wf(),
            r.n == n,
            r.m == m,
            r.ints() == table(n as nat, m as nat, |i: int, j: int| 1),
    {
        let r = Self::filled(n, m, i64::one());
        assert(r.ints() =~= table(n as nat, m as nat, |i: int, j: int| 1));
        r
    }

    /// The `n` by `n` identity matrix.
    pub fn identity(n: usize) -> (r: Matrix<i64>)
        ensures
            r.wf(),
            r.n == n,
            r.m == n,
            r.ints() == table(n as nat, n as nat, |i: int, j: int| if i == j { 1 } else { 0 }),
    {
        let ghost want = table(n as nat, n as nat, |i: int, j: int| if i == j { 1 } else { 0 });
        let mut data: Vec<Vec<i64>> = Vec::new();
        for i in 0..n
            invariant
                want == table(n as nat, n as nat, |i: int, j: int| if i == j { 1 } else { 0 }),
                data@.len() == i,
                forall|q: int| 0 <= q < i ==> row_ints((#[trigger] data@[q])@) == want[q],
        {
            let mut row: Vec<i64> = Vec::new();
            for j in 0..n
                invariant
                    i < n,
                    row@.len() == j,
                    forall|q: int| 0 <= q < j ==> row@[q] == (if i == q { 1i64 } else { 0i64 }),
            {
                if i == j {
                    row.push(i64::one());
                } else {
                    row.push(i64::zero());
                }
            }
            assert(row_ints(row@) =~= want[i as int]);
            data.push(row);
        }
        let r = Matrix { n, m: n, data };
        proof {
            r.lemma_ints_from_rows(want);
        }
        r
    }

    /// An `n` by `m` matrix whose entries are drawn independently and
    /// uniformly from `min` to `max`, both included.
    pub fn random(n: usize, m: usize, min: &i64, max: &i64) -> (r: Matrix<i64>)
        requires
            *min <= *max,
        ensures
            r.wf(),
            r.n == n,
            r.m == m,
            forall|i: int, j: int| 0 <= i < n && 0 <= j < m ==> *min <= #[trigger] r.ints()[i][j] <= *max,
    {
        let mut data: Vec<Vec<i64>> = Vec::new();
        for i in 0..n
            invariant
                *min <= *max,
                data@.len() == i,
                forall|q: int| 0 <= q < i ==> (#[trigger] data@[q])@.len() == m,
                forall|q: int, p: int| 0 <= q < i && 0 <= p < m ==> *min <= #[trigger] data@[q]@[p] <= *max,
        {
            let mut row: Vec<i64> = Vec::new();
            for j in 0..m
                invariant
                    *min <= *max,
                    row@.len() == j,
                    forall|p: int| 0 <= p < j ==> *min <= #[trigger] row@[p] <= *max,
            {
                row.push(i64::rand_range(min, max));
            }
            data.push(row);
        }
        let r = Matrix { n, m, data };
        assert forall|i: int, j: int| 0 <= i < n && 0 <= j < m implies *min <= #[trigger] r.ints()[i][j] <= *max by {
            r.lemma_ints_entry(i, j);
        }
        r
    }

    /// The lower triangle, diagonal included; the entries above are zero.
    pub fn tril(&self) -> (r: Matrix<i64>)
        requires
            self.wf(),
        ensures
            r.wf(),
            r.n == self.n,
            r.m == self.m,
            r.ints() == lower_part(self.ints(), self.n as nat, self.m as nat),
    {
        let ghost want = lower_part(self.ints(), self.n as nat, self.m as nat);
        let mut data: Vec<Vec<i64>> = Vec::new();
        for i in 0..self.n
            invariant
                self.wf(),
                want == lower_part(self.ints(), self.n as nat, self.m as nat),
                data@.len() == i,
                forall|q: int| 0 <= q < i ==> row_ints((#[trigger] data@[q])@) == want[q],
        {
            let mut row: Vec<i64> = Vec::new();
            for j in 0..self.m
                invariant
                    self.wf(),
                    i < self.n,
                    want == lower_part(self.ints(), self.n as nat, self.m as nat),
                    row@.len() == j,
                    forall|q: int| 0 <= q < j ==> row@[q] as int == want[i as int][q],
            {
                proof {
                    self.lemma_ints_entry(i as int, j as int);
                }
                if j <= i {
                    row.push(self.data[i][j]);
                } else {
                    row.push(i64::zero());
                }
            }
            assert(row_ints(row@) =~= want[i as int]);
            data.push(row);
        }
        let r = Matrix { n: self.n, m: self.m, data };
        proof {
            r.lemma_ints_from_rows(want);
        }
        r
    }

    /// The upper triangle, diagonal included; the entries below are zero.
    pub fn triu(&self) -> (r: Matrix<i64>)
        requires
            self.wf(),
        ensures
            r.wf(),
            r.n == self.n,
            r.m == self.m,
            r.ints() == upper_part(self.ints(), self.n as nat, self.m as nat),
    {
        let ghost want = upper_part(self.ints(), self.n as nat, self.m as nat);
        let mut data: Vec<Vec<i64>> = Vec::new();
        for i in 0..self.n
            invariant
                self.wf(),
                want == upper_part(self.ints(), self.n as nat, self.m as nat),
                data@.len() == i,
                forall|q: int| 0 <= q < i ==> row_ints((#[trigger] data@[q])@) == want[q],
        {
            let mut row: Vec<i64> = Vec::new();
            for j in 0..self.m
                invariant
                    self.wf(),
                    i < self.n,
                    want == upper_part(self.ints(), self.n as nat, self.m as nat),
                    row@.len() == j,
                    forall|q: int| 0 <= q < j ==> row@[q] as int == want[i as int][q],
            {
                proof {
                    self.lemma_ints_entry(i as int, j as int);
                }
                if j >= i {
                    row.push(self.data[i][j]);
                } else {
                    row.push(i64::zero());
                }
            }
            assert(row_ints(row@) =~= want[i as int]);
            data.push(row);
        }
        let r = Matrix { n: self.n, m: self.m, data };
        proof {
            r.lemma_ints_from_rows(want);
        }
        r
    }

    /// The entrywise sum; the shapes have to agree.
    pub fn add(&self, rhs: &Matrix<i64>) -> (r: Result<Matrix<i64>, MatrixError>)
        requires
            self.wf(),
            rhs.wf(),
        ensures
            match r {
                Ok(c) => self.n == rhs.n && self.m == rhs.m && c.wf() && c.n == self.n && c.m == self.m
                    && c.ints() == table(self.n as nat, self.m as nat, |i: int, j: int| self.ints()[i][j] + rhs.ints()[i][j]),
                Err(e) => if self.n != rhs.n || self.m != rhs.m {
                    e == MatrixError::DimensionMismatch
                } else {
                    e == MatrixError::Overflow && exists|i: int, j: int|
                        0 <= i < self.n && 0 <= j < self.m && !in_i64(#[trigger] self.ints()[i][j] + rhs.ints()[i][j])
                },
            },
    {
        if self.n != rhs.n || self.m != rhs.m {
            return Err(MatrixError::DimensionMismatch);
        }
        let ghost want = table(self.n as nat, self.m as nat, |i: int, j: int| self.ints()[i][j] + rhs.ints()[i][j]);
        let mut data: Vec<Vec<i64>> = Vec::new();
        for i in 0..self.n
            invariant
                self.wf(),
                rhs.wf(),
                self.n == rhs.n,
                self.m == rhs.m,
                want == table(self.n as nat, self.m as nat, |i: int, j: int| self.ints()[i][j] + rhs.ints()[i][j]),
                data@.len() == i,
                forall|q: int| 0 <= q < i ==> row_ints((#[trigger] data@[q])@) == want[q],
        {
            let mut row: Vec<i64> = Vec::new();
            for j in 0..self.m
                invariant
                    self.wf(),
                    rhs.wf(),
                    self.n == rhs.n,
                    self.m == rhs.m,
                    i < self.n,
                    want == table(self.n as nat, self.m as nat, |i: int, j: int| self.ints()[i][j] + rhs.ints()[i][j]),
                    row@.len() == j,
                    forall|q: int| 0 <= q < j ==> row@[q] as int == want[i as int][q],
            {
                proof {
                    self.lemma_ints_entry(i as int, j as int);
                    rhs.lemma_ints_entry(i as int, j as int);
                }
                match self.data[i][j].checked_add(rhs.data[i][j]) {
                    Some(x) => row.push(x),
                    None => {
                        return Err(MatrixError::Overflow);
                    },
                }
            }
            assert(row_ints(row@) =~= want[i as int]);
            data.push(row);
        }
        let c = Matrix { n: self.n, m: self.m, data };
        proof {
            c.lemma_ints_from_rows(want);
        }
        Ok(c)
    }

    /// The entrywise difference; the shapes have to agree.
    pub fn sub(&self, rhs: &Matrix<i64>) -> (r: Result<Matrix<i64>, MatrixError>)
        requires
            self.wf(),
            rhs.wf(),
        ensures
            match r {
                Ok(c) => self.n == rhs.n && self.m == rhs.m && c.wf() && c.n == self.n && c.m == self.m
                    && c.ints() == table(self.n as nat, self.m as nat, |i: int, j: int| self.ints()[i][j] - rhs.ints()[i][j]),
                Err(e) => if self.n != rhs.n || self.m != rhs.m {
                    e == MatrixError::DimensionMismatch
                } else {
                    e == MatrixError::Overflow && exists|i: int, j: int|
                        0 <= i < self.n && 0 <= j < self.m && !in_i64(#[trigger] self.ints()[i][j] - rhs.ints()[i][j])
                },
            },
    {
        if self.n != rhs.n || self.m != rhs.m {
            return Err(MatrixError::DimensionMismatch);
        }
        let ghost want = table(self.n as nat, self.m as nat, |i: int, j: int| self.ints()[i][j] - rhs.ints()[i][j]);
        let mut data: Vec<Vec<i64>> = Vec::new();
        for i in 0..self.n
            invariant
                self.wf(),
                rhs.wf(),
                self.n == rhs.n,
                self.m == rhs.m,
                want == table(self.n as nat, self.m as nat, |i: int, j: int| self.ints()[i][j] - rhs.ints()[i][j]),
                data@.len() == i,
                forall|q: int| 0 <= q < i ==> row_ints((#[trigger] data@[q])@) == want[q],
        {
            let mut row: Vec<i64> = Vec::new();
            for j in 0..self.m
                invariant
                    self.wf(),
                    rhs.wf(),
                    self.n == rhs.n,
                    self.m == rhs.m,
                    i < self.n,
                    want == table(self.n as nat, self.m as nat, |i: int, j: int| self.ints()[i][j] - rhs.ints()[i][j]),
                    row@.len() == j,
                    forall|q: int| 0 <= q < j ==> row@[q] as int == want[i as int][q],
            {
                proof {
                    self.lemma_ints_entry(i as int, j as int);
                    rhs.lemma_ints_entry(i as int, j as int);
                }
                match self.data[i][j].checked_sub(rhs.data[i][j]) {
                    Some(x) => row.push(x),
                    None => {
                        return Err(MatrixError::Overflow);
                    },
                }
            }
            assert(row_ints(row@) =~= want[i as int]);
            data.push(row);
        }
        let c = Matrix { n: self.n, m: self.m, data };
        proof {
            c.lemma_ints_from_rows(want);
        }
        Ok(c)
    }

    /// The entrywise product; the shapes have to agree.
    pub fn hadamard(&self, rhs: &Matrix<i64>) -> (r: Result<Matrix<i64>, MatrixError>)
        requires
            self.wf(),
            rhs.wf(),
        ensures
            match r {
                Ok(c) => self.n == rhs.n && self.m == rhs.m && c.wf() && c.n == self.n && c.m == self.m
                    && c.ints() == table(self.n as nat, self.m as nat, |i: int, j: int| self.ints()[i][j] * rhs.ints()[i][j]),
                Err(e) => if self.n != rhs.n || self.m != rhs.m {
                    e == MatrixError::DimensionMismatch
                } else {
                    e == MatrixError::Overflow && exists|i: int, j: int|
                        0 <= i < self.n && 0 <= j < self.m && !in_i64(#[trigger] self.ints()[i][j] * rhs.ints()[i][j])
                },
            },
    {
        if self.n != rhs.n || self.m != rhs.m {
            return Err(MatrixError::DimensionMismatch);
        }
        let ghost want = table(self.n as nat, self.m as nat, |i: int, j: int| self.ints()[i][j] * rhs.ints()[i][j]);
        let mut data: Vec<Vec<i64>> = Vec::new();
        for i in 0..self.n
            invariant
                self.wf(),
                rhs.wf(),
                self.n == rhs.n,
                self.m == rhs.m,
                want == table(self.n as nat, self.m as nat, |i: int, j: int| self.ints()[i][j] * rhs.ints()[i][j]),
                data@.len() == i,
                forall|q: int| 0 <= q < i ==> row_ints((#[trigger] data@[q])@) == want[q],
        {
            let mut row: Vec<i64> = Vec::new();
            for j in 0..self.m
                invariant
                    self.wf(),
                    rhs.wf(),
                    self.n == rhs.n,
                    self.m == rhs.m,
                    i < self.n,
                    want == table(self.n as nat, self.m as nat, |i: int, j: int| self.ints()[i][j] * rhs.ints()[i][j]),
                    row@.len() == j,
                    forall|q: int| 0 <= q < j ==> row@[q] as int == want[i as int][q],
            {
                proof {
                    self.lemma_ints_entry(i as int, j as int);
                    rhs.lemma_ints_entry(i as int, j as int);
                }
                match self.data[i][j].checked_mul(rhs.data[i][j]) {
                    Some(x) => row.push(x),
                    None => {
                        return Err(MatrixError::Overflow);
                    },
                }
            }
            assert(row_ints(row@) =~= want[i as int]);
            data.push(row);
        }
        let c = Matrix { n: self.n, m: self.m, data };
        proof {
            c.lemma_ints_from_rows(want);
        }
        Ok(c)
    }

    /// Every entry multiplied by `amt`.
    pub fn scale(&self, amt: i64) -> (r: Result<Matrix<i64>, MatrixError>)
        requires
            self.wf(),
        ensures
            match r {
                Ok(c) => c.wf() && c.n == self.n && c.m == self.m
                    && c.ints() == table(self.n as nat, self.m as nat, |i: int, j: int| self.ints()[i][j] * amt),
                Err(e) => e == MatrixError::Overflow && exists|i: int, j: int|
                    0 <= i < self.n && 0 <= j < self.m && !in_i64(#[trigger] self.ints()[i][j] * amt),
            },
    {
        let ghost want = table(self.n as nat, self.m as nat, |i: int, j: int| self.ints()[i][j] * amt);
        let mut data: Vec<Vec<i64>> = Vec::new();
        for i in 0..self.n
            invariant
                self.wf(),
                want == table(self.n as nat, self.m as nat, |i: int, j: int| self.ints()[i][j] * amt),
                data@.len() == i,
                forall|q: int| 0 <= q < i ==> row_ints((#[trigger] data@[q])@) == want[q],
        {
            let mut row: Vec<i64> = Vec::new();
            for j in 0..self.m
                invariant
                    self.wf(),
                    i < self.n,
                    want == table(self.n as nat, self.m as nat, |i: int, j: int| self.ints()[i][j] * amt),
                    row@.len() == j,
                    forall|q: int| 0 <= q < j ==> row@[q] as int == want[i as int][q],
            {
                proof {
                    self.lemma_ints_entry(i as int, j as int);
                }
                match self.data[i][j].checked_mul(amt) {
                    Some(x) => row.push(x),
                    None => {
                        return Err(MatrixError::Overflow);
                    },
                }
            }
            assert(row_ints(row@) =~= want[i as int]);
            data.push(row);
        }
        let c = Matrix { n: self.n, m: self.m, data };
        proof {
            c.lemma_ints_from_rows(want);
        }
        Ok(c)
    }
}


/// The sum of `a[i][t] * b[t][j]` over `t < k`.
pub open spec fn row_col_sum(a: Seq<Seq<int>>, b: Seq<Seq<int>>, i: int, j: int, k: int) -> int
    decreases k,
{
    if k <= 0 {
        0
    } else {
        row_col_sum(a, b, i, j, k - 1) + a[i][k - 1] * b[k - 1][j]
    }
}

/// The matrix product of `a` and `b`, where `a` has `inner` columns and `b`
/// has `cols` columns.
pub open spec fn product(a: Seq<Seq<int>>, b: Seq<Seq<int>>, inner: nat, cols: nat) -> Seq<Seq<int>> {
    table(a.len(), cols, |i: int, j: int| row_col_sum(a, b, i, j, inner as int))
}

/// Step `k` of entry `(i, j)` of the product, its term and the partial sum
/// after it, fits in 64 bits.
pub open spec fn step_fits(a: Seq<Seq<int>>, b: Seq<Seq<int>>, i: int, j: int, k: int) -> bool {
    in_i64(a[i][k] * b[k][j]) && in_i64(row_col_sum(a, b, i, j, k + 1))
}

/// Every step of row `i` of the product fits in 64 bits.
pub open spec fn row_fits(a: Seq<Seq<int>>, b: Seq<Seq<int>>, i: int, inner: nat, cols: nat) -> bool {
    forall|j: int, k: int| 0 <= j < cols && 0 <= k < inner ==> #[trigger] step_fits(a, b, i, j, k)
}

/// Every step of the product fits in 64 bits.
pub open spec fn product_fits(a: Seq<Seq<int>>, b: Seq<Seq<int>>, inner: nat, cols: nat) -> bool {
    forall|i: int| 0 <= i < a.len() ==> #[trigger] row_fits(a, b, i, inner, cols)
}

/// Row `i` of the product of `a` and `b`, or `None` where a step of it does
/// not fit in 64 bits.
fn dot_row(a: &Matrix<i64>, b: &Matrix<i64>, i: usize) -> (r: Option<Vec<i64>>)
    requires
        a.wf(),
        b.wf(),
        a.m == b.n,
        i < a.n,
    ensures
        match r {
            Some(v) => row_fits(a.ints(), b.ints(), i as int, a.m as nat, b.m as nat)
                && row_ints(v@) == product(a.ints(), b.ints(), a.m as nat, b.m as nat)[i as int],
            None => !row_fits(a.ints(), b.ints(), i as int, a.m as nat, b.m as nat),
        },
{
    let ghost ai = a.ints();
    let ghost bi = b.ints();
    let mut row: Vec<i64> = Vec::new();
    for j in 0..b.m
        invariant
            a.wf(),
            b.wf(),
            a.m == b.n,
            i < a.n,
            ai == a.ints(),
            bi == b.ints(),
            row@.len() == j,
            forall|q: int| 0 <= q < j ==> row@[q] as int == row_col_sum(ai, bi, i as int, q, a.m as int),
            forall|q: int, k: int| 0 <= q < j && 0 <= k < a.m ==> #[trigger] step_fits(ai, bi, i as int, q, k),
    {
        let mut acc: i64 = 0;
        for k in 0..a.m
            invariant
                a.wf(),
                b.wf(),
                a.m == b.n,
                i < a.n,
                j < b.m,
                ai == a.ints(),
                bi == b.ints(),
                acc as int == row_col_sum(ai, bi, i as int, j as int, k as int),
                forall|t: int| 0 <= t < k ==> #[trigger] step_fits(ai, bi, i as int, j as int, t),
        {
            proof {
                a.lemma_ints_entry(i as int, k as int);
                b.lemma_ints_entry(k as int, j as int);
            }
            let p = match a.data[i][k].checked_mul(b.data[k][j]) {
                Some(p) => p,
                None => {
                    assert(!step_fits(ai, bi, i as int, j as int, k as int));
                    return None;
                },
            };
            acc = match acc.checked_add(p) {
                Some(x) => x,
                None => {
                    assert(!step_fits(ai, bi, i as int, j as int, k as int));
                    return None;
                },
            };
        }
        row.push(acc);
    }
    let ghost want = product(ai, bi, a.m as nat, b.m as nat)[i as int];
    assert(row_ints(row@) =~= want);
    Some(row)
}

/// Relies on rayon: an indexed parallel iterator over `0..a.n`, mapped and
/// collected into a `Vec`, holds each index's result at that index.
#[verifier::external_body]
fn par_product_rows(a: &Matrix<i64>, b: &Matrix<i64>) -> (r: Vec<Option<Vec<i64>>>)
    requires
        a.wf(),
        b.wf(),
        a.m == b.n,
    ensures
        r@.len() == a.n,
        forall|i: int|
            0 <= i < a.n ==> match #[trigger] r@[i] {
                Some(v) => row_fits(a.ints(), b.ints(), i, a.m as nat, b.m as nat)
                    && row_ints(v@) == product(a.ints(), b.ints(), a.m as nat, b.m as nat)[i],
                None => !row_fits(a.ints(), b.ints(), i, a.m as nat, b.m as nat),
            },
{
    (0..a.n).into_par_iter().map(|i| dot_row(a, b, i)).collect()
}

impl Matrix<i64> {
    /// The matrix product, each row computed by its own parallel task. The
    /// columns of `self` have to match the rows of `rhs`; nothing is padded
    /// or cut.
    pub fn dot(&self, rhs: &Matrix<i64>) -> (r: Result<Matrix<i64>, MatrixError>)
        requires
            self.wf(),
            rhs.wf(),
        ensures
            match r {
                Ok(c) => self.m == rhs.n && c.wf() && c.n == self.n && c.m == rhs.m
                    && c.ints() == product(self.ints(), rhs.ints(), self.m as nat, rhs.m as nat),
                Err(e) => if self.m != rhs.n {
                    e == MatrixError::DimensionMismatch
                } else {
                    e == MatrixError::Overflow && !product_fits(self.ints(), rhs.ints(), self.m as nat, rhs.m as nat)
                },
            },
    {
        if self.m != rhs.n {
            return Err(MatrixError::DimensionMismatch);
        }
        let rows = par_product_rows(self, rhs);
        let ghost want = product(self.ints(), rhs.ints(), self.m as nat, rhs.m as nat);
        let mut data: Vec<Vec<i64>> = Vec::new();
        for i in 0..rows.len()
            invariant
                self.wf(),
                rhs.wf(),
                self.m == rhs.n,
                rows@.len() == self.n,
                want == product(self.ints(), rhs.ints(), self.m as nat, rhs.m as nat),
                forall|i: int|
                    0 <= i < self.n ==> match #[trigger] rows@[i] {
                        Some(v) => row_fits(self.ints(), rhs.ints(), i, self.m as nat, rhs.m as nat)
                            && row_ints(v@) == want[i],
                        None => !row_fits(self.ints(), rhs.ints(), i, self.m as nat, rhs.m as nat),
                    },
                data@.len() == i,
                forall|q: int| 0 <= q < i ==> row_ints((#[trigger] data@[q])@) == want[q],
        {
            match &rows[i] {
                Some(v) => data.push(v.clone()),
                None => {
                    return Err(MatrixError::Overflow);
                },
            }
        }
        let c = Matrix { n: self.n, m: rhs.m, data };
        proof {
            c.lemma_ints_from_rows(want);
        }
        Ok(c)
    }
}


/// The sum of `row[t] * x[t]` over `lo <= t < hi`.
pub open spec fn dot_range(row: Seq<int>, x: Seq<int>, lo: int, hi: int) -> int
    decreases hi - lo,
{
    if hi <= lo {
        0
    } else {
        dot_range(row, x, lo, hi - 1) + row[hi - 1] * x[hi - 1]
    }
}

/// `z` solves the lower-triangular system of `l` with right-hand side `b`;
/// entries of `l` above the diagonal take no part.
pub open spec fn solves_lower(l: Seq<Seq<int>>, z: Seq<int>, b: Seq<int>) -> bool {
    z.len() == b.len() && forall|i: int| 0 <= i < b.len() ==> #[trigger] dot_range(l[i], z, 0, i + 1) == b[i]
}

/// The upper triangle of `u`, diagonal included, applied to `x`.
pub open spec fn upper_apply(u: Seq<Seq<int>>, x: Seq<int>) -> Seq<int> {
    Seq::new(x.len(), |i: int| dot_range(u[i], x, i, x.len() as int))
}

/// Step `k` of row `i` of forward substitution fits in 64 bits, for the
/// candidate solution `z`.
pub open spec fn lower_step_fits(l: Seq<Seq<int>>, z: Seq<int>, b: Seq<int>, i: int, k: int) -> bool {
    in_i64(l[i][k] * z[k]) && in_i64(b[i] - dot_range(l[i], z, 0, k + 1))
}

/// Every value that forward substitution computes for row `i` fits in 64
/// bits.
pub open spec fn lower_row_fits(l: Seq<Seq<int>>, z: Seq<int>, b: Seq<int>, i: int) -> bool {
    in_i64(z[i]) && forall|k: int| 0 <= k < i ==> #[trigger] lower_step_fits(l, z, b, i, k)
}

/// Every value that forward substitution computes on its way to `z` fits
/// in 64 bits.
pub open spec fn lower_fits(l: Seq<Seq<int>>, z: Seq<int>, b: Seq<int>) -> bool {
    forall|i: int| 0 <= i < b.len() ==> #[trigger] lower_row_fits(l, z, b, i)
}

/// Step `k` of row `i` of back substitution fits in 64 bits, for the
/// candidate solution `x`.
pub open spec fn upper_step_fits(u: Seq<Seq<int>>, x: Seq<int>, z: Seq<int>, i: int, k: int) -> bool {
    in_i64(u[i][k] * x[k]) && in_i64(z[i] - dot_range(u[i], x, i + 1, k + 1))
}

/// Every value that back substitution computes for row `i` fits in 64 bits.
pub open spec fn upper_row_fits(u: Seq<Seq<int>>, x: Seq<int>, z: Seq<int>, i: int) -> bool {
    in_i64(x[i]) && forall|k: int| i < k < z.len() ==> #[trigger] upper_step_fits(u, x, z, i, k)
}

/// Every value that back substitution computes on its way to `x` fits in
/// 64 bits.
pub open spec fn upper_fits(u: Seq<Seq<int>>, x: Seq<int>, z: Seq<int>) -> bool {
    forall|i: int| 0 <= i < z.len() ==> #[trigger] upper_row_fits(u, x, z, i)
}

/// What solving `L (U x) = b` may give, where `L` is the lower triangle of
/// `l` and `U` the upper triangle of `u`: a solution; `Inexact` where no
/// vector of whole numbers solves the system; `Overflow` where every solution
/// needs a value on the way that does not fit in 64 bits.
pub open spec fn solve_outcome(l: Seq<Seq<int>>, u: Seq<Seq<int>>, b: Seq<int>, r: Result<Vec<i64>, MatrixError>) -> bool {
    match r {
        Ok(x) => solves_lower(l, upper_apply(u, row_ints(x@)), b),
        Err(e) => (e == MatrixError::Inexact && forall|w: Seq<int>| !#[trigger] solves_lower(l, upper_apply(u, w), b))
            || (e == MatrixError::Overflow && forall|w: Seq<int>| #[trigger] solves_lower(l, upper_apply(u, w), b)
                ==> !(lower_fits(l, upper_apply(u, w), b) && upper_fits(u, w, upper_apply(u, w)))),
    }
}

/// A square table with no zero on its diagonal.
pub open spec fn nonzero_diagonal(t: Seq<Seq<int>>, n: nat) -> bool {
    is_table(t, n, n) && forall|i: int| 0 <= i < n ==> #[trigger] t[i][i] != 0
}

/// A sum over a range depends only on the vector's entries in that range.
pub proof fn lemma_dot_range_congruent(row: Seq<int>, x: Seq<int>, y: Seq<int>, lo: int, hi: int)
    requires
        forall|t: int| lo <= t < hi ==> x[t] == y[t],
    ensures
        dot_range(row, x, lo, hi) == dot_range(row, y, lo, hi),
    decreases hi - lo,
{
    if hi > lo {
        lemma_dot_range_congruent(row, x, y, lo, hi - 1);
    }
}

/// A non-empty sum over a range splits off its first term.
pub proof fn lemma_dot_range_split_low(row: Seq<int>, x: Seq<int>, lo: int, hi: int)
    requires
        lo < hi,
    ensures
        dot_range(row, x, lo, hi) == row[lo] * x[lo] + dot_range(row, x, lo + 1, hi),
    decreases hi - lo,
{
    assert(dot_range(row, x, lo, hi) == dot_range(row, x, lo, hi - 1) + row[hi - 1] * x[hi - 1]);
    if hi - 1 > lo {
        lemma_dot_range_split_low(row, x, lo, hi - 1);
        assert(dot_range(row, x, lo + 1, hi) == dot_range(row, x, lo + 1, hi - 1) + row[hi - 1] * x[hi - 1]);
    } else {
        assert(dot_range(row, x, lo, lo) == 0);
        assert(dot_range(row, x, lo + 1, hi) == 0);
    }
}

proof fn lemma_cancel(d: int, w: int, q: int)
    requires
        d != 0,
        d * w == d * q,
    ensures
        w == q,
{
    assert(d * (w - q) == 0) by (nonlinear_arith)
        requires d * w == d * q;
    assert(w - q == 0) by (nonlinear_arith)
        requires d * (w - q) == 0, d != 0;
}

proof fn lemma_exact_quotient(acc: int, d: int, w: int)
    requires
        d != 0,
        d * w == acc,
    ensures
        acc / d == w,
        w * d == acc,
{
    vstd::arithmetic::div_mod::lemma_fundamental_div_mod(acc, d);
    let q = acc / d;
    let r = acc % d;
    assert(0 <= r < if d > 0 { d } else { -d }) by (nonlinear_arith)
        requires r == acc % d, d != 0;
    assert(d * (w - q) == r) by (nonlinear_arith)
        requires acc == d * q + r, d * w == acc;
    if w != q {
        assert(r >= (if d > 0 { d } else { -d })) by (nonlinear_arith)
            requires d * (w - q) == r, w != q, d != 0, r >= 0;
    }
    assert(w * d == acc) by (nonlinear_arith)
        requires d * w == acc;
}

proof fn lemma_lower_unique_prefix(l: Seq<Seq<int>>, z: Seq<int>, w: Seq<int>, b: Seq<int>, i: int)
    requires
        0 <= i <= b.len(),
        nonzero_diagonal(l, b.len()),
        solves_lower(l, z, b),
        solves_lower(l, w, b),
    ensures
        forall|t: int| 0 <= t < i ==> z[t] == w[t],
    decreases i,
{
    if i > 0 {
        let k = i - 1;
        lemma_lower_unique_prefix(l, z, w, b, k);
        assert(dot_range(l[k], z, 0, k + 1) == b[k]);
        assert(dot_range(l[k], w, 0, k + 1) == b[k]);
        lemma_dot_range_congruent(l[k], z, w, 0, k);
        lemma_cancel(l[k][k], z[k], w[k]);
    }
}

/// Any two solutions of a lower-triangular system with no zero on its
/// diagonal agree.
pub proof fn lemma_lower_unique(l: Seq<Seq<int>>, z: Seq<int>, w: Seq<int>, b: Seq<int>)
    requires
        nonzero_diagonal(l, b.len()),
        solves_lower(l, z, b),
        solves_lower(l, w, b),
    ensures
        z == w,
{
    lemma_lower_unique_prefix(l, z, w, b, b.len() as int);
    assert(z =~= w);
}

proof fn lemma_upper_unique_suffix(u: Seq<Seq<int>>, x: Seq<int>, y: Seq<int>, i: int)
    requires
        0 <= i <= x.len(),
        nonzero_diagonal(u, x.len()),
        y.len() == x.len(),
        upper_apply(u, x) == upper_apply(u, y),
    ensures
        forall|t: int| i <= t < x.len() ==> x[t] == y[t],
    decreases x.len() - i,
{
    let n = x.len() as int;
    if i < n {
        lemma_upper_unique_suffix(u, x, y, i + 1);
        assert(upper_apply(u, x)[i] == upper_apply(u, y)[i]);
        assert(upper_apply(u, x)[i] == dot_range(u[i], x, i, n));
        assert(upper_apply(u, y)[i] == dot_range(u[i], y, i, n));
        lemma_dot_range_split_low(u[i], x, i, n);
        lemma_dot_range_split_low(u[i], y, i, n);
        lemma_dot_range_congruent(u[i], x, y, i + 1, n);
        lemma_cancel(u[i][i], x[i], y[i]);
    }
}

/// Any two vectors whose upper-triangular images agree, for a table with no
/// zero on its diagonal, are equal.
pub proof fn lemma_upper_unique(u: Seq<Seq<int>>, x: Seq<int>, y: Seq<int>)
    requires
        nonzero_diagonal(u, x.len()),
        y.len() == x.len(),
        upper_apply(u, x) == upper_apply(u, y),
    ensures
        x == y,
{
    lemma_upper_unique_suffix(u, x, y, 0);
    assert(x =~= y);
}

impl Matrix<i64> {
    /// Solves the lower triangle of `mat`, diagonal included, for `b`, row
    /// by row from the first.
    fn forward_substitution_l(mat: &Matrix<i64>, b: &Vec<i64>) -> (r: Result<Vec<i64>, MatrixError>)
        requires
            mat.wf(),
            mat.n == mat.m,
            nonzero_diagonal(mat.ints(), mat.n as nat),
            b@.len() == mat.n,
        ensures
            match r {
                Ok(z) => solves_lower(mat.ints(), row_ints(z@), row_ints(b@)),
                Err(e) => (e == MatrixError::Inexact && forall|w: Seq<int>| !#[trigger] solves_lower(mat.ints(), w, row_ints(b@)))
                    || (e == MatrixError::Overflow && forall|w: Seq<int>| #[trigger] solves_lower(mat.ints(), w, row_ints(b@))
                        ==> !lower_fits(mat.ints(), w, row_ints(b@))),
            },
    {
        let ghost l = mat.ints();
        let ghost bb = row_ints(b@);
        let n = mat.n;
        let mut z: Vec<i64> = Vec::new();
        for i in 0..n
            invariant
                mat.wf(),
                n == mat.n,
                n == mat.m,
                l == mat.ints(),
                bb == row_ints(b@),
                b@.len() == n,
                nonzero_diagonal(l, n as nat),
                z@.len() == i,
                forall|t: int| 0 <= t < i ==> #[trigger] dot_range(l[t], row_ints(z@), 0, t + 1) == bb[t],
                forall|w: Seq<int>| #[trigger] solves_lower(l, w, bb) ==> forall|t: int| 0 <= t < i ==> w[t] == row_ints(z@)[t],
        {
            let ghost zi = row_ints(z@);
            let mut acc: i64 = b[i];
            for k in 0..i
                invariant
                    mat.wf(),
                    n == mat.n,
                    n == mat.m,
                    l == mat.ints(),
                    bb == row_ints(b@),
                    b@.len() == n,
                    i < n,
                    z@.len() == i,
                    zi == row_ints(z@),
                    forall|w: Seq<int>| #[trigger] solves_lower(l, w, bb) ==> forall|t: int| 0 <= t < i ==> w[t] == zi[t],
                    acc as int == bb[i as int] - dot_range(l[i as int], zi, 0, k as int),
            {
                proof {
                    mat.lemma_ints_entry(i as int, k as int);
                }
                let p = match mat.data[i][k].checked_mul(z[k]) {
                    Some(p) => p,
                    None => {
                        proof {
                            assert forall|w: Seq<int>| #[trigger] solves_lower(l, w, bb) implies !lower_fits(l, w, bb) by {
                                assert(w[k as int] == zi[k as int]);
                                assert(!lower_step_fits(l, w, bb, i as int, k as int));
                                assert(!lower_row_fits(l, w, bb, i as int));
                            }
                        }
                        return Err(MatrixError::Overflow);
                    },
                };
                acc = match acc.checked_sub(p) {
                    Some(x) => x,
                    None => {
                        proof {
                            assert forall|w: Seq<int>| #[trigger] solves_lower(l, w, bb) implies !lower_fits(l, w, bb) by {
                                lemma_dot_range_congruent(l[i as int], w, zi, 0, k + 1);
                                assert(!lower_step_fits(l, w, bb, i as int, k as int));
                                assert(!lower_row_fits(l, w, bb, i as int));
                            }
                        }
                        return Err(MatrixError::Overflow);
                    },
                };
            }
            proof {
                mat.lemma_ints_entry(i as int, i as int);
            }
            let d = mat.data[i][i];
            let ghost di = l[i as int][i as int];
            assert(d as int == di);
            assert(di != 0);
            let q = match acc.checked_div_euclid(d) {
                Some(q) => q,
                None => {
                    proof {
                        assert forall|w: Seq<int>| #[trigger] solves_lower(l, w, bb) implies !lower_fits(l, w, bb) by {
                            lemma_dot_range_congruent(l[i as int], w, zi, 0, i as int);
                            assert(dot_range(l[i as int], w, 0, i + 1) == bb[i as int]);
                            assert(di * w[i as int] == acc);
                            lemma_exact_quotient(acc as int, di, w[i as int]);
                            assert(!lower_row_fits(l, w, bb, i as int));
                        }
                    }
                    return Err(MatrixError::Overflow);
                },
            };
            let exact = match q.checked_mul(d) {
                Some(p) => p == acc,
                None => false,
            };
            if !exact {
                proof {
                    assert forall|w: Seq<int>| !#[trigger] solves_lower(l, w, bb) by {
                        if solves_lower(l, w, bb) {
                            lemma_dot_range_congruent(l[i as int], w, zi, 0, i as int);
                            assert(dot_range(l[i as int], w, 0, i + 1) == bb[i as int]);
                            lemma_exact_quotient(acc as int, di, w[i as int]);
                        }
                    }
                }
                return Err(MatrixError::Inexact);
            }
            z.push(q);
            proof {
                let zn = row_ints(z@);
                assert(zn == zi.push(q as int));
                assert forall|t: int| 0 <= t < i + 1 implies #[trigger] dot_range(l[t], zn, 0, t + 1) == bb[t] by {
                    if t < i {
                        lemma_dot_range_congruent(l[t], zn, zi, 0, t + 1);
                    } else {
                        lemma_dot_range_congruent(l[t], zn, zi, 0, t);
                        assert(dot_range(l[t], zn, 0, t + 1) == dot_range(l[t], zn, 0, t) + l[t][t] * zn[t]);
                        assert(zn[t] == q);
                        assert(q * di == acc);
                        assert(l[t][t] * zn[t] == acc) by (nonlinear_arith)
                            requires q * di == acc, l[t][t] == di, zn[t] == q;
                    }
                }
                assert forall|w: Seq<int>| #[trigger] solves_lower(l, w, bb) implies forall|t: int| 0 <= t < i + 1 ==> w[t] == zn[t] by {
                    lemma_dot_range_congruent(l[i as int], w, zi, 0, i as int);
                    assert(dot_range(l[i as int], w, 0, i + 1) == bb[i as int]);
                    assert(di * w[i as int] == di * q) by (nonlinear_arith)
                        requires di * w[i as int] == acc, q * di == acc;
                    lemma_cancel(di, w[i as int], q as int);
                }
            }
        }
        Ok(z)
    }

    /// Solves the upper triangle of `mat`, diagonal included, for `z`, row
    /// by row from the last.
    fn back_substitution_u(mat: &Matrix<i64>, z: &Vec<i64>) -> (r: Result<Vec<i64>, MatrixError>)
        requires
            mat.wf(),
            mat.n == mat.m,
            nonzero_diagonal(mat.ints(), mat.n as nat),
            z@.len() == mat.n,
        ensures
            match r {
                Ok(x) => upper_apply(mat.ints(), row_ints(x@)) == row_ints(z@),
                Err(e) => (e == MatrixError::Inexact && forall|w: Seq<int>| #[trigger] upper_apply(mat.ints(), w) != row_ints(z@))
                    || (e == MatrixError::Overflow && forall|w: Seq<int>| #[trigger] upper_apply(mat.ints(), w) == row_ints(z@)
                        ==> !upper_fits(mat.ints(), w, row_ints(z@))),
            },
    {
        let ghost u = mat.ints();
        let ghost zz = row_ints(z@);
        let n = mat.n;
        let mut x: Vec<i64> = Vec::new();
        for t in 0..n
            invariant
                x@.len() == t,
        {
            x.push(0);
        }
        let mut step: usize = 0;
        while step < n
            invariant
                mat.wf(),
                n == mat.n,
                n == mat.m,
                u == mat.ints(),
                zz == row_ints(z@),
                z@.len() == n,
                nonzero_diagonal(u, n as nat),
                x@.len() == n,
                step <= n,
                forall|t: int| n - step <= t < n ==> #[trigger] dot_range(u[t], row_ints(x@), t, n as int) == zz[t],
                forall|w: Seq<int>| #[trigger] upper_apply(u, w) == zz ==> forall|t: int| n - step <= t < n ==> w[t] == row_ints(x@)[t],
            decreases n - step,
        {
            let i = n - 1 - step;
            let ghost xi = row_ints(x@);
            let mut acc: i64 = z[i];
            for k in (i + 1)..n
                invariant
                    mat.wf(),
                    n == mat.n,
                    n == mat.m,
                    u == mat.ints(),
                    zz == row_ints(z@),
                    z@.len() == n,
                    x@.len() == n,
                    i < n,
                    i + 1 <= k <= n,
                    xi == row_ints(x@),
                    forall|w: Seq<int>| #[trigger] upper_apply(u, w) == zz ==> forall|t: int| i < t < n ==> w[t] == xi[t],
                    acc as int == zz[i as int] - dot_range(u[i as int], xi, i + 1, k as int),
            {
                proof {
                    mat.lemma_ints_entry(i as int, k as int);
                }
                let p = match mat.data[i][k].checked_mul(x[k]) {
                    Some(p) => p,
                    None => {
                        proof {
                            assert forall|w: Seq<int>| #[trigger] upper_apply(u, w) == zz implies !upper_fits(u, w, zz) by {
                                assert(w[k as int] == xi[k as int]);
                                assert(!upper_step_fits(u, w, zz, i as int, k as int));
                                assert(!upper_row_fits(u, w, zz, i as int));
                            }
                        }
                        return Err(MatrixError::Overflow);
                    },
                };
                acc = match acc.checked_sub(p) {
                    Some(v) => v,
                    None => {
                        proof {
                            assert forall|w: Seq<int>| #[trigger] upper_apply(u, w) == zz implies !upper_fits(u, w, zz) by {
                                lemma_dot_range_congruent(u[i as int], w, xi, i + 1, k + 1);
                                assert(!upper_step_fits(u, w, zz, i as int, k as int));
                                assert(!upper_row_fits(u, w, zz, i as int));
                            }
                        }
                        return Err(MatrixError::Overflow);
                    },
                };
            }
            proof {
                mat.lemma_ints_entry(i as int, i as int);
            }
            let d = mat.data[i][i];
            let ghost di = u[i as int][i as int];
            assert(d as int == di);
            assert(di != 0);
            let q = match acc.checked_div_euclid(d) {
                Some(q) => q,
                None => {
                    proof {
                        assert forall|w: Seq<int>| #[trigger] upper_apply(u, w) == zz implies !upper_fits(u, w, zz) by {
                            assert(zz.len() == n);
                            assert(upper_apply(u, w).len() == w.len());
                            assert(w.len() == n);
                            assert(upper_apply(u, w)[i as int] == dot_range(u[i as int], w, i as int, n as int));
                            lemma_dot_range_congruent(u[i as int], w, xi, i + 1, n as int);
                            assert(upper_apply(u, w)[i as int] == zz[i as int]);
                            lemma_dot_range_split_low(u[i as int], w, i as int, n as int);
                            assert(di * w[i as int] == acc);
                            lemma_exact_quotient(acc as int, di, w[i as int]);
                            assert(!upper_row_fits(u, w, zz, i as int));
                        }
                    }
                    return Err(MatrixError::Overflow);
                },
            };
            let exact = match q.checked_mul(d) {
                Some(p) => p == acc,
                None => false,
            };
            if !exact {
                proof {
                    assert forall|w: Seq<int>| #[trigger] upper_apply(u, w) != zz by {
                        if upper_apply(u, w) == zz {
                            assert(zz.len() == n);
                            assert(upper_apply(u, w).len() == w.len());
                            assert(w.len() == n);
                            assert(upper_apply(u, w)[i as int] == dot_range(u[i as int], w, i as int, n as int));
                            lemma_dot_range_congruent(u[i as int], w, xi, i + 1, n as int);
                            assert(upper_apply(u, w)[i as int] == zz[i as int]);
                            lemma_dot_range_split_low(u[i as int], w, i as int, n as int);
                            lemma_exact_quotient(acc as int, di, w[i as int]);
                        }
                    }
                }
                return Err(MatrixError::Inexact);
            }
            x.set(i, q);
            proof {
                let xn = row_ints(x@);
                assert(xn == xi.update(i as int, q as int));
                assert forall|t: int| n - (step + 1) <= t < n implies #[trigger] dot_range(u[t], xn, t, n as int) == zz[t] by {
                    if t > i {
                        lemma_dot_range_congruent(u[t], xn, xi, t, n as int);
                    } else {
                        assert(t == i);
                        lemma_dot_range_split_low(u[t], xn, t, n as int);
                        lemma_dot_range_congruent(u[t], xn, xi, t + 1, n as int);
                        assert(xn[t] == q);
                        assert(q * di == acc);
                        assert(u[t][t] * xn[t] == acc) by (nonlinear_arith)
                            requires q * di == acc, u[t][t] == di, xn[t] == q;
                    }
                }
                assert forall|w: Seq<int>| #[trigger] upper_apply(u, w) == zz implies forall|t: int| n - (step + 1) <= t < n ==> w[t] == xn[t] by {
                    assert(zz.len() == n);
                    assert(upper_apply(u, w).len() == w.len());
                    assert(w.len() == n);
                    assert(upper_apply(u, w)[i as int] == dot_range(u[i as int], w, i as int, n as int));
                    lemma_dot_range_congruent(u[i as int], w, xi, i + 1, n as int);
                    assert(upper_apply(u, w)[i as int] == zz[i as int]);
                    lemma_dot_range_split_low(u[i as int], w, i as int, n as int);
                    assert(di * w[i as int] == di * q) by (nonlinear_arith)
                        requires di * w[i as int] == acc, q * di == acc;
                    lemma_cancel(di, w[i as int], q as int);
                }
            }
            step = step + 1;
        }
        proof {
            let xf = row_ints(x@);
            assert forall|t: int| 0 <= t < n implies #[trigger] upper_apply(u, xf)[t] == zz[t] by {
                assert(dot_range(u[t], xf, t, n as int) == zz[t]);
            }
            assert(upper_apply(u, xf) =~= zz);
        }
        Ok(x)
    }

    /// Solves `L (U x) = b`, where `L` is the lower triangle of `l` and `U`
    /// the upper triangle of `u`, both with their diagonals: forward
    /// substitution, then back substitution. The factors are used as given,
    /// never computed from their product.
    pub fn solve_system(l: &Matrix<i64>, u: &Matrix<i64>, b: &Vec<i64>) -> (r: Result<Vec<i64>, MatrixError>)
        requires
            l.wf(),
            u.wf(),
            l.n == u.n,
            l.n == l.m,
            u.n == u.m,
            nonzero_diagonal(l.ints(), l.n as nat),
            nonzero_diagonal(u.ints(), u.n as nat),
            b@.len() == l.n,
        ensures
            solve_outcome(l.ints(), u.ints(), row_ints(b@), r),
    {
        let z = match Self::forward_substitution_l(l, b) {
            Ok(z) => z,
            Err(e) => {
                return Err(e);
            },
        };
        let r = Self::back_substitution_u(u, &z);
        proof {
            let li = l.ints();
            let ui = u.ints();
            let bb = row_ints(b@);
            let zz = row_ints(z@);
            assert forall|w: Seq<int>| #[trigger] solves_lower(li, upper_apply(ui, w), bb) implies upper_apply(ui, w) == zz by {
                lemma_lower_unique(li, upper_apply(ui, w), zz, bb);
            }
        }
        r
    }
}

/// Column `j` of a table.
pub open spec fn column(t: Seq<Seq<int>>, j: int) -> Seq<int> {
    Seq::new(t.len(), |i: int| t[i][j])
}

/// An entry of a product is the row of the left factor times the column of
/// the right one.
pub proof fn lemma_row_col_sum_is_dot(a: Seq<Seq<int>>, b: Seq<Seq<int>>, i: int, j: int, k: int)
    requires
        0 <= k <= b.len(),
    ensures
        row_col_sum(a, b, i, j, k) == dot_range(a[i], column(b, j), 0, k),
    decreases k,
{
    if k > 0 {
        lemma_row_col_sum_is_dot(a, b, i, j, k - 1);
    }
}

/// A sum over a range depends only on the row's entries in that range.
pub proof fn lemma_dot_range_congruent_row(r1: Seq<int>, r2: Seq<int>, x: Seq<int>, lo: int, hi: int)
    requires
        forall|t: int| lo <= t < hi ==> r1[t] == r2[t],
    ensures
        dot_range(r1, x, lo, hi) == dot_range(r2, x, lo, hi),
    decreases hi - lo,
{
    if hi > lo {
        lemma_dot_range_congruent_row(r1, r2, x, lo, hi - 1);
    }
}

/// Entries of `row` that are zero from `mid` on add nothing.
pub proof fn lemma_dot_range_zero_tail(row: Seq<int>, x: Seq<int>, lo: int, mid: int, hi: int)
    requires
        lo <= mid <= hi,
        forall|t: int| mid <= t < hi ==> row[t] == 0,
    ensures
        dot_range(row, x, lo, hi) == dot_range(row, x, lo, mid),
    decreases hi - mid,
{
    if hi > mid {
        lemma_dot_range_zero_tail(row, x, lo, mid, hi - 1);
        assert(row[hi - 1] * x[hi - 1] == 0) by (nonlinear_arith)
            requires row[hi - 1] == 0;
    }
}

/// Entries of `row` that are zero before `mid` add nothing.
pub proof fn lemma_dot_range_zero_head(row: Seq<int>, x: Seq<int>, lo: int, mid: int, hi: int)
    requires
        lo <= mid <= hi,
        forall|t: int| lo <= t < mid ==> row[t] == 0,
    ensures
        dot_range(row, x, lo, hi) == dot_range(row, x, mid, hi),
    decreases mid - lo,
{
    if mid > lo {
        lemma_dot_range_split_low(row, x, lo, hi);
        assert(row[lo] * x[lo] == 0) by (nonlinear_arith)
            requires row[lo] == 0;
        lemma_dot_range_zero_head(row, x, lo + 1, mid, hi);
    }
}

/// A sum is linear in the vector: the sum over `x + y` is the sum over `x`
/// plus the sum over `y`.
pub proof fn lemma_dot_range_add(row: Seq<int>, x: Seq<int>, y: Seq<int>, z: Seq<int>, lo: int, hi: int)
    requires
        forall|t: int| lo <= t < hi ==> z[t] == x[t] + y[t],
    ensures
        dot_range(row, z, lo, hi) == dot_range(row, x, lo, hi) + dot_range(row, y, lo, hi),
    decreases hi - lo,
{
    if hi > lo {
        lemma_dot_range_add(row, x, y, z, lo, hi - 1);
        let t = hi - 1;
        assert(row[t] * z[t] == row[t] * x[t] + row[t] * y[t]) by (nonlinear_arith)
            requires z[t] == x[t] + y[t];
    }
}

/// A sum over a vector scaled by `c` is the sum scaled by `c`.
pub proof fn lemma_dot_range_scale(row: Seq<int>, x: Seq<int>, y: Seq<int>, c: int, lo: int, hi: int)
    requires
        forall|t: int| lo <= t < hi ==> y[t] == x[t] * c,
    ensures
        dot_range(row, y, lo, hi) == dot_range(row, x, lo, hi) * c,
    decreases hi - lo,
{
    if hi > lo {
        lemma_dot_range_scale(row, x, y, c, lo, hi - 1);
        let t = hi - 1;
        assert(row[t] * y[t] == (row[t] * x[t]) * c) by (nonlinear_arith)
            requires y[t] == x[t] * c;
        assert((dot_range(row, x, lo, hi - 1) + row[t] * x[t]) * c == dot_range(row, x, lo, hi - 1) * c
            + (row[t] * x[t]) * c) by (nonlinear_arith);
    }
}

/// The row vector `a` times the columns of `b`: entry `t` is the sum of
/// `a[s] * b[s][t]` over `s < n`.
pub open spec fn row_times(a: Seq<int>, b: Seq<Seq<int>>, n: int, p: nat) -> Seq<int> {
    Seq::new(p, |t: int| dot_range(a, column(b, t), 0, n))
}

/// The rows of `b` times `x` over their first `p` entries.
pub open spec fn times_prefix(b: Seq<Seq<int>>, x: Seq<int>, n: nat, p: int) -> Seq<int> {
    Seq::new(n, |s: int| dot_range(b[s], x, 0, p))
}

/// `(a b) x == a (b x)` over the first `p` entries of `x`: the two orders of
/// a double sum agree.
pub proof fn lemma_sum_swap(a: Seq<int>, b: Seq<Seq<int>>, x: Seq<int>, n: nat, p: int)
    requires
        0 <= p,
        b.len() == n,
    ensures
        dot_range(row_times(a, b, n as int, p as nat), x, 0, p) == dot_range(a, times_prefix(b, x, n, p), 0, n as int),
    decreases p,
{
    if p == 0 {
        let z = times_prefix(b, x, n, 0);
        assert forall|s: int| 0 <= s < n implies z[s] == 0 by {}
        lemma_dot_range_scale(a, z, z, 0, 0, n as int);
    } else {
        let q = p - 1;
        lemma_sum_swap(a, b, x, n, q);
        let rp = row_times(a, b, n as int, p as nat);
        let rq = row_times(a, b, n as int, q as nat);
        lemma_dot_range_congruent_row(rp, rq, x, 0, q);
        let cq = column(b, q);
        let d = Seq::new(n, |s: int| cq[s] * x[q]);
        lemma_dot_range_scale(a, cq, d, x[q], 0, n as int);
        lemma_dot_range_add(a, times_prefix(b, x, n, q), d, times_prefix(b, x, n, p), 0, n as int);
        assert(rp[q] == dot_range(a, cq, 0, n as int));
        assert(rp[q] * x[q] == dot_range(a, cq, 0, n as int) * x[q]);
    }
}

} // verus!
