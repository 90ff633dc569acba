//! Key generation, encryption by the key's triangular product, and direct
//! decryption by triangular substitution.
use vstd::prelude::*;
use crate::codec::decimal;
use crate::field::RandomRange;
use crate::matrix::{
    column, dot_range, is_table, lemma_dot_range_congruent_row, lemma_dot_range_zero_head,
    lemma_dot_range_zero_tail, lemma_lower_unique, lemma_row_col_sum_is_dot, lemma_sum_swap,
    lemma_upper_unique, lower_fits, lower_part, nonzero_diagonal, product, product_fits, row_ints,
    row_times, solve_outcome, solves_lower, times_prefix, transposed, upper_apply, upper_fits,
    upper_part, Matrix, MatrixError,
};
use rayon::iter::{IntoParallelRefIterator, ParallelIterator};

verus! {

/// The encryption matrix of a key: its lower triangle times its upper
/// triangle, both with the diagonal.
pub open spec fn encryption_matrix(k: Seq<Seq<int>>, n: nat) -> Seq<Seq<int>> {
    product(lower_part(k, n, n), upper_part(k, n, n), n, n)
}

/// The encryption of the `n` by `c` block matrix `x` under the key `k`.
pub open spec fn encrypted(k: Seq<Seq<int>>, x: Seq<Seq<int>>, n: nat, c: nat) -> Seq<Seq<int>> {
    product(encryption_matrix(k, n), x, n, c)
}

proof fn lemma_encrypted_column(k: Seq<Seq<int>>, x: Seq<Seq<int>>, n: nat, c: nat, j: int)
    requires
        nonzero_diagonal(k, n),
        is_table(x, n, c),
        0 <= j < c,
    ensures
        solves_lower(k, upper_apply(k, column(x, j)), column(encrypted(k, x, n, c), j)),
{
    let lo = lower_part(k, n, n);
    let up = upper_part(k, n, n);
    let kk = encryption_matrix(k, n);
    let y = encrypted(k, x, n, c);
    let xc = column(x, j);
    let v = upper_apply(k, xc);
    let yc = column(y, j);
    assert(times_prefix(up, xc, n, n as int) =~= v) by {
        assert forall|s: int| 0 <= s < n implies #[trigger] times_prefix(up, xc, n, n as int)[s] == v[s] by {
            lemma_dot_range_zero_head(up[s], xc, 0, s, n as int);
            lemma_dot_range_congruent_row(up[s], k[s], xc, s, n as int);
        }
    }
    assert forall|i: int| 0 <= i < n implies #[trigger] dot_range(k[i], v, 0, i + 1) == yc[i] by {
        assert(kk[i] =~= row_times(lo[i], up, n as int, n)) by {
            assert forall|t: int| 0 <= t < n implies #[trigger] kk[i][t] == row_times(lo[i], up, n as int, n)[t] by {
                lemma_row_col_sum_is_dot(lo, up, i, t, n as int);
            }
        }
        lemma_row_col_sum_is_dot(kk, x, i, j, n as int);
        assert(column(x, j) == xc);
        lemma_sum_swap(lo[i], up, xc, n, n as int);
        lemma_dot_range_zero_tail(lo[i], v, 0, i + 1, n as int);
        lemma_dot_range_congruent_row(lo[i], k[i], v, 0, i + 1);
    }
}

/// Direct decryption inverts encryption: for a square key with no zero on
/// its diagonal, column `j` of the plaintext solves the triangular systems
/// of the key for column `j` of the ciphertext, and nothing else does.
pub proof fn lemma_direct_round_trip(k: Seq<Seq<int>>, x: Seq<Seq<int>>, n: nat, c: nat)
    requires
        nonzero_diagonal(k, n),
        is_table(x, n, c),
    ensures
        forall|j: int| 0 <= j < c ==> #[trigger] solves_lower(k, upper_apply(k, column(x, j)), column(encrypted(k, x, n, c), j)),
        forall|j: int, w: Seq<int>|
            0 <= j < c && w.len() == n && #[trigger] solves_lower(k, upper_apply(k, w), column(encrypted(k, x, n, c), j))
                ==> w == column(x, j),
{
    assert forall|j: int| 0 <= j < c implies #[trigger] solves_lower(k, upper_apply(k, column(x, j)), column(encrypted(k, x, n, c), j)) by {
        lemma_encrypted_column(k, x, n, c, j);
    }
    assert forall|j: int, w: Seq<int>|
        0 <= j < c && w.len() == n && #[trigger] solves_lower(k, upper_apply(k, w), column(encrypted(k, x, n, c), j))
            implies w == column(x, j) by {
        let yc = column(encrypted(k, x, n, c), j);
        lemma_encrypted_column(k, x, n, c, j);
        lemma_lower_unique(k, upper_apply(k, w), upper_apply(k, column(x, j)), yc);
        lemma_upper_unique(k, w, column(x, j));
    }
}

/// Which algorithm decryption uses.
#[derive(Clone, Copy, Debug, PartialEq, Eq)]
pub enum SolutionMethod {
    /// Forward then back substitution with the key's triangles.
    Direct,
    /// Successive over-relaxation with the given number of sweeps.
    Iterative(usize),
}

/// Multiplies `data` by the key's encryption matrix, the product of its
/// lower and upper triangles. The key is square and its columns match the
/// rows of `data`.
pub fn encrypt_matrix_with_key(key: &Matrix<i64>, data: &Matrix<i64>) -> (r: Result<Matrix<i64>, MatrixError>)
    requires
        key.wf(),
        data.wf(),
    ensures
        match r {
            Ok(y) => key.n == key.m && key.m == data.n && y.wf() && y.n == key.n && y.m == data.m
                && y.ints() == encrypted(key.ints(), data.ints(), key.n as nat, data.m as nat),
            Err(e) => if key.n != key.m || key.m != data.n {
                e == MatrixError::DimensionMismatch
            } else {
                e == MatrixError::Overflow && (!product_fits(lower_part(key.ints(), key.n as nat, key.n as nat),
                    upper_part(key.ints(), key.n as nat, key.n as nat), key.n as nat, key.n as nat)
                    || !product_fits(encryption_matrix(key.ints(), key.n as nat), data.ints(), key.n as nat, data.m as nat))
            },
        },
{
    if key.n != key.m || key.m != data.n {
        return Err(MatrixError::DimensionMismatch);
    }
    let k = match key.tril().dot(&key.triu()) {
        Ok(k) => k,
        Err(e) => {
            return Err(e);
        },
    };
    k.dot(data)
}

proof fn lemma_rows_are_columns(t: Seq<Seq<i64>>, n: nat, m: nat, j: int)
    requires
        is_table(t, n, m),
        0 <= j < m,
    ensures
        row_ints(transposed(t, m)[j]) == column(t.map_values(|r: Seq<i64>| row_ints(r)), j),
{
    assert(row_ints(transposed(t, m)[j]) =~= column(t.map_values(|r: Seq<i64>| row_ints(r)), j));
}

proof fn lemma_columns_of_transpose(t: Seq<Seq<i64>>, n: nat, m: nat, j: int)
    requires
        is_table(t, n, m),
        0 <= j < n,
    ensures
        column(transposed(t, m).map_values(|r: Seq<i64>| row_ints(r)), j) == row_ints(t[j]),
{
    assert(column(transposed(t, m).map_values(|r: Seq<i64>| row_ints(r)), j) =~= row_ints(t[j]));
}

/// Relies on rayon: the indexed parallel iterator over the elements of a
/// `Vec`, mapped and collected into a `Vec`, holds the result for each
/// element at that element's index.
#[verifier::external_body]
fn par_solve_columns(key: &Matrix<i64>, cols: &Vec<Vec<i64>>) -> (r: Vec<Result<Vec<i64>, MatrixError>>)
    requires
        key.wf(),
        key.n == key.m,
        nonzero_diagonal(key.ints(), key.n as nat),
        forall|j: int| 0 <= j < cols@.len() ==> (#[trigger] cols@[j])@.len() == key.n,
    ensures
        r@.len() == cols@.len(),
        forall|j: int| 0 <= j < cols@.len() ==> solve_outcome(key.ints(), key.ints(), row_ints(cols@[j]@), #[trigger] r@[j]),
{
    cols.par_iter().map(|c| Matrix::solve_system(key, key, c)).collect()
}

/// Recovers the plaintext block matrix from `data` by solving, for each
/// column on its own and in parallel, the lower then the upper triangular
/// system of the key. Forward substitution reads only the key's lower
/// triangle and back substitution only its upper one, so the key serves as
/// both factors.
pub fn dectrypt_matrix_with_key_direct(key: &Matrix<i64>, data: Matrix<i64>) -> (r: Result<Matrix<i64>, MatrixError>)
    requires
        key.wf(),
        data.wf(),
    ensures
        match r {
            Ok(x) => key.n == key.m && key.m == data.n && nonzero_diagonal(key.ints(), key.n as nat) && x.wf()
                && x.n == data.n && x.m == data.m && forall|j: int| 0 <= j < data.m
                ==> #[trigger] solves_lower(key.ints(), upper_apply(key.ints(), column(x.ints(), j)), column(data.ints(), j)),
            Err(e) => if key.n != key.m || key.m != data.n {
                e == MatrixError::DimensionMismatch
            } else if !nonzero_diagonal(key.ints(), key.n as nat) {
                e == MatrixError::Singular
            } else {
                exists|j: int| 0 <= j < data.m && #[trigger] solve_outcome(key.ints(), key.ints(), column(data.ints(), j), Err(e))
            },
        },
{
    if key.n != key.m || key.m != data.n {
        return Err(MatrixError::DimensionMismatch);
    }
    let n = key.n;
    for i in 0..n
        invariant
            key.wf(),
            data.wf(),
            key.n == n,
            key.m == n,
            data.n == n,
            forall|t: int| 0 <= t < i ==> #[trigger] key.ints()[t][t] != 0,
    {
        assert(key.ints()[i as int][i as int] == key.data@[i as int]@[i as int]);
        if key.data[i][i] == 0 {
            assert(!nonzero_diagonal(key.ints(), key.n as nat));
            return Err(MatrixError::Singular);
        }
    }
    let cols = data.transpose();
    proof {
        assert forall|j: int| 0 <= j < data.m implies row_ints(#[trigger] cols.data@[j]@) == column(data.ints(), j) by {
            assert(cols@[j] == cols.data@[j]@);
            lemma_rows_are_columns(data@, data.n as nat, data.m as nat, j);
        }
        assert forall|j: int| 0 <= j < cols.data@.len() implies (#[trigger] cols.data@[j])@.len() == key.n by {
            assert(cols@[j] == cols.data@[j]@);
        }
    }
    let solved = par_solve_columns(key, &cols.data);
    let mut rows: Vec<Vec<i64>> = Vec::new();
    for j in 0..solved.len()
        invariant
            key.wf(),
            data.wf(),
            key.n == n,
            key.m == n,
            data.n == n,
            nonzero_diagonal(key.ints(), n as nat),
            solved@.len() == data.m,
            forall|j: int| 0 <= j < data.m ==> row_ints(#[trigger] cols.data@[j]@) == column(data.ints(), j),
            forall|j: int| 0 <= j < data.m ==> solve_outcome(key.ints(), key.ints(), row_ints(cols.data@[j]@), #[trigger] solved@[j]),
            rows@.len() == j,
            forall|q: int| 0 <= q < j ==> (#[trigger] rows@[q])@.len() == n
                && solves_lower(key.ints(), upper_apply(key.ints(), row_ints(rows@[q]@)), column(data.ints(), q)),
    {
        assert(solve_outcome(key.ints(), key.ints(), column(data.ints(), j as int), solved@[j as int]));
        match &solved[j] {
            Ok(x) => {
                assert(upper_apply(key.ints(), row_ints(x@)).len() == x@.len());
                let xc = x.clone();
                assert(xc@ == x@);
                rows.push(xc);
                assert(rows@[j as int]@ == x@);
            },
            Err(e) => {
                return Err(*e);
            },
        }
    }
    let sol = Matrix { n: data.m, m: n, data: rows };
    let x = sol.transpose();
    proof {
        assert forall|j: int| 0 <= j < data.m implies #[trigger] solves_lower(key.ints(), upper_apply(key.ints(), column(x.ints(), j)), column(data.ints(), j)) by {
            assert(sol@[j] == sol.data@[j]@);
            lemma_columns_of_transpose(sol@, data.m as nat, n as nat, j);
            assert(x@ == transposed(sol@, n as nat));
            assert(x.ints() == x@.map_values(|r: Seq<i64>| row_ints(r)));
            assert(column(x.ints(), j) == row_ints(sol.data@[j]@));
        }
    }
    Ok(x)
}

/// A key matrix in decimal fixed point: entry `(i, j)` stands for the value
/// `entries[i][j] / 10^digits`.
#[derive(Clone, Debug)]
pub struct DecimalKey {
    pub digits: u32,
    pub entries: Matrix<i64>,
}

/// Ten to the power `d`.
pub open spec fn pow10(d: nat) -> int
    decreases d,
{
    if d == 0 {
        1
    } else {
        10 * pow10((d - 1) as nat)
    }
}

/// The largest key dimension that key generation takes: a key of this size
/// already holds about 10^18 entries.
pub const MAX_CHUNK_SIZE: usize = 999_999_999;

proof fn lemma_pow10_positive(a: nat)
    ensures
        1 <= pow10(a),
    decreases a,
{
    if a > 0 {
        lemma_pow10_positive((a - 1) as nat);
    }
}

proof fn lemma_pow10_le(a: nat, b: nat)
    requires
        a <= b,
    ensures
        1 <= pow10(a) <= pow10(b),
    decreases b,
{
    lemma_pow10_positive(a);
    if b > a {
        lemma_pow10_le(a, (b - 1) as nat);
    }
}

proof fn lemma_decimal_len_bound(n: nat, k: nat)
    requires
        1 <= k,
        n < pow10(k),
    ensures
        1 <= decimal(n).len() <= k,
    decreases n,
{
    if n >= 10 {
        assert(k >= 2) by {
            if k == 1 {
                assert(pow10(1) == 10) by {
                    reveal_with_fuel(pow10, 2);
                }
            }
        }
        let p = pow10((k - 1) as nat);
        assert(n / 10 < p) by (nonlinear_arith)
            requires n < 10 * p;
        lemma_decimal_len_bound(n / 10, (k - 1) as nat);
    }
}

/// The number of decimal digits of `n`.
fn digit_count(n: usize) -> (r: u32)
    requires
        n <= MAX_CHUNK_SIZE,
    ensures
        r == decimal(n as nat).len(),
        1 <= r <= 9,
    decreases n,
{
    proof {
        assert(pow10(9) == 1_000_000_000) by {
            reveal_with_fuel(pow10, 10);
        }
        lemma_decimal_len_bound(n as nat, 9);
    }
    if n < 10 {
        1
    } else {
        let r = digit_count(n / 10);
        r + 1
    }
}

/// Generates a key of dimension `chunk_size`, entries drawn at random.
///
/// In the default kind the key is kept to `d` decimal places, `d` being the
/// number of digits of `chunk_size`: the diagonal holds exactly one and each
/// other entry is a multiple of `10^-d` from zero to `1/chunk_size`. In the
/// whole-number kind each other entry is that value times `10 chunk_size`,
/// rounded half up to a whole number (so from zero to ten), and the diagonal
/// holds `chunk_size`.
pub fn gen_key(chunk_size: usize, integer: bool) -> (r: DecimalKey)
    requires
        1 <= chunk_size <= MAX_CHUNK_SIZE,
    ensures
        r.entries.wf(),
        r.entries.n == chunk_size,
        r.entries.m == chunk_size,
        !integer ==> r.digits == decimal(chunk_size as nat).len(),
        !integer ==> forall|i: int| 0 <= i < chunk_size ==> #[trigger] r.entries.ints()[i][i] == pow10(r.digits as nat),
        !integer ==> forall|i: int, j: int| 0 <= i < chunk_size && 0 <= j < chunk_size && i != j
            ==> 0 <= #[trigger] r.entries.ints()[i][j] <= pow10(r.digits as nat) / (chunk_size as int),
        integer ==> r.digits == 0,
        integer ==> forall|i: int| 0 <= i < chunk_size ==> #[trigger] r.entries.ints()[i][i] == chunk_size,
        integer ==> forall|i: int, j: int| 0 <= i < chunk_size && 0 <= j < chunk_size && i != j
            ==> 0 <= #[trigger] r.entries.ints()[i][j] <= 10,
{
    let n = chunk_size;
    let d = digit_count(n);
    let mut scale: i64 = 1;
    let mut t: u32 = 0;
    while t < d
        invariant
            t <= d <= 9,
            scale as int == pow10(t as nat),
        decreases d - t,
    {
        proof {
            lemma_pow10_le(t as nat, 8);
            assert(pow10(8) == 100_000_000) by {
                reveal_with_fuel(pow10, 9);
            }
        }
        scale = scale * 10;
        t = t + 1;
    }
    proof {
        lemma_pow10_le(0, d as nat);
        lemma_pow10_le(d as nat, 9);
        assert(pow10(9) == 1_000_000_000) by {
            reveal_with_fuel(pow10, 10);
        }
    }
    let nn = n as i64;
    let top = scale / nn;
    proof {
        vstd::arithmetic::div_mod::lemma_fundamental_div_mod(scale as int, nn as int);
        vstd::arithmetic::div_mod::lemma_mod_pos_bound(scale as int, nn as int);
        assert(0 <= top) by (nonlinear_arith)
            requires top == scale / nn, scale >= 1, nn >= 1;
        assert((nn as int) * (top as int) <= scale) by (nonlinear_arith)
            requires scale == nn * (scale / nn) + scale % nn, scale % nn >= 0, top == scale / nn;
        assert(top <= scale) by (nonlinear_arith)
            requires (nn as int) * (top as int) <= scale, nn >= 1, top >= 0;
    }
    let mut data: Vec<Vec<i64>> = Vec::new();
    for i in 0..n
        invariant
            n == chunk_size,
            scale as int == pow10(d as nat),
            scale >= 1,
            scale <= 1_000_000_000,
            nn == n,
            (nn as int) * (top as int) <= scale,
            top <= scale,
            0 <= top,
            n >= 1,
            data@.len() == i,
            forall|q: int| 0 <= q < i ==> (#[trigger] data@[q])@.len() == n,
            !integer ==> forall|q: int, p: int| 0 <= q < i && 0 <= p < n ==> (#[trigger] data@[q]@[p] == if q == p { scale } else { data@[q]@[p] })
                && (q != p ==> 0 <= data@[q]@[p] <= top),
            integer ==> forall|q: int, p: int| 0 <= q < i && 0 <= p < n ==> (#[trigger] data@[q]@[p] == if q == p { nn } else { data@[q]@[p] })
                && (q != p ==> 0 <= data@[q]@[p] <= 10),
    {
        let mut row: Vec<i64> = Vec::new();
        for j in 0..n
            invariant
                n == chunk_size,
                scale as int == pow10(d as nat),
                scale >= 1,
                scale <= 1_000_000_000,
                nn == n,
            (nn as int) * (top as int) <= scale,
            top <= scale,
                0 <= top,
                n >= 1,
                i < n,
                row@.len() == j,
                !integer ==> forall|p: int| 0 <= p < j ==> (#[trigger] row@[p] == if i == p { scale } else { row@[p] })
                    && (i != p ==> 0 <= row@[p] <= top),
                integer ==> forall|p: int| 0 <= p < j ==> (#[trigger] row@[p] == if i == p { nn } else { row@[p] })
                    && (i != p ==> 0 <= row@[p] <= 10),
        {
            if i == j {
                if integer {
                    row.push(nn);
                } else {
                    row.push(scale);
                }
            } else {
                let k = i64::rand_range(&0, &top);
                if integer {
                    assert((nn as int) * (k as int) <= scale) by (nonlinear_arith)
                        requires k <= top, (nn as int) * (top as int) <= scale, nn >= 1, 0 <= k;
                    assert(20 * (nn as int) * (k as int) <= 20 * scale) by (nonlinear_arith)
                        requires (nn as int) * (k as int) <= scale;
                    let num = 20 * (nn as i128) * (k as i128) + scale as i128;
                    let den = 2 * scale as i128;
                    assert(0 <= num / den <= 10) by (nonlinear_arith)
                        requires num == 20 * (nn as int) * (k as int) + scale, den == 2 * scale,
                            (nn as int) * (k as int) <= scale, 0 <= k, nn >= 1, scale >= 1;
                    row.push((num / den) as i64);
                } else {
                    row.push(k);
                }
            }
        }
        data.push(row);
    }
    let entries = Matrix { n, m: n, data };
    assert forall|i: int, j: int| 0 <= i < n && 0 <= j < n implies #[trigger] entries.ints()[i][j] == entries.data@[i]@[j] by {}
    if integer {
        DecimalKey { digits: 0, entries }
    } else {
        DecimalKey { digits: d, entries }
    }
}

/// Decrypting what was encrypted under the same key gives the plaintext
/// back: a result that meets the postcondition of direct decryption on a
/// ciphertext equals the plaintext, and no column of the ciphertext lacks a
/// whole-number solution, so direct decryption never reports `Inexact` there.
pub proof fn lemma_decrypt_after_encrypt(key: Matrix<i64>, data: Matrix<i64>, y: Matrix<i64>, x: Matrix<i64>)
    requires
        key.wf(),
        data.wf(),
        key.n == key.m,
        key.m == data.n,
        nonzero_diagonal(key.ints(), key.n as nat),
        y.ints() == encrypted(key.ints(), data.ints(), key.n as nat, data.m as nat),
        x.wf(),
        x.n == data.n,
        x.m == data.m,
        forall|j: int| 0 <= j < data.m
            ==> #[trigger] solves_lower(key.ints(), upper_apply(key.ints(), column(x.ints(), j)), column(y.ints(), j)),
    ensures
        x.ints() == data.ints(),
        forall|j: int| 0 <= j < data.m
            ==> !#[trigger] solve_outcome(key.ints(), key.ints(), column(y.ints(), j), Err(MatrixError::Inexact)),
{
    let k = key.ints();
    let n = key.n as nat;
    let c = data.m as nat;
    assert(is_table(data.ints(), n, c)) by {
        assert forall|i: int| 0 <= i < n implies (#[trigger] data.ints()[i]).len() == c by {
            assert(data@[i] == data.data@[i]@);
        }
    }
    lemma_direct_round_trip(k, data.ints(), n, c);
    assert forall|j: int| 0 <= j < c implies #[trigger] column(x.ints(), j) == column(data.ints(), j) by {
        assert(solves_lower(k, upper_apply(k, column(x.ints(), j)), column(y.ints(), j)));
        assert(column(x.ints(), j).len() == n);
    }
    assert forall|j: int| 0 <= j < c
        implies !#[trigger] solve_outcome(k, k, column(y.ints(), j), Err(MatrixError::Inexact)) by {
        assert(solves_lower(k, upper_apply(k, column(data.ints(), j)), column(y.ints(), j)));
    }
    assert forall|i: int| 0 <= i < n implies #[trigger] x.ints()[i] == data.ints()[i] by {
        assert forall|j: int| 0 <= j < c implies x.ints()[i][j] == data.ints()[i][j] by {
            assert(column(x.ints(), j)[i] == column(data.ints(), j)[i]);
        }
        assert(x@[i] == x.data@[i]@);
        assert(data@[i] == data.data@[i]@);
        assert(x.ints()[i] =~= data.ints()[i]);
    }
    assert(x.ints() =~= data.ints());
}

} // verus!
