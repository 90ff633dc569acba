use matrix_cipher::field::{Field, RandomRange};
use matrix_cipher::matrix::{Matrix, MatrixError};

fn m(rows: Vec<Vec<i64>>) -> Matrix<i64> {
    Matrix::from(rows)
}

#[test]
fn field_identities_of_i64() {
    assert_eq!(<i64 as Field>::zero(), 0);
    assert_eq!(<i64 as Field>::one(), 1);
}

#[test]
fn rand_range_stays_in_bounds() {
    for _ in 0..200 {
        let x = <i64 as RandomRange>::rand_range(&-3, &5);
        assert!((-3..=5).contains(&x));
    }
    assert_eq!(<i64 as RandomRange>::rand_range(&7, &7), 7);
}

#[test]
fn from_takes_dimensions_from_rows() {
    let a = m(vec![vec![1, 2, 3], vec![4, 5, 6]]);
    assert_eq!(a.n, 2);
    assert_eq!(a.m, 3);
}

#[test]
fn constructors_fill_as_named() {
    let z = Matrix::zero(2, 3);
    assert_eq!(z.data, vec![vec![0, 0, 0], vec![0, 0, 0]]);
    let o = Matrix::ones(3, 1);
    assert_eq!(o.data, vec![vec![1], vec![1], vec![1]]);
    let i = Matrix::identity(3);
    assert_eq!(i.data, vec![vec![1, 0, 0], vec![0, 1, 0], vec![0, 0, 1]]);
}

#[test]
fn random_entries_lie_in_range() {
    let r = Matrix::random(4, 5, &0, &2);
    assert_eq!((r.n, r.m), (4, 5));
    assert!(r.data.iter().all(|row| row.len() == 5 && row.iter().all(|&x| (0..=2).contains(&x))));
}

#[test]
fn dot_multiplies() {
    let a = m(vec![vec![1, 2], vec![3, 4]]);
    let b = m(vec![vec![5, 6, 7], vec![8, 9, 10]]);
    let c = a.dot(&b).unwrap();
    assert_eq!((c.n, c.m), (2, 3));
    assert_eq!(c.data, vec![vec![21, 24, 27], vec![47, 54, 61]]);
}

#[test]
fn dot_rejects_mismatched_inner_dimensions() {
    let a = m(vec![vec![1, 2], vec![3, 4]]);
    let b = m(vec![vec![1, 2, 3], vec![4, 5, 6], vec![7, 8, 9]]);
    assert!(matches!(a.dot(&b), Err(MatrixError::DimensionMismatch)));
}

#[test]
fn dot_reports_overflow() {
    let a = m(vec![vec![i64::MAX, 1]]);
    let b = m(vec![vec![1], vec![1]]);
    assert!(matches!(a.dot(&b), Err(MatrixError::Overflow)));
    let c = m(vec![vec![i64::MAX / 2 + 1]]);
    let d = m(vec![vec![2]]);
    assert!(matches!(c.dot(&d), Err(MatrixError::Overflow)));
}

#[test]
fn entrywise_operations() {
    let a = m(vec![vec![1, 2], vec![3, 4]]);
    let b = m(vec![vec![10, 20], vec![30, 40]]);
    assert_eq!(a.add(&b).unwrap().data, vec![vec![11, 22], vec![33, 44]]);
    assert_eq!(b.sub(&a).unwrap().data, vec![vec![9, 18], vec![27, 36]]);
    assert_eq!(a.hadamard(&b).unwrap().data, vec![vec![10, 40], vec![90, 160]]);
    assert_eq!(a.scale(-3).unwrap().data, vec![vec![-3, -6], vec![-9, -12]]);
}

#[test]
fn entrywise_operations_reject_other_shapes() {
    let a = m(vec![vec![1, 2], vec![3, 4]]);
    let b = m(vec![vec![1, 2, 3]]);
    assert!(matches!(a.add(&b), Err(MatrixError::DimensionMismatch)));
    assert!(matches!(a.sub(&b), Err(MatrixError::DimensionMismatch)));
    assert!(matches!(a.hadamard(&b), Err(MatrixError::DimensionMismatch)));
}

#[test]
fn entrywise_operations_report_overflow() {
    let a = m(vec![vec![i64::MAX]]);
    let one = m(vec![vec![1]]);
    let low = m(vec![vec![i64::MIN]]);
    assert!(matches!(a.add(&one), Err(MatrixError::Overflow)));
    assert!(matches!(low.sub(&one), Err(MatrixError::Overflow)));
    assert!(matches!(a.hadamard(&m(vec![vec![2]])), Err(MatrixError::Overflow)));
    assert!(matches!(low.scale(-1), Err(MatrixError::Overflow)));
}

#[test]
fn triangles() {
    let a = m(vec![vec![1, 2, 3], vec![4, 5, 6], vec![7, 8, 9]]);
    assert_eq!(a.tril().data, vec![vec![1, 0, 0], vec![4, 5, 0], vec![7, 8, 9]]);
    assert_eq!(a.triu().data, vec![vec![1, 2, 3], vec![0, 5, 6], vec![0, 0, 9]]);
    let r = m(vec![vec![1, 2, 3], vec![4, 5, 6]]);
    assert_eq!(r.tril().data, vec![vec![1, 0, 0], vec![4, 5, 0]]);
    assert_eq!(r.triu().data, vec![vec![1, 2, 3], vec![0, 5, 6]]);
}

#[test]
fn transpose_swaps_and_is_an_involution() {
    let a = m(vec![vec![1, 2, 3], vec![4, 5, 6]]);
    let t = a.transpose();
    assert_eq!((t.n, t.m), (3, 2));
    assert_eq!(t.data, vec![vec![1, 4], vec![2, 5], vec![3, 6]]);
    assert_eq!(t.transpose().data, a.data);
}

#[test]
fn solve_system_uses_both_triangles() {
    // L = [[2, 0], [1, 3]], U = [[1, 4], [0, 5]]; x = [3, -1]:
    // U x = [-1, -5], L (U x) = [-2, -16].
    let l = m(vec![vec![2, 99], vec![1, 3]]);
    let u = m(vec![vec![1, 4], vec![-7, 5]]);
    assert_eq!(Matrix::solve_system(&l, &u, &vec![-2, -16]), Ok(vec![3, -1]));
}

#[test]
fn solve_system_reports_no_whole_solution() {
    let l = m(vec![vec![2, 0], vec![0, 1]]);
    let u = m(vec![vec![1, 0], vec![0, 1]]);
    assert_eq!(Matrix::solve_system(&l, &u, &vec![3, 1]), Err(MatrixError::Inexact));
}

#[test]
fn solve_system_reports_overflow() {
    let l = m(vec![vec![-1]]);
    let u = m(vec![vec![1]]);
    assert_eq!(Matrix::solve_system(&l, &u, &vec![i64::MIN]), Err(MatrixError::Overflow));
}
