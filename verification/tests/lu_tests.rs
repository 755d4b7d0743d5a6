use math_lib::{Matrix, MatrixError};

fn float_matrix(rows: usize, cols: usize, values: Vec<Vec<f64>>) -> Matrix<f64> {
    let mut m = Matrix::new(rows, cols, 0.0f64);
    m.set(values).unwrap();
    m
}

fn lu(m: &Matrix<f64>) -> Result<(Matrix<f64>, Matrix<f64>, Vec<usize>), MatrixError> {
    m.lu_decompose(
        0.0,
        1.0,
        &|x: f64| x.abs(),
        &|candidate: f64, best: f64| candidate > best,
        &|pivot: f64| pivot < 1e-12,
        &|x: f64, y: f64| x / y,
        &|acc: f64, x: f64, y: f64| acc - x * y,
    )
}

fn inverse(m: &Matrix<f64>) -> Result<Matrix<f64>, MatrixError> {
    m.inverse(
        0.0,
        1.0,
        &|x: f64| x.abs(),
        &|candidate: f64, best: f64| candidate > best,
        &|pivot: f64| pivot < 1e-12,
        &|x: f64, y: f64| x / y,
        &|acc: f64, x: f64, y: f64| acc - x * y,
    )
}

#[test]
fn lu_of_a_permutation_matrix_swaps_rows() {
    let m = float_matrix(2, 2, vec![vec![0.0, 1.0], vec![1.0, 0.0]]);
    let (l, u, p) = lu(&m).unwrap();
    assert_eq!(p, vec![1, 0]);
    assert_eq!(l.entries(), &vec![1.0, 0.0, 0.0, 1.0]);
    assert_eq!(u.entries(), &vec![1.0, 0.0, 0.0, 1.0]);
}

#[test]
fn lu_picks_the_largest_pivot() {
    let m = float_matrix(2, 2, vec![vec![1.0, 2.0], vec![3.0, 4.0]]);
    let (l, u, p) = lu(&m).unwrap();
    assert_eq!(p, vec![1, 0]);
    assert_eq!(l.get(0, 0), Ok(1.0));
    assert_eq!(l.get(1, 1), Ok(1.0));
    assert_eq!(l.get(1, 0), Ok(0.0));
    assert_eq!(l.get(0, 1), Ok(1.0 / 3.0));
    assert_eq!(u.get(0, 0), Ok(3.0));
    assert_eq!(u.get(1, 0), Ok(4.0));
}

#[test]
fn lu_permutation_and_lower_factor_shape() {
    let m = float_matrix(
        3,
        3,
        vec![vec![2.0, 1.0, 1.0], vec![4.0, -6.0, 0.0], vec![-2.0, 7.0, 2.0]],
    );
    let (l, _u, p) = lu(&m).unwrap();
    let mut sorted = p.clone();
    sorted.sort();
    assert_eq!(sorted, vec![0, 1, 2]);
    for i in 0..3 {
        assert_eq!(l.get(i, i), Ok(1.0));
        for j in (i + 1)..3 {
            assert_eq!(l.get(j, i), Ok(0.0));
        }
    }
}

#[test]
fn lu_refuses_a_singular_matrix() {
    let m = float_matrix(2, 2, vec![vec![1.0, 2.0], vec![2.0, 4.0]]);
    assert_eq!(lu(&m).err(), Some(MatrixError::Singular));
    assert_eq!(inverse(&m).err(), Some(MatrixError::Singular));
}

#[test]
fn inverse_of_a_diagonal_matrix() {
    let m = float_matrix(2, 2, vec![vec![2.0, 0.0], vec![0.0, 4.0]]);
    assert_eq!(inverse(&m).unwrap().entries(), &vec![0.5, 0.0, 0.0, 0.25]);
}

#[test]
fn inverse_of_a_permutation_matrix() {
    let m = float_matrix(2, 2, vec![vec![0.0, 1.0], vec![1.0, 0.0]]);
    assert_eq!(inverse(&m).unwrap().entries(), &vec![0.0, 1.0, 1.0, 0.0]);
}

#[test]
fn inverse_of_an_upper_triangular_matrix() {
    let m = float_matrix(
        3,
        3,
        vec![vec![1.0, 2.0, 0.0], vec![0.0, 1.0, 0.0], vec![0.0, 0.0, 2.0]],
    );
    let inv = inverse(&m).unwrap();
    assert_eq!(inv.get_shape(), (3, 3));
    assert_eq!(inv.entries(), &vec![1.0, -2.0, 0.0, 0.0, 1.0, 0.0, 0.0, 0.0, 0.5]);
}

#[test]
fn inverse_of_a_general_matrix_is_close() {
    let m = float_matrix(2, 2, vec![vec![4.0, 7.0], vec![2.0, 6.0]]);
    let inv = inverse(&m).unwrap();
    let expected = [0.6, -0.7, -0.2, 0.4];
    for (got, want) in inv.entries().iter().zip(expected.iter()) {
        assert!((got - want).abs() < 1e-12);
    }
}

#[test]
fn inverse_refuses_a_non_square_matrix() {
    let m = Matrix::new(2, 3, 1.0f64);
    assert_eq!(inverse(&m).err(), Some(MatrixError::NotSquare));
}

#[test]
fn inverse_of_an_empty_matrix_is_empty() {
    let m = Matrix::new(0, 0, 1.0f64);
    assert_eq!(inverse(&m).unwrap().get_shape(), (0, 0));
}

fn det(m: &Matrix<f64>) -> Result<f64, MatrixError> {
    m.determinant_2x2(&|x: f64, y: f64| x * y, &|x: f64, y: f64| x - y)
}

fn inverse_2x2(m: &Matrix<f64>) -> Result<Matrix<f64>, MatrixError> {
    m.inverse_2x2(
        &|x: f64, y: f64| x * y,
        &|x: f64, y: f64| x - y,
        &|x: f64| x * -1.0,
        &|d: f64| d != 0.0,
    )
}

#[test]
fn determinant_2x2_values() {
    let m = float_matrix(2, 2, vec![vec![1.0, 2.0], vec![3.0, 4.0]]);
    assert_eq!(det(&m), Ok(-2.0));
    let wide = float_matrix(2, 3, vec![vec![1.0, 2.0, 3.0], vec![4.0, 5.0, 6.0]]);
    assert_eq!(det(&wide), Ok(1.0 * 4.0 - 2.0 * 3.0));
    assert_eq!(det(&Matrix::new(3, 3, 1.0f64)), Err(MatrixError::NotTwoByTwo));
}

#[test]
fn inverse_2x2_scales_the_adjugate_by_the_determinant() {
    let m = float_matrix(2, 2, vec![vec![1.0, 2.0], vec![3.0, 4.0]]);
    assert_eq!(inverse_2x2(&m).unwrap().entries(), &vec![-8.0, 4.0, 6.0, -2.0]);
}

#[test]
fn inverse_2x2_refusals() {
    let singular = float_matrix(2, 2, vec![vec![1.0, 2.0], vec![2.0, 4.0]]);
    assert_eq!(inverse_2x2(&singular).err(), Some(MatrixError::NotInvertible));
    assert_eq!(inverse_2x2(&Matrix::new(3, 3, 1.0f64)).err(), Some(MatrixError::NotTwoByTwo));
}
