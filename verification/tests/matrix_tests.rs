use math_lib::{matmul, product_shape, Matrix, MatrixError};

fn mul_add(acc: i64, x: i64, y: i64) -> i64 {
    acc + x * y
}

fn filled(rows: usize, cols: usize, values: Vec<Vec<i64>>) -> Matrix<i64> {
    let mut m = Matrix::new(rows, cols, 0i64);
    assert_eq!(m.set(values), Ok(()));
    m
}

#[test]
fn new_fills_every_entry() {
    let m = Matrix::new(2, 3, 7i64);
    assert_eq!(m.get_shape(), (2, 3));
    assert_eq!(m.rows(), 2);
    assert_eq!(m.cols(), 3);
    assert_eq!(m.entries(), &vec![7i64; 6]);
}

#[test]
fn from_entries_checks_length() {
    assert!(Matrix::from_entries(2, 2, vec![1i64, 2, 3, 4]).is_some());
    assert!(Matrix::from_entries(2, 2, vec![1i64, 2, 3]).is_none());
    assert!(Matrix::from_entries(0, 5, Vec::<i64>::new()).is_some());
}

#[test]
fn get_after_set_reads_back_written_values() {
    let m = filled(2, 3, vec![vec![1, 2, 3], vec![4, 5, 6]]);
    // x is the column, y the row
    assert_eq!(m.get(0, 0), Ok(1));
    assert_eq!(m.get(2, 0), Ok(3));
    assert_eq!(m.get(0, 1), Ok(4));
    assert_eq!(m.get(2, 1), Ok(6));
    assert_eq!(m.entries(), &vec![1, 2, 3, 4, 5, 6]);
}

#[test]
fn get_out_of_bounds_is_refused() {
    let m = filled(2, 3, vec![vec![1, 2, 3], vec![4, 5, 6]]);
    assert_eq!(m.get(3, 0), Err(MatrixError::IndexOutOfBounds));
    assert_eq!(m.get(0, 2), Err(MatrixError::IndexOutOfBounds));
    assert_eq!(m.get(1, 1), Ok(5));
}

#[test]
fn set_with_wrong_row_count_changes_nothing() {
    let mut m = Matrix::new(2, 2, 9i64);
    assert_eq!(
        m.set(vec![vec![1, 2]]),
        Err(MatrixError::RowCountMismatch { expected: 2, got: 1 })
    );
    assert_eq!(m.entries(), &vec![9, 9, 9, 9]);
}

#[test]
fn set_with_bad_row_keeps_rows_before_it() {
    let mut m = Matrix::new(3, 2, 0i64);
    assert_eq!(
        m.set(vec![vec![1, 2], vec![3], vec![5, 6]]),
        Err(MatrixError::ColumnCountMismatch { expected: 2, got: 1 })
    );
    assert_eq!(m.entries(), &vec![1, 2, 0, 0, 0, 0]);
}

#[test]
fn set_twice_from_different_starts_agrees() {
    let mut a = Matrix::new(2, 2, 0i64);
    let mut b = Matrix::new(2, 2, 5i64);
    assert_eq!(a.set(vec![vec![1, 2], vec![3, 4]]), Ok(()));
    assert_eq!(b.set(vec![vec![1, 2], vec![3, 4]]), Ok(()));
    assert_eq!(a.entries(), b.entries());
}

#[test]
fn zip_with_adds_and_subtracts_elementwise() {
    let a = filled(2, 2, vec![vec![1, 2], vec![3, 4]]);
    let b = filled(2, 2, vec![vec![10, 20], vec![30, 40]]);
    let s = a.zip_with(&b, |x, y| x + y).unwrap();
    assert_eq!(s.entries(), &vec![11, 22, 33, 44]);
    let d = b.zip_with(&a, |x, y| x - y).unwrap();
    assert_eq!(d.entries(), &vec![9, 18, 27, 36]);
    assert_eq!(d.get_shape(), (2, 2));
}

#[test]
fn zip_with_refuses_other_shapes() {
    let a = Matrix::new(2, 2, 1i64);
    let b = Matrix::new(2, 3, 1i64);
    assert_eq!(a.zip_with(&b, |x, y| x + y).err(), Some(MatrixError::ShapeMismatch));
}

#[test]
fn map_scales_and_negates() {
    let a = filled(1, 3, vec![vec![1, -2, 3]]);
    assert_eq!(a.map(|x| x * 3).entries(), &vec![3, -6, 9]);
    assert_eq!(a.map(|x| -x).entries(), &vec![-1, 2, -3]);
    let text = a.map(|x| format!("{}", x));
    assert_eq!(text.entries(), &vec!["1".to_string(), "-2".to_string(), "3".to_string()]);
}

#[test]
fn equals_by_compares_shape_then_entries() {
    let a = filled(2, 2, vec![vec![1, 2], vec![3, 4]]);
    let b = filled(2, 2, vec![vec![1, 2], vec![3, 4]]);
    let c = filled(2, 2, vec![vec![1, 2], vec![3, 5]]);
    let d = filled(1, 4, vec![vec![1, 2, 3, 4]]);
    assert!(a.equals_by(&b, |x, y| x == y));
    assert!(!a.equals_by(&c, |x, y| x == y));
    assert!(!a.equals_by(&d, |x, y| x == y));
}

#[test]
fn matmul_multiplies_rows_by_columns() {
    let a = filled(2, 3, vec![vec![1, 2, 3], vec![4, 5, 6]]);
    let b = filled(3, 2, vec![vec![7, 8], vec![9, 10], vec![11, 12]]);
    let p = matmul(&a, &b, 0, &mul_add).unwrap();
    assert_eq!(p.get_shape(), (2, 2));
    assert_eq!(p.entries(), &vec![58, 64, 139, 154]);
}

#[test]
fn matmul_refuses_mismatched_factors() {
    let a = Matrix::new(2, 3, 1i64);
    let b = Matrix::new(2, 3, 1i64);
    let expected = MatrixError::ProductMismatch { left_rows: 2, left_cols: 3, right_rows: 2, right_cols: 3 };
    assert_eq!(matmul(&a, &b, 0, &mul_add).err(), Some(expected));
    assert_eq!(product_shape(&a, &b), Err(expected));
    assert_eq!(product_shape(&a, &Matrix::new(3, 4, 0i64)), Ok((2, 4)));
}

#[test]
fn matmul_with_floats_matches_sum_of_products() {
    let mut a = Matrix::new(2, 2, 0.0f64);
    a.set(vec![vec![1.5, 2.0], vec![-1.0, 0.5]]).unwrap();
    let p = matmul(&a, &a, 0.0, &|acc: f64, x: f64, y: f64| acc + x * y).unwrap();
    assert_eq!(p.entries(), &vec![0.25, 4.0, -2.0, -1.75]);
}

#[test]
fn square_and_cube_of_a_shear() {
    let a = filled(2, 2, vec![vec![1, 1], vec![0, 1]]);
    assert_eq!(a.square(0, &mul_add).unwrap().entries(), &vec![1, 2, 0, 1]);
    assert_eq!(a.cube(0, &mul_add).unwrap().entries(), &vec![1, 3, 0, 1]);
}

#[test]
fn square_and_cube_refuse_non_square() {
    let a = Matrix::new(2, 3, 1i64);
    let expected = MatrixError::ProductMismatch { left_rows: 2, left_cols: 3, right_rows: 2, right_cols: 3 };
    assert_eq!(a.square(0, &mul_add).err(), Some(expected));
    assert_eq!(a.cube(0, &mul_add).err(), Some(expected));
}

#[test]
fn transpose_keeps_square_matrix_in_place() {
    let a = filled(2, 2, vec![vec![1, 2], vec![3, 4]]);
    let t = a.transpose();
    assert_eq!(t.get_shape(), (2, 2));
    assert_eq!(t.entries(), &vec![1, 2, 3, 4]);
}

#[test]
fn transpose_of_tall_matrix_swaps_shape() {
    // 3 rows, 2 columns: position j * 3 + i takes position j * 2 + i
    let a = filled(3, 2, vec![vec![1, 2], vec![3, 4], vec![5, 6]]);
    let t = a.transpose();
    assert_eq!(t.get_shape(), (2, 3));
    assert_eq!(t.entries(), &vec![1, 2, 3, 3, 4, 5]);
}

#[test]
fn transpose_of_single_column() {
    let a = filled(3, 1, vec![vec![1], vec![2], vec![3]]);
    let t = a.transpose();
    assert_eq!(t.get_shape(), (1, 3));
    assert_eq!(t.entries(), &vec![1, 2, 3]);
}

#[test]
fn dot_on_square_pairs_rows_with_rows() {
    let a = filled(2, 2, vec![vec![1, 2], vec![3, 4]]);
    let b = filled(2, 2, vec![vec![5, 6], vec![7, 8]]);
    let d = a.dot(&b, 0, &mul_add).unwrap();
    // entry (r, c) is row r of a against row c of b
    assert_eq!(d.entries(), &vec![17, 23, 39, 53]);
}

#[test]
fn dot_refuses_mismatched_factors() {
    let a = Matrix::new(2, 3, 1i64);
    let b = Matrix::new(2, 2, 1i64);
    let expected = MatrixError::ProductMismatch { left_rows: 2, left_cols: 3, right_rows: 2, right_cols: 2 };
    assert_eq!(a.dot(&b, 0, &mul_add).err(), Some(expected));
}

#[test]
fn dot_entry_computes_one_position() {
    let a = filled(2, 2, vec![vec![1, 2], vec![3, 4]]);
    let b = filled(2, 2, vec![vec![5, 6], vec![7, 8]]);
    let t = b.transpose();
    assert_eq!(a.dot_entry(&t, 2, 3, 0, &mul_add), 53);
    assert_eq!(a.dot_entry(&t, 2, 1, 0, &mul_add), 23);
}

#[test]
fn require_square_and_two_by_two() {
    assert_eq!(Matrix::new(3, 3, 0i64).require_square(), Ok(3));
    assert_eq!(Matrix::new(3, 2, 0i64).require_square(), Err(MatrixError::NotSquare));
    assert_eq!(Matrix::new(2, 2, 0i64).require_two_by_two(), Ok(()));
    assert_eq!(Matrix::new(2, 3, 0i64).require_two_by_two(), Ok(()));
    assert_eq!(Matrix::new(3, 3, 0i64).require_two_by_two(), Err(MatrixError::NotTwoByTwo));
}

#[test]
fn matmul_with_empty_inner_dimension_gives_zeros() {
    let a = Matrix::new(2, 0, 0i64);
    let b = Matrix::new(0, 3, 0i64);
    let p = matmul(&a, &b, 0, &mul_add).unwrap();
    assert_eq!(p.get_shape(), (2, 3));
    assert_eq!(p.entries(), &vec![0; 6]);
}

#[test]
fn transpose_of_empty_matrix() {
    let a = Matrix::new(0, 4, 0i64);
    let t = a.transpose();
    assert_eq!(t.get_shape(), (4, 0));
    assert!(t.entries().is_empty());
}
