use linear_solvers::error::Error;
use linear_solvers::matrix::Matrix;
use linear_solvers::scalar::Scalar;

fn s(x: f32) -> Scalar {
    Scalar::from_bits(x.to_bits())
}

fn f(x: Scalar) -> f32 {
    f32::from_bits(x.to_bits())
}

fn scalars(rows: Vec<Vec<f32>>) -> Vec<Vec<Scalar>> {
    rows.into_iter()
        .map(|row| row.into_iter().map(s).collect())
        .collect()
}

fn matrix(rows: Vec<Vec<f32>>) -> Matrix {
    Matrix::from(scalars(rows)).unwrap()
}

fn floats(m: &Matrix) -> Vec<Vec<f32>> {
    m.values()
        .iter()
        .map(|row| row.iter().map(|x| f(*x)).collect())
        .collect()
}

#[test]
fn new_matrix() {
    let matrix = Matrix::new(2, 2);
    let assertion = vec![vec![0.0; 2]; 2];
    assert_eq!(floats(&matrix), assertion);
    assert_eq!(matrix.columns(), 2);
    assert_eq!(matrix.rows(), 2);
}

#[test]
fn square_matrix() {
    let matrix = Matrix::square(2);
    let assertion = vec![vec![0.0; 2]; 2];
    assert_eq!(floats(&matrix), assertion);
    assert_eq!(matrix.columns(), 2);
    assert_eq!(matrix.rows(), 2);
}

#[test]
fn identity_matrix() {
    let identity = Matrix::identity(3);
    assert_eq!(
        floats(&identity),
        vec![
            vec![1.0, 0.0, 0.0],
            vec![0.0, 1.0, 0.0],
            vec![0.0, 0.0, 1.0]
        ]
    );
}

#[test]
fn from_vector() {
    let matrix = matrix(vec![
        vec![2.0, 1.0, -1.0],
        vec![-3.0, -1.0, 2.0],
        vec![-2.0, 1.0, 2.0],
        vec![-2.0, 1.0, 2.0],
    ]);
    assert_eq!(matrix.columns(), 3);
    assert_eq!(matrix.rows(), 4);
}

#[test]
fn largest_in_column() {
    let mut matrix = Matrix::square(2);
    let target_col = 0;
    matrix.set(1, target_col, s(2.0));

    let (largest, (x, y)) = matrix.column_max(target_col);
    assert_eq!(f(largest), 2.0);
    assert_eq!((1, 0), (x, y));
}

#[test]
fn largest_in_row() {
    let mut matrix = Matrix::square(2);
    let target_row = 1;
    matrix.set(target_row, 1, s(2.0));
    let (largest, (x, y)) = matrix.row_max(target_row);
    assert_eq!(f(largest), 2.0);
    assert_eq!((1, 1), (x, y));
}

#[test]
fn swap_rows() {
    let mut m = matrix(vec![
        vec![2.0, 1.0, -1.0],
        vec![-3.0, -1.0, 2.0],
        vec![-2.0, 1.0, 2.0],
    ]);
    m.swap_rows((0, 1));
    m.swap_rows((1, 2));
    let assertion_matrix = matrix(vec![
        vec![-3.0, -1.0, 2.0],
        vec![-2.0, 1.0, 2.0],
        vec![2.0, 1.0, -1.0],
    ]);
    assert_eq!(m, assertion_matrix);
}

#[test]
fn scale() {}

#[test]
fn swap_columns() {
    let mut m = matrix(vec![
        vec![2.0, 1.0, -1.0],
        vec![-3.0, -1.0, 2.0],
        vec![-2.0, 1.0, 2.0],
    ]);
    m.swap_columns((0, 1));
    let assertion_matrix = matrix(vec![
        vec![1.0, 2.0, -1.0],
        vec![-1.0, -3.0, 2.0],
        vec![1.0, -2.0, 2.0],
    ]);
    assert_eq!(m, assertion_matrix);
}

#[test]
fn return_valid_row_length() {
    let mut matrix = matrix(vec![
        vec![2.0, 1.0, -1.0],
        vec![-3.0, -1.0, 2.0],
        vec![-2.0, 1.0, 2.0],
    ]);
    matrix.new_column();

    assert_eq!(matrix.columns(), 4);
    assert_eq!(matrix.columns_unchecked(), 4);
    assert!(!matrix.is_mangled());
}

#[test]
fn rows_of_differing_lengths_are_refused() {
    let result = Matrix::from(scalars(vec![vec![1.0, 2.0], vec![3.0]]));
    assert!(matches!(result, Err(Error::MangledMatrix)));
    let longer = Matrix::from(scalars(vec![vec![1.0], vec![3.0, 4.0], vec![5.0]]));
    assert!(matches!(longer, Err(Error::MangledMatrix)));
}

#[test]
fn no_rows_make_an_empty_matrix() {
    let m = Matrix::from(Vec::new()).unwrap();
    assert_eq!(m.rows(), 0);
    assert_eq!(m.columns(), 0);
    assert!(!m.is_mangled());
}

#[test]
fn a_matrix_without_rows_keeps_its_width() {
    let mut m = Matrix::new(0, 3);
    assert_eq!(m.rows(), 0);
    assert_eq!(m.columns(), 3);
    m.new_row();
    assert_eq!(floats(&m), vec![vec![0.0, 0.0, 0.0]]);
}

#[test]
fn get_reads_what_set_wrote() {
    let mut m = Matrix::new(2, 3);
    m.set(1, 2, s(-7.25));
    assert_eq!(f(m.get(1, 2)), -7.25);
    assert_eq!(f(m.get(0, 2)), 0.0);
    assert_eq!(floats(&m), vec![vec![0.0, 0.0, 0.0], vec![0.0, 0.0, -7.25]]);
}

#[test]
fn scale_row_multiplies_one_row() {
    let mut m = matrix(vec![vec![1.0, -2.0, 0.5], vec![3.0, 4.0, 5.0]]);
    m.scale_row(0, s(-3.0));
    assert_eq!(floats(&m), vec![vec![-3.0, 6.0, -1.5], vec![3.0, 4.0, 5.0]]);
}

#[test]
fn add_to_row_adds_the_addend() {
    let mut m = matrix(vec![vec![1.0, -2.0, 0.5], vec![3.0, 4.0, 5.0]]);
    m.add_to_row(1, s(1.5));
    assert_eq!(floats(&m), vec![vec![1.0, -2.0, 0.5], vec![4.5, 5.5, 6.5]]);
    m.add_to_row(0, s(-1.0));
    assert_eq!(floats(&m), vec![vec![0.0, -3.0, -0.5], vec![4.5, 5.5, 6.5]]);
}

#[test]
fn row_max_takes_the_first_of_equal_magnitudes() {
    let m = matrix(vec![vec![1.0, -4.0, 4.0, 2.0], vec![-3.0, 3.0, 3.0, 0.0]]);
    let (largest, place) = m.row_max(0);
    assert_eq!(f(largest), -4.0);
    assert_eq!(place, (0, 1));
    let (largest, place) = m.row_max(1);
    assert_eq!(f(largest), -3.0);
    assert_eq!(place, (1, 0));
}

#[test]
fn column_max_takes_the_first_of_equal_magnitudes() {
    let m = matrix(vec![vec![1.0, 0.0], vec![-5.0, 0.0], vec![5.0, 0.0]]);
    let (largest, place) = m.column_max(0);
    assert_eq!(f(largest), -5.0);
    assert_eq!(place, (1, 0));
    let (largest, place) = m.column_max(1);
    assert_eq!(f(largest), 0.0);
    assert_eq!(place, (0, 1));
}

#[test]
fn maxima_pass_over_a_nan_that_is_not_first() {
    let m = matrix(vec![vec![1.0, f32::NAN, 2.0], vec![f32::NAN, 7.0, 9.0]]);
    assert_eq!(m.row_max(0).1, (0, 2));
    let (largest, place) = m.row_max(1);
    assert!(f(largest).is_nan());
    assert_eq!(place, (1, 0));
}

#[test]
fn new_row_appends_zeros() {
    let mut m = matrix(vec![vec![1.0, 2.0]]);
    m.new_row();
    assert_eq!(m.rows(), 2);
    assert_eq!(m.columns(), 2);
    assert_eq!(floats(&m), vec![vec![1.0, 2.0], vec![0.0, 0.0]]);
}

#[test]
fn new_column_appends_zeros() {
    let mut m = matrix(vec![vec![1.0, 2.0], vec![3.0, 4.0]]);
    m.new_column();
    assert_eq!(m.rows(), 2);
    assert_eq!(m.columns(), 3);
    assert_eq!(floats(&m), vec![vec![1.0, 2.0, 0.0], vec![3.0, 4.0, 0.0]]);
}

#[test]
fn swapping_twice_restores_the_matrix() {
    let given = vec![vec![1.0, 2.0, 3.0], vec![4.0, 5.0, 6.0], vec![7.0, 8.0, 9.0]];
    let mut m = matrix(given.clone());
    m.swap_rows((0, 2));
    m.swap_rows((0, 2));
    m.swap_columns((1, 2));
    m.swap_columns((1, 2));
    m.swap_rows((1, 1));
    m.swap_columns((0, 0));
    assert_eq!(floats(&m), given);
}

#[test]
fn equality_compares_shape_and_values() {
    assert_eq!(matrix(vec![vec![0.0, 1.0]]), matrix(vec![vec![-0.0, 1.0]]));
    assert_ne!(matrix(vec![vec![0.0, 1.0]]), matrix(vec![vec![0.0, 2.0]]));
    assert_ne!(matrix(vec![vec![0.0, 1.0]]), matrix(vec![vec![0.0], vec![1.0]]));
    assert_ne!(Matrix::new(0, 2), Matrix::new(0, 3));
    assert_eq!(Matrix::new(0, 2), Matrix::new(0, 2));
    let with_nan = matrix(vec![vec![f32::NAN]]);
    assert!(with_nan != with_nan);
}
