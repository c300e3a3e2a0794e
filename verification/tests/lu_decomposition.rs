use linear_solvers::error::Error;
use linear_solvers::lu_decomposition::{
    backward_substitution, crout, decompose, determinant, forward_substitution, TINY_BITS,
};
use linear_solvers::matrix::Matrix;
use linear_solvers::scalar::Scalar;

fn s(x: f32) -> Scalar {
    Scalar::from_bits(x.to_bits())
}

fn f(x: Scalar) -> f32 {
    f32::from_bits(x.to_bits())
}

fn matrix(rows: Vec<Vec<f32>>) -> Matrix {
    Matrix::from(
        rows.into_iter()
            .map(|row| row.into_iter().map(s).collect())
            .collect(),
    )
    .unwrap()
}

fn floats(m: &Matrix) -> Vec<Vec<f32>> {
    m.values()
        .iter()
        .map(|row| row.iter().map(|x| f(*x)).collect())
        .collect()
}

fn product(a: &Vec<Vec<f32>>, b: &Vec<Vec<f32>>) -> Vec<Vec<f32>> {
    let mut out = vec![vec![0.0f32; b[0].len()]; a.len()];
    for i in 0..a.len() {
        for j in 0..b[0].len() {
            for k in 0..b.len() {
                out[i][j] += a[i][k] * b[k][j];
            }
        }
    }
    out
}

fn close(a: &Vec<Vec<f32>>, b: &Vec<Vec<f32>>, tolerance: f32) -> bool {
    a.len() == b.len()
        && a.iter().zip(b.iter()).all(|(x, y)| {
            x.len() == y.len() && x.iter().zip(y.iter()).all(|(p, q)| (p - q).abs() <= tolerance)
        })
}

#[test]
fn forward_substitution_3x1() {
    let mut matrix_a = matrix(vec![
        vec![-12.0, 6.0, 18.0],
        vec![6.0, 4.0, 5.0],
        vec![-48.0, 24.0, 42.0],
    ]);
    let result = decompose(&mut matrix_a);
    let (permutation, ..) = result.unwrap();
    let mut b = matrix(vec![vec![19.5], vec![6.0], vec![48.0]]);

    let permutated_solution = matrix(vec![vec![6.0], vec![96.0], vec![7.5]]);
    forward_substitution(&matrix_a, &permutation, &mut b);
    assert_eq!(b, permutated_solution);
}

#[test]
fn backward_substitution_3x1() {
    let mut matrix_a = matrix(vec![
        vec![-12.0, 6.0, 18.0],
        vec![6.0, 4.0, 5.0],
        vec![-48.0, 24.0, 42.0],
    ]);
    let result = decompose(&mut matrix_a);
    let (permutation, ..) = result.unwrap();
    let mut b = matrix(vec![vec![19.5], vec![6.0], vec![48.0]]);
    let solution = matrix(vec![vec![0.0], vec![0.25], vec![1.0]]);
    forward_substitution(&matrix_a, &permutation, &mut b);
    backward_substitution(&matrix_a, &mut b);
    assert_eq!(b, solution);
}

#[test]
fn forward_substitution_2x1() {
    let mut matrix_a = matrix(vec![vec![3.0, -2.0], vec![6.0, 4.0]]);
    let mut matrix_b = matrix(vec![vec![4.0], vec![-8.0]]);

    let solution = matrix(vec![vec![4.0], vec![-16.0]]);
    let result = decompose(&mut matrix_a);
    let (permutation, ..) = result.unwrap();

    forward_substitution(&matrix_a, &permutation, &mut matrix_b);
    assert_eq!(matrix_b, solution);
}

#[test]
fn backward_substitution_2x1() {
    let mut matrix_a = matrix(vec![vec![3.0, -2.0], vec![6.0, 4.0]]);
    let mut matrix_b = matrix(vec![vec![4.0], vec![-8.0]]);
    let solution = matrix(vec![vec![0.0], vec![-2.0]]);
    let result = decompose(&mut matrix_a);
    let (permutation, ..) = result.unwrap();

    forward_substitution(&matrix_a, &permutation, &mut matrix_b);
    backward_substitution(&matrix_a, &mut matrix_b);
    assert_eq!(matrix_b, solution);
}

#[test]
fn forward_substitution_2x2() {
    let mut matrix_a = matrix(vec![vec![3.0, -2.0], vec![6.0, 4.0]]);
    let result = decompose(&mut matrix_a);
    let (permutation, ..) = result.unwrap();
    let mut b = Matrix::identity(2);

    let permutated_solution = matrix(vec![vec![1.0, 0.0], vec![-2.0, 1.0]]);
    forward_substitution(&matrix_a, &permutation, &mut b);
    assert_eq!(b, permutated_solution);
}

#[test]
fn backward_substitution_2x2() {
    let mut matrix_a = matrix(vec![vec![3.0, -2.0], vec![6.0, 4.0]]);
    let result = decompose(&mut matrix_a);
    let (permutation, ..) = result.unwrap();
    let mut b = Matrix::identity(2);

    let permutated_solution = matrix(vec![
        vec![1.0 / 6.0, 1.0 / 12.0],
        vec![-1.0 / 4.0, 1.0 / 8.0],
    ]);
    forward_substitution(&matrix_a, &permutation, &mut b);
    backward_substitution(&matrix_a, &mut b);
    assert_eq!(b, permutated_solution);
}

#[test]
fn return_decomposition_in_place_of_a_2x2() {
    let mut matrix_a = matrix(vec![vec![-2.0, 3.0], vec![6.0, 4.0]]);
    let result = decompose(&mut matrix_a);
    assert!(result.is_ok());
    let (operations, parity) = result.unwrap();
    let solution = matrix(vec![vec![6.0, 4.0], vec![-1.0 / 3.0, 13.0 / 3.0]]);
    assert_eq!(matrix_a, solution);
    assert_eq!(parity, -1);
    assert_eq!(operations, vec![1, 1]);
}

#[test]
fn return_solution_in_place_of_2x1() {
    let mut matrix_a = matrix(vec![vec![3.0, -2.0], vec![6.0, 4.0]]);
    let mut matrix_b = matrix(vec![vec![4.0], vec![-8.0]]);
    let solution = matrix(vec![vec![0.0], vec![-2.0]]);
    let result = decompose(&mut matrix_a);
    let (permutation, ..) = result.unwrap();

    crout(&matrix_a, &permutation, &mut matrix_b);
    assert_eq!(matrix_b, solution);
}

#[test]
fn return_decomposition_in_place_of_a_3x3() {
    let mut matrix_a = matrix(vec![
        vec![-12.0, 6.0, 18.0],
        vec![6.0, 4.0, 5.0],
        vec![-48.0, 24.0, 42.0],
    ]);

    let result = decompose(&mut matrix_a);
    assert!(result.is_ok());
    let (operations, parity) = result.unwrap();
    let solution = matrix(vec![
        vec![6.0, 4.0, 5.0],
        vec![-8.0, 56.0, 82.0],
        vec![-2.0, 0.25, 7.5],
    ]);
    assert_eq!(matrix_a, solution);
    assert_eq!(parity, 1);
    assert_eq!(operations, vec![1, 2, 2]);
}

#[test]
fn return_solution_in_place_of_3x1() {
    let mut matrix_a = matrix(vec![
        vec![-12.0, 6.0, 18.0],
        vec![6.0, 4.0, 5.0],
        vec![-48.0, 24.0, 42.0],
    ]);
    let result = decompose(&mut matrix_a);
    let (permutation, ..) = result.unwrap();
    let mut b = matrix(vec![vec![19.5], vec![6.0], vec![48.0]]);
    let solution = matrix(vec![vec![1.0], vec![0.0], vec![0.25]]);
    crout(&matrix_a, &permutation, &mut b);
    assert_eq!(b, solution);
}

#[test]
fn return_inverse() {
    let mut matrix_a = matrix(vec![vec![3.0, -2.0], vec![6.0, 4.0]]);
    let mut matrix_b = Matrix::identity(2);
    let solution = matrix(vec![
        vec![4.0 / 24.0, 2.0 / 24.0],
        vec![-6.0 / 24.0, 3.0 / 24.0],
    ]);
    let result = decompose(&mut matrix_a);
    assert!(result.is_ok());
    let (permutation, ..) = result.unwrap();
    crout(&matrix_a, &permutation, &mut matrix_b);
    assert_eq!(matrix_b, solution);
}

#[test]
fn return_determinant() {
    let mut matrix_a = matrix(vec![vec![3.0, -2.0], vec![6.0, 4.0]]);
    let mut determinant = 1.0;
    let solution = 24.0;
    let result = decompose(&mut matrix_a);
    let (.., parity) = result.unwrap();
    determinant *= parity as f32;
    for row in 0..matrix_a.rows() {
        determinant *= f(matrix_a.values()[row][row]);
    }
    assert_eq!(determinant, solution);
}

#[test]
fn decomposition_of_the_documented_2x2() {
    let mut matrix_a = matrix(vec![vec![3.0, -2.0], vec![6.0, 4.0]]);
    let (operations, parity) = decompose(&mut matrix_a).unwrap();
    assert_eq!(floats(&matrix_a), vec![vec![3.0, -2.0], vec![2.0, 8.0]]);
    assert_eq!(operations, vec![0, 1]);
    assert_eq!(parity, 1);
}

#[test]
fn a_row_of_zeros_is_singular() {
    let rows = vec![
        vec![1.0, 2.0, 3.0],
        vec![0.0, -0.0, 0.0],
        vec![4.0, 5.0, 6.0],
    ];
    let mut matrix_a = matrix(rows.clone());
    let result = decompose(&mut matrix_a);
    assert!(matches!(result, Err(Error::SingularMatrix)));
    assert_eq!(floats(&matrix_a), rows);
}

#[test]
fn a_first_row_of_zeros_is_singular() {
    let mut matrix_a = matrix(vec![vec![0.0, 0.0], vec![1.0, 2.0]]);
    assert!(matches!(decompose(&mut matrix_a), Err(Error::SingularMatrix)));
    let mut single = matrix(vec![vec![0.0]]);
    assert!(matches!(decompose(&mut single), Err(Error::SingularMatrix)));
}

#[test]
fn an_empty_matrix_decomposes_to_nothing() {
    let mut matrix_a = Matrix::new(0, 0);
    let (operations, parity) = decompose(&mut matrix_a).unwrap();
    assert_eq!(operations, Vec::<usize>::new());
    assert_eq!(parity, 1);
}

#[test]
fn a_zero_pivot_gives_way_to_the_tiny_value() {
    // Two equal rows: no row is zero, but the second pivot is.
    let mut matrix_a = matrix(vec![vec![1.0, 2.0], vec![1.0, 2.0]]);
    let (operations, parity) = decompose(&mut matrix_a).unwrap();
    assert_eq!(operations, vec![0, 1]);
    assert_eq!(parity, 1);
    assert_eq!(matrix_a.get(0, 0).to_bits(), 1.0f32.to_bits());
    assert_eq!(matrix_a.get(0, 1).to_bits(), 2.0f32.to_bits());
    assert_eq!(matrix_a.get(1, 0).to_bits(), 1.0f32.to_bits());
    assert_eq!(matrix_a.get(1, 1).to_bits(), TINY_BITS);
    assert_eq!(f(matrix_a.get(1, 1)), 1.0e-20);
}

#[test]
fn the_pivot_is_the_first_of_equal_scaled_magnitudes() {
    // Every row scales to 1 in the first column: the first row stays.
    let mut matrix_a = matrix(vec![vec![2.0, 1.0], vec![-4.0, 1.0]]);
    let (operations, parity) = decompose(&mut matrix_a).unwrap();
    assert_eq!(operations, vec![0, 1]);
    assert_eq!(parity, 1);
    assert_eq!(floats(&matrix_a), vec![vec![2.0, 1.0], vec![-2.0, 3.0]]);
}

#[test]
fn the_pivot_goes_by_scaled_magnitude() {
    // 3 of 100 is less, in proportion, than 2 of 2.
    let mut matrix_a = matrix(vec![vec![3.0, 100.0], vec![2.0, 1.0]]);
    let (operations, parity) = decompose(&mut matrix_a).unwrap();
    assert_eq!(operations, vec![1, 1]);
    assert_eq!(parity, -1);
    assert_eq!(floats(&matrix_a), vec![vec![2.0, 1.0], vec![1.5, 98.5]]);
}

#[test]
fn the_factors_multiply_back_to_the_permuted_matrix() {
    let given = vec![
        vec![-12.0, 6.0, 18.0],
        vec![6.0, 4.0, 5.0],
        vec![-48.0, 24.0, 42.0],
    ];
    let mut matrix_a = matrix(given.clone());
    let (operations, _) = decompose(&mut matrix_a).unwrap();
    let lu = floats(&matrix_a);
    let n = lu.len();
    let mut lower = vec![vec![0.0f32; n]; n];
    let mut upper = vec![vec![0.0f32; n]; n];
    for i in 0..n {
        for j in 0..n {
            if i > j {
                lower[i][j] = lu[i][j];
            } else {
                upper[i][j] = lu[i][j];
            }
        }
        lower[i][i] = 1.0;
    }
    let mut permuted = given.clone();
    for (k, &row) in operations.iter().enumerate() {
        permuted.swap(k, row);
    }
    assert!(close(&product(&lower, &upper), &permuted, 1.0e-4));
}

#[test]
fn the_determinant_matches_the_cofactor_expansion() {
    let given = vec![
        vec![-12.0f32, 6.0, 18.0],
        vec![6.0, 4.0, 5.0],
        vec![-48.0, 24.0, 42.0],
    ];
    let m = &given;
    let expected = m[0][0] * (m[1][1] * m[2][2] - m[1][2] * m[2][1])
        - m[0][1] * (m[1][0] * m[2][2] - m[1][2] * m[2][0])
        + m[0][2] * (m[1][0] * m[2][1] - m[1][1] * m[2][0]);
    let mut matrix_a = matrix(given.clone());
    let (_, parity) = decompose(&mut matrix_a).unwrap();
    let mut determinant = parity as f32;
    for i in 0..3 {
        determinant *= f(matrix_a.get(i, i));
    }
    assert_eq!(expected, 2520.0);
    assert_eq!(determinant, 2520.0);
}

#[test]
fn forward_substitution_skips_leading_zeros() {
    let mut matrix_a = matrix(vec![vec![3.0, -2.0], vec![6.0, 4.0]]);
    let (permutation, _) = decompose(&mut matrix_a).unwrap();
    let mut b = matrix(vec![vec![0.0, 5.0], vec![7.0, 0.0]]);
    forward_substitution(&matrix_a, &permutation, &mut b);
    // First column: the leading zero is passed, 7 is only noted.
    // Second column: 0 - 2 * 5 = -10.
    assert_eq!(floats(&b), vec![vec![0.0, 5.0], vec![7.0, -10.0]]);
}

#[test]
fn forward_substitution_aligns_every_column_once() {
    let mut matrix_a = matrix(vec![
        vec![-12.0, 6.0, 18.0],
        vec![6.0, 4.0, 5.0],
        vec![-48.0, 24.0, 42.0],
    ]);
    let (permutation, _) = decompose(&mut matrix_a).unwrap();
    assert_eq!(permutation, vec![1, 2, 2]);
    let mut b = matrix(vec![vec![0.0, 1.0], vec![0.0, 2.0], vec![0.0, 3.0]]);
    forward_substitution(&matrix_a, &permutation, &mut b);
    // The pass of the first column moves nothing in the second. The second
    // column (1, 2, 3) is aligned to (2, 3, 1) and then substituted:
    // 3 + 8 * 2 = 19, and 1 + 2 * 2 - 0.25 * 19 = 0.25.
    assert_eq!(
        floats(&b),
        vec![vec![0.0, 2.0], vec![0.0, 19.0], vec![0.0, 0.25]]
    );
}

#[test]
fn forward_substitution_of_the_identity_under_an_exchange() {
    let a = matrix(vec![vec![1.0, 0.0], vec![2.0, 1.0]]);
    let permutation = vec![1, 1];
    let mut b = Matrix::identity(2);
    forward_substitution(&a, &permutation, &mut b);
    assert_eq!(b, matrix(vec![vec![0.0, 1.0], vec![1.0, -2.0]]));
}

#[test]
fn forward_substitution_leaves_the_other_columns_alone() {
    let a = matrix(vec![vec![1.0, 0.0], vec![2.0, 1.0]]);
    let permutation = vec![1, 1];
    // One column at a time gives what both columns give together.
    let mut both = matrix(vec![vec![3.0, 5.0], vec![4.0, 6.0]]);
    forward_substitution(&a, &permutation, &mut both);
    let mut first = matrix(vec![vec![3.0], vec![4.0]]);
    forward_substitution(&a, &permutation, &mut first);
    let mut second = matrix(vec![vec![5.0], vec![6.0]]);
    forward_substitution(&a, &permutation, &mut second);
    let both = floats(&both);
    assert_eq!(vec![vec![both[0][0]], vec![both[1][0]]], floats(&first));
    assert_eq!(vec![vec![both[0][1]], vec![both[1][1]]], floats(&second));
    assert_eq!(both, vec![vec![4.0, 6.0], vec![-5.0, -7.0]]);
}

#[test]
fn substitution_solves_every_column_where_rows_were_exchanged() {
    let rows = vec![
        vec![-12.0, 6.0, 18.0],
        vec![6.0, 4.0, 5.0],
        vec![-48.0, 24.0, 42.0],
    ];
    let rhs = vec![vec![19.5, 1.0], vec![6.0, 0.0], vec![48.0, -2.0]];
    let mut lu = matrix(rows.clone());
    let (permutation, _) = decompose(&mut lu).unwrap();
    assert_eq!(permutation, vec![1, 2, 2]);
    let mut x = matrix(rhs.clone());
    forward_substitution(&lu, &permutation, &mut x);
    backward_substitution(&lu, &mut x);
    assert!(close(&product(&rows, &floats(&x)), &rhs, 1.0e-4));
    let x = floats(&x);
    assert_eq!(vec![x[0][0], x[1][0], x[2][0]], vec![0.0, 0.25, 1.0]);
}

#[test]
fn crout_exchanges_the_rows_of_the_inverse_once_more() {
    let mut a = matrix(vec![vec![0.0, 1.0], vec![2.0, 0.0]]);
    let (permutation, parity) = decompose(&mut a).unwrap();
    assert_eq!(permutation, vec![1, 1]);
    assert_eq!(parity, -1);
    assert_eq!(a, matrix(vec![vec![2.0, 0.0], vec![0.0, 1.0]]));

    // The substitution finds the inverse, (0, 0.5) over (1, 0).
    let mut x = Matrix::identity(2);
    forward_substitution(&a, &permutation, &mut x);
    backward_substitution(&a, &mut x);
    assert_eq!(x, matrix(vec![vec![0.0, 0.5], vec![1.0, 0.0]]));

    // The last step exchanges its rows.
    let mut b = Matrix::identity(2);
    crout(&a, &permutation, &mut b);
    assert_eq!(b, matrix(vec![vec![1.0, 0.0], vec![0.0, 0.5]]));
}

#[test]
fn the_last_step_undoes_the_alignment_where_nothing_is_substituted() {
    // With the unit matrix as factors both substitutions change no value:
    // the forward pass aligns every column, the last step restores it.
    let a = Matrix::identity(3);
    let permutation = vec![2, 2, 2];
    let rhs = vec![vec![1.0, 4.0], vec![2.0, 5.0], vec![3.0, 6.0]];
    let mut aligned = matrix(rhs.clone());
    forward_substitution(&a, &permutation, &mut aligned);
    assert_eq!(floats(&aligned), vec![vec![3.0, 6.0], vec![1.0, 4.0], vec![2.0, 5.0]]);
    let mut b = matrix(rhs.clone());
    crout(&a, &permutation, &mut b);
    assert_eq!(floats(&b), rhs);
}

#[test]
fn crout_and_gauss_jordan_agree_where_no_row_was_exchanged() {
    let rows = vec![vec![3.0, -2.0], vec![6.0, 4.0]];
    let mut lu = matrix(rows.clone());
    let (permutation, _) = decompose(&mut lu).unwrap();
    assert_eq!(permutation, vec![0, 1]);
    let mut b = matrix(vec![vec![4.0], vec![-8.0]]);
    crout(&lu, &permutation, &mut b);

    let mut a = matrix(rows);
    let mut b2 = matrix(vec![vec![4.0], vec![-8.0]]);
    linear_solvers::gauss_jordan::gaussj(&mut a, &mut b2, false).unwrap();
    assert_eq!(b, b2);
}

#[test]
fn the_determinant_is_the_parity_times_the_diagonal() {
    let mut matrix_a = matrix(vec![vec![3.0, -2.0], vec![6.0, 4.0]]);
    let (_, parity) = decompose(&mut matrix_a).unwrap();
    assert_eq!(f(determinant(&matrix_a, parity)), 24.0);

    // One exchange of rows: the parity turns the sign of 6 * (13 / 3).
    let mut exchanged = matrix(vec![vec![-2.0, 3.0], vec![6.0, 4.0]]);
    let (_, parity) = decompose(&mut exchanged).unwrap();
    assert_eq!(parity, -1);
    assert_eq!(f(determinant(&exchanged, parity)), -6.0 * (13.0f32 / 3.0));
    assert_eq!(f(determinant(&exchanged, 1)), 6.0 * (13.0f32 / 3.0));

    assert_eq!(f(determinant(&Matrix::new(0, 0), 1)), 1.0);
    assert_eq!(f(determinant(&Matrix::new(0, 0), -1)), -1.0);
}

#[test]
fn crout_leaves_the_solution_in_exchanged_order_where_rows_were_exchanged() {
    let rows = vec![
        vec![-12.0, 6.0, 18.0],
        vec![6.0, 4.0, 5.0],
        vec![-48.0, 24.0, 42.0],
    ];
    let rhs = vec![vec![19.5], vec![6.0], vec![48.0]];

    let mut a = matrix(rows.clone());
    let mut x = matrix(rhs.clone());
    linear_solvers::gauss_jordan::gaussj(&mut a, &mut x, false).unwrap();
    assert!(close(
        &floats(&x),
        &vec![vec![0.0], vec![0.25], vec![1.0]],
        1.0e-5
    ));
    assert!(close(&product(&rows, &floats(&x)), &rhs, 1.0e-4));

    // The substitution finds the same three numbers; the exchanges that
    // follow it, (2, 2), (1, 2) and (0, 1), move them.
    let mut lu = matrix(rows);
    let (permutation, _) = decompose(&mut lu).unwrap();
    let mut y = matrix(rhs);
    crout(&lu, &permutation, &mut y);
    assert_eq!(floats(&y), vec![vec![1.0], vec![0.0], vec![0.25]]);
}

fn next(state: &mut u64) -> u32 {
    *state = state
        .wrapping_mul(6364136223846793005)
        .wrapping_add(1442695040888963407);
    (*state >> 32) as u32
}

/// An entry of moderate size with a full significand, now and then a small
/// whole number or zero.
fn entry(state: &mut u64) -> f32 {
    let pick = next(state);
    match pick % 8 {
        0 => 0.0,
        1 | 2 => ((pick >> 8) % 17) as f32 - 8.0,
        _ => {
            let exponent = 120 + (pick >> 3) % 14;
            f32::from_bits((pick & 0x8000_0000) | (exponent << 23) | (next(state) & 0x007F_FFFF))
        }
    }
}

fn entries(state: &mut u64, rows: usize, columns: usize) -> Vec<Vec<f32>> {
    (0..rows)
        .map(|_| (0..columns).map(|_| entry(state)).collect())
        .collect()
}

fn same_bits(ours: &Matrix, theirs: &Vec<Vec<f32>>) -> bool {
    ours.rows() == theirs.len()
        && ours.values().iter().zip(theirs.iter()).all(|(x, y)| {
            x.len() == y.len()
                && x.iter().zip(y.iter()).all(|(p, q)| {
                    if q.is_nan() {
                        p.is_nan()
                    } else {
                        p.to_bits() == q.to_bits()
                    }
                })
        })
}

fn machine_decompose(a: &mut Vec<Vec<f32>>) -> Option<(Vec<usize>, isize)> {
    let n = a.len();
    let mut scale: Vec<f32> = Vec::new();
    for r in 0..n {
        let mut best = 0;
        for c in 0..n {
            if a[r][c].abs() > a[r][best].abs() {
                best = c;
            }
        }
        let max = a[r][best].abs();
        if max == 0.0 {
            return None;
        }
        scale.push(1.0 / max);
    }
    let mut permutation = Vec::new();
    let mut parity = 1;
    for c in 0..n {
        let mut best = 0.0f32;
        let mut p = c;
        for r in 0..n {
            let mut sum = a[r][c];
            for k in 0..r.min(c) {
                sum -= a[r][k] * a[k][c];
            }
            a[r][c] = sum;
            if r >= c {
                let scaled = scale[r] * sum.abs();
                if scaled > best {
                    best = scaled;
                    p = r;
                }
            }
        }
        if p != c {
            a.swap(p, c);
            scale.swap(p, c);
            parity = -parity;
        }
        permutation.push(p);
        if a[c][c] == 0.0 {
            a[c][c] = 1.0e-20;
        }
        for r in c + 1..n {
            a[r][c] = a[r][c] / a[c][c];
        }
    }
    Some((permutation, parity))
}

fn machine_crout(a: &Vec<Vec<f32>>, permutation: &Vec<usize>, b: &mut Vec<Vec<f32>>) {
    let n = a.len();
    let m = if n == 0 { 0 } else { b[0].len() };
    for column in 0..m {
        let mut seen = false;
        for row in 0..n {
            let other = permutation[row];
            let upper = b[row][column];
            b[row][column] = b[other][column];
            b[other][column] = upper;
            if seen {
                for k in 0..row {
                    b[row][column] -= a[row][k] * b[k][column];
                }
            } else {
                seen = b[row][column] != 0.0;
            }
        }
    }
    for column in 0..m {
        for row in (0..n).rev() {
            let mut sum = b[row][column];
            for k in row + 1..n {
                sum -= a[row][k] * b[k][column];
            }
            b[row][column] = sum / a[row][row];
        }
    }
    for row in (0..n).rev() {
        b.swap(row, permutation[row]);
    }
}

#[test]
fn decomposition_and_solution_agree_with_machine_arithmetic() {
    let mut state: u64 = 0x2545_F491_4F6C_DD1D;
    let mut decomposed = 0;
    for round in 0..600 {
        let n = 1 + round % 5;
        let m = 1 + (round / 5) % 3;
        let rows = entries(&mut state, n, n);
        let rhs = entries(&mut state, n, m);

        let mut theirs = rows.clone();
        let expected = machine_decompose(&mut theirs);
        let mut ours = matrix(rows.clone());
        let result = decompose(&mut ours);
        match expected {
            None => {
                assert!(matches!(result, Err(Error::SingularMatrix)));
                assert!(same_bits(&ours, &rows));
            }
            Some((permutation, parity)) => {
                let (our_permutation, our_parity) = result.unwrap();
                assert_eq!(our_permutation, permutation);
                assert_eq!(our_parity, parity);
                assert!(same_bits(&ours, &theirs), "decomposition of {:?}", rows);

                let mut their_b = rhs.clone();
                machine_crout(&theirs, &permutation, &mut their_b);
                let mut our_b = matrix(rhs.clone());
                crout(&ours, &our_permutation, &mut our_b);
                assert!(same_bits(&our_b, &their_b), "solution of {:?} {:?}", rows, rhs);

                let mut product = parity as f32;
                for i in 0..n {
                    product *= theirs[i][i];
                }
                let d = f(determinant(&ours, our_parity));
                assert!(d.to_bits() == product.to_bits() || (d.is_nan() && product.is_nan()));
                decomposed += 1;
            }
        }
    }
    assert!(decomposed > 400);
}
