use linear_solvers::error::Error;
use linear_solvers::gauss_jordan::{gaussj, select_pivot_location};
use linear_solvers::matrix::Matrix;
use linear_solvers::scalar::Scalar;

fn s(x: f32) -> Scalar {
    Scalar::from_bits(x.to_bits())
}

fn f(x: Scalar) -> f32 {
    f32::from_bits(x.to_bits())
}

fn matrix(rows: Vec<Vec<f32>>) -> Matrix {
    Matrix::from(
        rows.into_iter()
            .map(|row| row.into_iter().map(s).collect())
            .collect(),
    )
    .unwrap()
}

fn floats(m: &Matrix) -> Vec<Vec<f32>> {
    m.values()
        .iter()
        .map(|row| row.iter().map(|x| f(*x)).collect())
        .collect()
}

fn product(a: &Vec<Vec<f32>>, b: &Vec<Vec<f32>>) -> Vec<Vec<f32>> {
    let mut out = vec![vec![0.0f32; b[0].len()]; a.len()];
    for i in 0..a.len() {
        for j in 0..b[0].len() {
            for k in 0..b.len() {
                out[i][j] += a[i][k] * b[k][j];
            }
        }
    }
    out
}

fn close(a: &Vec<Vec<f32>>, b: &Vec<Vec<f32>>, tolerance: f32) -> bool {
    a.len() == b.len()
        && a.iter().zip(b.iter()).all(|(x, y)| {
            x.len() == y.len() && x.iter().zip(y.iter()).all(|(p, q)| (p - q).abs() <= tolerance)
        })
}

#[test]
fn return_solution_in_place_of_b() {
    let mut matrix_a = matrix(vec![vec![3.0, -2.0], vec![6.0, 4.0]]);
    let mut matrix_b = matrix(vec![vec![4.0], vec![-8.0]]);
    let solution = matrix(vec![vec![0.0], vec![-2.0]]);

    gaussj(&mut matrix_a, &mut matrix_b, false).unwrap();

    assert_eq!(matrix_b, solution);
}

#[test]
fn return_inverse_in_place_of_a() {
    let mut matrix_a = matrix(vec![vec![3.0, -2.0], vec![6.0, 4.0]]);
    let mut matrix_b = matrix(vec![vec![4.0], vec![-8.0]]);
    let solution = matrix(vec![
        vec![4.0 / 24.0, 2.0 / 24.0],
        vec![-6.0 / 24.0, 3.0 / 24.0],
    ]);
    gaussj(&mut matrix_a, &mut matrix_b, true).unwrap(); //set inverse flag to true.
    assert_eq!(matrix_a, solution);
}

#[test]
fn the_identity_solves_to_the_right_hand_side() {
    let mut a = Matrix::identity(3);
    let rhs = vec![
        vec![1.0, 0.0, 0.0],
        vec![0.0, 0.0, 0.0],
        vec![0.0, 0.0, 0.0],
    ];
    let mut b = matrix(rhs.clone());
    gaussj(&mut a, &mut b, false).unwrap();
    assert_eq!(floats(&b), rhs);
    assert_eq!(floats(&a), floats(&Matrix::identity(3)));
}

#[test]
fn the_solution_satisfies_the_system() {
    let rows = vec![
        vec![2.0, 1.0, -1.0],
        vec![-3.0, -1.0, 2.0],
        vec![-2.0, 1.0, 2.0],
    ];
    let rhs = vec![vec![8.0, 1.0], vec![-11.0, 0.0], vec![-3.0, 2.0]];
    let mut a = matrix(rows.clone());
    let mut b = matrix(rhs.clone());
    gaussj(&mut a, &mut b, false).unwrap();
    let x = floats(&b);
    assert!(close(&product(&rows, &x), &rhs, 1.0e-4));
    assert!(close(
        &vec![vec![x[0][0]], vec![x[1][0]], vec![x[2][0]]],
        &vec![vec![2.0], vec![3.0], vec![-1.0]],
        1.0e-5
    ));
}

#[test]
fn the_inverse_multiplies_to_the_identity() {
    let rows = vec![
        vec![2.0, 1.0, -1.0],
        vec![-3.0, -1.0, 2.0],
        vec![-2.0, 1.0, 2.0],
    ];
    let mut a = matrix(rows.clone());
    let mut b = Matrix::identity(3);
    gaussj(&mut a, &mut b, true).unwrap();
    let identity = floats(&Matrix::identity(3));
    assert!(close(&product(&rows, &floats(&a)), &identity, 1.0e-5));
    // The right hand side was the identity, so it holds the inverse too.
    assert!(close(&floats(&a), &floats(&b), 1.0e-6));
}

#[test]
fn the_inverse_of_a_permutation_is_its_transpose() {
    // Every pivot lies off the diagonal: the columns are restored from the
    // log, last exchange first.
    let rows = vec![
        vec![0.0, 2.0, 0.0],
        vec![0.0, 0.0, 4.0],
        vec![8.0, 0.0, 0.0],
    ];
    let mut a = matrix(rows);
    let mut b = matrix(vec![vec![2.0], vec![4.0], vec![8.0]]);
    gaussj(&mut a, &mut b, true).unwrap();
    assert_eq!(
        floats(&a),
        vec![
            vec![0.0, 0.0, 0.125],
            vec![0.5, 0.0, 0.0],
            vec![0.0, 0.25, 0.0],
        ]
    );
    assert_eq!(floats(&b), vec![vec![1.0], vec![1.0], vec![1.0]]);
}

#[test]
fn a_zero_pivot_is_singular() {
    let mut a = matrix(vec![vec![1.0, 2.0], vec![2.0, 4.0]]);
    let mut b = matrix(vec![vec![1.0], vec![1.0]]);
    let result = gaussj(&mut a, &mut b, false);
    assert!(matches!(result, Err(Error::SingularMatrix)));
}

#[test]
fn the_zero_matrix_is_singular_at_the_first_step() {
    let mut a = Matrix::square(2);
    let mut b = matrix(vec![vec![1.0], vec![2.0]]);
    let result = gaussj(&mut a, &mut b, true);
    assert!(matches!(result, Err(Error::SingularMatrix)));
    assert_eq!(floats(&a), vec![vec![0.0, 0.0], vec![0.0, 0.0]]);
    assert_eq!(floats(&b), vec![vec![1.0], vec![2.0]]);
}

#[test]
fn an_empty_system_is_solved() {
    let mut a = Matrix::new(0, 0);
    let mut b = Matrix::new(0, 2);
    assert!(gaussj(&mut a, &mut b, true).is_ok());
    assert_eq!(a.rows(), 0);
    assert_eq!(b.columns(), 2);
}

#[test]
fn the_pivot_is_the_largest_entry_anywhere() {
    let a = matrix(vec![
        vec![1.0, -9.0, 2.0],
        vec![3.0, 4.0, 5.0],
        vec![6.0, 7.0, 8.0],
    ]);
    assert_eq!(select_pivot_location(&a, &vec![false, false, false]), (0, 1));
    // With position 1 taken, row 1 and column 1 are out of the search.
    assert_eq!(select_pivot_location(&a, &vec![false, true, false]), (2, 2));
    assert_eq!(select_pivot_location(&a, &vec![true, true, false]), (2, 2));
    assert_eq!(select_pivot_location(&a, &vec![false, true, true]), (0, 0));
}

#[test]
fn the_pivot_is_the_first_of_equal_magnitudes_in_row_major_order() {
    let a = matrix(vec![
        vec![1.0, 5.0, -5.0],
        vec![-5.0, 5.0, 0.0],
        vec![5.0, 0.0, 5.0],
    ]);
    assert_eq!(select_pivot_location(&a, &vec![false, false, false]), (0, 1));
    assert_eq!(select_pivot_location(&a, &vec![true, false, false]), (1, 1));
    assert_eq!(select_pivot_location(&a, &vec![false, true, false]), (0, 2));
}

#[test]
fn without_an_entry_above_zero_the_first_free_diagonal_place_is_the_pivot() {
    let a = matrix(vec![
        vec![1.0, 0.0, 0.0],
        vec![0.0, 0.0, 0.0],
        vec![0.0, 0.0, 0.0],
    ]);
    assert_eq!(select_pivot_location(&a, &vec![true, false, false]), (1, 1));
    assert_eq!(select_pivot_location(&a, &vec![true, true, false]), (2, 2));
}

#[test]
fn several_right_hand_sides_are_solved_together() {
    let rows = vec![vec![4.0, 3.0], vec![6.0, 3.0]];
    let mut a = matrix(rows.clone());
    let mut b = matrix(vec![vec![1.0, 0.0, 10.0], vec![0.0, 1.0, 12.0]]);
    gaussj(&mut a, &mut b, false).unwrap();
    let x = floats(&b);
    assert!(close(
        &x,
        &vec![vec![-0.5, 0.5, 1.0], vec![1.0, -2.0 / 3.0, 2.0]],
        1.0e-6
    ));
}

fn next(state: &mut u64) -> u32 {
    *state = state
        .wrapping_mul(6364136223846793005)
        .wrapping_add(1442695040888963407);
    (*state >> 32) as u32
}

/// An entry of moderate size with a full significand, now and then a small
/// whole number or zero.
fn entry(state: &mut u64) -> f32 {
    let pick = next(state);
    match pick % 8 {
        0 => 0.0,
        1 | 2 => ((pick >> 8) % 17) as f32 - 8.0,
        _ => {
            let exponent = 120 + (pick >> 3) % 14;
            f32::from_bits((pick & 0x8000_0000) | (exponent << 23) | (next(state) & 0x007F_FFFF))
        }
    }
}

fn entries(state: &mut u64, rows: usize, columns: usize) -> Vec<Vec<f32>> {
    (0..rows)
        .map(|_| (0..columns).map(|_| entry(state)).collect())
        .collect()
}

fn same_bits(ours: &Matrix, theirs: &Vec<Vec<f32>>) -> bool {
    ours.rows() == theirs.len()
        && ours.values().iter().zip(theirs.iter()).all(|(x, y)| {
            x.len() == y.len()
                && x.iter().zip(y.iter()).all(|(p, q)| {
                    if q.is_nan() {
                        p.is_nan()
                    } else {
                        p.to_bits() == q.to_bits()
                    }
                })
        })
}

fn machine_gaussj(a: &mut Vec<Vec<f32>>, b: &mut Vec<Vec<f32>>, inverse: bool) -> bool {
    let n = a.len();
    let m = if n == 0 { 0 } else { b[0].len() };
    let mut used = vec![false; n];
    let mut log: Vec<(usize, usize)> = Vec::new();
    for _ in 0..n {
        let first = used.iter().position(|u| !u).unwrap();
        let (mut best, mut irow, mut icol) = (0.0f32, first, first);
        for r in 0..n {
            if used[r] {
                continue;
            }
            for c in 0..n {
                if used[c] {
                    continue;
                }
                if a[r][c].abs() > best {
                    best = a[r][c].abs();
                    irow = r;
                    icol = c;
                }
            }
        }
        used[icol] = true;
        if irow != icol {
            a.swap(irow, icol);
            b.swap(irow, icol);
            log.push((irow, icol));
        }
        let pivot = a[icol][icol];
        if pivot == 0.0 {
            return false;
        }
        let reciprocal = 1.0 / pivot;
        if inverse {
            a[icol][icol] = pivot * reciprocal;
        }
        for c in 0..n {
            a[icol][c] *= reciprocal;
        }
        for c in 0..m {
            b[icol][c] *= reciprocal;
        }
        for r in 0..n {
            if r == icol {
                continue;
            }
            let factor = a[r][icol];
            if inverse {
                a[r][icol] = 0.0;
            }
            for c in 0..n {
                a[r][c] -= a[icol][c] * factor;
            }
            for c in 0..m {
                b[r][c] -= b[icol][c] * factor;
            }
        }
    }
    if inverse {
        for &(r, c) in log.iter().rev() {
            for row in a.iter_mut() {
                row.swap(r, c);
            }
        }
    }
    true
}

#[test]
fn elimination_agrees_with_machine_arithmetic() {
    let mut state: u64 = 0x9E37_79B9_7F4A_7C15;
    let mut solved = 0;
    let mut singular = 0;
    for round in 0..600 {
        let n = 1 + round % 5;
        let m = 1 + (round / 5) % 3;
        let inverse = (round / 15) % 2 == 1;
        let mut rows = entries(&mut state, n, n);
        if round % 7 == 0 && n > 1 {
            rows[n - 1] = rows[0].clone();
        }
        let rhs = entries(&mut state, n, m);

        let mut their_a = rows.clone();
        let mut their_b = rhs.clone();
        let ok = machine_gaussj(&mut their_a, &mut their_b, inverse);
        let mut our_a = matrix(rows.clone());
        let mut our_b = matrix(rhs.clone());
        let result = gaussj(&mut our_a, &mut our_b, inverse);
        assert_eq!(result.is_ok(), ok, "{:?}", rows);
        assert!(same_bits(&our_a, &their_a), "left of {:?} {:?}", rows, rhs);
        assert!(same_bits(&our_b, &their_b), "right of {:?} {:?}", rows, rhs);
        if ok {
            solved += 1;
        } else {
            singular += 1;
        }
    }
    assert!(solved > 400);
    assert!(singular > 0);
}

#[test]
fn a_solution_beyond_the_largest_scalar_is_infinite() {
    let mut a = matrix(vec![vec![1.0e-30]]);
    let mut b = matrix(vec![vec![1.0e30]]);
    gaussj(&mut a, &mut b, true).unwrap();
    assert_eq!(floats(&b), vec![vec![f32::INFINITY]]);
    assert_eq!(floats(&a), vec![vec![1.0 / 1.0e-30f32]]);
}
