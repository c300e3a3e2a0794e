//! LU decomposition by Crout's method with implicit scaling and partial
//! pivoting.

pub use crate::error::Error;
use crate::grid::{
    first_largest, lemma_largest_upto, lemma_rows_swapped_twice, rectangular, with_entries_swapped,
    with_entry, with_rows_swapped,
};
use crate::matrix::Matrix;
use crate::number::Number;
use crate::scalar::{Scalar, ONE_BITS};
use vstd::prelude::*;

verus! {

/// Bit pattern of `1.0e-20`, the value that takes the place of a pivot that is
/// exactly zero.
pub const TINY_BITS: u32 = 0x1E3C_E508;

/// What a decomposition carries from one column to the next.
pub struct Factoring<T> {
    /// The matrix, factored in its first columns.
    pub grid: Seq<Seq<T>>,
    /// The scale factor of the row that stands at each position.
    pub scale: Seq<T>,
    /// For each column done, the row that was brought to the diagonal.
    pub permutation: Seq<int>,
    /// `1` after an even number of row exchanges, `-1` after an odd one.
    pub parity: int,
}

/// The scale factor of a row: the reciprocal of its largest magnitude.
pub open spec fn scale_of<T: Number>(row: Seq<T>) -> T {
    T::one_element().over(row[first_largest(row) as int].absolute())
}

/// Some row has zero as its entry of largest magnitude.
pub open spec fn has_zero_row<T: Number>(g: Seq<Seq<T>>) -> bool {
    exists|r: int| 0 <= r < g.len() && (#[trigger] g[r])[first_largest(g[r]) as int].vanishes()
}

/// `g[r][c]` less the products `g[r][i] * g[i][c]` for `i` below `k`, taken
/// off one after the other in rising order of `i`.
pub open spec fn crout_sum<T: Number>(g: Seq<Seq<T>>, r: int, c: int, k: nat) -> T
    decreases k,
{
    if k == 0 {
        g[r][c]
    } else {
        crout_sum(g, r, c, (k - 1) as nat).minus(g[r][k - 1].times(g[k - 1][c]))
    }
}

/// Crout's recurrence for one entry: the sum runs up to the smaller of the
/// row and the column.
pub open spec fn reduced_entry<T: Number>(g: Seq<Seq<T>>, r: int, c: int) -> T {
    crout_sum(
        g,
        r,
        c,
        if r < c {
            r as nat
        } else {
            c as nat
        },
    )
}

/// Column `c` with the recurrence applied to its first `n` rows, from the top
/// down, each row seeing the rows above it as already reduced.
pub open spec fn reduce_column<T: Number>(g: Seq<Seq<T>>, c: int, n: nat) -> Seq<Seq<T>>
    decreases n,
{
    if n == 0 {
        g
    } else {
        let h = reduce_column(g, c, (n - 1) as nat);
        with_entry(h, n - 1, c, reduced_entry(h, n - 1, c))
    }
}

/// The magnitude of `g[r][c]` in proportion to the largest entry of its row.
pub open spec fn scaled_magnitude<T: Number>(g: Seq<Seq<T>>, scale: Seq<T>, r: int, c: int) -> T {
    scale[r].times(g[r][c].absolute())
}

/// The largest scaled magnitude among rows `c` to `upto - 1` of column `c`,
/// and its row: the search starts from zero at row `c` and moves on only to a
/// strictly larger value.
pub open spec fn pivot_scan<T: Number>(g: Seq<Seq<T>>, scale: Seq<T>, c: int, upto: int) -> (
    T,
    int,
)
    decreases upto - c,
{
    if upto <= c {
        (T::zero_element(), c)
    } else {
        let before = pivot_scan(g, scale, c, upto - 1);
        let candidate = scaled_magnitude(g, scale, upto - 1, c);
        if candidate.exceeds(before.0) {
            (candidate, upto - 1)
        } else {
            before
        }
    }
}

/// The row chosen as pivot for column `c`, among the rows on and below the
/// diagonal.
pub open spec fn pivot_row<T: Number>(g: Seq<Seq<T>>, scale: Seq<T>, c: int) -> int {
    pivot_scan(g, scale, c, g.len() as int).1
}

/// What the pivot search settles on. No row from the diagonal down exceeds
/// the value found. Either that value is zero and the search stayed on the
/// diagonal, or it is the scaled magnitude of the row found, and every row
/// before that one is strictly smaller or a NaN.
pub proof fn lemma_pivot_scan_largest(g: Seq<Seq<Scalar>>, scale: Seq<Scalar>, c: int, upto: int)
    ensures
        ({
            let best = pivot_scan(g, scale, c, upto).0;
            let p = pivot_scan(g, scale, c, upto).1;
            &&& !best.spec_is_nan()
            &&& forall|r: int|
                c <= r < upto ==> !(#[trigger] scaled_magnitude(g, scale, r, c)).spec_gt(best)
            &&& (best == Scalar::zero() && p == c) || (c <= p < upto && best == scaled_magnitude(
                g,
                scale,
                p,
                c,
            ) && forall|r: int|
                c <= r < p && !(#[trigger] scaled_magnitude(g, scale, r, c)).spec_is_nan()
                    ==> best.spec_gt(scaled_magnitude(g, scale, r, c)))
        }),
    decreases upto - c,
{
    if upto > c {
        lemma_pivot_scan_largest(g, scale, c, upto - 1);
    }
}

/// A zero on the diagonal at `c` gives way to the tiny value.
pub open spec fn with_pivot_secured<T: Number>(g: Seq<Seq<T>>, c: int) -> Seq<Seq<T>> {
    if g[c][c].vanishes() {
        with_entry(g, c, c, T::tiny_element())
    } else {
        g
    }
}

/// Every entry of column `c` below the diagonal divided by the diagonal
/// entry.
pub open spec fn divide_below<T: Number>(g: Seq<Seq<T>>, c: int) -> Seq<Seq<T>> {
    Seq::new(
        g.len(),
        |i: int|
            if i > c {
                g[i].update(c, g[i][c].over(g[c][c]))
            } else {
                g[i]
            },
    )
}

/// The pivot row that one step of the decomposition picks for column `c`.
pub open spec fn step_pivot<T: Number>(g: Seq<Seq<T>>, scale: Seq<T>, c: int) -> int {
    pivot_row(reduce_column(g, c, g.len()), scale, c)
}

/// The matrix after one step of the decomposition: the column reduced, the
/// pivot row brought to the diagonal, the pivot secured and the entries below
/// it divided.
pub open spec fn step_grid<T: Number>(g: Seq<Seq<T>>, scale: Seq<T>, c: int) -> Seq<Seq<T>> {
    let reduced = reduce_column(g, c, g.len());
    let p = pivot_row(reduced, scale, c);
    let exchanged = if p != c {
        with_rows_swapped(reduced, p, c)
    } else {
        reduced
    };
    divide_below(with_pivot_secured(exchanged, c), c)
}

/// The scale factors after one step: those of the two rows exchanged change
/// places with them.
pub open spec fn step_scale<T: Number>(g: Seq<Seq<T>>, scale: Seq<T>, c: int) -> Seq<T> {
    let p = step_pivot(g, scale, c);
    if p != c {
        scale.update(p, scale[c]).update(c, scale[p])
    } else {
        scale
    }
}

/// One column of the decomposition: the matrix and the scale factors take
/// their step, the pivot row is recorded, and the parity changes sign where
/// rows were exchanged.
pub open spec fn factor_step<T: Number>(f: Factoring<T>, c: int) -> Factoring<T> {
    let p = step_pivot(f.grid, f.scale, c);
    Factoring {
        grid: step_grid(f.grid, f.scale, c),
        scale: step_scale(f.grid, f.scale, c),
        permutation: f.permutation.push(p),
        parity: if p != c {
            -f.parity
        } else {
            f.parity
        },
    }
}

/// The decomposition after its first `upto` columns.
pub open spec fn factor_steps<T: Number>(f: Factoring<T>, upto: nat) -> Factoring<T>
    decreases upto,
{
    if upto == 0 {
        f
    } else {
        factor_step(factor_steps(f, (upto - 1) as nat), upto - 1)
    }
}

/// The decomposition of `g`, all columns done.
pub open spec fn factored<T: Number>(g: Seq<Seq<T>>) -> Factoring<T> {
    factor_steps(unfactored(g), g.len())
}

/// Reducing a column keeps the shape and touches nothing but the first `n`
/// entries of that column.
pub proof fn lemma_reduce_column_frame<T: Number>(g: Seq<Seq<T>>, c: int, n: nat, width: nat)
    requires
        rectangular(g, width),
        n <= g.len(),
        0 <= c < width,
    ensures
        reduce_column(g, c, n).len() == g.len(),
        rectangular(reduce_column(g, c, n), width),
        forall|i: int, j: int|
            0 <= i < g.len() && 0 <= j < width && (i >= n || j != c) ==> (#[trigger] reduce_column(
                g,
                c,
                n,
            )[i][j]) == g[i][j],
    decreases n,
{
    if n > 0 {
        lemma_reduce_column_frame(g, c, (n - 1) as nat, width);
    }
}

/// An entry of the column, once reduced, stays as it is while the rows below
/// it are reduced.
pub proof fn lemma_reduce_column_settled<T: Number>(
    g: Seq<Seq<T>>,
    c: int,
    m: nat,
    n: nat,
    i: int,
    width: nat,
)
    requires
        rectangular(g, width),
        0 <= i < m <= n <= g.len(),
        0 <= c < width,
    ensures
        reduce_column(g, c, n)[i][c] == reduce_column(g, c, m)[i][c],
    decreases n,
{
    if n > m {
        lemma_reduce_column_settled(g, c, m, (n - 1) as nat, i, width);
        lemma_reduce_column_frame(g, c, (n - 1) as nat, width);
    }
}

/// The pivot row lies on or below the diagonal.
pub proof fn lemma_pivot_scan_range<T: Number>(g: Seq<Seq<T>>, scale: Seq<T>, c: int, upto: int)
    ensures
        c <= pivot_scan(g, scale, c, upto).1,
        pivot_scan(g, scale, c, upto).1 < upto || pivot_scan(g, scale, c, upto).1 == c,
    decreases upto - c,
{
    if upto > c {
        lemma_pivot_scan_range(g, scale, c, upto - 1);
    }
}

/// Every entry of the row is zero.
pub open spec fn all_zero<T: Number>(row: Seq<T>) -> bool {
    forall|c: int| 0 <= c < row.len() ==> (#[trigger] row[c]).vanishes()
}

/// A row of zeros has zero as its largest entry.
pub proof fn lemma_zero_row_is_singular(g: Seq<Seq<Scalar>>, r: int)
    requires
        0 <= r < g.len(),
        g[r].len() > 0,
        all_zero(g[r]),
    ensures
        has_zero_row(g),
{
    lemma_largest_upto(g[r], g[r].len());
}

/// The starting point of a decomposition.
pub open spec fn unfactored<T: Number>(g: Seq<Seq<T>>) -> Factoring<T> {
    Factoring {
        grid: g,
        scale: Seq::new(g.len(), |r: int| scale_of(g[r])),
        permutation: Seq::empty(),
        parity: 1,
    }
}

/// The scale factor of every row, or nothing where a row has no entry other
/// than zero.
fn scale_factors(a: &Matrix) -> (r: Option<Vec<Scalar>>)
    requires
        a@.len() == a.width(),
    ensures
        r.is_none() <==> has_zero_row(a@),
        r matches Some(v) ==> v@ == Seq::new(a@.len(), |i: int| scale_of(a@[i])),
{
    let n: usize = a.rows();
    let mut scalars: Vec<Scalar> = Vec::new();
    let mut row: usize = 0;
    while row < n
        invariant
            row <= n,
            n == a@.len(),
            n == a.width(),
            scalars@.len() == row,
            forall|i: int| 0 <= i < row ==> scalars@[i] == scale_of(#[trigger] a@[i]),
            forall|i: int|
                0 <= i < row ==> !(#[trigger] a@[i])[first_largest(a@[i]) as int].spec_is_zero(),
        decreases n - row,
    {
        let max: Scalar = a.row_max(row).0.abs();
        if max.is_zero() {
            assert(a@[row as int][first_largest(a@[row as int]) as int].spec_is_zero());
            return None;
        }
        scalars.push(Scalar { bits: ONE_BITS }.div(max));
        row = row + 1;
    }
    assert(scalars@ =~= Seq::new(a@.len(), |i: int| scale_of(a@[i])));
    Some(scalars)
}

/// Crout's recurrence for the entry at `row` and `column`.
fn reduce_entry(a: &Matrix, row: usize, column: usize) -> (sum: Scalar)
    requires
        a@.len() == a.width(),
        row < a@.len(),
        column < a@.len(),
    ensures
        sum == reduced_entry(a@, row as int, column as int),
{
    proof {
        use_type_invariant(&*a);
        a.lemma_rectangular();
    }
    let end: usize = if row < column {
        row
    } else {
        column
    };
    let mut sum: Scalar = a.get(row, column);
    let mut k: usize = 0;
    while k < end
        invariant
            k <= end,
            end <= row,
            end <= column,
            row < a@.len(),
            column < a@.len(),
            a@.len() == a.width(),
            sum == crout_sum(a@, row as int, column as int, k as nat),
        decreases end - k,
    {
        sum = sum.sub(a.get(row, k).mul(a.get(k, column)));
        k = k + 1;
    }
    sum
}

/// Reduces one column in place and finds its pivot row.
fn reduce(a: &mut Matrix, scalars: &Vec<Scalar>, column: usize) -> (row_of_max: usize)
    requires
        old(a)@.len() == old(a).width(),
        column < old(a).width(),
        scalars@.len() == old(a)@.len(),
    ensures
        final(a).width() == old(a).width(),
        final(a)@ == reduce_column(old(a)@, column as int, old(a)@.len()),
        row_of_max == pivot_row(final(a)@, scalars@, column as int),
        column <= row_of_max < old(a)@.len(),
        final(a)@.len() == old(a)@.len(),
{
    let n: usize = a.rows();
    proof {
        use_type_invariant(&*a);
        a.lemma_rectangular();
    }
    let ghost g0 = a@;
    let ghost h = reduce_column(g0, column as int, n as nat);
    let mut best: Scalar = Scalar { bits: 0 };
    let mut row_of_max: usize = column;
    let mut row: usize = 0;
    proof {
        lemma_reduce_column_frame(g0, column as int, n as nat, n as nat);
    }
    while row < n
        invariant
            row <= n,
            n == g0.len(),
            rectangular(g0, n as nat),
            column < n,
            a.width() == n,
            scalars@.len() == n,
            a@ == reduce_column(g0, column as int, row as nat),
            h == reduce_column(g0, column as int, n as nat),
            h.len() == n,
            (best, row_of_max as int) == pivot_scan(h, scalars@, column as int, row as int),
            column <= row_of_max < n,
        decreases n - row,
    {
        proof {
            lemma_reduce_column_frame(g0, column as int, row as nat, n as nat);
        }
        let sum: Scalar = reduce_entry(a, row, column);
        a.set(row, column, sum);
        proof {
            lemma_reduce_column_settled(
                g0,
                column as int,
                (row + 1) as nat,
                n as nat,
                row as int,
                n as nat,
            );
            assert(h[row as int][column as int] == sum);
        }
        if row >= column {
            let scaled: Scalar = scalars[row].mul(sum.abs());
            if scaled.gt(best) {
                best = scaled;
                row_of_max = row;
            }
        }
        row = row + 1;
    }
    row_of_max
}

/// Divides the entries below the diagonal of one column by the diagonal
/// entry.
fn divide(a: &mut Matrix, column: usize)
    requires
        old(a)@.len() == old(a).width(),
        column < old(a).width(),
    ensures
        final(a).width() == old(a).width(),
        final(a)@ == divide_below(old(a)@, column as int),
{
    let n: usize = a.rows();
    proof {
        use_type_invariant(&*a);
        a.lemma_rectangular();
    }
    let ghost g0 = a@;
    let pivot: Scalar = a.get(column, column);
    let mut row: usize = column + 1;
    while row < n
        invariant
            column < row <= n,
            n == g0.len(),
            rectangular(g0, n as nat),
            a.width() == n,
            a@.len() == n,
            pivot == g0[column as int][column as int],
            forall|i: int|
                0 <= i < n ==> a@[i] == if column < i < row {
                    (#[trigger] g0[i]).update(
                        column as int,
                        g0[i][column as int].spec_div(g0[column as int][column as int]),
                    )
                } else {
                    g0[i]
                },
        decreases n - row,
    {
        let quotient: Scalar = a.get(row, column).div(pivot);
        a.set(row, column, quotient);
        row = row + 1;
    }
    assert(a@ =~= divide_below(g0, column as int));
}

/// One step of the decomposition, on column `column`, in place.
fn factor_column(a: &mut Matrix, scalars: &mut Vec<Scalar>, column: usize) -> (row_of_max: usize)
    requires
        old(a)@.len() == old(a).width(),
        column < old(a).width(),
        old(scalars)@.len() == old(a)@.len(),
    ensures
        final(a).width() == old(a).width(),
        final(a)@.len() == old(a)@.len(),
        final(scalars)@.len() == old(scalars)@.len(),
        row_of_max == step_pivot(old(a)@, old(scalars)@, column as int),
        column <= row_of_max < old(a)@.len(),
        final(a)@ == step_grid(old(a)@, old(scalars)@, column as int),
        final(scalars)@ == step_scale(old(a)@, old(scalars)@, column as int),
{
    let ghost g0 = a@;
    let ghost s0 = scalars@;
    let row_of_max: usize = reduce(a, scalars, column);
    let ghost reduced = a@;
    if row_of_max != column {
        a.swap_rows((row_of_max, column));
        let moved: Scalar = scalars[row_of_max];
        let other: Scalar = scalars[column];
        scalars[row_of_max] = other;
        scalars[column] = moved;
        assert(scalars@ =~= s0.update(row_of_max as int, s0[column as int]).update(
            column as int,
            s0[row_of_max as int],
        ));
    }
    let ghost exchanged = a@;
    if a.get(column, column).is_zero() {
        a.set(column, column, Scalar { bits: TINY_BITS });
    }
    assert(a@ == with_pivot_secured(exchanged, column as int));
    divide(a, column);
    row_of_max
}

/// Decomposes a square matrix in place into its L and U factors: U on and
/// above the diagonal, the multipliers of L below it. Returns, for each
/// column, the row that was exchanged into the diagonal position, and the
/// parity of the exchanges. Fails, and leaves the matrix as it was, where a
/// row has no entry other than zero.
pub fn decompose(a: &mut Matrix) -> (result: Result<(Vec<usize>, isize), Error>)
    requires
        old(a)@.len() == old(a).width(),
    ensures
        final(a).width() == old(a).width(),
        result.is_err() <==> has_zero_row(old(a)@),
        (exists|r: int| 0 <= r < old(a)@.len() && all_zero(#[trigger] old(a)@[r]))
            ==> result.is_err(),
        match result {
            Ok((permutation, parity)) => {
                let f = factored(old(a)@);
                &&& final(a)@ == f.grid
                &&& permutation@.len() == old(a)@.len()
                &&& f.permutation.len() == old(a)@.len()
                &&& forall|c: int|
                    0 <= c < permutation@.len() ==> (#[trigger] permutation@[c]) == f.permutation[c]
                        && c <= permutation@[c] < permutation@.len()
                &&& parity == f.parity
                &&& (parity == 1 || parity == -1)
            },
            Err(e) => e == Error::SingularMatrix && final(a)@ == old(a)@,
        },
{
    let n: usize = a.rows();
    proof {
        use_type_invariant(&*a);
        a.lemma_rectangular();
    }
    let ghost g0 = a@;
    proof {
        if exists|r: int| 0 <= r < g0.len() && all_zero(#[trigger] g0[r]) {
            let r = choose|r: int| 0 <= r < g0.len() && all_zero(#[trigger] g0[r]);
            lemma_zero_row_is_singular(g0, r);
        }
    }
    let mut scalars: Vec<Scalar> = match scale_factors(a) {
        None => {
            return Err(Error::SingularMatrix);
        },
        Some(v) => v,
    };
    let mut operations: Vec<usize> = Vec::new();
    let mut parity: isize = 1;
    let mut column: usize = 0;
    while column < n
        invariant
            column <= n,
            n == g0.len(),
            a.width() == n,
            a@.len() == n,
            scalars@.len() == n,
            operations@.len() == column,
            parity == 1 || parity == -1,
            ({
                let f = factor_steps(unfactored(g0), column as nat);
                &&& a@ == f.grid
                &&& scalars@ == f.scale
                &&& f.permutation.len() == column
                &&& parity == f.parity
                &&& forall|c: int|
                    0 <= c < column ==> (#[trigger] operations@[c]) == f.permutation[c] && c
                        <= operations@[c] < n
            }),
        decreases n - column,
    {
        let ghost before = factor_steps(unfactored(g0), column as nat);
        let row_of_max: usize = factor_column(a, &mut scalars, column);
        if row_of_max != column {
            parity = -parity;
        }
        operations.push(row_of_max);
        proof {
            let after = factor_step(before, column as int);
            assert(factor_steps(unfactored(g0), (column + 1) as nat) == after);
            assert(after.permutation.len() == column + 1);
        }
        column = column + 1;
    }
    Ok((operations, parity))
}

/// `b[r][col]` less the products `a[r][i] * b[i][col]` for `i` below `k`,
/// taken off one after the other in rising order of `i`.
pub open spec fn forward_sum<T: Number>(
    a: Seq<Seq<T>>,
    b: Seq<Seq<T>>,
    r: int,
    col: int,
    k: nat,
) -> T
    decreases k,
{
    if k == 0 {
        b[r][col]
    } else {
        forward_sum(a, b, r, col, (k - 1) as nat).minus(a[r][k - 1].times(b[k - 1][col]))
    }
}

/// Forward substitution at one row of one column. The entry of the column
/// in this row first changes places with the entry of the column in the row
/// that the permutation names; no other column is touched. Then, if an
/// entry other than zero was met higher up in this column, the sum over the
/// rows above is taken off the entry; if none was, the entry only tells
/// whether it is one.
pub open spec fn forward_row<T: Number>(
    a: Seq<Seq<T>>,
    permutation: Seq<usize>,
    b: Seq<Seq<T>>,
    col: int,
    r: int,
    seen: bool,
) -> (Seq<Seq<T>>, bool) {
    let aligned = with_entries_swapped(b, r, permutation[r] as int, col);
    if seen {
        (with_entry(aligned, r, col, forward_sum(a, aligned, r, col, r as nat)), true)
    } else {
        (aligned, !aligned[r][col].vanishes())
    }
}

/// Forward substitution on the first `upto` rows of one column.
pub open spec fn forward_rows<T: Number>(
    a: Seq<Seq<T>>,
    permutation: Seq<usize>,
    b: Seq<Seq<T>>,
    col: int,
    upto: nat,
) -> (Seq<Seq<T>>, bool)
    decreases upto,
{
    if upto == 0 {
        (b, false)
    } else {
        let before = forward_rows(a, permutation, b, col, (upto - 1) as nat);
        forward_row(a, permutation, before.0, col, upto - 1, before.1)
    }
}

/// Forward substitution on the first `upto` columns, one after the other.
pub open spec fn forward_columns<T: Number>(
    a: Seq<Seq<T>>,
    permutation: Seq<usize>,
    b: Seq<Seq<T>>,
    upto: nat,
) -> Seq<Seq<T>>
    decreases upto,
{
    if upto == 0 {
        b
    } else {
        forward_rows(
            a,
            permutation,
            forward_columns(a, permutation, b, (upto - 1) as nat),
            upto - 1,
            a.len(),
        ).0
    }
}

/// `b[r][col]` less the products `a[r][i] * b[i][col]` for `i` above `r` and
/// below `upto`, taken off in rising order of `i`.
pub open spec fn backward_sum<T: Number>(
    a: Seq<Seq<T>>,
    b: Seq<Seq<T>>,
    r: int,
    col: int,
    upto: int,
) -> T
    decreases upto - r,
{
    if upto <= r + 1 {
        b[r][col]
    } else {
        backward_sum(a, b, r, col, upto - 1).minus(a[r][upto - 1].times(b[upto - 1][col]))
    }
}

/// Backward substitution on the last `done` rows of one column, from the
/// bottom up: each entry less the sum over the rows below it, divided by the
/// diagonal entry.
pub open spec fn backward_rows<T: Number>(
    a: Seq<Seq<T>>,
    b: Seq<Seq<T>>,
    col: int,
    done: nat,
) -> Seq<Seq<T>>
    decreases done,
{
    if done == 0 {
        b
    } else {
        let before = backward_rows(a, b, col, (done - 1) as nat);
        let r = a.len() - done;
        with_entry(
            before,
            r,
            col,
            backward_sum(a, before, r, col, a.len() as int).over(a[r][r]),
        )
    }
}

/// Backward substitution on the first `upto` columns.
pub open spec fn backward_columns<T: Number>(a: Seq<Seq<T>>, b: Seq<Seq<T>>, upto: nat) -> Seq<Seq<T>>
    decreases upto,
{
    if upto == 0 {
        b
    } else {
        backward_rows(a, backward_columns(a, b, (upto - 1) as nat), upto - 1, a.len())
    }
}

/// Each of the first `upto` rows, in rising order, exchanged with the row
/// that the permutation names for it.
pub open spec fn rows_aligned<T>(b: Seq<Seq<T>>, permutation: Seq<usize>, upto: nat) -> Seq<Seq<T>>
    decreases upto,
{
    if upto == 0 {
        b
    } else {
        with_rows_swapped(
            rows_aligned(b, permutation, (upto - 1) as nat),
            upto - 1,
            permutation[upto - 1] as int,
        )
    }
}

/// Each of the last `done` rows, in falling order, exchanged with the row
/// that the permutation names for it.
pub open spec fn rows_restored<T>(b: Seq<Seq<T>>, permutation: Seq<usize>, done: nat) -> Seq<Seq<T>>
    decreases done,
{
    if done == 0 {
        b
    } else {
        let r = permutation.len() - done;
        with_rows_swapped(
            rows_restored(b, permutation, (done - 1) as nat),
            r,
            permutation[r] as int,
        )
    }
}

/// What `crout` leaves in place of `b`.
pub open spec fn solved<T: Number>(
    a: Seq<Seq<T>>,
    permutation: Seq<usize>,
    b: Seq<Seq<T>>,
    width: nat,
) -> Seq<Seq<T>> {
    rows_restored(
        backward_columns(a, forward_columns(a, permutation, b, width), width),
        permutation,
        permutation.len(),
    )
}

/// Every entry of the permutation names a row.
pub open spec fn in_range(permutation: Seq<usize>, n: nat) -> bool {
    permutation.len() == n && forall|i: int| 0 <= i < n ==> (#[trigger] permutation[i]) < n
}

/// The forward substitution step of Crout's method, on every column of `b`.
/// Each column is aligned with the rows of the decomposed matrix and
/// substituted on its own: its pass moves and changes no entry of another
/// column.
pub fn forward_substitution(a: &Matrix, permutation: &Vec<usize>, b: &mut Matrix)
    requires
        a@.len() == a.width(),
        old(b)@.len() == a@.len(),
        in_range(permutation@, a@.len()),
    ensures
        final(b).width() == old(b).width(),
        final(b)@.len() == old(b)@.len(),
        final(b)@ == forward_columns(a@, permutation@, old(b)@, old(b).width()),
{
    let n: usize = a.rows();
    let m: usize = b.columns_unchecked();
    let ghost b0 = b@;
    let mut column: usize = 0;
    while column < m
        invariant
            column <= m,
            n == a@.len(),
            n == a.width(),
            m == b.width(),
            m == old(b).width(),
            b@.len() == n,
            in_range(permutation@, n as nat),
            b@ == forward_columns(a@, permutation@, b0, column as nat),
        decreases m - column,
    {
        let ghost start = b@;
        let mut non_zero_rhs_encountered: bool = false;
        let mut row: usize = 0;
        while row < n
            invariant
                row <= n,
                column < m,
                n == a@.len(),
                n == a.width(),
                m == b.width(),
                b@.len() == n,
                in_range(permutation@, n as nat),
                (b@, non_zero_rhs_encountered) == forward_rows(
                    a@,
                    permutation@,
                    start,
                    column as int,
                    row as nat,
                ),
            decreases n - row,
        {
            let other: usize = permutation[row];
            let upper: Scalar = b.get(row, column);
            let lower: Scalar = b.get(other, column);
            b.set(row, column, lower);
            b.set(other, column, upper);
            if non_zero_rhs_encountered {
                let ghost aligned = b@;
                let mut sum: Scalar = b.get(row, column);
                let mut k: usize = 0;
                while k < row
                    invariant
                        k <= row,
                        row < n,
                        column < m,
                        n == a@.len(),
                        n == a.width(),
                        m == b.width(),
                        b@.len() == n,
                        b@ == aligned,
                        sum == forward_sum(a@, aligned, row as int, column as int, k as nat),
                    decreases row - k,
                {
                    sum = sum.sub(a.get(row, k).mul(b.get(k, column)));
                    k = k + 1;
                }
                b.set(row, column, sum);
            } else {
                non_zero_rhs_encountered = !b.get(row, column).is_zero();
            }
            row = row + 1;
        }
        column = column + 1;
    }
}

/// The backward substitution step of Crout's method, on every column of `b`.
pub fn backward_substitution(a: &Matrix, b: &mut Matrix)
    requires
        a@.len() == a.width(),
        old(b)@.len() == a@.len(),
    ensures
        final(b).width() == old(b).width(),
        final(b)@.len() == old(b)@.len(),
        final(b)@ == backward_columns(a@, old(b)@, old(b).width()),
{
    let n: usize = a.rows();
    let m: usize = b.columns_unchecked();
    let ghost b0 = b@;
    let mut column: usize = 0;
    while column < m
        invariant
            column <= m,
            n == a@.len(),
            n == a.width(),
            m == b.width(),
            m == old(b).width(),
            b@.len() == n,
            b@ == backward_columns(a@, b0, column as nat),
        decreases m - column,
    {
        let ghost start = b@;
        let mut row: usize = n;
        while row > 0
            invariant
                row <= n,
                column < m,
                n == a@.len(),
                n == a.width(),
                m == b.width(),
                b@.len() == n,
                b@ == backward_rows(a@, start, column as int, (n - row) as nat),
            decreases row,
        {
            row = row - 1;
            let ghost before = b@;
            let mut sum: Scalar = b.get(row, column);
            let mut k: usize = row + 1;
            while k < n
                invariant
                    row < k <= n,
                    column < m,
                    n == a@.len(),
                    n == a.width(),
                    m == b.width(),
                    b@.len() == n,
                    b@ == before,
                    sum == backward_sum(a@, before, row as int, column as int, k as int),
                decreases n - k,
            {
                sum = sum.sub(a.get(row, k).mul(b.get(k, column)));
                k = k + 1;
            }
            b.set(row, column, sum.div(a.get(row, row)));
        }
        column = column + 1;
    }
}

/// Crout's method on a decomposed matrix `a`, its permutation and a right
/// hand side `b`: forward substitution, backward substitution, and then the
/// rows of `b` exchanged once more, from the last to the first, each with
/// the row that the permutation names for it.
pub fn crout(a: &Matrix, permutation: &Vec<usize>, b: &mut Matrix)
    requires
        a@.len() == a.width(),
        old(b)@.len() == a@.len(),
        in_range(permutation@, a@.len()),
    ensures
        final(b).width() == old(b).width(),
        final(b)@.len() == old(b)@.len(),
        final(b)@ == solved(a@, permutation@, old(b)@, old(b).width()),
{
    forward_substitution(a, permutation, b);
    backward_substitution(a, b);
    let n: usize = b.rows();
    let ghost start = b@;
    let mut row: usize = n;
    while row > 0
        invariant
            row <= n,
            n == a@.len(),
            b@.len() == n,
            b.width() == old(b).width(),
            in_range(permutation@, n as nat),
            b@ == rows_restored(start, permutation@, (n - row) as nat),
        decreases row,
    {
        row = row - 1;
        b.swap_rows((row, permutation[row]));
    }
}

/// `start` times the first `upto` entries of the diagonal, one after the
/// other from the top.
pub open spec fn diagonal_product<T: Number>(g: Seq<Seq<T>>, start: T, upto: nat) -> T
    decreases upto,
{
    if upto == 0 {
        start
    } else {
        diagonal_product(g, start, (upto - 1) as nat).times(g[upto - 1][upto - 1])
    }
}

/// The determinant of the matrix of which `a` is the decomposition: the
/// parity of the row exchanges times the entries of the diagonal.
pub fn determinant(a: &Matrix, parity: isize) -> (d: Scalar)
    requires
        a@.len() == a.width(),
        parity == 1 || parity == -1,
    ensures
        d == diagonal_product(
            a@,
            Scalar::compose(parity == -1, Scalar::one().mag()),
            a@.len(),
        ),
{
    let n: usize = a.rows();
    let mut d: Scalar = Scalar::pack(parity == -1, ONE_BITS);
    let ghost start = d;
    let mut row: usize = 0;
    while row < n
        invariant
            row <= n,
            n == a@.len(),
            n == a.width(),
            d == diagonal_product(a@, start, row as nat),
        decreases n - row,
    {
        d = d.mul(a.get(row, row));
        row = row + 1;
    }
    d
}

/// How many of the first `upto` columns had another row brought to the
/// diagonal.
pub open spec fn exchanges(permutation: Seq<int>, upto: nat) -> nat
    decreases upto,
{
    if upto == 0 {
        0
    } else {
        exchanges(permutation, (upto - 1) as nat) + if permutation[upto - 1] != upto - 1 {
            1nat
        } else {
            0nat
        }
    }
}

/// A further entry does not change the count over the entries before it.
proof fn lemma_exchanges_prefix(permutation: Seq<int>, p: int, upto: nat)
    requires
        upto <= permutation.len(),
    ensures
        exchanges(permutation.push(p), upto) == exchanges(permutation, upto),
    decreases upto,
{
    if upto > 0 {
        lemma_exchanges_prefix(permutation, p, (upto - 1) as nat);
    }
}

/// The permutation record grows by one entry for each column, each entry
/// names a row on or below the diagonal, and the parity is `1` after an even
/// number of exchanges and `-1` after an odd one.
pub proof fn lemma_permutation_and_parity<T: Number>(g: Seq<Seq<T>>, upto: nat)
    requires
        upto <= g.len(),
    ensures
        ({
            let f = factor_steps(unfactored(g), upto);
            &&& f.permutation.len() == upto
            &&& f.grid.len() == g.len()
            &&& forall|c: int|
                0 <= c < upto ==> c <= (#[trigger] f.permutation[c]) && f.permutation[c] < g.len()
            &&& f.parity == if exchanges(f.permutation, upto) % 2 == 0 {
                1int
            } else {
                -1int
            }
        }),
    decreases upto,
{
    if upto > 0 {
        let before = factor_steps(unfactored(g), (upto - 1) as nat);
        let c = upto - 1;
        lemma_permutation_and_parity(g, (upto - 1) as nat);
        let reduced = reduce_column(before.grid, c, before.grid.len());
        lemma_reduce_column_len(before.grid, c, before.grid.len());
        lemma_pivot_scan_range(reduced, before.scale, c, reduced.len() as int);
        let p = step_pivot(before.grid, before.scale, c);
        lemma_exchanges_prefix(before.permutation, p, (upto - 1) as nat);
        let after = factor_steps(unfactored(g), upto);
        assert(after.permutation == before.permutation.push(p));
        assert(after.permutation[c] == p);
    }
}

/// Reducing a column keeps the number of rows.
pub proof fn lemma_reduce_column_len<T: Number>(g: Seq<Seq<T>>, c: int, n: nat)
    requires
        n <= g.len(),
    ensures
        reduce_column(g, c, n).len() == g.len(),
    decreases n,
{
    if n > 0 {
        lemma_reduce_column_len(g, c, (n - 1) as nat);
    }
}

/// Aligning the rows keeps their number.
pub proof fn lemma_rows_aligned_len<T>(b: Seq<Seq<T>>, permutation: Seq<usize>, upto: nat)
    requires
        in_range(permutation, b.len()),
        upto <= b.len(),
    ensures
        rows_aligned(b, permutation, upto).len() == b.len(),
    decreases upto,
{
    if upto > 0 {
        lemma_rows_aligned_len(b, permutation, (upto - 1) as nat);
    }
}

/// The exchanges that restore the rows, made from the last row to the first,
/// undo the exchanges that aligned them, made from the first row to the
/// last: after the last `done` of them the rows are as the first
/// `n - done` aligning exchanges left them.
pub proof fn lemma_restoring_unwinds_aligning<T>(
    b: Seq<Seq<T>>,
    permutation: Seq<usize>,
    done: nat,
)
    requires
        in_range(permutation, b.len()),
        done <= b.len(),
    ensures
        rows_restored(rows_aligned(b, permutation, b.len()), permutation, done) == rows_aligned(
            b,
            permutation,
            (b.len() - done) as nat,
        ),
    decreases done,
{
    if done > 0 {
        let r = b.len() - done;
        lemma_restoring_unwinds_aligning(b, permutation, (done - 1) as nat);
        lemma_rows_aligned_len(b, permutation, r as nat);
        lemma_rows_swapped_twice(rows_aligned(b, permutation, r as nat), r, permutation[r] as int);
    }
}

/// Restoring the rows of an aligned right hand side gives back the right
/// hand side.
pub proof fn lemma_restoring_undoes_aligning<T>(b: Seq<Seq<T>>, permutation: Seq<usize>)
    requires
        in_range(permutation, b.len()),
    ensures
        rows_restored(rows_aligned(b, permutation, b.len()), permutation, b.len()) == b,
{
    lemma_restoring_unwinds_aligning(b, permutation, b.len());
}

/// One step of the decomposition keeps the shape of the matrix and the
/// number of scale factors, leaves the rows above the diagonal row of its
/// column as they were outside that column, and leaves on the diagonal of
/// its column an entry other than zero.
pub proof fn lemma_step_frame<T: Number>(g: Seq<Seq<T>>, scale: Seq<T>, c: int)
    requires
        rectangular(g, g.len()),
        scale.len() == g.len(),
        0 <= c < g.len(),
        !T::tiny_element().vanishes(),
    ensures
        step_grid(g, scale, c).len() == g.len(),
        rectangular(step_grid(g, scale, c), g.len()),
        step_scale(g, scale, c).len() == g.len(),
        c <= step_pivot(g, scale, c) < g.len(),
        forall|i: int, j: int|
            0 <= i < c && 0 <= j < g.len() && j != c ==> (#[trigger] step_grid(g, scale, c)[i][j])
                == g[i][j],
        !step_grid(g, scale, c)[c][c].vanishes(),
{
    let n = g.len();
    let reduced = reduce_column(g, c, n);
    lemma_reduce_column_frame(g, c, n, n);
    lemma_pivot_scan_range(reduced, scale, c, n as int);
    let p = pivot_row(reduced, scale, c);
    let exchanged = if p != c {
        with_rows_swapped(reduced, p, c)
    } else {
        reduced
    };
    assert(rectangular(exchanged, n));
    let secured = with_pivot_secured(exchanged, c);
    assert(rectangular(secured, n));
    assert(!secured[c][c].vanishes());
    assert forall|i: int, j: int| 0 <= i < c && 0 <= j < n && j != c implies (#[trigger] step_grid(
        g,
        scale,
        c,
    )[i][j]) == g[i][j] by {
        assert(exchanged[i] == reduced[i]);
        assert(reduced[i][j] == g[i][j]);
    }
}

/// The factored matrix has the shape of the matrix that was given, and no
/// entry on the diagonal of a column that is done is zero: the backward
/// substitution never divides by zero.
pub proof fn lemma_pivots_not_zero<T: Number>(g: Seq<Seq<T>>, upto: nat)
    requires
        rectangular(g, g.len()),
        upto <= g.len(),
        !T::tiny_element().vanishes(),
    ensures
        ({
            let f = factor_steps(unfactored(g), upto);
            &&& f.grid.len() == g.len()
            &&& rectangular(f.grid, g.len())
            &&& f.scale.len() == g.len()
            &&& forall|c: int| 0 <= c < upto ==> !(#[trigger] f.grid[c])[c].vanishes()
        }),
    decreases upto,
{
    if upto > 0 {
        let before = factor_steps(unfactored(g), (upto - 1) as nat);
        lemma_pivots_not_zero(g, (upto - 1) as nat);
        lemma_step_frame(before.grid, before.scale, upto - 1);
        let after = factor_steps(unfactored(g), upto);
        assert(after.grid == step_grid(before.grid, before.scale, upto - 1));
        assert forall|c: int| 0 <= c < upto implies !(#[trigger] after.grid[c])[c].vanishes() by {
            if c < upto - 1 {
                assert(after.grid[c][c] == before.grid[c][c]);
            }
        }
    }
}

/// The pass of the forward substitution on one column keeps the shape of the
/// right hand sides and leaves every other column as it was.
pub proof fn lemma_forward_rows_frame<T: Number>(
    a: Seq<Seq<T>>,
    permutation: Seq<usize>,
    b: Seq<Seq<T>>,
    col: int,
    width: nat,
    upto: nat,
)
    requires
        rectangular(b, width),
        in_range(permutation, b.len()),
        0 <= col < width,
        upto <= b.len(),
    ensures
        forward_rows(a, permutation, b, col, upto).0.len() == b.len(),
        rectangular(forward_rows(a, permutation, b, col, upto).0, width),
        forall|i: int, j: int|
            0 <= i < b.len() && 0 <= j < width && j != col ==> (#[trigger] forward_rows(
                a,
                permutation,
                b,
                col,
                upto,
            ).0[i][j]) == b[i][j],
    decreases upto,
{
    if upto > 0 {
        let r = upto - 1;
        let before = forward_rows(a, permutation, b, col, r as nat);
        lemma_forward_rows_frame(a, permutation, b, col, width, r as nat);
        let aligned = with_entries_swapped(before.0, r, permutation[r] as int, col);
        assert(rectangular(aligned, width));
        assert forall|i: int, j: int| 0 <= i < b.len() && 0 <= j < width && j != col implies (
        #[trigger] forward_rows(a, permutation, b, col, upto).0[i][j]) == b[i][j] by {
            assert(aligned[i][j] == before.0[i][j]);
            assert(before.0[i][j] == b[i][j]);
        }
    }
}

/// The pass of the backward substitution on one column keeps the shape of
/// the right hand sides and leaves every other column as it was.
pub proof fn lemma_backward_rows_frame<T: Number>(
    a: Seq<Seq<T>>,
    b: Seq<Seq<T>>,
    col: int,
    width: nat,
    done: nat,
)
    requires
        a.len() == b.len(),
        rectangular(b, width),
        0 <= col < width,
        done <= b.len(),
    ensures
        backward_rows(a, b, col, done).len() == b.len(),
        rectangular(backward_rows(a, b, col, done), width),
        forall|i: int, j: int|
            0 <= i < b.len() && 0 <= j < width && j != col ==> (#[trigger] backward_rows(
                a,
                b,
                col,
                done,
            )[i][j]) == b[i][j],
    decreases done,
{
    if done > 0 {
        lemma_backward_rows_frame(a, b, col, width, (done - 1) as nat);
        let before = backward_rows(a, b, col, (done - 1) as nat);
        assert forall|i: int, j: int| 0 <= i < b.len() && 0 <= j < width && j != col implies (
        #[trigger] backward_rows(a, b, col, done)[i][j]) == b[i][j] by {
            assert(before[i][j] == b[i][j]);
        }
    }
}

} // verus!
