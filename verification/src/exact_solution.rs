//! The two solvers in arithmetic without rounding, held to the system that
//! they are given. Where the decomposition found no pivot to be zero,
//! forward and backward substitution leave the solution of the system,
//! column by column, whatever rows were exchanged. `crout` then exchanges
//! the rows of the solution once more: where the decomposition exchanged
//! none, what `crout` leaves solves the system, and it is what `gaussj`
//! leaves.

use crate::exact::{dot, is_product, real_quotient, Exact};
use crate::exact_decomposition::{
    exchanged, lemma_columns_multiply_back, pivots_found, product_entry,
};
use crate::exact_elimination::lemma_elimination_solves;
use crate::exact_substitution::{
    downward, factors_times, forward_done, lemma_aligned_column, lemma_backward_rows,
    lemma_factors_times,
    lemma_forward_rows, lemma_lower_sum_same, lemma_upper_part, lemma_upper_sum_same, lower_part,
    lower_product, lower_sum, upper_product,
};
use crate::gauss_jordan::reduced;
use crate::grid::{column_of, rectangular};
use crate::lu_decomposition::{
    backward_columns, backward_rows, factored, forward_columns, forward_rows,
    lemma_permutation_and_parity, lemma_pivots_not_zero, rows_aligned, rows_restored, solved,
};
use crate::number::Number;
use vstd::prelude::*;

verus! {

/// No entry of the record names another row than its own.
pub open spec fn unmoved(permutation: Seq<usize>, n: nat) -> bool {
    permutation.len() == n && forall|i: int| 0 <= i < n ==> (#[trigger] permutation[i]) == i
}

/// Where no entry of the record names another row, aligning the rows and
/// restoring them change nothing.
pub proof fn lemma_unmoved(b: Seq<Seq<Exact>>, permutation: Seq<usize>, upto: nat)
    requires
        unmoved(permutation, b.len()),
        upto <= b.len(),
    ensures
        rows_aligned(b, permutation, upto) == b,
        rows_restored(b, permutation, upto) == b,
    decreases upto,
{
    if upto > 0 {
        lemma_unmoved(b, permutation, (upto - 1) as nat);
        let r = upto - 1;
        assert(b.update(r, b[r]).update(r, b[r]) =~= b);
        let q = b.len() - upto;
        assert(b.update(q, b[q]).update(q, b[q]) =~= b);
    }
}

/// The lower factor times the upper factor times a column, where the upper
/// factor times the column is known.
pub proof fn lemma_lower_part_is_sum(
    a: Seq<Seq<Exact>>,
    x: Seq<Seq<Exact>>,
    y: Seq<Seq<Exact>>,
    i: int,
    col: int,
    m: nat,
)
    requires
        m <= a.len(),
        forall|k: int| 0 <= k < m ==> #[trigger] upper_product(a, x, k, col) == y[k][col].value,
    ensures
        lower_part(a, x, i, col, a.len(), m) == lower_sum(a, y, i, col, m),
    decreases m,
{
    if m > 0 {
        lemma_lower_part_is_sum(a, x, y, i, col, (m - 1) as nat);
        lemma_upper_part(a, x, m - 1, col, a.len());
        assert(upper_product(a, x, m - 1, col) == y[m - 1][col].value);
    }
}

/// Where the upper factor times `x` is `y`, the product of the factors
/// times `x` is the lower factor times `y`.
pub proof fn lemma_factors_undone(
    a: Seq<Seq<Exact>>,
    x: Seq<Seq<Exact>>,
    y: Seq<Seq<Exact>>,
    i: int,
    col: int,
)
    requires
        0 <= i < a.len(),
        forall|k: int|
            0 <= k < a.len() ==> #[trigger] upper_product(a, x, k, col) == y[k][col].value,
    ensures
        factors_times(a, x, i, col, a.len()) == lower_product(a, y, i, col),
{
    lemma_factors_times(a, x, i, col, a.len());
    lemma_lower_part_is_sum(a, x, y, i, col, i as nat);
    lemma_upper_part(a, x, i, col, a.len());
    assert(upper_product(a, x, i, col) == y[i][col].value);
}

/// Forward substitution on the first `upto` columns: the lower factor times
/// what it leaves in these columns is the right hand side with its rows
/// aligned, and the other columns are untouched.
pub proof fn lemma_forward_columns(
    a: Seq<Seq<Exact>>,
    permutation: Seq<usize>,
    b: Seq<Seq<Exact>>,
    width: nat,
    upto: nat,
)
    requires
        a.len() == b.len(),
        rectangular(b, width),
        downward(permutation, b.len()),
        upto <= width,
    ensures
        ({
            let y = forward_columns(a, permutation, b, upto);
            &&& y.len() == b.len()
            &&& rectangular(y, width)
            &&& forall|i: int, j: int|
                0 <= i < b.len() && upto <= j < width ==> (#[trigger] y[i][j]) == b[i][j]
            &&& forall|i: int, j: int|
                0 <= i < b.len() && 0 <= j < upto ==> #[trigger] lower_product(a, y, i, j)
                    == rows_aligned(b, permutation, b.len())[i][j].value
        }),
    decreases upto,
{
    let n = b.len();
    if upto > 0 {
        let c = upto - 1;
        let y0 = forward_columns(a, permutation, b, c as nat);
        lemma_forward_columns(a, permutation, b, width, c as nat);
        lemma_forward_rows(a, permutation, y0, c, width, n);
        assert forall|i: int| 0 <= i < n implies (#[trigger] y0[i])[c] == b[i][c] by {
            assert(y0[i][c] == b[i][c]);
        }
        lemma_aligned_column(b, y0, permutation, c, n);
        let state = forward_rows(a, permutation, y0, c, n);
        let y1 = state.0;
        assert(forward_done(a, permutation, y0, c, n, state, width));
        assert(y1 == forward_columns(a, permutation, b, upto));
        let pb = rows_aligned(b, permutation, n);
        assert forall|i: int, j: int| 0 <= i < n && 0 <= j < upto implies #[trigger] lower_product(
            a,
            y1,
            i,
            j,
        ) == pb[i][j].value by {
            if j < c {
                assert forall|t: int| 0 <= t < i implies (#[trigger] y1[t])[j] == y0[t][j] by {
                    assert(y1[t][j] == y0[t][j]);
                }
                lemma_lower_sum_same(a, y1, y0, i, j, i as nat);
                assert(y1[i][j] == y0[i][j]);
                assert(lower_product(a, y0, i, j) == pb[i][j].value);
            } else {
                assert(rows_aligned(y0, permutation, n)[i][c] == pb[i][c]);
            }
        }
        assert forall|i: int, j: int| 0 <= i < n && upto <= j < width implies (#[trigger] y1[i][j])
            == b[i][j] by {
            assert(y1[i][j] == y0[i][j]);
            assert(y0[i][j] == b[i][j]);
        }
    }
}

/// Backward substitution on the first `upto` columns, where no entry on the
/// diagonal is zero: the upper factor times what it leaves in these columns
/// is what stood there, and the other columns are untouched.
pub proof fn lemma_backward_columns(
    a: Seq<Seq<Exact>>,
    y: Seq<Seq<Exact>>,
    width: nat,
    upto: nat,
)
    requires
        a.len() == y.len(),
        rectangular(y, width),
        upto <= width,
        forall|i: int| 0 <= i < a.len() ==> !(#[trigger] a[i])[i].vanishes(),
    ensures
        ({
            let x = backward_columns(a, y, upto);
            &&& x.len() == y.len()
            &&& rectangular(x, width)
            &&& forall|i: int, j: int|
                0 <= i < y.len() && upto <= j < width ==> (#[trigger] x[i][j]) == y[i][j]
            &&& forall|i: int, j: int|
                0 <= i < y.len() && 0 <= j < upto ==> #[trigger] upper_product(a, x, i, j)
                    == y[i][j].value
        }),
    decreases upto,
{
    let n = y.len();
    if upto > 0 {
        let c = upto - 1;
        let x0 = backward_columns(a, y, c as nat);
        lemma_backward_columns(a, y, width, c as nat);
        lemma_backward_rows(a, x0, c, width, n);
        let x1 = backward_rows(a, x0, c, n);
        assert(x1 == backward_columns(a, y, upto));
        assert forall|i: int, j: int| 0 <= i < n && 0 <= j < upto implies #[trigger] upper_product(
            a,
            x1,
            i,
            j,
        ) == y[i][j].value by {
            if j < c {
                assert forall|t: int| i < t < n implies (#[trigger] x1[t])[j] == x0[t][j] by {
                    assert(x1[t][j] == x0[t][j]);
                }
                lemma_upper_sum_same(a, x1, x0, i, j, n as int);
                assert(x1[i][j] == x0[i][j]);
                assert(upper_product(a, x0, i, j) == y[i][j].value);
            } else {
                assert(x0[i][c] == y[i][c]);
            }
        }
        assert forall|i: int, j: int| 0 <= i < n && upto <= j < width implies (#[trigger] x1[i][j])
            == y[i][j] by {
            assert(x0[i][j] == y[i][j]);
        }
    }
}

/// Where the product of the factors is the matrix `g`, multiplying by the
/// one is multiplying by the other.
pub proof fn lemma_factors_times_is_dot(
    a: Seq<Seq<Exact>>,
    g: Seq<Seq<Exact>>,
    x: Seq<Seq<Exact>>,
    i: int,
    col: int,
    upto: nat,
)
    requires
        upto <= x.len(),
        forall|j: int| 0 <= j < upto ==> #[trigger] product_entry(a, i, j) == g[i][j].value,
    ensures
        factors_times(a, x, i, col, upto) == dot(g[i], column_of(x, col), upto),
    decreases upto,
{
    if upto > 0 {
        lemma_factors_times_is_dot(a, g, x, i, col, (upto - 1) as nat);
        assert(product_entry(a, i, upto - 1) == g[i][upto - 1].value);
        assert(column_of(x, col)[upto - 1] == x[upto - 1][col]);
    }
}

/// The small number that takes the place of a pivot that is zero is not zero.
pub proof fn lemma_tiny_is_not_zero()
    ensures
        !Exact::tiny_element().vanishes(),
{
    reveal(real_quotient);
    let t = 1real / 100000000000000000000real;
    assert(t * 100000000000000000000real == 1real) by (nonlinear_arith)
        requires
            t == 1real / 100000000000000000000real,
    ;
}

/// The row that stands at `i` once rows `p` and `k` have changed places.
pub open spec fn exchange_of(p: int, k: int, i: int) -> int {
    if i == k {
        p
    } else if i == p {
        k
    } else {
        i
    }
}

/// The place from which the row came that stands at `i` after the first
/// `upto` exchanges of the record.
pub open spec fn came_from(permutation: Seq<int>, upto: nat, i: int) -> int
    decreases upto,
{
    if upto == 0 {
        i
    } else {
        came_from(
            permutation,
            (upto - 1) as nat,
            exchange_of(permutation[upto - 1], upto - 1, i),
        )
    }
}

/// The place to which the first `upto` exchanges of the record bring the
/// row that stood at `i`.
pub open spec fn went_to(permutation: Seq<int>, upto: nat, i: int) -> int
    decreases upto,
{
    if upto == 0 {
        i
    } else {
        exchange_of(permutation[upto - 1], upto - 1, went_to(permutation, (upto - 1) as nat, i))
    }
}

/// The exchanges move rows within the matrix, and every row is found again
/// where it went to.
pub proof fn lemma_exchanges_permute(permutation: Seq<int>, n: nat, upto: nat, i: int)
    requires
        upto <= n,
        permutation.len() >= upto,
        forall|c: int| 0 <= c < upto ==> 0 <= #[trigger] permutation[c] < n,
        0 <= i < n,
    ensures
        0 <= came_from(permutation, upto, i) < n,
        0 <= went_to(permutation, upto, i) < n,
        came_from(permutation, upto, went_to(permutation, upto, i)) == i,
    decreases upto,
{
    if upto > 0 {
        let k = upto - 1;
        let p = permutation[k];
        lemma_exchanges_permute(permutation, n, k as nat, i);
        lemma_exchanges_permute(permutation, n, k as nat, exchange_of(p, k, i));
    }
}

/// The rows of the matrix after the exchanges of the record, and those of
/// the right hand side after its alignment, are the rows that they came
/// from.
pub proof fn lemma_rows_came_from(
    g: Seq<Seq<Exact>>,
    b: Seq<Seq<Exact>>,
    record: Seq<int>,
    permutation: Seq<usize>,
    upto: nat,
)
    requires
        b.len() == g.len(),
        upto <= g.len(),
        record.len() >= upto,
        permutation.len() >= upto,
        forall|c: int|
            0 <= c < upto ==> 0 <= #[trigger] record[c] < g.len() && permutation[c] == record[c],
    ensures
        exchanged(g, record, upto).len() == g.len(),
        rows_aligned(b, permutation, upto).len() == g.len(),
        forall|i: int|
            0 <= i < g.len() ==> (#[trigger] exchanged(g, record, upto)[i]) == g[came_from(
                record,
                upto,
                i,
            )],
        forall|i: int|
            0 <= i < g.len() ==> (#[trigger] rows_aligned(b, permutation, upto)[i]) == b[came_from(
                record,
                upto,
                i,
            )],
    decreases upto,
{
    let n = g.len();
    if upto > 0 {
        let k = upto - 1;
        lemma_rows_came_from(g, b, record, permutation, k as nat);
        assert forall|i: int| 0 <= i < n implies 0 <= #[trigger] exchange_of(record[k], k, i)
            < n by {}
    }
}

/// Forward and then backward substitution leave in place of the right hand
/// sides the solution of the system, whatever rows the decomposition
/// exchanged, as long as it found no zero on the diagonal: the matrix that
/// was decomposed times what they leave is the right hand side.
pub proof fn lemma_substitution_solves(
    g: Seq<Seq<Exact>>,
    permutation: Seq<usize>,
    b: Seq<Seq<Exact>>,
    width: nat,
)
    requires
        rectangular(g, g.len()),
        pivots_found(g, g.len()),
        b.len() == g.len(),
        rectangular(b, width),
        permutation.len() == g.len(),
        forall|c: int|
            0 <= c < g.len() ==> (#[trigger] permutation[c]) == factored(g).permutation[c],
    ensures
        ({
            let a = factored(g).grid;
            let x = backward_columns(a, forward_columns(a, permutation, b, width), width);
            &&& x.len() == g.len()
            &&& rectangular(x, width)
            &&& is_product(g, x, b, width)
            &&& solved(a, permutation, b, width) == rows_restored(x, permutation, g.len())
        }),
{
    let n = g.len();
    let f = factored(g);
    let a = f.grid;
    lemma_columns_multiply_back(g, n);
    lemma_permutation_and_parity(g, n);
    lemma_tiny_is_not_zero();
    lemma_pivots_not_zero(g, n);
    assert(downward(permutation, n)) by {
        assert forall|i: int| 0 <= i < n implies i <= (#[trigger] permutation[i])
            && permutation[i] < n by {
            assert(permutation[i] == f.permutation[i]);
        }
    }
    let y = forward_columns(a, permutation, b, width);
    lemma_forward_columns(a, permutation, b, width, width);
    let x = backward_columns(a, y, width);
    lemma_backward_columns(a, y, width, width);
    let pg = exchanged(g, f.permutation, n);
    let pb = rows_aligned(b, permutation, n);
    lemma_rows_came_from(g, b, f.permutation, permutation, n);
    assert forall|i: int, j: int| 0 <= i < n && 0 <= j < width implies dot(
        g[i],
        column_of(x, j),
        x.len(),
    ) == (#[trigger] b[i][j]).value by {
        lemma_exchanges_permute(f.permutation, n, n, i);
        let m = went_to(f.permutation, n, i);
        assert(pg[m] == g[i] && pb[m] == b[i]);
        assert forall|k: int| 0 <= k < n implies #[trigger] upper_product(a, x, k, j)
            == y[k][j].value by {}
        lemma_factors_undone(a, x, y, m, j);
        assert(lower_product(a, y, m, j) == pb[m][j].value);
        assert forall|t: int| 0 <= t < n implies #[trigger] product_entry(a, m, t)
            == pg[m][t].value by {}
        lemma_factors_times_is_dot(a, pg, x, m, j, n);
    }
}

/// What `crout` leaves in place of the right hand sides solves the system,
/// where the decomposition exchanged no rows and found no zero on the
/// diagonal: the matrix that was decomposed times what `crout` leaves is
/// the right hand side. Where rows were exchanged, `crout` leaves the
/// solution with its rows exchanged once more.
pub proof fn lemma_crout_solves(
    g: Seq<Seq<Exact>>,
    permutation: Seq<usize>,
    b: Seq<Seq<Exact>>,
    width: nat,
)
    requires
        rectangular(g, g.len()),
        pivots_found(g, g.len()),
        b.len() == g.len(),
        rectangular(b, width),
        unmoved(permutation, g.len()),
        forall|c: int| 0 <= c < g.len() ==> factored(g).permutation[c] == c,
    ensures
        solved(factored(g).grid, permutation, b, width).len() == g.len(),
        rectangular(solved(factored(g).grid, permutation, b, width), width),
        is_product(g, solved(factored(g).grid, permutation, b, width), b, width),
{
    let a = factored(g).grid;
    lemma_substitution_solves(g, permutation, b, width);
    let x = backward_columns(a, forward_columns(a, permutation, b, width), width);
    lemma_unmoved(x, permutation, g.len());
}

/// The two solvers leave the same in place of the right hand sides, where
/// the decomposition exchanged no rows and no pivot of either was zero.
pub proof fn lemma_solvers_agree(
    g: Seq<Seq<Exact>>,
    permutation: Seq<usize>,
    b: Seq<Seq<Exact>>,
    width: nat,
)
    requires
        rectangular(g, g.len()),
        g.len() <= usize::MAX,
        pivots_found(g, g.len()),
        b.len() == g.len(),
        rectangular(b, width),
        unmoved(permutation, g.len()),
        forall|c: int| 0 <= c < g.len() ==> factored(g).permutation[c] == c,
        !reduced(g, b, false).singular,
    ensures
        reduced(g, b, false).b == solved(factored(g).grid, permutation, b, width),
{
    lemma_crout_solves(g, permutation, b, width);
    lemma_elimination_solves(g, b, solved(factored(g).grid, permutation, b, width), width);
}

} // verus!
