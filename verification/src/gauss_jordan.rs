//! Gauss-Jordan elimination with full pivoting.

use crate::error::Error;
use crate::grid::{
    column_of, rectangular, with_columns_swapped, with_entry, with_row_scaled, with_rows_swapped,
};
use crate::matrix::Matrix;
use crate::number::Number;
use crate::scalar::{Scalar, ONE_BITS};
use vstd::prelude::*;

verus! {

/// What an elimination carries from one step to the next.
pub struct Elimination<T> {
    /// The left hand side.
    pub a: Seq<Seq<T>>,
    /// The right hand sides.
    pub b: Seq<Seq<T>>,
    /// For each diagonal position, whether a pivot stands on it.
    pub used: Seq<bool>,
    /// The pivots that were found off the diagonal, by row and column, in
    /// the order in which they were moved.
    pub log: Seq<(usize, usize)>,
    /// Whether a pivot was found to be zero; the elimination stops there.
    pub singular: bool,
}

/// The first position from `from` on that holds no pivot yet, or the length
/// where every one does.
pub open spec fn first_unused(used: Seq<bool>, from: int) -> int
    decreases used.len() - from,
{
    if from >= used.len() {
        used.len() as int
    } else if !used[from] {
        from
    } else {
        first_unused(used, from + 1)
    }
}

/// How many of the first `upto` positions hold a pivot.
pub open spec fn count_used(used: Seq<bool>, upto: nat) -> nat
    decreases upto,
{
    if upto == 0 {
        0
    } else {
        count_used(used, (upto - 1) as nat) + if used[upto - 1] {
            1nat
        } else {
            0nat
        }
    }
}

/// The search for a pivot along the first `upto` columns of row `r`: from
/// what was found so far it moves on only to an entry of a column without a
/// pivot whose magnitude is strictly larger.
pub open spec fn search_row<T: Number>(
    g: Seq<Seq<T>>,
    used: Seq<bool>,
    r: int,
    upto: nat,
    start: (T, int, int),
) -> (T, int, int)
    decreases upto,
{
    if upto == 0 {
        start
    } else {
        let before = search_row(g, used, r, (upto - 1) as nat, start);
        let c = upto - 1;
        if !used[c] && g[r][c].absolute().exceeds(before.0) {
            (g[r][c].absolute(), r, c)
        } else {
            before
        }
    }
}

/// The search for a pivot over the first `upto` rows, row by row, passing
/// over the rows that hold a pivot. It starts from magnitude zero at the
/// first diagonal position without a pivot.
pub open spec fn search_rows<T: Number>(g: Seq<Seq<T>>, used: Seq<bool>, upto: nat) -> (
    T,
    int,
    int,
)
    decreases upto,
{
    if upto == 0 {
        (T::zero_element(), first_unused(used, 0), first_unused(used, 0))
    } else {
        let before = search_rows(g, used, (upto - 1) as nat);
        if used[upto - 1] {
            before
        } else {
            search_row(g, used, upto - 1, g.len(), before)
        }
    }
}

/// Row and column of the pivot: the entry of largest magnitude among the
/// rows and columns without a pivot, the first one in row-major order among
/// equals.
pub open spec fn pivot_location<T: Number>(g: Seq<Seq<T>>, used: Seq<bool>) -> (int, int) {
    let found = search_rows(g, used, g.len());
    (found.1, found.2)
}

/// Every row but row `p` less row `p` times that row's factor.
pub open spec fn reduce_rows<T: Number>(g: Seq<Seq<T>>, p: int, factors: Seq<T>) -> Seq<Seq<T>> {
    Seq::new(
        g.len(),
        |i: int|
            if i == p {
                g[i]
            } else {
                Seq::new(g[i].len(), |j: int| g[i][j].minus(g[p][j].times(factors[i])))
            },
    )
}

/// Column `p` set to zero in every row but row `p`.
pub open spec fn column_cleared<T: Number>(g: Seq<Seq<T>>, p: int) -> Seq<Seq<T>> {
    Seq::new(
        g.len(),
        |i: int|
            if i == p {
                g[i]
            } else {
                g[i].update(p, T::zero_element())
            },
    )
}

/// One step of the elimination. The pivot's row changes places with the row
/// of the pivot's column, in both matrices, which brings the pivot onto the
/// diagonal. A zero pivot ends the elimination. Else the pivot row is scaled
/// by the reciprocal of the pivot and taken off every other row, times that
/// row's entry in the pivot column. Where the inverse is asked for, the pivot
/// entry is first replaced by the product of pivot and reciprocal, and the
/// rest of the pivot column by zero.
pub open spec fn eliminate_step<T: Number>(e: Elimination<T>, inverse: bool) -> Elimination<T> {
    let (irow, icol) = pivot_location(e.a, e.used);
    let moved = irow != icol;
    let a1 = if moved {
        with_rows_swapped(e.a, irow, icol)
    } else {
        e.a
    };
    let b1 = if moved {
        with_rows_swapped(e.b, irow, icol)
    } else {
        e.b
    };
    let log = if moved {
        e.log.push((irow as usize, icol as usize))
    } else {
        e.log
    };
    let used = e.used.update(icol, true);
    let pivot = a1[icol][icol];
    if pivot.vanishes() {
        Elimination { a: a1, b: b1, used, log, singular: true }
    } else {
        let reciprocal = T::one_element().over(pivot);
        let a2 = if inverse {
            with_entry(a1, icol, icol, pivot.times(reciprocal))
        } else {
            a1
        };
        let a3 = with_row_scaled(a2, icol, reciprocal);
        let b3 = with_row_scaled(b1, icol, reciprocal);
        let factors = column_of(a3, icol);
        let a4 = reduce_rows(
            if inverse {
                column_cleared(a3, icol)
            } else {
                a3
            },
            icol,
            factors,
        );
        Elimination { a: a4, b: reduce_rows(b3, icol, factors), used, log, singular: false }
    }
}

/// The first `upto` steps of the elimination; nothing changes after a zero
/// pivot.
pub open spec fn eliminate_steps<T: Number>(e: Elimination<T>, inverse: bool, upto: nat) -> Elimination<T>
    decreases upto,
{
    if upto == 0 {
        e
    } else {
        let before = eliminate_steps(e, inverse, (upto - 1) as nat);
        if before.singular {
            before
        } else {
            eliminate_step(before, inverse)
        }
    }
}

/// The start of an elimination: no pivot placed, nothing logged.
pub open spec fn unreduced<T: Number>(a: Seq<Seq<T>>, b: Seq<Seq<T>>) -> Elimination<T> {
    Elimination {
        a,
        b,
        used: Seq::new(a.len(), |i: int| false),
        log: Seq::empty(),
        singular: false,
    }
}

/// The last `done` entries of the log replayed from the last one backwards,
/// each as an exchange of the two columns it names.
pub open spec fn columns_restored<T>(g: Seq<Seq<T>>, log: Seq<(usize, usize)>, done: nat) -> Seq<Seq<T>>
    decreases done,
{
    if done == 0 {
        g
    } else {
        let before = columns_restored(g, log, (done - 1) as nat);
        let pair = log[log.len() - done];
        with_columns_swapped(before, pair.0 as int, pair.1 as int)
    }
}

/// What `gaussj` makes of `a` and `b`: all steps of the elimination, and, if
/// it got through them and the inverse is asked for, the columns of `a`
/// restored.
pub open spec fn reduced<T: Number>(a: Seq<Seq<T>>, b: Seq<Seq<T>>, inverse: bool) -> Elimination<T> {
    let e = eliminate_steps(unreduced(a, b), inverse, a.len());
    if inverse && !e.singular {
        Elimination { a: columns_restored(e.a, e.log, e.log.len()), ..e }
    } else {
        e
    }
}

/// The first position without a pivot is one, and none lies before it.
pub proof fn lemma_first_unused(used: Seq<bool>, from: int)
    requires
        0 <= from <= used.len(),
    ensures
        from <= first_unused(used, from) <= used.len(),
        first_unused(used, from) < used.len() ==> !used[first_unused(used, from)],
        forall|i: int| from <= i < first_unused(used, from) ==> used[i],
    decreases used.len() - from,
{
    if from < used.len() && used[from] {
        lemma_first_unused(used, from + 1);
    }
}

/// No more pivots are placed than there are positions, and as many only
/// where every position holds one.
pub proof fn lemma_count_used_bound(used: Seq<bool>, upto: nat)
    requires
        upto <= used.len(),
    ensures
        count_used(used, upto) <= upto,
        count_used(used, upto) == upto ==> forall|i: int| 0 <= i < upto ==> used[i],
        (forall|i: int| 0 <= i < upto ==> used[i]) ==> count_used(used, upto) == upto,
    decreases upto,
{
    if upto > 0 {
        lemma_count_used_bound(used, (upto - 1) as nat);
    }
}

/// Where fewer pivots are placed than there are positions, one is free.
pub proof fn lemma_some_unused(used: Seq<bool>)
    requires
        count_used(used, used.len()) < used.len(),
    ensures
        first_unused(used, 0) < used.len(),
{
    lemma_first_unused(used, 0);
    lemma_count_used_bound(used, used.len());
}

/// Placing a pivot on a free position raises the count by one.
pub proof fn lemma_count_used_update(used: Seq<bool>, i: int, upto: nat)
    requires
        0 <= i < used.len(),
        !used[i],
        upto <= used.len(),
    ensures
        count_used(used.update(i, true), upto) == count_used(used, upto) + if i < upto {
            1nat
        } else {
            0nat
        },
    decreases upto,
{
    if upto > 0 {
        lemma_count_used_update(used, i, (upto - 1) as nat);
    }
}

/// Row and column of what a search has found hold no pivot, if those of what
/// it started from hold none.
pub open spec fn free_place<T: Number>(used: Seq<bool>, found: (T, int, int)) -> bool {
    &&& 0 <= found.1 < used.len()
    &&& 0 <= found.2 < used.len()
    &&& !used[found.1]
    &&& !used[found.2]
}

/// The search along a row without a pivot stays on rows and columns without
/// a pivot.
pub proof fn lemma_search_row_free<T: Number>(
    g: Seq<Seq<T>>,
    used: Seq<bool>,
    r: int,
    upto: nat,
    start: (T, int, int),
)
    requires
        0 <= r < used.len(),
        !used[r],
        upto <= used.len(),
        free_place(used, start),
    ensures
        free_place(used, search_row(g, used, r, upto, start)),
    decreases upto,
{
    if upto > 0 {
        lemma_search_row_free(g, used, r, (upto - 1) as nat, start);
    }
}

/// The pivot is looked for, and found, among the rows and columns that hold
/// no pivot yet.
pub proof fn lemma_search_rows_free<T: Number>(g: Seq<Seq<T>>, used: Seq<bool>, upto: nat)
    requires
        g.len() == used.len(),
        upto <= used.len(),
        first_unused(used, 0) < used.len(),
    ensures
        free_place(used, search_rows(g, used, upto)),
    decreases upto,
{
    lemma_first_unused(used, 0);
    if upto > 0 {
        lemma_search_rows_free(g, used, (upto - 1) as nat);
        if !used[upto - 1] {
            lemma_search_row_free(
                g,
                used,
                upto - 1,
                g.len(),
                search_rows(g, used, (upto - 1) as nat),
            );
        }
    }
}

/// What the search along a row settles on. It is no NaN if what it started
/// from is none, and no entry of the row in a column without a pivot exceeds
/// it. Either it is what the search started from, or it is the magnitude of
/// an entry of this row that exceeds what the search started from, and every
/// entry before that one is strictly smaller or a NaN.
pub proof fn lemma_search_row_largest(
    g: Seq<Seq<Scalar>>,
    used: Seq<bool>,
    r: int,
    upto: nat,
    start: (Scalar, int, int),
)
    requires
        !start.0.spec_is_nan(),
    ensures
        ({
            let found = search_row(g, used, r, upto, start);
            &&& !found.0.spec_is_nan()
            &&& !start.0.spec_gt(found.0)
            &&& forall|j: int|
                0 <= j < upto && !used[j] ==> !(#[trigger] g[r][j]).spec_abs().spec_gt(found.0)
            &&& found == start || (found.1 == r && 0 <= found.2 < upto && !used[found.2] && found.0
                == g[r][found.2].spec_abs() && found.0.spec_gt(start.0) && forall|j: int|
                0 <= j < found.2 && !used[j] && !(#[trigger] g[r][j]).spec_is_nan()
                    ==> found.0.spec_gt(g[r][j].spec_abs()))
        }),
    decreases upto,
{
    if upto > 0 {
        lemma_search_row_largest(g, used, r, (upto - 1) as nat, start);
    }
}

/// The place `(i, j)` comes before the place `(r, c)` in row-major order.
pub open spec fn comes_before(i: int, j: int, r: int, c: int) -> bool {
    i < r || (i == r && j < c)
}

/// What the search over the rows settles on. No entry in a row and a column
/// without a pivot exceeds the magnitude found. Either that magnitude is
/// zero and the search stayed at the first diagonal position without a
/// pivot, or it is the magnitude of the entry found, which stands in a row
/// and a column without a pivot, and every such entry that comes before it
/// in row-major order is strictly smaller or a NaN.
pub proof fn lemma_search_rows_largest(g: Seq<Seq<Scalar>>, used: Seq<bool>, upto: nat)
    requires
        g.len() == used.len(),
        upto <= g.len(),
    ensures
        ({
            let found = search_rows(g, used, upto);
            let n = g.len();
            &&& !found.0.spec_is_nan()
            &&& forall|i: int, j: int|
                0 <= i < upto && 0 <= j < n && !used[i] && !used[j] ==> !(#[trigger] g[i][j]).spec_abs().spec_gt(
                    found.0,
                )
            &&& (found.0 == Scalar::zero() && found.1 == first_unused(used, 0) && found.2
                == first_unused(used, 0)) || (0 <= found.1 < upto && 0 <= found.2 < n
                && !used[found.1] && !used[found.2] && found.0 == g[found.1][found.2].spec_abs()
                && forall|i: int, j: int|
                0 <= i < upto && 0 <= j < n && !used[i] && !used[j] && comes_before(
                    i,
                    j,
                    found.1,
                    found.2,
                ) && !(#[trigger] g[i][j]).spec_is_nan() ==> found.0.spec_gt(g[i][j].spec_abs()))
        }),
    decreases upto,
{
    if upto > 0 {
        let before = search_rows(g, used, (upto - 1) as nat);
        lemma_search_rows_largest(g, used, (upto - 1) as nat);
        if !used[upto - 1] {
            lemma_search_row_largest(g, used, upto - 1, g.len(), before);
        }
    }
}

/// Finds the pivot of the next step: row and column of the entry of largest
/// magnitude among the rows and columns that hold no pivot yet.
pub fn select_pivot_location(a: &Matrix, used: &Vec<bool>) -> (r: (usize, usize))
    requires
        a@.len() == a.width(),
        used@.len() == a@.len(),
        first_unused(used@, 0) < used@.len(),
    ensures
        (r.0 as int, r.1 as int) == pivot_location(a@, used@),
        r.0 < a@.len(),
        r.1 < a@.len(),
        !used@[r.0 as int],
        !used@[r.1 as int],
{
    let n: usize = a.rows();
    let mut first: usize = 0;
    proof {
        lemma_first_unused(used@, 0);
    }
    while used[first]
        invariant
            first < n,
            n == used@.len(),
            first_unused(used@, 0) < n,
            first_unused(used@, 0) == first_unused(used@, first as int),
        decreases n - first,
    {
        proof {
            lemma_first_unused(used@, first as int + 1);
        }
        first = first + 1;
    }
    let mut max_absolute_value: Scalar = Scalar { bits: 0 };
    let mut row_of_max: usize = first;
    let mut col_of_max: usize = first;
    let mut row: usize = 0;
    while row < n
        invariant
            row <= n,
            n == a@.len(),
            n == a.width(),
            n == used@.len(),
            first_unused(used@, 0) < n,
            (max_absolute_value, row_of_max as int, col_of_max as int) == search_rows(
                a@,
                used@,
                row as nat,
            ),
            row_of_max < n,
            col_of_max < n,
        decreases n - row,
    {
        proof {
            lemma_search_rows_free(a@, used@, row as nat);
            lemma_search_rows_free(a@, used@, (row + 1) as nat);
        }
        if !used[row] {
            let ghost start = (max_absolute_value, row_of_max as int, col_of_max as int);
            let mut column: usize = 0;
            while column < n
                invariant
                    column <= n,
                    row < n,
                    n == a@.len(),
                    n == a.width(),
                    n == used@.len(),
                    !used@[row as int],
                    free_place(used@, start),
                    (max_absolute_value, row_of_max as int, col_of_max as int) == search_row(
                        a@,
                        used@,
                        row as int,
                        column as nat,
                        start,
                    ),
                    row_of_max < n,
                    col_of_max < n,
                decreases n - column,
            {
                proof {
                    lemma_search_row_free(a@, used@, row as int, (column + 1) as nat, start);
                }
                if !used[column] {
                    let magnitude: Scalar = a.get(row, column).abs();
                    if magnitude.gt(max_absolute_value) {
                        max_absolute_value = magnitude;
                        row_of_max = row;
                        col_of_max = column;
                    }
                }
                column = column + 1;
            }
        }
        row = row + 1;
    }
    proof {
        lemma_search_rows_free(a@, used@, n as nat);
    }
    (row_of_max, col_of_max)
}

/// Where no position holds a pivot the count is zero.
pub proof fn lemma_count_used_none(used: Seq<bool>, upto: nat)
    requires
        upto <= used.len(),
        forall|i: int| 0 <= i < upto ==> !used[i],
    ensures
        count_used(used, upto) == 0,
    decreases upto,
{
    if upto > 0 {
        lemma_count_used_none(used, (upto - 1) as nat);
    }
}

/// Once a pivot was found to be zero, further steps change nothing.
pub proof fn lemma_singular_stays<T: Number>(e: Elimination<T>, inverse: bool, at: nat, upto: nat)
    requires
        at <= upto,
        eliminate_steps(e, inverse, at).singular,
    ensures
        eliminate_steps(e, inverse, upto) == eliminate_steps(e, inverse, at),
    decreases upto,
{
    if upto > at {
        lemma_singular_stays(e, inverse, at, (upto - 1) as nat);
    }
}

/// Takes `factor` times row `p` off row `row`.
fn eliminate_row(m: &mut Matrix, p: usize, row: usize, factor: Scalar)
    requires
        p < old(m)@.len(),
        row < old(m)@.len(),
        p != row,
    ensures
        final(m).width() == old(m).width(),
        final(m)@ == old(m)@.update(
            row as int,
            Seq::new(
                old(m)@[row as int].len(),
                |j: int|
                    old(m)@[row as int][j].spec_sub(old(m)@[p as int][j].spec_mul(factor)),
            ),
        ),
{
    let width: usize = m.columns();
    let ghost g0 = m@;
    let mut col: usize = 0;
    while col < width
        invariant
            col <= width,
            m.width() == width,
            m@.len() == g0.len(),
            rectangular(g0, width as nat),
            p < g0.len(),
            row < g0.len(),
            p != row,
            forall|i: int| 0 <= i < g0.len() && i != row ==> m@[i] == #[trigger] g0[i],
            m@[row as int].len() == width,
            forall|j: int|
                0 <= j < col ==> m@[row as int][j] == (#[trigger] g0[row as int][j]).spec_sub(
                    g0[p as int][j].spec_mul(factor),
                ),
            forall|j: int| col <= j < width ==> m@[row as int][j] == #[trigger] g0[row as int][j],
        decreases width - col,
    {
        let value: Scalar = m.get(row, col).sub(m.get(p, col).mul(factor));
        m.set(row, col, value);
        col = col + 1;
    }
    assert(m@ =~~= g0.update(
        row as int,
        Seq::new(
            g0[row as int].len(),
            |j: int| g0[row as int][j].spec_sub(g0[p as int][j].spec_mul(factor)),
        ),
    ));
}

/// One step of the elimination, in place. Tells whether the pivot was zero.
fn gauss_step(
    a: &mut Matrix,
    b: &mut Matrix,
    used: &mut Vec<bool>,
    swaps: &mut Vec<(usize, usize)>,
    inverse: bool,
) -> (singular: bool)
    requires
        old(a)@.len() == old(a).width(),
        old(b)@.len() == old(a)@.len(),
        old(used)@.len() == old(a)@.len(),
        first_unused(old(used)@, 0) < old(used)@.len(),
    ensures
        final(a).width() == old(a).width(),
        final(b).width() == old(b).width(),
        final(a)@.len() == old(a)@.len(),
        final(b)@.len() == old(b)@.len(),
        final(used)@.len() == old(used)@.len(),
        count_used(final(used)@, final(used)@.len()) == count_used(old(used)@, old(used)@.len())
            + 1,
        ({
            let e = eliminate_step(
                Elimination {
                    a: old(a)@,
                    b: old(b)@,
                    used: old(used)@,
                    log: old(swaps)@,
                    singular: false,
                },
                inverse,
            );
            &&& final(a)@ == e.a
            &&& final(b)@ == e.b
            &&& final(used)@ == e.used
            &&& final(swaps)@ == e.log
            &&& singular == e.singular
        }),
        final(swaps)@.len() >= old(swaps)@.len(),
        forall|i: int|
            old(swaps)@.len() <= i < final(swaps)@.len() ==> (#[trigger] final(swaps)@[i]).0 < old(
                a,
            )@.len() && final(swaps)@[i].1 < old(a)@.len(),
        forall|i: int| 0 <= i < old(swaps)@.len() ==> final(swaps)@[i] == old(swaps)@[i],
{
    let n: usize = a.rows();
    proof {
        use_type_invariant(&*a);
        a.lemma_rectangular();
    }
    let b_width: usize = b.columns();
    let (irow, icol) = select_pivot_location(a, used);
    proof {
        lemma_count_used_update(used@, icol as int, n as nat);
    }
    used[icol] = true;
    assert(used@ =~= old(used)@.update(icol as int, true));
    if irow != icol {
        a.swap_rows((irow, icol));
        b.swap_rows((irow, icol));
        swaps.push((irow, icol));
    }
    let pivot: Scalar = a.get(icol, icol);
    if pivot.is_zero() {
        return true;
    }
    let pivot_inverse: Scalar = Scalar { bits: ONE_BITS }.div(pivot);
    if inverse {
        a.set(icol, icol, pivot.mul(pivot_inverse));
    }
    a.scale_row(icol, pivot_inverse);
    b.scale_row(icol, pivot_inverse);
    let ghost a3 = a@;
    let ghost b3 = b@;
    let ghost factors = column_of(a3, icol as int);
    let ghost a4 = reduce_rows(
        if inverse {
            column_cleared(a3, icol as int)
        } else {
            a3
        },
        icol as int,
        factors,
    );
    let ghost b4 = reduce_rows(b3, icol as int, factors);
    let mut row: usize = 0;
    while row < n
        invariant
            row <= n,
            icol < n,
            a.width() == n,
            b.width() == b_width,
            a@.len() == n,
            b@.len() == n,
            a3.len() == n,
            b3.len() == n,
            rectangular(a3, n as nat),
            rectangular(b3, b_width as nat),
            factors == column_of(a3, icol as int),
            a4 == reduce_rows(
                if inverse {
                    column_cleared(a3, icol as int)
                } else {
                    a3
                },
                icol as int,
                factors,
            ),
            b4 == reduce_rows(b3, icol as int, factors),
            forall|i: int|
                0 <= i < n ==> a@[i] == if i < row {
                    a4[i]
                } else {
                    #[trigger] a3[i]
                },
            forall|i: int|
                0 <= i < n ==> b@[i] == if i < row {
                    b4[i]
                } else {
                    #[trigger] b3[i]
                },
        decreases n - row,
    {
        if row != icol {
            let factor: Scalar = a.get(row, icol);
            if inverse {
                a.set(row, icol, Scalar { bits: 0 });
            }
            eliminate_row(a, icol, row, factor);
            eliminate_row(b, icol, row, factor);
            assert(a@[row as int] =~= a4[row as int]);
            assert(b@[row as int] =~= b4[row as int]);
        }
        row = row + 1;
    }
    assert(a@ =~= a4);
    assert(b@ =~= b4);
    false
}

/// Solves `a * x = b` in place by Gauss-Jordan elimination with full
/// pivoting, for every column of `b`: the solutions take the place of `b`,
/// and, where `return_inverse_in_a` is set, the inverse of `a` takes the
/// place of `a`. Stops with `SingularMatrix` at the first pivot that is
/// exactly zero; both matrices then stay as that step found them.
pub fn gaussj(a: &mut Matrix, b: &mut Matrix, return_inverse_in_a: bool) -> (result: Result<
    (),
    Error,
>)
    requires
        old(a)@.len() == old(a).width(),
        old(b)@.len() == old(a)@.len(),
    ensures
        final(a).width() == old(a).width(),
        final(b).width() == old(b).width(),
        final(a)@ == reduced(old(a)@, old(b)@, return_inverse_in_a).a,
        final(b)@ == reduced(old(a)@, old(b)@, return_inverse_in_a).b,
        result.is_err() <==> reduced(old(a)@, old(b)@, return_inverse_in_a).singular,
        result matches Err(e) ==> e == Error::SingularMatrix,
{
    let n: usize = a.rows();
    let ghost a0 = a@;
    let ghost b0 = b@;
    let mut ipiv: Vec<bool> = Vec::new();
    let mut i: usize = 0;
    while i < n
        invariant
            i <= n,
            ipiv@.len() == i,
            forall|k: int| 0 <= k < i ==> !ipiv@[k],
        decreases n - i,
    {
        ipiv.push(false);
        i = i + 1;
    }
    assert(ipiv@ =~= Seq::new(n as nat, |k: int| false));
    let mut swaps: Vec<(usize, usize)> = Vec::new();
    let mut step: usize = 0;
    proof {
        lemma_count_used_none(ipiv@, n as nat);
    }
    while step < n
        invariant
            step <= n,
            n == a0.len(),
            a0 == old(a)@,
            b0 == old(b)@,
            a.width() == n,
            a.width() == old(a).width(),
            b.width() == old(b).width(),
            a@.len() == n,
            b@.len() == n,
            ipiv@.len() == n,
            count_used(ipiv@, n as nat) == step,
            forall|k: int| 0 <= k < swaps@.len() ==> (#[trigger] swaps@[k]).0 < n && swaps@[k].1 < n,
            eliminate_steps(unreduced(a0, b0), return_inverse_in_a, step as nat) == (Elimination {
                a: a@,
                b: b@,
                used: ipiv@,
                log: swaps@,
                singular: false,
            }),
        decreases n - step,
    {
        proof {
            lemma_some_unused(ipiv@);
        }
        let singular: bool = gauss_step(a, b, &mut ipiv, &mut swaps, return_inverse_in_a);
        if singular {
            proof {
                lemma_singular_stays(
                    unreduced(a0, b0),
                    return_inverse_in_a,
                    (step + 1) as nat,
                    n as nat,
                );
            }
            return Err(Error::SingularMatrix);
        }
        step = step + 1;
    }
    if return_inverse_in_a {
        let ghost e = eliminate_steps(unreduced(a0, b0), return_inverse_in_a, n as nat);
        let mut k: usize = swaps.len();
        while k > 0
            invariant
                k <= swaps@.len(),
                a.width() == n,
                a@.len() == n,
                forall|k: int|
                    0 <= k < swaps@.len() ==> (#[trigger] swaps@[k]).0 < n && swaps@[k].1 < n,
                a@ == columns_restored(e.a, swaps@, (swaps@.len() - k) as nat),
            decreases k,
        {
            k = k - 1;
            let (row, column) = swaps[k];
            a.swap_columns((row, column));
        }
    }
    Ok(())
}

/// One step of the elimination keeps the shapes of both matrices, places
/// its pivot on a position that held none, and logs nothing but a pivot that
/// lay off the diagonal.
pub proof fn lemma_step_places_one_pivot<T: Number>(e: Elimination<T>, inverse: bool, width: nat)
    requires
        rectangular(e.a, e.a.len()),
        e.b.len() == e.a.len(),
        rectangular(e.b, width),
        e.used.len() == e.a.len(),
        e.a.len() <= usize::MAX,
        first_unused(e.used, 0) < e.used.len(),
    ensures
        ({
            let s = eliminate_step(e, inverse);
            let n = e.a.len();
            let place = pivot_location(e.a, e.used);
            &&& s.a.len() == n
            &&& rectangular(s.a, n)
            &&& s.b.len() == n
            &&& rectangular(s.b, width)
            &&& 0 <= place.0 < n && 0 <= place.1 < n
            &&& !e.used[place.0] && !e.used[place.1]
            &&& s.used == e.used.update(place.1, true)
            &&& count_used(s.used, n) == count_used(e.used, n) + 1
            &&& s.log == if place.0 != place.1 {
                e.log.push((place.0 as usize, place.1 as usize))
            } else {
                e.log
            }
        }),
{
    let n = e.a.len();
    lemma_search_rows_free(e.a, e.used, n);
    let place = pivot_location(e.a, e.used);
    lemma_count_used_update(e.used, place.1, n);
}

/// Every step that finds a pivot other than zero places one more pivot, so
/// that after `k` such steps `k` positions hold one; the matrices keep their
/// shapes; and the log holds, for at most one pivot per step, a row and a
/// column of the matrix that differ.
pub proof fn lemma_one_pivot_per_step<T: Number>(
    a: Seq<Seq<T>>,
    b: Seq<Seq<T>>,
    inverse: bool,
    width: nat,
    upto: nat,
)
    requires
        rectangular(a, a.len()),
        b.len() == a.len(),
        rectangular(b, width),
        a.len() <= usize::MAX,
        upto <= a.len(),
    ensures
        ({
            let e = eliminate_steps(unreduced(a, b), inverse, upto);
            let n = a.len();
            &&& e.a.len() == n
            &&& rectangular(e.a, n)
            &&& e.b.len() == n
            &&& rectangular(e.b, width)
            &&& e.used.len() == n
            &&& count_used(e.used, n) <= upto
            &&& !e.singular ==> count_used(e.used, n) == upto
            &&& e.log.len() <= upto
            &&& forall|k: int|
                0 <= k < e.log.len() ==> (#[trigger] e.log[k]).0 < n && e.log[k].1 < n
                    && e.log[k].0 != e.log[k].1
        }),
    decreases upto,
{
    let n = a.len();
    if upto == 0 {
        lemma_count_used_none(unreduced(a, b).used, n);
    } else {
        let before = eliminate_steps(unreduced(a, b), inverse, (upto - 1) as nat);
        lemma_one_pivot_per_step(a, b, inverse, width, (upto - 1) as nat);
        if !before.singular {
            lemma_some_unused(before.used);
            lemma_step_places_one_pivot(before, inverse, width);
        }
    }
}

} // verus!
