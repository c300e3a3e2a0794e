//! LU decomposition in arithmetic without rounding: where no pivot is
//! zero, the factors multiply back to the matrix with its rows exchanged.

use crate::exact::{lemma_product_laws, lemma_quotient, real_product, real_quotient, Exact};
use crate::grid::{rectangular, with_rows_swapped};
use crate::lu_decomposition::{
    crout_sum, diagonal_product, divide_below, exchanges, factor_steps, factored,
    lemma_permutation_and_parity, lemma_pivot_scan_range, lemma_reduce_column_frame,
    lemma_reduce_column_settled, pivot_row, reduce_column, reduced_entry, unfactored,
    with_pivot_secured, Factoring,
};
use crate::number::Number;
use vstd::prelude::*;

verus! {

/// The sum of the products `g[i][t] * g[t][j]` for `t` below `k`.
pub open spec fn inner(g: Seq<Seq<Exact>>, i: int, j: int, k: nat) -> real
    decreases k,
{
    if k == 0 {
        0real
    } else {
        inner(g, i, j, (k - 1) as nat) + real_product(g[i][k - 1].value, g[k - 1][j].value)
    }
}

/// The entry at `i` and `j` of the product of the two factors that `g`
/// holds: the lower one below the diagonal, with ones on its diagonal, and
/// the upper one on and above it.
pub open spec fn product_entry(g: Seq<Seq<Exact>>, i: int, j: int) -> real {
    if i <= j {
        inner(g, i, j, i as nat) + g[i][j].value
    } else {
        inner(g, i, j, j as nat) + real_product(g[i][j].value, g[j][j].value)
    }
}

/// The rows of `g` after the exchanges that the first `upto` entries of the
/// permutation record stand for, made in the order of the record.
pub open spec fn exchanged(g: Seq<Seq<Exact>>, permutation: Seq<int>, upto: nat) -> Seq<
    Seq<Exact>,
>
    decreases upto,
{
    if upto == 0 {
        g
    } else {
        let before = exchanged(g, permutation, (upto - 1) as nat);
        if permutation[upto - 1] != upto - 1 {
            with_rows_swapped(before, permutation[upto - 1], upto - 1)
        } else {
            before
        }
    }
}

/// The entry that the step on column `c` finds on the diagonal once it has
/// brought the pivot row there.
pub open spec fn pivot_found(f: Factoring<Exact>, c: int) -> Exact {
    let reduced = reduce_column(f.grid, c, f.grid.len());
    reduced[pivot_row(reduced, f.scale, c)][c]
}

/// None of the first `upto` steps finds zero on the diagonal.
pub open spec fn pivots_found(g: Seq<Seq<Exact>>, upto: nat) -> bool {
    forall|c: int|
        0 <= c < upto ==> !(#[trigger] pivot_found(factor_steps(unfactored(g), c as nat), c)).vanishes()
}

/// The sum depends only on the entries that it reads.
pub proof fn lemma_inner_same(g: Seq<Seq<Exact>>, h: Seq<Seq<Exact>>, i: int, j: int, k: nat)
    requires
        forall|t: int| 0 <= t < k ==> g[i][t] == h[i][t] && g[t][j] == h[t][j],
    ensures
        inner(g, i, j, k) == inner(h, i, j, k),
    decreases k,
{
    if k > 0 {
        lemma_inner_same(g, h, i, j, (k - 1) as nat);
    }
}

/// Crout's recurrence takes the sum of the products off the entry.
pub proof fn lemma_crout_sum(g: Seq<Seq<Exact>>, r: int, c: int, k: nat)
    ensures
        crout_sum(g, r, c, k).value == g[r][c].value - inner(g, r, c, k),
    decreases k,
{
    if k > 0 {
        lemma_crout_sum(g, r, c, (k - 1) as nat);
    }
}

/// Every entry of a reduced column is the entry that was there, less the sum
/// of the products along its row and up the reduced column.
pub proof fn lemma_reduced_column(g: Seq<Seq<Exact>>, c: int, r: int)
    requires
        rectangular(g, g.len()),
        0 <= c < g.len(),
        0 <= r < g.len(),
    ensures
        ({
            let h = reduce_column(g, c, g.len());
            let k = if r < c {
                r as nat
            } else {
                c as nat
            };
            h[r][c].value == g[r][c].value - inner(h, r, c, k)
        }),
{
    let n = g.len();
    let h = reduce_column(g, c, n);
    let before = reduce_column(g, c, r as nat);
    let k = if r < c {
        r as nat
    } else {
        c as nat
    };
    lemma_reduce_column_frame(g, c, n, n);
    lemma_reduce_column_frame(g, c, r as nat, n);
    lemma_reduce_column_settled(g, c, (r + 1) as nat, n, r, n);
    assert(h[r][c] == reduced_entry(before, r, c));
    lemma_crout_sum(before, r, c, k);
    assert(before[r][c] == g[r][c]);
    assert forall|t: int| 0 <= t < k implies before[r][t] == h[r][t] && before[t][c] == h[t][c] by {
        assert(before[r][t] == g[r][t]);
        assert(h[r][t] == g[r][t]);
        lemma_reduce_column_settled(g, c, r as nat, n, t, n);
    }
    lemma_inner_same(before, h, r, c, k);
}

/// The sum along row `i` of `g` is the sum along row `m` of `h` where the
/// two rows, and the columns read, hold the same entries.
pub proof fn lemma_inner_moved(
    g: Seq<Seq<Exact>>,
    h: Seq<Seq<Exact>>,
    i: int,
    m: int,
    j: int,
    k: nat,
)
    requires
        forall|t: int| 0 <= t < k ==> g[i][t] == h[m][t] && g[t][j] == h[t][j],
    ensures
        inner(g, i, j, k) == inner(h, m, j, k),
    decreases k,
{
    if k > 0 {
        lemma_inner_moved(g, h, i, m, j, (k - 1) as nat);
    }
}

/// Column `c` is reduced and nothing else is done on it, the columns before
/// it are factored, and those after it are as they were: `g` against the
/// matrix `pa` that it is to multiply back to.
pub open spec fn column_reduced(g: Seq<Seq<Exact>>, pa: Seq<Seq<Exact>>, c: int) -> bool {
    let n = g.len();
    &&& rectangular(g, n)
    &&& pa.len() == n
    &&& rectangular(pa, n)
    &&& forall|i: int, j: int| 0 <= i < n && c < j < n ==> (#[trigger] g[i][j]) == pa[i][j]
    &&& forall|i: int, j: int|
        0 <= i < n && 0 <= j < c ==> #[trigger] product_entry(g, i, j) == pa[i][j].value
    &&& forall|i: int|
        0 <= i < n ==> (#[trigger] g[i])[c].value == pa[i][c].value - inner(
            g,
            i,
            c,
            if i < c {
                i as nat
            } else {
                c as nat
            },
        )
}

/// The first `c` columns are factored and the others are as they were: `g`
/// against the matrix `pa` that it is to multiply back to.
pub open spec fn columns_factored(g: Seq<Seq<Exact>>, pa: Seq<Seq<Exact>>, c: int) -> bool {
    let n = g.len();
    &&& rectangular(g, n)
    &&& pa.len() == n
    &&& rectangular(pa, n)
    &&& forall|i: int, j: int| 0 <= i < n && c <= j < n ==> (#[trigger] g[i][j]) == pa[i][j]
    &&& forall|i: int, j: int|
        0 <= i < n && 0 <= j < c ==> #[trigger] product_entry(g, i, j) == pa[i][j].value
}

/// Reducing the next column leaves the factored columns factored.
pub proof fn lemma_reducing(g: Seq<Seq<Exact>>, pa: Seq<Seq<Exact>>, c: int)
    requires
        columns_factored(g, pa, c),
        0 <= c < g.len(),
    ensures
        column_reduced(reduce_column(g, c, g.len()), pa, c),
{
    let n = g.len();
    let h = reduce_column(g, c, n);
    lemma_reduce_column_frame(g, c, n, n);
    assert forall|i: int, j: int| 0 <= i < n && 0 <= j < c implies #[trigger] product_entry(
        h,
        i,
        j,
    ) == pa[i][j].value by {
        let k = if i <= j {
            i as nat
        } else {
            j as nat
        };
        assert forall|t: int| 0 <= t < k implies h[i][t] == g[i][t] && h[t][j] == g[t][j] by {}
        lemma_inner_same(h, g, i, j, k);
        assert(h[i][j] == g[i][j]);
        assert(h[j][j] == g[j][j]);
        assert(product_entry(g, i, j) == pa[i][j].value);
    }
    assert forall|i: int| 0 <= i < n implies (#[trigger] h[i])[c].value == pa[i][c].value - inner(
        h,
        i,
        c,
        if i < c {
            i as nat
        } else {
            c as nat
        },
    ) by {
        lemma_reduced_column(g, c, i);
        assert(g[i][c] == pa[i][c]);
    }
}

/// Exchanging a row on or below the diagonal with the diagonal row, in the
/// matrix and in what it is to multiply back to, leaves the reduced column
/// reduced and the factored columns factored.
pub proof fn lemma_exchanging(g: Seq<Seq<Exact>>, pa: Seq<Seq<Exact>>, c: int, p: int)
    requires
        column_reduced(g, pa, c),
        0 <= c <= p < g.len(),
    ensures
        column_reduced(with_rows_swapped(g, p, c), with_rows_swapped(pa, p, c), c),
{
    let n = g.len();
    let h = with_rows_swapped(g, p, c);
    let pb = with_rows_swapped(pa, p, c);
    assert forall|i: int, j: int| 0 <= i < n && 0 <= j < c implies #[trigger] product_entry(
        h,
        i,
        j,
    ) == pb[i][j].value by {
        let m = if i == p {
            c
        } else if i == c {
            p
        } else {
            i
        };
        assert(h[i] == g[m] && pb[i] == pa[m]);
        assert(h[j] == g[j]);
        let k = if i <= j {
            i as nat
        } else {
            j as nat
        };
        assert forall|t: int| 0 <= t < k implies h[i][t] == g[m][t] && h[t][j] == g[t][j] by {
            assert(h[t] == g[t]);
        }
        lemma_inner_moved(h, g, i, m, j, k);
        assert(product_entry(g, m, j) == pa[m][j].value);
    }
    assert forall|i: int| 0 <= i < n implies (#[trigger] h[i])[c].value == pb[i][c].value - inner(
        h,
        i,
        c,
        if i < c {
            i as nat
        } else {
            c as nat
        },
    ) by {
        let m = if i == p {
            c
        } else if i == c {
            p
        } else {
            i
        };
        assert(h[i] == g[m] && pb[i] == pa[m]);
        let k = if i < c {
            i as nat
        } else {
            c as nat
        };
        assert forall|t: int| 0 <= t < k implies h[i][t] == g[m][t] && h[t][c] == g[t][c] by {
            assert(h[t] == g[t]);
        }
        lemma_inner_moved(h, g, i, m, c, k);
        assert(g[m][c].value == pa[m][c].value - inner(
            g,
            m,
            c,
            if m < c {
                m as nat
            } else {
                c as nat
            },
        ));
    }
}

/// Dividing what lies below a pivot other than zero by it makes the reduced
/// column a factored one.
pub proof fn lemma_dividing(g: Seq<Seq<Exact>>, pa: Seq<Seq<Exact>>, c: int)
    requires
        column_reduced(g, pa, c),
        0 <= c < g.len(),
        g[c][c].value != 0real,
    ensures
        columns_factored(divide_below(g, c), pa, c + 1),
{
    let n = g.len();
    let h = divide_below(g, c);
    assert(rectangular(h, n));
    assert forall|i: int, j: int| 0 <= i < n && 0 <= j < c + 1 implies #[trigger] product_entry(
        h,
        i,
        j,
    ) == pa[i][j].value by {
        let k = if i <= j {
            i as nat
        } else {
            j as nat
        };
        assert forall|t: int| 0 <= t < k implies h[i][t] == g[i][t] && h[t][j] == g[t][j] by {}
        lemma_inner_same(h, g, i, j, k);
        assert(h[j][j] == g[j][j]);
        if j < c {
            assert(h[i][j] == g[i][j]);
            assert(product_entry(g, i, j) == pa[i][j].value);
        } else {
            assert(g[i][c].value == pa[i][c].value - inner(
                g,
                i,
                c,
                if i < c {
                    i as nat
                } else {
                    c as nat
                },
            ));
            if i <= c {
                assert(h[i][c] == g[i][c]);
            } else {
                assert(h[i][c].value == real_quotient(g[i][c].value, g[c][c].value));
                lemma_quotient(g[i][c].value, g[c][c].value);
            }
        }
    }
}

/// A further entry of the record does not change the exchanges that the
/// entries before it stand for.
proof fn lemma_exchanged_prefix(g: Seq<Seq<Exact>>, permutation: Seq<int>, p: int, upto: nat)
    requires
        upto <= permutation.len(),
    ensures
        exchanged(g, permutation.push(p), upto) == exchanged(g, permutation, upto),
    decreases upto,
{
    if upto > 0 {
        lemma_exchanged_prefix(g, permutation, p, (upto - 1) as nat);
    }
}

/// After each column of the decomposition, as long as no step found zero on
/// the diagonal, the columns done are factored and the others are those of
/// the matrix with its rows exchanged as the record says.
pub proof fn lemma_columns_multiply_back(g: Seq<Seq<Exact>>, upto: nat)
    requires
        rectangular(g, g.len()),
        upto <= g.len(),
        pivots_found(g, upto),
    ensures
        ({
            let f = factor_steps(unfactored(g), upto);
            &&& f.permutation.len() == upto
            &&& f.scale.len() == g.len()
            &&& f.grid.len() == g.len()
            &&& columns_factored(f.grid, exchanged(g, f.permutation, upto), upto as int)
        }),
    decreases upto,
{
    let n = g.len();
    if upto > 0 {
        let c = upto - 1;
        let before = factor_steps(unfactored(g), c as nat);
        let after = factor_steps(unfactored(g), upto);
        assert(pivots_found(g, c as nat));
        lemma_columns_multiply_back(g, c as nat);
        let pa = exchanged(g, before.permutation, c as nat);
        lemma_reducing(before.grid, pa, c);
        let red = reduce_column(before.grid, c, n);
        lemma_pivot_scan_range(red, before.scale, c, n as int);
        let p = pivot_row(red, before.scale, c);
        if p != c {
            lemma_exchanging(red, pa, c, p);
        }
        let ex = if p != c {
            with_rows_swapped(red, p, c)
        } else {
            red
        };
        let pb = if p != c {
            with_rows_swapped(pa, p, c)
        } else {
            pa
        };
        assert(ex[c][c] == pivot_found(before, c));
        assert(!pivot_found(factor_steps(unfactored(g), c as nat), c).vanishes());
        assert(with_pivot_secured(ex, c) == ex);
        lemma_dividing(ex, pb, c);
        assert(after.grid == divide_below(ex, c));
        assert(after.permutation == before.permutation.push(p));
        lemma_exchanged_prefix(g, before.permutation, p, c as nat);
        assert(exchanged(g, after.permutation, upto) == pb);
    }
}

/// Where no step of the decomposition finds zero on the diagonal, the two
/// factors that it leaves in place of the matrix multiply back to the
/// matrix with its rows exchanged as the permutation record says.
pub proof fn lemma_factors_multiply_back(g: Seq<Seq<Exact>>)
    requires
        rectangular(g, g.len()),
        pivots_found(g, g.len()),
    ensures
        forall|i: int, j: int|
            0 <= i < g.len() && 0 <= j < g.len() ==> #[trigger] product_entry(
                factored(g).grid,
                i,
                j,
            ) == exchanged(g, factored(g).permutation, g.len())[i][j].value,
{
    lemma_columns_multiply_back(g, g.len());
}

/// The determinant of a matrix of two rows in terms of its factors: the
/// product of the diagonal of the upper factor is the determinant of the
/// matrix that the factors multiply back to.
proof fn lemma_two_row_factors(u00: real, u01: real, l: real, u11: real)
    ensures
        real_product(u00, u11) == real_product(u00, real_product(l, u01) + u11) - real_product(
            u01,
            real_product(l, u00),
        ),
        real_product(real_product(1real, u00), u11) == real_product(u00, u11),
        real_product(real_product(-1real, u00), u11) == -real_product(u00, u11),
{
    reveal(real_product);
    assert(u00 * u11 == u00 * (l * u01 + u11) - u01 * (l * u00)) by (nonlinear_arith);
    assert((1real * u00) * u11 == u00 * u11) by (nonlinear_arith);
    assert((-1real * u00) * u11 == -(u00 * u11)) by (nonlinear_arith);
}

/// For a matrix of two rows, where the decomposition finds no zero on the
/// diagonal, the parity times the diagonal of the factored matrix is the
/// determinant of the matrix.
pub proof fn lemma_determinant_of_two_rows(g: Seq<Seq<Exact>>)
    requires
        g.len() == 2,
        rectangular(g, 2),
        pivots_found(g, 2),
    ensures
        diagonal_product(factored(g).grid, Exact { value: factored(g).parity as real }, 2).value
            == real_product(g[0][0].value, g[1][1].value) - real_product(
            g[0][1].value,
            g[1][0].value,
        ),
{
    let f = factored(g);
    let a = f.grid;
    lemma_columns_multiply_back(g, 2);
    lemma_permutation_and_parity(g, 2);
    let pa = exchanged(g, f.permutation, 2);
    reveal_with_fuel(exchanged, 3);
    reveal_with_fuel(exchanges, 3);
    reveal_with_fuel(inner, 3);
    reveal_with_fuel(diagonal_product, 3);
    assert(f.permutation[1] == 1);
    assert(product_entry(a, 0, 0) == pa[0][0].value);
    assert(product_entry(a, 0, 1) == pa[0][1].value);
    assert(product_entry(a, 1, 0) == pa[1][0].value);
    assert(product_entry(a, 1, 1) == pa[1][1].value);
    lemma_two_row_factors(a[0][0].value, a[0][1].value, a[1][0].value, a[1][1].value);
    lemma_product_laws(g[1][0].value, g[0][1].value, 0real);
    lemma_product_laws(g[1][1].value, g[0][0].value, 0real);
    let start = Exact { value: f.parity as real };
    assert(diagonal_product(a, start, 2).value == real_product(
        real_product(start.value, a[0][0].value),
        a[1][1].value,
    ));
    if f.permutation[0] != 0 {
        assert(f.permutation[0] == 1);
        assert(pa[0] == g[1] && pa[1] == g[0]);
        assert(f.parity == -1);
        assert(start.value == -1real);
    } else {
        assert(pa[0] == g[0] && pa[1] == g[1]);
        assert(f.parity == 1);
        assert(start.value == 1real);
    }
}

} // verus!
