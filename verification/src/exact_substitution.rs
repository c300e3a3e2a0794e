//! Forward and backward substitution in arithmetic without rounding: the one
//! undoes the multiplication by the lower factor, the other that by the
//! upper factor.

use crate::exact::{lemma_product_laws, lemma_products, lemma_quotient, real_product, Exact};
use crate::exact_decomposition::{inner, product_entry};
use crate::grid::{rectangular, with_entries_swapped, with_entry, with_rows_swapped};
use crate::lu_decomposition::{
    backward_rows, backward_sum, forward_row, forward_rows, forward_sum, rows_aligned,
};
use crate::number::Number;
use vstd::prelude::*;

verus! {

/// The sum of the products `a[r][t] * y[t][col]` for `t` below `k`.
pub open spec fn lower_sum(
    a: Seq<Seq<Exact>>,
    y: Seq<Seq<Exact>>,
    r: int,
    col: int,
    k: nat,
) -> real
    decreases k,
{
    if k == 0 {
        0real
    } else {
        lower_sum(a, y, r, col, (k - 1) as nat) + real_product(
            a[r][k - 1].value,
            y[k - 1][col].value,
        )
    }
}

/// Row `r` of the lower factor that `a` holds, with its one on the diagonal,
/// times column `col` of `y`.
pub open spec fn lower_product(a: Seq<Seq<Exact>>, y: Seq<Seq<Exact>>, r: int, col: int) -> real {
    lower_sum(a, y, r, col, r as nat) + y[r][col].value
}

/// The sum of the products `a[r][t] * x[t][col]` for `t` above `r` and below
/// `upto`.
pub open spec fn upper_sum(
    a: Seq<Seq<Exact>>,
    x: Seq<Seq<Exact>>,
    r: int,
    col: int,
    upto: int,
) -> real
    decreases upto - r,
{
    if upto <= r + 1 {
        0real
    } else {
        upper_sum(a, x, r, col, upto - 1) + real_product(
            a[r][upto - 1].value,
            x[upto - 1][col].value,
        )
    }
}

/// Row `r` of the upper factor that `a` holds times column `col` of `x`.
pub open spec fn upper_product(a: Seq<Seq<Exact>>, x: Seq<Seq<Exact>>, r: int, col: int) -> real {
    real_product(x[r][col].value, a[r][r].value) + upper_sum(a, x, r, col, a.len() as int)
}

/// Every entry of the record names a row on or below its own.
pub open spec fn downward(permutation: Seq<usize>, n: nat) -> bool {
    permutation.len() == n && forall|i: int|
        0 <= i < n ==> i <= (#[trigger] permutation[i]) && permutation[i] < n
}

/// The forward substitution takes the sum of the products off the entry.
pub proof fn lemma_forward_sum(a: Seq<Seq<Exact>>, b: Seq<Seq<Exact>>, r: int, col: int, k: nat)
    ensures
        forward_sum(a, b, r, col, k).value == b[r][col].value - lower_sum(a, b, r, col, k),
    decreases k,
{
    if k > 0 {
        lemma_forward_sum(a, b, r, col, (k - 1) as nat);
    }
}

/// The backward substitution takes the sum of the products off the entry.
pub proof fn lemma_backward_sum(
    a: Seq<Seq<Exact>>,
    b: Seq<Seq<Exact>>,
    r: int,
    col: int,
    upto: int,
)
    ensures
        backward_sum(a, b, r, col, upto).value == b[r][col].value - upper_sum(a, b, r, col, upto),
    decreases upto - r,
{
    if upto > r + 1 {
        lemma_backward_sum(a, b, r, col, upto - 1);
    }
}

/// The sum depends only on the entries of the column that it reads.
pub proof fn lemma_lower_sum_same(
    a: Seq<Seq<Exact>>,
    y: Seq<Seq<Exact>>,
    z: Seq<Seq<Exact>>,
    r: int,
    col: int,
    k: nat,
)
    requires
        forall|t: int| 0 <= t < k ==> (#[trigger] y[t])[col] == z[t][col],
    ensures
        lower_sum(a, y, r, col, k) == lower_sum(a, z, r, col, k),
    decreases k,
{
    if k > 0 {
        lemma_lower_sum_same(a, y, z, r, col, (k - 1) as nat);
    }
}

/// The sum depends only on the entries of the column that it reads.
pub proof fn lemma_upper_sum_same(
    a: Seq<Seq<Exact>>,
    x: Seq<Seq<Exact>>,
    z: Seq<Seq<Exact>>,
    r: int,
    col: int,
    upto: int,
)
    requires
        forall|t: int| r < t < upto ==> (#[trigger] x[t])[col] == z[t][col],
    ensures
        upper_sum(a, x, r, col, upto) == upper_sum(a, z, r, col, upto),
    decreases upto - r,
{
    if upto > r + 1 {
        lemma_upper_sum_same(a, x, z, r, col, upto - 1);
    }
}

/// A sum over entries that are all zero is zero.
pub proof fn lemma_lower_sum_zero(a: Seq<Seq<Exact>>, y: Seq<Seq<Exact>>, r: int, col: int, k: nat)
    requires
        forall|t: int| 0 <= t < k ==> (#[trigger] y[t])[col].value == 0real,
    ensures
        lower_sum(a, y, r, col, k) == 0real,
    decreases k,
{
    if k > 0 {
        lemma_lower_sum_zero(a, y, r, col, (k - 1) as nat);
        lemma_products(a[r][k - 1].value);
    }
}

/// Aligning the rows keeps the shape, and a row, once the rows before it and
/// the row itself are aligned, stays where it is.
pub proof fn lemma_rows_aligned(
    b: Seq<Seq<Exact>>,
    permutation: Seq<usize>,
    width: nat,
    r: nat,
    upto: nat,
)
    requires
        rectangular(b, width),
        downward(permutation, b.len()),
        r <= upto <= b.len(),
    ensures
        rows_aligned(b, permutation, upto).len() == b.len(),
        rectangular(rows_aligned(b, permutation, upto), width),
        forall|i: int|
            0 <= i < r ==> (#[trigger] rows_aligned(b, permutation, upto)[i]) == rows_aligned(
                b,
                permutation,
                r,
            )[i],
    decreases upto,
{
    if upto > 0 {
        if r < upto {
            lemma_rows_aligned(b, permutation, width, r, (upto - 1) as nat);
        } else {
            lemma_rows_aligned(b, permutation, width, (upto - 1) as nat, (upto - 1) as nat);
        }
    }
}

/// The column of the aligned rows depends only on that column.
pub proof fn lemma_aligned_column(
    b: Seq<Seq<Exact>>,
    y: Seq<Seq<Exact>>,
    permutation: Seq<usize>,
    col: int,
    upto: nat,
)
    requires
        b.len() == y.len(),
        downward(permutation, b.len()),
        upto <= b.len(),
        forall|i: int| 0 <= i < b.len() ==> (#[trigger] y[i])[col] == b[i][col],
    ensures
        rows_aligned(b, permutation, upto).len() == b.len(),
        rows_aligned(y, permutation, upto).len() == b.len(),
        forall|i: int|
            0 <= i < b.len() ==> (#[trigger] rows_aligned(y, permutation, upto)[i])[col]
                == rows_aligned(b, permutation, upto)[i][col],
    decreases upto,
{
    if upto > 0 {
        let r = upto - 1;
        let pr = permutation[r] as int;
        lemma_aligned_column(b, y, permutation, col, r as nat);
        let yb = rows_aligned(y, permutation, r as nat);
        let bb = rows_aligned(b, permutation, r as nat);
        assert forall|i: int| 0 <= i < b.len() implies (#[trigger] rows_aligned(
            y,
            permutation,
            upto,
        )[i])[col] == rows_aligned(b, permutation, upto)[i][col] by {
            let m = if i == r {
                pr
            } else if i == pr {
                r
            } else {
                i
            };
            assert(rows_aligned(y, permutation, upto)[i] == yb[m]);
            assert(rows_aligned(b, permutation, upto)[i] == bb[m]);
            assert(yb[m][col] == bb[m][col]);
        }
    }
}

/// What the forward substitution has made of the first `upto` rows of
/// column `col`: the other columns are untouched, the entries of the column
/// from row `upto` on are those of the aligned column, and the lower factor
/// times the entries above gives back the aligned column; as long as no
/// entry other than zero was met, all entries above are zero.
pub open spec fn forward_done(
    a: Seq<Seq<Exact>>,
    permutation: Seq<usize>,
    b: Seq<Seq<Exact>>,
    col: int,
    upto: nat,
    state: (Seq<Seq<Exact>>, bool),
    width: nat,
) -> bool {
    let pb = rows_aligned(b, permutation, upto);
    let y = state.0;
    &&& y.len() == b.len()
    &&& rectangular(y, width)
    &&& forall|i: int, j: int|
        0 <= i < b.len() && 0 <= j < width && j != col ==> (#[trigger] y[i][j]) == b[i][j]
    &&& forall|i: int| upto <= i < b.len() ==> (#[trigger] y[i])[col] == pb[i][col]
    &&& forall|i: int|
        0 <= i < upto ==> #[trigger] lower_product(a, y, i, col) == pb[i][col].value
    &&& !state.1 ==> forall|i: int| 0 <= i < upto ==> (#[trigger] y[i])[col].value == 0real
}

/// The forward substitution on one column undoes the multiplication by the
/// lower factor: the lower factor times what it leaves in the column is the
/// column of the right hand side with its rows aligned. No other column is
/// touched.
pub proof fn lemma_forward_rows(
    a: Seq<Seq<Exact>>,
    permutation: Seq<usize>,
    b: Seq<Seq<Exact>>,
    col: int,
    width: nat,
    upto: nat,
)
    requires
        rectangular(b, width),
        downward(permutation, b.len()),
        0 <= col < width,
        upto <= b.len(),
    ensures
        forward_done(
            a,
            permutation,
            b,
            col,
            upto,
            forward_rows(a, permutation, b, col, upto),
            width,
        ),
    decreases upto,
{
    let n = b.len();
    if upto > 0 {
        let r = upto - 1;
        let before = forward_rows(a, permutation, b, col, r as nat);
        let y0 = before.0;
        let seen = before.1;
        lemma_forward_rows(a, permutation, b, col, width, r as nat);
        lemma_rows_aligned(b, permutation, width, r as nat, upto);
        lemma_rows_aligned(b, permutation, width, r as nat, r as nat);
        let pr = permutation[r] as int;
        let pb0 = rows_aligned(b, permutation, r as nat);
        let pb = rows_aligned(b, permutation, upto);
        assert(pb == with_rows_swapped(pb0, r, pr));
        let aligned = with_entries_swapped(y0, r, pr, col);
        let after = forward_rows(a, permutation, b, col, upto);
        assert(after == forward_row(a, permutation, y0, col, r, seen));
        let y1 = after.0;
        assert(aligned.len() == n);
        assert(rectangular(aligned, width));
        assert forall|i: int| 0 <= i < n implies (#[trigger] aligned[i])[col] == y0[if i == r {
            pr
        } else if i == pr {
            r
        } else {
            i
        }][col] && pb[i] == pb0[if i == r {
            pr
        } else if i == pr {
            r
        } else {
            i
        }] by {}
        assert forall|i: int, j: int| 0 <= i < n && 0 <= j < width && j != col implies (
        #[trigger] aligned[i][j]) == y0[i][j] by {}
        assert forall|t: int| 0 <= t < r implies (#[trigger] y1[t])[col] == aligned[t][col]
            && aligned[t][col] == y0[t][col] by {}
        lemma_lower_sum_same(a, y1, aligned, r, col, r as nat);
        if seen {
            lemma_forward_sum(a, aligned, r, col, r as nat);
        } else {
            assert forall|t: int| 0 <= t < r implies (#[trigger] aligned[t])[col].value == 0real by {
                assert(y0[t][col].value == 0real);
            }
            lemma_lower_sum_zero(a, aligned, r, col, r as nat);
        }
        assert(aligned[r][col] == y0[pr][col]);
        assert(y0[pr][col] == pb0[pr][col]);
        assert(lower_product(a, y1, r, col) == pb[r][col].value);
        assert forall|i: int| 0 <= i < upto implies #[trigger] lower_product(a, y1, i, col)
            == pb[i][col].value by {
            if i < r {
                assert forall|t: int| 0 <= t < i implies (#[trigger] y1[t])[col] == y0[t][col] by {}
                lemma_lower_sum_same(a, y1, y0, i, col, i as nat);
                assert(y1[i][col] == y0[i][col]);
                assert(lower_product(a, y0, i, col) == pb0[i][col].value);
                assert(pb[i] == pb0[i]);
            }
        }
        assert forall|i: int| upto <= i < n implies (#[trigger] y1[i])[col] == pb[i][col] by {
            let m = if i == pr {
                r
            } else {
                i
            };
            assert(y1[i][col] == aligned[i][col]);
            assert(aligned[i][col] == y0[m][col]);
            assert(y0[m][col] == pb0[m][col]);
            assert(pb[i] == pb0[m]);
        }
        assert forall|i: int, j: int| 0 <= i < n && 0 <= j < width && j != col implies (
        #[trigger] y1[i][j]) == b[i][j] by {
            assert(aligned[i][j] == y0[i][j]);
        }
    }
}

/// The backward substitution on one column undoes the multiplication by the
/// upper factor, where no entry on the diagonal is zero: the upper factor
/// times what it leaves in the last `done` rows of the column is what stood
/// there; the other entries are untouched.
pub proof fn lemma_backward_rows(
    a: Seq<Seq<Exact>>,
    b: Seq<Seq<Exact>>,
    col: int,
    width: nat,
    done: nat,
)
    requires
        a.len() == b.len(),
        rectangular(b, width),
        0 <= col < width,
        done <= b.len(),
        forall|i: int| 0 <= i < a.len() ==> !(#[trigger] a[i])[i].vanishes(),
    ensures
        ({
            let x = backward_rows(a, b, col, done);
            &&& x.len() == b.len()
            &&& rectangular(x, width)
            &&& forall|i: int, j: int|
                0 <= i < b.len() && 0 <= j < width && (j != col || i < b.len() - done) ==> (
                #[trigger] x[i][j]) == b[i][j]
            &&& forall|i: int|
                b.len() - done <= i < b.len() ==> #[trigger] upper_product(a, x, i, col)
                    == b[i][col].value
        }),
    decreases done,
{
    let n = b.len();
    if done > 0 {
        let r = n - done;
        let before = backward_rows(a, b, col, (done - 1) as nat);
        lemma_backward_rows(a, b, col, width, (done - 1) as nat);
        let sum = backward_sum(a, before, r, col, n as int);
        let x = backward_rows(a, b, col, done);
        assert(x == with_entry(before, r, col, sum.over(a[r][r])));
        lemma_backward_sum(a, before, r, col, n as int);
        assert(before[r][col] == b[r][col]);
        assert(!a[r][r].vanishes());
        lemma_quotient(sum.value, a[r][r].value);
        assert forall|i: int| r <= i < n implies #[trigger] upper_product(a, x, i, col)
            == b[i][col].value by {
            assert forall|t: int| i < t < n implies (#[trigger] x[t])[col] == before[t][col] by {}
            lemma_upper_sum_same(a, x, before, i, col, n as int);
            if i > r {
                assert(x[i][col] == before[i][col]);
                assert(upper_product(a, before, i, col) == b[i][col].value);
            }
        }
    }
}

/// Row `i` of the product of the two factors that `a` holds, times the
/// first `upto` entries of column `col` of `x`.
pub open spec fn factors_times(
    a: Seq<Seq<Exact>>,
    x: Seq<Seq<Exact>>,
    i: int,
    col: int,
    upto: nat,
) -> real
    decreases upto,
{
    if upto == 0 {
        0real
    } else {
        factors_times(a, x, i, col, (upto - 1) as nat) + real_product(
            product_entry(a, i, upto - 1),
            x[upto - 1][col].value,
        )
    }
}

/// What the entry at `j` of column `col` of `x` adds to row `k` of the upper
/// factor times that column.
pub open spec fn upper_term(a: Seq<Seq<Exact>>, x: Seq<Seq<Exact>>, k: int, col: int, j: int) -> real {
    if k < j {
        real_product(a[k][j].value, x[j][col].value)
    } else if k == j {
        real_product(x[j][col].value, a[j][j].value)
    } else {
        0real
    }
}

/// Row `k` of the upper factor times the first `upto` entries of column
/// `col` of `x`.
pub open spec fn upper_part(
    a: Seq<Seq<Exact>>,
    x: Seq<Seq<Exact>>,
    k: int,
    col: int,
    upto: nat,
) -> real
    decreases upto,
{
    if upto == 0 {
        0real
    } else {
        upper_part(a, x, k, col, (upto - 1) as nat) + upper_term(a, x, k, col, upto - 1)
    }
}

/// The first `m` entries of row `i` of the lower factor times what the
/// upper factor, times the first `upto` entries of the column, gives.
pub open spec fn lower_part(
    a: Seq<Seq<Exact>>,
    x: Seq<Seq<Exact>>,
    i: int,
    col: int,
    upto: nat,
    m: nat,
) -> real
    decreases m,
{
    if m == 0 {
        0real
    } else {
        lower_part(a, x, i, col, upto, (m - 1) as nat) + real_product(
            a[i][m - 1].value,
            upper_part(a, x, m - 1, col, upto),
        )
    }
}

/// The first `m` entries of row `i` of the lower factor times what the entry
/// at `j` of the column adds to the upper factor times the column.
pub open spec fn lower_term(
    a: Seq<Seq<Exact>>,
    x: Seq<Seq<Exact>>,
    i: int,
    col: int,
    j: int,
    m: nat,
) -> real
    decreases m,
{
    if m == 0 {
        0real
    } else {
        lower_term(a, x, i, col, j, (m - 1) as nat) + real_product(
            a[i][m - 1].value,
            upper_term(a, x, m - 1, col, j),
        )
    }
}

/// The upper factor times a whole column, split off its diagonal term.
pub proof fn lemma_upper_part(a: Seq<Seq<Exact>>, x: Seq<Seq<Exact>>, k: int, col: int, upto: nat)
    requires
        0 <= k,
    ensures
        upper_part(a, x, k, col, upto) == if upto <= k {
            0real
        } else {
            real_product(x[k][col].value, a[k][k].value) + upper_sum(a, x, k, col, upto as int)
        },
    decreases upto,
{
    if upto > 0 {
        lemma_upper_part(a, x, k, col, (upto - 1) as nat);
    }
}

/// One more entry of the column adds its term to each row.
pub proof fn lemma_lower_part_step(
    a: Seq<Seq<Exact>>,
    x: Seq<Seq<Exact>>,
    i: int,
    col: int,
    upto: nat,
    m: nat,
)
    ensures
        lower_part(a, x, i, col, upto + 1, m) == lower_part(a, x, i, col, upto, m) + lower_term(
            a,
            x,
            i,
            col,
            upto as int,
            m,
        ),
    decreases m,
{
    if m > 0 {
        lemma_lower_part_step(a, x, i, col, upto, (m - 1) as nat);
        lemma_product_laws(
            a[i][m - 1].value,
            upper_part(a, x, m - 1, col, upto),
            upper_term(a, x, m - 1, col, upto as int),
        );
    }
}

/// What the entry at `j` adds through the first `m` rows of the upper
/// factor is the sum of the products of the two factors up to the smaller
/// of `m` and `j`, and, beyond the diagonal, the product on it, times that
/// entry.
pub proof fn lemma_lower_term(
    a: Seq<Seq<Exact>>,
    x: Seq<Seq<Exact>>,
    i: int,
    col: int,
    j: int,
    m: nat,
)
    requires
        0 <= j,
    ensures
        lower_term(a, x, i, col, j, m) == real_product(
            inner(
                a,
                i,
                j,
                if m <= j {
                    m
                } else {
                    j as nat
                },
            ),
            x[j][col].value,
        ) + if m > j {
            real_product(real_product(a[i][j].value, a[j][j].value), x[j][col].value)
        } else {
            0real
        },
    decreases m,
{
    let xj = x[j][col].value;
    if m > 0 {
        let k = m - 1;
        lemma_lower_term(a, x, i, col, j, k as nat);
        if k < j {
            lemma_product_laws(a[i][k].value, a[k][j].value, xj);
            lemma_product_laws(
                inner(a, i, j, k as nat),
                real_product(a[i][k].value, a[k][j].value),
                xj,
            );
        } else if k == j {
            lemma_product_laws(a[i][j].value, a[j][j].value, xj);
            lemma_product_laws(xj, a[j][j].value, 0real);
        } else {
            lemma_products(a[i][k].value);
        }
    } else {
        lemma_products(xj);
    }
}

/// Before any entry of the column is taken in, every sum is zero.
pub proof fn lemma_lower_part_empty(
    a: Seq<Seq<Exact>>,
    x: Seq<Seq<Exact>>,
    i: int,
    col: int,
    m: nat,
)
    ensures
        lower_part(a, x, i, col, 0, m) == 0real,
    decreases m,
{
    if m > 0 {
        lemma_lower_part_empty(a, x, i, col, (m - 1) as nat);
        lemma_products(a[i][m - 1].value);
    }
}

/// Multiplying by the product of the factors is multiplying by the upper
/// factor and then by the lower one.
pub proof fn lemma_factors_times(
    a: Seq<Seq<Exact>>,
    x: Seq<Seq<Exact>>,
    i: int,
    col: int,
    upto: nat,
)
    requires
        0 <= i,
    ensures
        factors_times(a, x, i, col, upto) == lower_part(a, x, i, col, upto, i as nat) + upper_part(
            a,
            x,
            i,
            col,
            upto,
        ),
    decreases upto,
{
    if upto == 0 {
        lemma_lower_part_empty(a, x, i, col, i as nat);
    } else {
        let j = upto - 1;
        let xj = x[j][col].value;
        assert(upto == j as nat + 1);
        lemma_factors_times(a, x, i, col, j as nat);
        lemma_lower_part_step(a, x, i, col, j as nat, i as nat);
        lemma_lower_term(a, x, i, col, j, i as nat);
        if i <= j {
            lemma_product_laws(inner(a, i, j, i as nat), a[i][j].value, xj);
            lemma_product_laws(xj, a[j][j].value, 0real);
        } else {
            lemma_product_laws(
                inner(a, i, j, j as nat),
                real_product(a[i][j].value, a[j][j].value),
                xj,
            );
        }
    }
}

} // verus!
