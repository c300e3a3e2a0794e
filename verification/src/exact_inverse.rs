//! Gauss-Jordan elimination in arithmetic without rounding, with the inverse
//! asked for: where it finds no pivot to be zero, what it leaves in place of
//! the matrix is the inverse of the matrix.

use crate::exact::{
    dot, is_product, lemma_dot_reduced, lemma_dot_scaled, lemma_dot_unit, lemma_product_laws,
    lemma_products, real_product, real_quotient, Exact,
};
use crate::exact_elimination::pivot_aligned;
use crate::exact_solution::exchange_of;
use crate::gauss_jordan::{
    columns_restored, eliminate_step, eliminate_steps, first_unused, lemma_count_used_bound,
    lemma_one_pivot_per_step, lemma_some_unused, lemma_step_places_one_pivot, pivot_location,
    reduced, unreduced, Elimination,
};
use crate::grid::{column_of, identity, rectangular};
use vstd::prelude::*;

verus! {

/// The row with zero in every column that holds a pivot.
pub open spec fn masked(row: Seq<Exact>, used: Seq<bool>) -> Seq<Exact> {
    Seq::new(
        row.len(),
        |j: int|
            if used[j] {
                Exact { value: 0real }
            } else {
                row[j]
            },
    )
}

/// The column to which the first `upto` entries of the log, each taken as an
/// exchange of two columns and the latest applied first, bring column `c`.
pub open spec fn logged(log: Seq<(usize, usize)>, upto: nat, c: int) -> int
    decreases upto,
{
    if upto == 0 {
        c
    } else {
        logged(
            log,
            (upto - 1) as nat,
            exchange_of(log[upto - 1].0 as int, log[upto - 1].1 as int, c),
        )
    }
}

/// The column in which, after the last `done` entries of the log were
/// replayed from the last one backwards, column `j` is found.
pub open spec fn replayed(log: Seq<(usize, usize)>, done: nat, j: int) -> int
    decreases done,
{
    if done == 0 {
        j
    } else {
        replayed(
            log,
            (done - 1) as nat,
            exchange_of(log[log.len() - done].0 as int, log[log.len() - done].1 as int, j),
        )
    }
}

/// Two rows that differ in one entry differ in their product with a column
/// by the products of that entry.
pub proof fn lemma_dot_except(u: Seq<Exact>, w: Seq<Exact>, v: Seq<Exact>, q: int, n: nat)
    requires
        n <= u.len(),
        n <= w.len(),
        forall|j: int| 0 <= j < n && j != q ==> (#[trigger] w[j]) == u[j],
    ensures
        dot(w, v, n) == if 0 <= q < n {
            dot(u, v, n) - real_product(u[q].value, v[q].value) + real_product(
                w[q].value,
                v[q].value,
            )
        } else {
            dot(u, v, n)
        },
    decreases n,
{
    if n > 0 {
        lemma_dot_except(u, w, v, q, (n - 1) as nat);
        if n - 1 != q {
            assert(w[n - 1] == u[n - 1]);
        }
    }
}

/// The rows of the matrix after a step that found a pivot other than zero,
/// where the inverse is asked for: in the pivot row the pivot gives way to
/// the product of pivot and reciprocal, and the row is multiplied by the
/// reciprocal; in every other row the entry in the pivot column gives way
/// to zero, and the new pivot row, times the entry that was there, is taken
/// off.
pub proof fn lemma_inverse_step_rows(e: Elimination<Exact>, width: nat)
    requires
        rectangular(e.a, e.a.len()),
        e.b.len() == e.a.len(),
        rectangular(e.b, width),
        e.used.len() == e.a.len(),
        e.a.len() <= usize::MAX,
        first_unused(e.used, 0) < e.used.len(),
        !eliminate_step(e, true).singular,
    ensures
        ({
            let s = eliminate_step(e, true);
            let n = e.a.len() as int;
            let place = pivot_location(e.a, e.used);
            let p = place.1;
            let a1 = pivot_aligned(e.a, place);
            let r = real_quotient(1real, a1[p][p].value);
            &&& 0 <= place.0 < n && 0 <= p < n
            &&& !e.used[place.0] && !e.used[p]
            &&& s.used == e.used.update(p, true)
            &&& s.log == if place.0 != p {
                e.log.push((place.0 as usize, p as usize))
            } else {
                e.log
            }
            &&& a1[p][p].value != 0real
            &&& s.a.len() == n && s.b.len() == n
            &&& rectangular(s.a, n as nat) && rectangular(s.b, width)
            &&& forall|k: int|
                0 <= k < n ==> (#[trigger] s.a[p][k]).value == real_product(
                    if k == p {
                        real_product(a1[p][p].value, r)
                    } else {
                        a1[p][k].value
                    },
                    r,
                )
            &&& forall|i: int, k: int|
                0 <= i < n && i != p && 0 <= k < n ==> (#[trigger] s.a[i][k]).value == (if k
                    == p {
                    0real
                } else {
                    a1[i][k].value
                }) - real_product(s.a[p][k].value, a1[i][p].value)
        }),
{
    lemma_step_places_one_pivot(e, true, width);
}

/// The column of `x` that stands for column `c` of the matrix, once the
/// exchanges of the log are taken into account.
pub open spec fn column_for(e: Elimination<Exact>, c: int) -> int {
    logged(e.log, e.log.len(), c)
}

/// What the elimination has made of row `i` of the system for column `c`:
/// the entries in the columns without a pivot times those of the inverse,
/// and, once the row holds a pivot, the entry of the inverse itself.
pub open spec fn left_side(e: Elimination<Exact>, x: Seq<Seq<Exact>>, i: int, c: int) -> real {
    let t = column_for(e, c);
    (if e.used[i] {
        x[i][t].value
    } else {
        0real
    }) + dot(masked(e.a[i], e.used), column_of(x, t), e.a.len())
}

/// What the elimination holds at row `i` and column `c`, where the column
/// holds a pivot, and else the entry of the identity.
pub open spec fn right_side(e: Elimination<Exact>, i: int, c: int) -> real {
    if e.used[c] {
        e.a[i][c].value
    } else if i == c {
        1real
    } else {
        0real
    }
}

/// The columns that hold a pivot hold the columns of the inverse that the
/// log assigns to them, carried as far as the rows without a pivot allow.
pub open spec fn holds_inverse(e: Elimination<Exact>, x: Seq<Seq<Exact>>) -> bool {
    forall|i: int, c: int|
        0 <= i < e.a.len() && 0 <= c < e.a.len() ==> #[trigger] left_side(e, x, i, c)
            == right_side(e, i, c)
}

/// A further entry of the log does not change what the entries before it
/// stand for.
proof fn lemma_logged_prefix(log: Seq<(usize, usize)>, pair: (usize, usize), upto: nat, c: int)
    requires
        upto <= log.len(),
    ensures
        logged(log.push(pair), upto, c) == logged(log, upto, c),
    decreases upto,
{
    if upto > 0 {
        lemma_logged_prefix(
            log,
            pair,
            (upto - 1) as nat,
            exchange_of(log[upto - 1].0 as int, log[upto - 1].1 as int, c),
        );
    }
}

/// The pivot row of a step, with zero in the columns that hold a pivot,
/// times a column of the inverse: what the row before the step gave, times
/// the reciprocal of the pivot, less the entry of the inverse in the pivot
/// row.
pub proof fn lemma_inverse_pivot_row(
    e: Elimination<Exact>,
    x: Seq<Seq<Exact>>,
    width: nat,
    c: int,
)
    requires
        rectangular(e.a, e.a.len()),
        e.b.len() == e.a.len(),
        rectangular(e.b, width),
        e.used.len() == e.a.len(),
        e.a.len() <= usize::MAX,
        first_unused(e.used, 0) < e.used.len(),
        x.len() == e.a.len(),
        rectangular(x, e.a.len()),
        holds_inverse(e, x),
        !eliminate_step(e, true).singular,
        0 <= c < e.a.len(),
    ensures
        ({
            let s = eliminate_step(e, true);
            let n = e.a.len();
            let place = pivot_location(e.a, e.used);
            let p = place.1;
            let a1 = pivot_aligned(e.a, place);
            let r = real_quotient(1real, a1[p][p].value);
            let cb = exchange_of(place.0, p, c);
            let t = column_for(s, c);
            &&& t == column_for(e, cb)
            &&& 0 <= cb < n
            &&& e.used[cb] == e.used[c]
            &&& (e.used[c] ==> cb == c)
            &&& (cb == place.0 <==> c == p)
            &&& real_product(a1[p][p].value, r) == 1real
            &&& dot(masked(s.a[p], s.used), column_of(x, t), n) == real_product(
                right_side(e, place.0, cb),
                r,
            ) - x[p][t].value
        }),
{
    let s = eliminate_step(e, true);
    let n = e.a.len();
    let place = pivot_location(e.a, e.used);
    let irow = place.0;
    let p = place.1;
    let a1 = pivot_aligned(e.a, place);
    let pv = a1[p][p].value;
    let r = real_quotient(1real, pv);
    let cb = exchange_of(irow, p, c);
    lemma_inverse_step_rows(e, width);
    lemma_products(pv);
    lemma_products(r);
    if irow != p {
        lemma_logged_prefix(e.log, (irow as usize, p as usize), e.log.len(), cb);
    }
    let t = column_for(s, c);
    assert(t == column_for(e, cb));
    let xc = column_of(x, t);
    assert(a1[p] == e.a[irow]);
    let m0 = masked(a1[p], e.used);
    assert(left_side(e, x, irow, cb) == right_side(e, irow, cb));
    assert(dot(m0, xc, n) == right_side(e, irow, cb));
    let m1 = Seq::new(n, |j: int| Exact { value: real_product(m0[j].value, r) });
    lemma_dot_scaled(m0, m1, xc, r, n);
    let mp = masked(s.a[p], s.used);
    assert forall|j: int| 0 <= j < n && j != p implies (#[trigger] mp[j]) == m1[j] by {
        if e.used[j] {
            assert(m0[j].value == 0real);
        } else {
            assert(s.a[p][j].value == real_product(a1[p][j].value, r));
        }
    }
    lemma_dot_except(m1, mp, xc, p, n);
    assert(m1[p].value == 1real);
    assert(mp[p].value == 0real);
    lemma_products(xc[p].value);
    assert(xc[p] == x[p][t]);
}

/// A step that finds a pivot other than zero carries the columns of the
/// inverse one row further.
pub proof fn lemma_step_holds_inverse(e: Elimination<Exact>, x: Seq<Seq<Exact>>, width: nat)
    requires
        rectangular(e.a, e.a.len()),
        e.b.len() == e.a.len(),
        rectangular(e.b, width),
        e.used.len() == e.a.len(),
        e.a.len() <= usize::MAX,
        first_unused(e.used, 0) < e.used.len(),
        x.len() == e.a.len(),
        rectangular(x, e.a.len()),
        holds_inverse(e, x),
        !eliminate_step(e, true).singular,
    ensures
        holds_inverse(eliminate_step(e, true), x),
{
    let s = eliminate_step(e, true);
    let n = e.a.len();
    let place = pivot_location(e.a, e.used);
    let irow = place.0;
    let p = place.1;
    let a1 = pivot_aligned(e.a, place);
    let pv = a1[p][p].value;
    let r = real_quotient(1real, pv);
    lemma_inverse_step_rows(e, width);
    assert forall|i: int, c: int| 0 <= i < n && 0 <= c < n implies #[trigger] left_side(s, x, i, c)
        == right_side(s, i, c) by {
        let cb = exchange_of(irow, p, c);
        let ib = exchange_of(irow, p, i);
        let t = column_for(s, c);
        let xc = column_of(x, t);
        lemma_inverse_pivot_row(e, x, width, c);
        let rp = right_side(e, irow, cb);
        let mp = masked(s.a[p], s.used);
        lemma_products(r);
        lemma_products(pv);
        assert(a1[p] == e.a[irow]);
        assert(xc[p] == x[p][t]);
        if i == p {
            assert(left_side(s, x, p, c) == real_product(rp, r));
            if c == p {
                assert(rp == 1real);
            } else if e.used[c] {
                assert(rp == a1[p][c].value);
            } else {
                assert(rp == 0real);
            }
        } else {
            let f = a1[i][p].value;
            assert(a1[i] == e.a[ib]);
            assert(e.used[ib] == e.used[i]);
            let u0 = masked(a1[i], e.used);
            let ri = right_side(e, ib, cb);
            assert(left_side(e, x, ib, cb) == ri);
            assert(e.used[i] ==> ib == i);
            let own = if e.used[i] {
                x[i][t].value
            } else {
                0real
            };
            assert(own + dot(u0, xc, n) == ri);
            let u1 = Seq::new(n, |j: int| Exact { value: u0[j].value - real_product(mp[j].value, f) });
            lemma_dot_reduced(u0, mp, u1, xc, f, n);
            let mi = masked(s.a[i], s.used);
            lemma_products(f);
            assert forall|j: int| 0 <= j < n && j != p implies (#[trigger] mi[j]) == u1[j] by {
                if e.used[j] {
                    assert(mp[j].value == 0real);
                    assert(u0[j].value == 0real);
                } else {
                    assert(mp[j] == s.a[p][j]);
                    assert(s.a[i][j].value == a1[i][j].value - real_product(s.a[p][j].value, f));
                }
            }
            lemma_dot_except(u1, mi, xc, p, n);
            assert(mp[p].value == 0real);
            assert(u1[p].value == f);
            assert(mi[p].value == 0real);
            lemma_products(xc[p].value);
            let dp = dot(mp, xc, n);
            let xp = x[p][t].value;
            assert(dp == real_product(rp, r) - xp);
            lemma_product_laws(dp, xp, f);
            lemma_product_laws(xp, f, 0real);
            assert(left_side(s, x, i, c) == ri - real_product(real_product(rp, r), f));
            if c == p {
                assert(rp == 1real);
                assert(ri == 0real);
                assert(s.a[p][p].value == real_product(1real, r));
            } else if e.used[c] {
                assert(rp == a1[p][c].value);
                assert(ri == a1[i][c].value);
            } else {
                assert(rp == 0real);
                assert(ri == if i == c {
                    1real
                } else {
                    0real
                });
            }
        }
    }
}

/// The steps of the elimination, as long as they find pivots other than
/// zero, carry the columns of the inverse along.
pub proof fn lemma_steps_hold_inverse(
    a: Seq<Seq<Exact>>,
    b: Seq<Seq<Exact>>,
    x: Seq<Seq<Exact>>,
    width: nat,
    upto: nat,
)
    requires
        rectangular(a, a.len()),
        a.len() <= usize::MAX,
        b.len() == a.len(),
        rectangular(b, width),
        x.len() == a.len(),
        rectangular(x, a.len()),
        is_product(a, x, identity::<Exact>(a.len()), a.len()),
        upto <= a.len(),
    ensures
        !eliminate_steps(unreduced(a, b), true, upto).singular ==> holds_inverse(
            eliminate_steps(unreduced(a, b), true, upto),
            x,
        ),
    decreases upto,
{
    let n = a.len();
    if upto == 0 {
        let e = unreduced(a, b);
        assert forall|i: int, c: int| 0 <= i < n && 0 <= c < n implies #[trigger] left_side(
            e,
            x,
            i,
            c,
        ) == right_side(e, i, c) by {
            assert(masked(a[i], e.used) =~= a[i]);
            assert(dot(a[i], column_of(x, c), n) == identity::<Exact>(n)[i][c].value);
        }
    } else {
        let before = eliminate_steps(unreduced(a, b), true, (upto - 1) as nat);
        lemma_steps_hold_inverse(a, b, x, width, (upto - 1) as nat);
        lemma_one_pivot_per_step(a, b, true, width, (upto - 1) as nat);
        if !before.singular && !eliminate_step(before, true).singular {
            lemma_some_unused(before.used);
            lemma_step_holds_inverse(before, x, width);
        }
    }
}

/// Replaying the log brings every column to a column of the matrix.
pub proof fn lemma_replayed_range(log: Seq<(usize, usize)>, n: nat, done: nat, j: int)
    requires
        done <= log.len(),
        forall|k: int| 0 <= k < log.len() ==> (#[trigger] log[k]).0 < n && log[k].1 < n,
        0 <= j < n,
    ensures
        0 <= replayed(log, done, j) < n,
    decreases done,
{
    if done > 0 {
        let pair = log[log.len() - done];
        lemma_replayed_range(
            log,
            n,
            (done - 1) as nat,
            exchange_of(pair.0 as int, pair.1 as int, j),
        );
    }
}

/// Replaying the log keeps the shape, and finds every column where the
/// exchanges have brought it.
pub proof fn lemma_columns_restored(
    g: Seq<Seq<Exact>>,
    log: Seq<(usize, usize)>,
    done: nat,
)
    requires
        rectangular(g, g.len()),
        done <= log.len(),
        forall|k: int| 0 <= k < log.len() ==> (#[trigger] log[k]).0 < g.len() && log[k].1 < g.len(),
    ensures
        columns_restored(g, log, done).len() == g.len(),
        rectangular(columns_restored(g, log, done), g.len()),
        forall|i: int, j: int|
            0 <= i < g.len() && 0 <= j < g.len() ==> (#[trigger] columns_restored(
                g,
                log,
                done,
            )[i][j]) == g[i][replayed(log, done, j)],
    decreases done,
{
    let n = g.len();
    if done > 0 {
        lemma_columns_restored(g, log, (done - 1) as nat);
        let pair = log[log.len() - done];
        let before = columns_restored(g, log, (done - 1) as nat);
        assert forall|i: int, j: int| 0 <= i < n && 0 <= j < n implies (#[trigger] columns_restored(
            g,
            log,
            done,
        )[i][j]) == g[i][replayed(log, done, j)] by {
            let m = exchange_of(pair.0 as int, pair.1 as int, j);
            assert(0 <= m < n);
            assert(columns_restored(g, log, done)[i][j] == before[i][m]);
            assert(before[i][m] == g[i][replayed(log, (done - 1) as nat, m)]);
        }
    }
}

/// Replaying the last `done` entries of the log undoes them.
pub proof fn lemma_replay_undoes(log: Seq<(usize, usize)>, done: nat, j: int)
    requires
        done <= log.len(),
    ensures
        logged(log, log.len(), replayed(log, done, j)) == logged(
            log,
            (log.len() - done) as nat,
            j,
        ),
    decreases done,
{
    if done > 0 {
        let k = log.len() - done;
        let m = exchange_of(log[k].0 as int, log[k].1 as int, j);
        lemma_replay_undoes(log, (done - 1) as nat, m);
        assert(exchange_of(log[k].0 as int, log[k].1 as int, m) == j);
    }
}

/// What `gaussj` leaves in place of the matrix, where the inverse is asked
/// for and no pivot is found to be zero, is the inverse: if `a * x` is the
/// identity, then `x` is what it leaves.
pub proof fn lemma_elimination_inverts(
    a: Seq<Seq<Exact>>,
    b: Seq<Seq<Exact>>,
    x: Seq<Seq<Exact>>,
    width: nat,
)
    requires
        rectangular(a, a.len()),
        a.len() <= usize::MAX,
        b.len() == a.len(),
        rectangular(b, width),
        x.len() == a.len(),
        rectangular(x, a.len()),
        is_product(a, x, identity::<Exact>(a.len()), a.len()),
    ensures
        !reduced(a, b, true).singular ==> reduced(a, b, true).a == x,
{
    let n = a.len();
    let e = eliminate_steps(unreduced(a, b), true, n);
    lemma_steps_hold_inverse(a, b, x, width, n);
    lemma_one_pivot_per_step(a, b, true, width, n);
    if !e.singular {
        lemma_count_used_bound(e.used, n);
        lemma_columns_restored(e.a, e.log, e.log.len());
        let restored = columns_restored(e.a, e.log, e.log.len());
        assert(reduced(a, b, true).a == restored);
        assert forall|i: int, j: int| 0 <= i < n && 0 <= j < n implies restored[i][j] == x[i][j] by {
            let c = replayed(e.log, e.log.len(), j);
            lemma_replayed_range(e.log, n, e.log.len(), j);
            assert(restored[i][j] == e.a[i][c]);
            lemma_replay_undoes(e.log, e.log.len(), j);
            assert(column_for(e, c) == j);
            assert(left_side(e, x, i, c) == right_side(e, i, c));
            lemma_dot_unit(masked(e.a[i], e.used), column_of(x, j), -1, n);
        }
        assert(restored =~~= x);
    }
}

} // verus!
