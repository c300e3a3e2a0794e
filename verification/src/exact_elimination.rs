//! Gauss-Jordan elimination in arithmetic without rounding: where it finds
//! no pivot to be zero it ends with the solution of the system in place of
//! the right hand sides.

use crate::exact::{
    dot, is_product, lemma_dot_reduced, lemma_dot_scaled, lemma_dot_unit, lemma_products,
    real_product, real_quotient, Exact,
};
use crate::gauss_jordan::{
    eliminate_step, eliminate_steps, first_unused, lemma_count_used_bound,
    lemma_one_pivot_per_step, lemma_some_unused, lemma_step_places_one_pivot, pivot_location,
    reduced, unreduced, Elimination,
};
use crate::grid::{column_of, rectangular, with_rows_swapped};
use vstd::prelude::*;

verus! {

/// The grid with the pivot's row brought to the row of the pivot's column.
pub open spec fn pivot_aligned(g: Seq<Seq<Exact>>, place: (int, int)) -> Seq<Seq<Exact>> {
    if place.0 != place.1 {
        with_rows_swapped(g, place.0, place.1)
    } else {
        g
    }
}

/// Every column that holds a pivot holds one on the diagonal and zero
/// elsewhere.
pub open spec fn unit_columns(a: Seq<Seq<Exact>>, used: Seq<bool>) -> bool {
    forall|i: int, c: int|
        0 <= i < a.len() && 0 <= c < a.len() && used[c] ==> (#[trigger] a[i][c]).value == if i
            == c {
            1real
        } else {
            0real
        }
}

/// The rows of both matrices after a step that found a pivot other than
/// zero: the pivot row times the reciprocal of the pivot, and every other
/// row less the new pivot row times the entry that the row had in the pivot
/// column.
pub proof fn lemma_step_rows(e: Elimination<Exact>, width: nat)
    requires
        rectangular(e.a, e.a.len()),
        e.b.len() == e.a.len(),
        rectangular(e.b, width),
        e.used.len() == e.a.len(),
        e.a.len() <= usize::MAX,
        first_unused(e.used, 0) < e.used.len(),
        !eliminate_step(e, false).singular,
    ensures
        ({
            let s = eliminate_step(e, false);
            let n = e.a.len() as int;
            let place = pivot_location(e.a, e.used);
            let p = place.1;
            let a1 = pivot_aligned(e.a, place);
            let b1 = pivot_aligned(e.b, place);
            let r = real_quotient(1real, a1[p][p].value);
            &&& 0 <= place.0 < n && 0 <= p < n
            &&& !e.used[place.0] && !e.used[p]
            &&& s.used == e.used.update(p, true)
            &&& a1[p][p].value != 0real
            &&& s.a.len() == n && s.b.len() == n
            &&& rectangular(s.a, n as nat) && rectangular(s.b, width)
            &&& forall|k: int|
                0 <= k < n ==> (#[trigger] s.a[p][k]).value == real_product(a1[p][k].value, r)
            &&& forall|j: int|
                0 <= j < width ==> (#[trigger] s.b[p][j]).value == real_product(
                    b1[p][j].value,
                    r,
                )
            &&& forall|i: int, k: int|
                0 <= i < n && i != p && 0 <= k < n ==> (#[trigger] s.a[i][k]).value
                    == a1[i][k].value - real_product(s.a[p][k].value, a1[i][p].value)
            &&& forall|i: int, j: int|
                0 <= i < n && i != p && 0 <= j < width ==> (#[trigger] s.b[i][j]).value
                    == b1[i][j].value - real_product(s.b[p][j].value, a1[i][p].value)
        }),
{
    lemma_step_places_one_pivot(e, false, width);
}

/// A step that finds a pivot other than zero keeps every solution of the
/// system.
pub proof fn lemma_step_keeps_product(e: Elimination<Exact>, x: Seq<Seq<Exact>>, width: nat)
    requires
        rectangular(e.a, e.a.len()),
        e.b.len() == e.a.len(),
        rectangular(e.b, width),
        e.used.len() == e.a.len(),
        e.a.len() <= usize::MAX,
        first_unused(e.used, 0) < e.used.len(),
        x.len() == e.a.len(),
        rectangular(x, width),
        is_product(e.a, x, e.b, width),
        !eliminate_step(e, false).singular,
    ensures
        is_product(eliminate_step(e, false).a, x, eliminate_step(e, false).b, width),
{
    let s = eliminate_step(e, false);
    let n = e.a.len();
    let place = pivot_location(e.a, e.used);
    let p = place.1;
    let a1 = pivot_aligned(e.a, place);
    let b1 = pivot_aligned(e.b, place);
    let r = real_quotient(1real, a1[p][p].value);
    lemma_step_rows(e, width);
    assert forall|i: int, j: int| 0 <= i < n && 0 <= j < width implies dot(
        s.a[i],
        column_of(x, j),
        n,
    ) == (#[trigger] s.b[i][j]).value by {
        let xc = column_of(x, j);
        let from = if place.0 != p && i == place.0 {
            p
        } else if place.0 != p && i == p {
            place.0
        } else {
            i
        };
        assert(a1[i] == e.a[from] && b1[i] == e.b[from]);
        assert(a1[p] == e.a[place.0] && b1[p] == e.b[place.0]);
        assert(dot(e.a[from], xc, n) == e.b[from][j].value);
        assert(dot(e.a[place.0], xc, n) == e.b[place.0][j].value);
        lemma_dot_scaled(a1[p], s.a[p], xc, r, n);
        if i != p {
            lemma_dot_reduced(a1[i], s.a[p], s.a[i], xc, a1[i][p].value, n);
        }
    }
}

/// A step that finds a pivot other than zero keeps the columns that hold a
/// pivot as columns of the identity, and makes the column of its pivot one.
pub proof fn lemma_step_keeps_units(e: Elimination<Exact>, width: nat)
    requires
        rectangular(e.a, e.a.len()),
        e.b.len() == e.a.len(),
        rectangular(e.b, width),
        e.used.len() == e.a.len(),
        e.a.len() <= usize::MAX,
        first_unused(e.used, 0) < e.used.len(),
        unit_columns(e.a, e.used),
        !eliminate_step(e, false).singular,
    ensures
        unit_columns(eliminate_step(e, false).a, eliminate_step(e, false).used),
{
    let s = eliminate_step(e, false);
    let n = e.a.len();
    let place = pivot_location(e.a, e.used);
    let p = place.1;
    let a1 = pivot_aligned(e.a, place);
    let r = real_quotient(1real, a1[p][p].value);
    lemma_step_rows(e, width);
    assert forall|i: int, c: int| 0 <= i < n && 0 <= c < n && s.used[c] implies (
    #[trigger] s.a[i][c]).value == if i == c {
        1real
    } else {
        0real
    } by {
        lemma_products(a1[p][p].value);
        lemma_products(a1[i][p].value);
        lemma_products(r);
        if c != p {
            assert(e.used[c]);
            assert(e.a[place.0][c].value == 0real);
            assert(e.a[p][c].value == 0real);
            assert(a1[p][c].value == 0real);
            assert(a1[i][c].value == if i == c {
                1real
            } else {
                0real
            });
            assert(s.a[p][c].value == 0real);
        }
    }
}

/// The steps of the elimination, as long as they find pivots other than
/// zero, keep every solution of the system and build up the identity.
pub proof fn lemma_steps_keep_solution(
    a: Seq<Seq<Exact>>,
    b: Seq<Seq<Exact>>,
    x: Seq<Seq<Exact>>,
    width: nat,
    upto: nat,
)
    requires
        rectangular(a, a.len()),
        a.len() <= usize::MAX,
        b.len() == a.len(),
        rectangular(b, width),
        x.len() == a.len(),
        rectangular(x, width),
        is_product(a, x, b, width),
        upto <= a.len(),
    ensures
        ({
            let e = eliminate_steps(unreduced(a, b), false, upto);
            !e.singular ==> is_product(e.a, x, e.b, width) && unit_columns(e.a, e.used)
        }),
    decreases upto,
{
    if upto > 0 {
        let before = eliminate_steps(unreduced(a, b), false, (upto - 1) as nat);
        lemma_steps_keep_solution(a, b, x, width, (upto - 1) as nat);
        lemma_one_pivot_per_step(a, b, false, width, (upto - 1) as nat);
        if !before.singular && !eliminate_step(before, false).singular {
            lemma_some_unused(before.used);
            lemma_step_keeps_product(before, x, width);
            lemma_step_keeps_units(before, width);
        }
    }
}

/// What `gaussj` leaves in place of the right hand sides, where it finds no
/// pivot to be zero, is the solution of the system: if `a * x == b`, then `x`
/// is what it leaves.
pub proof fn lemma_elimination_solves(
    a: Seq<Seq<Exact>>,
    b: Seq<Seq<Exact>>,
    x: Seq<Seq<Exact>>,
    width: nat,
)
    requires
        rectangular(a, a.len()),
        a.len() <= usize::MAX,
        b.len() == a.len(),
        rectangular(b, width),
        x.len() == a.len(),
        rectangular(x, width),
        is_product(a, x, b, width),
    ensures
        !reduced(a, b, false).singular ==> reduced(a, b, false).b == x,
{
    let n = a.len();
    let e = eliminate_steps(unreduced(a, b), false, n);
    lemma_steps_keep_solution(a, b, x, width, n);
    lemma_one_pivot_per_step(a, b, false, width, n);
    if !e.singular {
        lemma_count_used_bound(e.used, n);
        assert forall|i: int, j: int| 0 <= i < n && 0 <= j < width implies e.b[i][j] == x[i][j] by {
            let xc = column_of(x, j);
            lemma_dot_unit(e.a[i], xc, i, n);
            assert(dot(e.a[i], xc, n) == e.b[i][j].value);
            assert(xc[i] == x[i][j]);
        }
        assert(e.b =~~= x);
    }
}

} // verus!
