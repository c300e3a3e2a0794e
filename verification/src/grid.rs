//! The mathematical model of a matrix, a sequence of rows of scalars, and the
//! row and column operations on it.

use crate::number::Number;
use crate::scalar::Scalar;
use vstd::prelude::*;

verus! {

/// Every row holds `width` entries.
pub open spec fn rectangular<T>(g: Seq<Seq<T>>, width: nat) -> bool {
    forall|i: int| 0 <= i < g.len() ==> (#[trigger] g[i]).len() == width
}

/// The grid of the given shape with zero in every place.
pub open spec fn zeros<T: Number>(rows: nat, columns: nat) -> Seq<Seq<T>> {
    Seq::new(rows, |i: int| Seq::new(columns, |j: int| T::zero_element()))
}

/// The square grid with one on the diagonal and zero elsewhere.
pub open spec fn identity<T: Number>(size: nat) -> Seq<Seq<T>> {
    Seq::new(
        size,
        |i: int|
            Seq::new(
                size,
                |j: int|
                    if i == j {
                        T::one_element()
                    } else {
                        T::zero_element()
                    },
            ),
    )
}

/// Column `c`, read from the first row to the last.
pub open spec fn column_of<T>(g: Seq<Seq<T>>, c: int) -> Seq<T> {
    Seq::new(g.len(), |i: int| g[i][c])
}

/// The grid with `v` in row `r` and column `c`.
pub open spec fn with_entry<T>(g: Seq<Seq<T>>, r: int, c: int, v: T) -> Seq<Seq<T>> {
    g.update(r, g[r].update(c, v))
}

/// The grid with the entries of column `c` in rows `r1` and `r2` exchanged.
pub open spec fn with_entries_swapped<T>(g: Seq<Seq<T>>, r1: int, r2: int, c: int) -> Seq<Seq<T>> {
    with_entry(with_entry(g, r1, c, g[r2][c]), r2, c, g[r1][c])
}

/// The grid with rows `r1` and `r2` exchanged.
pub open spec fn with_rows_swapped<T>(g: Seq<Seq<T>>, r1: int, r2: int) -> Seq<Seq<T>> {
    g.update(r1, g[r2]).update(r2, g[r1])
}

/// The grid with columns `c1` and `c2` exchanged in every row.
pub open spec fn with_columns_swapped<T>(g: Seq<Seq<T>>, c1: int, c2: int) -> Seq<
    Seq<T>,
> {
    Seq::new(g.len(), |i: int| g[i].update(c1, g[i][c2]).update(c2, g[i][c1]))
}

/// The grid with every entry of row `r` multiplied by `factor`.
pub open spec fn with_row_scaled<T: Number>(g: Seq<Seq<T>>, r: int, factor: T) -> Seq<
    Seq<T>,
> {
    g.update(r, Seq::new(g[r].len(), |j: int| g[r][j].times(factor)))
}

/// The grid with `addend` added to every entry of row `r`.
pub open spec fn with_row_shifted<T: Number>(g: Seq<Seq<T>>, r: int, addend: T) -> Seq<
    Seq<T>,
> {
    g.update(r, Seq::new(g[r].len(), |j: int| g[r][j].plus(addend)))
}

/// The index that a scan of the first `n` entries settles on when it starts
/// at index 0 and moves on only to an entry of strictly larger magnitude.
pub open spec fn largest_upto<T: Number>(v: Seq<T>, n: nat) -> nat
    decreases n,
{
    if n == 0 {
        0
    } else {
        let best = largest_upto(v, (n - 1) as nat);
        if v[n - 1].absolute().exceeds(v[best as int].absolute()) {
            (n - 1) as nat
        } else {
            best
        }
    }
}

/// The index of the entry of largest magnitude, the first one among equals.
pub open spec fn first_largest<T: Number>(v: Seq<T>) -> nat {
    largest_upto(v, v.len())
}

/// What the scan settles on: unless the scan starts on a NaN, which nothing
/// exceeds, the entry found is no NaN, no entry before it reaches its
/// magnitude and no entry at all exceeds it; a NaN further on is passed over.
pub proof fn lemma_largest_upto(v: Seq<Scalar>, n: nat)
    requires
        0 < n <= v.len(),
    ensures
        largest_upto(v, n) < n,
        v[0].spec_is_nan() ==> largest_upto(v, n) == 0,
        !v[0].spec_is_nan() ==> {
            let k = largest_upto(v, n) as int;
            &&& !v[k].spec_is_nan()
            &&& forall|j: int| 0 <= j < n && !v[j].spec_is_nan() ==> v[j].mag() <= v[k].mag()
            &&& forall|j: int| 0 <= j < k && !v[j].spec_is_nan() ==> v[j].mag() < v[k].mag()
        },
    decreases n,
{
    reveal_with_fuel(largest_upto, 2);
    if n > 1 {
        lemma_largest_upto(v, (n - 1) as nat);
    }
}

/// Exchanging the same two rows twice restores the grid.
pub proof fn lemma_rows_swapped_twice<T>(g: Seq<Seq<T>>, r1: int, r2: int)
    requires
        0 <= r1 < g.len(),
        0 <= r2 < g.len(),
    ensures
        with_rows_swapped(with_rows_swapped(g, r1, r2), r1, r2) == g,
        with_rows_swapped(g, r1, r2).len() == g.len(),
        with_rows_swapped(g, r1, r2) == with_rows_swapped(g, r2, r1),
{
    assert(with_rows_swapped(with_rows_swapped(g, r1, r2), r1, r2) =~= g);
    assert(with_rows_swapped(g, r1, r2) =~= with_rows_swapped(g, r2, r1));
}

/// Exchanging the same two columns twice restores the grid.
pub proof fn lemma_columns_swapped_twice<T>(g: Seq<Seq<T>>, c1: int, c2: int, width: nat)
    requires
        rectangular(g, width),
        0 <= c1 < width,
        0 <= c2 < width,
    ensures
        with_columns_swapped(with_columns_swapped(g, c1, c2), c1, c2) == g,
        rectangular(with_columns_swapped(g, c1, c2), width),
        with_columns_swapped(g, c1, c2).len() == g.len(),
{
    assert(with_columns_swapped(with_columns_swapped(g, c1, c2), c1, c2) =~~= g);
}

/// Exchanging rows keeps the shape.
pub proof fn lemma_rows_swapped_shape<T>(g: Seq<Seq<T>>, r1: int, r2: int, width: nat)
    requires
        rectangular(g, width),
        0 <= r1 < g.len(),
        0 <= r2 < g.len(),
    ensures
        rectangular(with_rows_swapped(g, r1, r2), width),
        with_rows_swapped(g, r1, r2).len() == g.len(),
{
}

} // verus!
