//! The matrix container: a rectangular grid of scalars with its row and
//! column primitives.

use crate::error::Error;
use crate::grid::{
    column_of, first_largest, identity, largest_upto, lemma_largest_upto, rectangular,
    with_columns_swapped, with_entry, with_row_scaled, with_row_shifted, with_rows_swapped, zeros,
};
use crate::scalar::{Scalar, ONE_BITS};
use vstd::prelude::*;

verus! {

/// A grid of scalars in which every row has the same length. The row count
/// and the column count are kept beside the rows, so that a matrix without
/// rows still has a width.
///
/// Two matrices are equal, for `==`, where they have the same shape and their
/// entries compare equal as IEEE 754 values do: the two zeros are equal and a
/// NaN equals nothing, so a matrix that holds a NaN is not equal to itself.
#[derive(Debug)]
pub struct Matrix {
    values: Vec<Vec<Scalar>>,
    rows: usize,
    columns: usize,
}

/// A row of `n` zeros.
fn zero_row(n: usize) -> (row: Vec<Scalar>)
    ensures
        row@ == Seq::new(n as nat, |j: int| Scalar::zero()),
{
    let mut row: Vec<Scalar> = Vec::new();
    let mut j: usize = 0;
    while j < n
        invariant
            j <= n,
            row@ == Seq::new(j as nat, |k: int| Scalar::zero()),
        decreases n - j,
    {
        row.push(Scalar { bits: 0 });
        j = j + 1;
        assert(row@ =~= Seq::new(j as nat, |k: int| Scalar::zero()));
    }
    row
}

/// Overwrites one entry of a stored grid and leaves the rest as it was.
fn set_cell(values: &mut Vec<Vec<Scalar>>, row: usize, column: usize, value: Scalar)
    requires
        row < old(values)@.len(),
        column < old(values)@[row as int]@.len(),
    ensures
        final(values)@.len() == old(values)@.len(),
        final(values)@[row as int]@ == old(values)@[row as int]@.update(column as int, value),
        forall|i: int|
            0 <= i < old(values)@.len() && i != row ==> (#[trigger] final(values)@[i])@ == old(
                values,
            )@[i]@,
    no_unwind
{
    values[row][column] = value;
}

impl Matrix {
    /// The rows of the matrix, each a sequence of scalars.
    pub closed spec fn view(&self) -> Seq<Seq<Scalar>> {
        Seq::new(self.values@.len(), |i: int| self.values@[i]@)
    }

    /// The column count.
    pub closed spec fn width(&self) -> nat {
        self.columns as nat
    }

    /// The row count is the number of rows, and every row is as long as the
    /// column count says. This holds of every matrix at all times.
    #[verifier::type_invariant]
    pub closed spec fn well_formed(&self) -> bool {
        &&& self.rows == self.values@.len()
        &&& forall|i: int|
            0 <= i < self.values@.len() ==> (#[trigger] self.values@[i])@.len() == self.columns
    }

    /// A matrix that exists is rectangular.
    pub proof fn lemma_rectangular(&self)
        requires
            self.well_formed(),
        ensures
            rectangular(self@, self.width()),
    {
    }

    /// Builds a matrix from its rows. Rows of differing lengths are refused;
    /// no rows at all make the matrix without rows and columns.
    pub fn from(values: Vec<Vec<Scalar>>) -> (r: Result<Matrix, Error>)
        ensures
            r.is_ok() <==> forall|i: int|
                0 <= i < values@.len() ==> (#[trigger] values@[i])@.len() == values@[0]@.len(),
            r matches Ok(m) ==> {
                &&& m@ == Seq::new(values@.len(), |i: int| values@[i]@)
                &&& m.width() == if values@.len() == 0 {
                    0
                } else {
                    values@[0]@.len()
                }
                &&& rectangular(m@, m.width())
            },
            r matches Err(e) ==> e == Error::MangledMatrix,
    {
        let number_of_rows: usize = values.len();
        if number_of_rows == 0 {
            return Ok(Matrix { values, rows: 0, columns: 0 });
        }
        let number_of_elements: usize = values[0].len();
        let mut i: usize = 0;
        while i < number_of_rows
            invariant
                i <= number_of_rows,
                number_of_rows == values@.len(),
                number_of_elements == values@[0]@.len(),
                forall|k: int| 0 <= k < i ==> (#[trigger] values@[k])@.len() == number_of_elements,
            decreases number_of_rows - i,
        {
            if values[i].len() != number_of_elements {
                return Err(Error::MangledMatrix);
            }
            i = i + 1;
        }
        Ok(Matrix { values, rows: number_of_rows, columns: number_of_elements })
    }

    /// The zero matrix of the given shape.
    pub fn new(rows: usize, columns: usize) -> (m: Matrix)
        ensures
            m@ == zeros::<Scalar>(rows as nat, columns as nat),
            m.width() == columns,
    {
        let mut values: Vec<Vec<Scalar>> = Vec::new();
        let mut i: usize = 0;
        while i < rows
            invariant
                i <= rows,
                values@.len() == i,
                forall|k: int|
                    0 <= k < i ==> (#[trigger] values@[k])@ == Seq::new(
                        columns as nat,
                        |j: int| Scalar::zero(),
                    ),
            decreases rows - i,
        {
            values.push(zero_row(columns));
            i = i + 1;
        }
        let m = Matrix { values, rows, columns };
        assert(m@ =~= zeros::<Scalar>(rows as nat, columns as nat));
        m
    }

    /// The rows as they are stored.
    pub fn values(&self) -> (v: &Vec<Vec<Scalar>>)
        ensures
            v@.len() == self@.len(),
            forall|i: int| 0 <= i < v@.len() ==> (#[trigger] v@[i])@ == self@[i],
    {
        &self.values
    }

    /// The square zero matrix.
    pub fn square(size: usize) -> (m: Matrix)
        ensures
            m@ == zeros::<Scalar>(size as nat, size as nat),
            m.width() == size,
    {
        Matrix::new(size, size)
    }

    /// The identity matrix.
    pub fn identity(size: usize) -> (m: Matrix)
        ensures
            m@ == identity::<Scalar>(size as nat),
            m.width() == size,
    {
        let mut matrix = Matrix::square(size);
        let mut x: usize = 0;
        while x < size
            invariant
                x <= size,
                matrix.width() == size,
                matrix@.len() == size,
                rectangular(matrix@, size as nat),
                forall|i: int, j: int|
                    0 <= i < size && 0 <= j < size ==> (#[trigger] matrix@[i][j]) == if i == j && i
                        < x {
                        Scalar::one()
                    } else {
                        Scalar::zero()
                    },
            decreases size - x,
        {
            matrix.set(x, x, Scalar { bits: ONE_BITS });
            x = x + 1;
        }
        assert(matrix@ =~~= identity::<Scalar>(size as nat));
        matrix
    }

    /// The row count.
    pub fn rows(&self) -> (n: usize)
        ensures
            n == self@.len(),
    {
        proof {
            use_type_invariant(self);
        }
        self.rows
    }

    /// The column count.
    pub fn columns(&self) -> (n: usize)
        ensures
            n == self.width(),
            rectangular(self@, n as nat),
    {
        proof {
            use_type_invariant(self);
        }
        self.columns
    }

    /// The column count, as `columns` gives it.
    pub fn columns_unchecked(&self) -> (n: usize)
        ensures
            n == self.width(),
            rectangular(self@, n as nat),
    {
        self.columns()
    }

    /// Whether some row differs in length from the column count. No matrix
    /// that was built does.
    pub fn is_mangled(&self) -> (mangled: bool)
        ensures
            !mangled,
            mangled == !rectangular(self@, self.width()),
    {
        proof {
            use_type_invariant(self);
        }
        let mut i: usize = 0;
        while i < self.values.len()
            invariant
                i <= self.values@.len(),
                self.well_formed(),
            decreases self.values@.len() - i,
        {
            if self.values[i].len() != self.columns {
                return true;
            }
            i = i + 1;
        }
        false
    }

    /// The entry in the given row and column.
    pub fn get(&self, row: usize, column: usize) -> (v: Scalar)
        requires
            row < self@.len(),
            column < self.width(),
        ensures
            v == self@[row as int][column as int],
    {
        proof {
            use_type_invariant(self);
        }
        self.values[row][column]
    }

    /// Overwrites the entry in the given row and column.
    pub fn set(&mut self, row: usize, column: usize, value: Scalar)
        requires
            row < old(self)@.len(),
            column < old(self).width(),
        ensures
            final(self)@ == with_entry(old(self)@, row as int, column as int, value),
            final(self).width() == old(self).width(),
            rectangular(final(self)@, final(self).width()),
    {
        proof {
            use_type_invariant(&*self);
        }
        set_cell(&mut self.values, row, column, value);
        assert(self@ =~= with_entry(old(self)@, row as int, column as int, value));
    }

    /// The entry of largest magnitude in a column, the first one among
    /// equals, with its place.
    pub fn column_max(&self, column: usize) -> (r: (Scalar, (usize, usize)))
        requires
            column < self.width(),
            self@.len() > 0,
        ensures
            r.1.0 == first_largest(column_of(self@, column as int)),
            r.1.1 == column,
            r.1.0 < self@.len(),
            r.0 == self@[r.1.0 as int][column as int],
            self@[0][column as int].spec_is_nan() ==> r.1.0 == 0,
            !self@[0][column as int].spec_is_nan() ==> !r.0.spec_is_nan(),
            forall|i: int|
                0 <= i < self@.len() && !self@[0][column as int].spec_is_nan() && !(
                #[trigger] self@[i])[column as int].spec_is_nan() ==> self@[i][column as int].mag()
                    <= r.0.mag(),
            forall|i: int|
                0 <= i < r.1.0 && !self@[0][column as int].spec_is_nan() && !(
                #[trigger] self@[i])[column as int].spec_is_nan() ==> self@[i][column as int].mag()
                    < r.0.mag(),
    {
        proof {
            use_type_invariant(self);
            lemma_largest_upto(column_of(self@, column as int), self@.len());
        }
        let ghost v = column_of(self@, column as int);
        let mut row_of_largest: usize = 0;
        let mut row: usize = 0;
        while row < self.rows
            invariant
                row <= self.rows,
                self.well_formed(),
                column < self.width(),
                self@.len() > 0,
                v == column_of(self@, column as int),
                row_of_largest == largest_upto(v, row as nat),
                row_of_largest < self@.len(),
            decreases self.rows - row,
        {
            if self.values[row][column].abs().gt(self.values[row_of_largest][column].abs()) {
                row_of_largest = row;
            }
            row = row + 1;
        }
        proof {
            assert forall|i: int| 0 <= i < self@.len() implies v[i] == (#[trigger] self@[i])[column as int] by {}
        }
        (self.values[row_of_largest][column], (row_of_largest, column))
    }

    /// The entry of largest magnitude in a row, the first one among equals,
    /// with its place.
    pub fn row_max(&self, row: usize) -> (r: (Scalar, (usize, usize)))
        requires
            row < self@.len(),
            self.width() > 0,
        ensures
            r.1.0 == row,
            r.1.1 == first_largest(self@[row as int]),
            r.1.1 < self.width(),
            r.0 == self@[row as int][r.1.1 as int],
            self@[row as int][0].spec_is_nan() ==> r.1.1 == 0,
            !self@[row as int][0].spec_is_nan() ==> !r.0.spec_is_nan(),
            forall|j: int|
                0 <= j < self.width() && !self@[row as int][0].spec_is_nan() && !(
                #[trigger] self@[row as int][j]).spec_is_nan() ==> self@[row as int][j].mag()
                    <= r.0.mag(),
            forall|j: int|
                0 <= j < r.1.1 && !self@[row as int][0].spec_is_nan() && !(
                #[trigger] self@[row as int][j]).spec_is_nan() ==> self@[row as int][j].mag()
                    < r.0.mag(),
    {
        proof {
            use_type_invariant(self);
            lemma_largest_upto(self@[row as int], self.width());
        }
        let ghost v = self@[row as int];
        let mut col_of_largest: usize = 0;
        let mut col: usize = 0;
        while col < self.columns
            invariant
                col <= self.columns,
                self.well_formed(),
                row < self@.len(),
                self.width() > 0,
                v == self@[row as int],
                col_of_largest == largest_upto(v, col as nat),
                col_of_largest < self.width(),
            decreases self.columns - col,
        {
            if self.values[row][col].abs().gt(self.values[row][col_of_largest].abs()) {
                col_of_largest = col;
            }
            col = col + 1;
        }
        (self.values[row][col_of_largest], (row, col_of_largest))
    }

    /// Exchanges two rows, entry by entry.
    pub fn swap_rows(&mut self, rows: (usize, usize))
        requires
            rows.0 < old(self)@.len(),
            rows.1 < old(self)@.len(),
        ensures
            final(self)@ == with_rows_swapped(old(self)@, rows.0 as int, rows.1 as int),
            final(self).width() == old(self).width(),
            rectangular(final(self)@, final(self).width()),
    {
        proof {
            use_type_invariant(&*self);
        }
        let ghost before = self@;
        let mut col: usize = 0;
        while col < self.columns
            invariant
                col <= self.columns,
                self.well_formed(),
                self.width() == old(self).width(),
                rectangular(before, self.width()),
                before == old(self)@,
                self@.len() == before.len(),
                rows.0 < before.len(),
                rows.1 < before.len(),
                forall|i: int|
                    0 <= i < before.len() && i != rows.0 && i != rows.1 ==> self@[i] == before[i],
                forall|j: int|
                    0 <= j < col ==> self@[rows.0 as int][j] == before[rows.1 as int][j]
                        && self@[rows.1 as int][j] == before[rows.0 as int][j],
                forall|j: int|
                    col <= j < self.width() ==> self@[rows.0 as int][j] == before[rows.0 as int][j]
                        && self@[rows.1 as int][j] == before[rows.1 as int][j],
            decreases self.columns - col,
        {
            let temp: Scalar = self.values[rows.0][col];
            let other: Scalar = self.values[rows.1][col];
            set_cell(&mut self.values, rows.0, col, other);
            set_cell(&mut self.values, rows.1, col, temp);
            col = col + 1;
        }
        assert(self@ =~~= with_rows_swapped(before, rows.0 as int, rows.1 as int));
    }

    /// Multiplies every entry of a row by `scale`.
    pub fn scale_row(&mut self, row: usize, scale: Scalar)
        requires
            row < old(self)@.len(),
        ensures
            final(self)@ == with_row_scaled(old(self)@, row as int, scale),
            final(self).width() == old(self).width(),
            rectangular(final(self)@, final(self).width()),
    {
        proof {
            use_type_invariant(&*self);
        }
        let ghost before = self@;
        let mut col: usize = 0;
        while col < self.columns
            invariant
                col <= self.columns,
                self.well_formed(),
                self.width() == old(self).width(),
                rectangular(before, self.width()),
                before == old(self)@,
                self@.len() == before.len(),
                row < before.len(),
                forall|i: int|
                    0 <= i < before.len() && i != row ==> self@[i] == #[trigger] before[i],
                forall|j: int|
                    0 <= j < col ==> self@[row as int][j] == (#[trigger] before[row as int][j]).spec_mul(
                        scale,
                    ),
                forall|j: int|
                    col <= j < self.width() ==> self@[row as int][j] == #[trigger] before[row as int][j],
            decreases self.columns - col,
        {
            let scaled: Scalar = self.values[row][col].mul(scale);
            set_cell(&mut self.values, row, col, scaled);
            col = col + 1;
        }
        assert(self@ =~~= with_row_scaled(before, row as int, scale));
    }

    /// Adds `addend` to every entry of a row.
    pub fn add_to_row(&mut self, row: usize, addend: Scalar)
        requires
            row < old(self)@.len(),
        ensures
            final(self)@ == with_row_shifted(old(self)@, row as int, addend),
            final(self).width() == old(self).width(),
            rectangular(final(self)@, final(self).width()),
    {
        proof {
            use_type_invariant(&*self);
        }
        let ghost before = self@;
        let mut col: usize = 0;
        while col < self.columns
            invariant
                col <= self.columns,
                self.well_formed(),
                self.width() == old(self).width(),
                rectangular(before, self.width()),
                before == old(self)@,
                self@.len() == before.len(),
                row < before.len(),
                forall|i: int|
                    0 <= i < before.len() && i != row ==> self@[i] == #[trigger] before[i],
                forall|j: int|
                    0 <= j < col ==> self@[row as int][j] == (#[trigger] before[row as int][j]).spec_add(
                        addend,
                    ),
                forall|j: int|
                    col <= j < self.width() ==> self@[row as int][j] == #[trigger] before[row as int][j],
            decreases self.columns - col,
        {
            let shifted: Scalar = self.values[row][col].add(addend);
            set_cell(&mut self.values, row, col, shifted);
            col = col + 1;
        }
        assert(self@ =~~= with_row_shifted(before, row as int, addend));
    }

    /// Exchanges two columns, row by row.
    pub fn swap_columns(&mut self, columns: (usize, usize))
        requires
            columns.0 < old(self).width(),
            columns.1 < old(self).width(),
        ensures
            final(self)@ == with_columns_swapped(old(self)@, columns.0 as int, columns.1 as int),
            final(self).width() == old(self).width(),
            rectangular(final(self)@, final(self).width()),
    {
        proof {
            use_type_invariant(&*self);
        }
        let ghost before = self@;
        let mut row: usize = 0;
        while row < self.rows
            invariant
                row <= self.rows,
                self.well_formed(),
                self.width() == old(self).width(),
                rectangular(before, self.width()),
                before == old(self)@,
                self@.len() == before.len(),
                columns.0 < self.width(),
                columns.1 < self.width(),
                forall|i: int|
                    0 <= i < row ==> self@[i] == (#[trigger] before[i]).update(
                        columns.0 as int,
                        before[i][columns.1 as int],
                    ).update(columns.1 as int, before[i][columns.0 as int]),
                forall|i: int| row <= i < before.len() ==> self@[i] == #[trigger] before[i],
            decreases self.rows - row,
        {
            let temp: Scalar = self.values[row][columns.0];
            let other: Scalar = self.values[row][columns.1];
            set_cell(&mut self.values, row, columns.0, other);
            set_cell(&mut self.values, row, columns.1, temp);
            assert(self@[row as int] =~= before[row as int].update(
                columns.0 as int,
                before[row as int][columns.1 as int],
            ).update(columns.1 as int, before[row as int][columns.0 as int]));
            row = row + 1;
        }
        assert(self@ =~~= with_columns_swapped(before, columns.0 as int, columns.1 as int));
    }

    /// Appends a row of zeros.
    pub fn new_row(&mut self)
        requires
            old(self)@.len() < usize::MAX,
        ensures
            final(self)@ == old(self)@.push(Seq::new(old(self).width(), |j: int| Scalar::zero())),
            final(self).width() == old(self).width(),
    {
        proof {
            use_type_invariant(&*self);
        }
        let mut taken = Matrix { values: Vec::new(), rows: 0, columns: self.columns };
        core::mem::swap(self, &mut taken);
        let Matrix { values, rows, columns } = taken;
        let mut values = values;
        values.push(zero_row(columns));
        *self = Matrix { values, rows: rows + 1, columns };
        assert(self@ =~= old(self)@.push(Seq::new(old(self).width(), |j: int| Scalar::zero())));
    }

    /// Appends a column of zeros.
    pub fn new_column(&mut self)
        requires
            old(self).width() < usize::MAX,
        ensures
            final(self)@ == Seq::new(
                old(self)@.len(),
                |i: int| old(self)@[i].push(Scalar::zero()),
            ),
            final(self).width() == old(self).width() + 1,
    {
        proof {
            use_type_invariant(&*self);
        }
        let mut taken = Matrix { values: Vec::new(), rows: 0, columns: self.columns };
        core::mem::swap(self, &mut taken);
        let Matrix { values, rows, columns } = taken;
        let mut values = values;
        let mut row: usize = 0;
        while row < rows
            invariant
                row <= rows,
                rows == values@.len(),
                values@.len() == old(self)@.len(),
                columns == old(self).width(),
                forall|i: int|
                    0 <= i < row ==> (#[trigger] values@[i])@ == old(self)@[i].push(Scalar::zero()),
                forall|i: int| row <= i < rows ==> (#[trigger] values@[i])@ == old(self)@[i],
            decreases rows - row,
        {
            push_cell(&mut values, row, Scalar { bits: 0 });
            row = row + 1;
        }
        *self = Matrix { values, rows, columns: columns + 1 };
        assert(self@ =~= Seq::new(old(self)@.len(), |i: int| old(self)@[i].push(Scalar::zero())));
    }
}

impl PartialEq for Matrix {
    fn eq(&self, other: &Matrix) -> (r: bool) {
        proof {
            use_type_invariant(self);
            use_type_invariant(other);
        }
        if self.rows != other.rows || self.columns != other.columns {
            return false;
        }
        let mut row: usize = 0;
        while row < self.rows
            invariant
                row <= self.rows,
                self.well_formed(),
                other.well_formed(),
                self.rows == other.rows,
                self.columns == other.columns,
                forall|i: int, j: int|
                    0 <= i < row && 0 <= j < self.columns ==> (#[trigger] self@[i][j]).spec_same_value(
                        other@[i][j],
                    ),
            decreases self.rows - row,
        {
            let mut col: usize = 0;
            while col < self.columns
                invariant
                    col <= self.columns,
                    row < self.rows,
                    self.well_formed(),
                    other.well_formed(),
                    self.rows == other.rows,
                    self.columns == other.columns,
                    forall|i: int, j: int|
                        0 <= i < row && 0 <= j < self.columns ==> (#[trigger] self@[i][j]).spec_same_value(
                            other@[i][j],
                        ),
                    forall|j: int|
                        0 <= j < col ==> (#[trigger] self@[row as int][j]).spec_same_value(
                            other@[row as int][j],
                        ),
                decreases self.columns - col,
            {
                if !self.values[row][col].same_value(other.values[row][col]) {
                    assert(!self@[row as int][col as int].spec_same_value(
                        other@[row as int][col as int],
                    ));
                    return false;
                }
                col = col + 1;
            }
            row = row + 1;
        }
        true
    }
}

impl vstd::std_specs::cmp::PartialEqSpecImpl for Matrix {
    open spec fn obeys_eq_spec() -> bool {
        true
    }

    open spec fn eq_spec(&self, other: &Matrix) -> bool {
        &&& self@.len() == other@.len()
        &&& self.width() == other.width()
        &&& forall|i: int, j: int|
            0 <= i < self@.len() && 0 <= j < self.width() ==> (#[trigger] self@[i][j]).spec_same_value(
                other@[i][j],
            )
    }
}

/// Appends one entry to a row of a stored grid and leaves the rest as it was.
fn push_cell(values: &mut Vec<Vec<Scalar>>, row: usize, value: Scalar)
    requires
        row < old(values)@.len(),
    ensures
        final(values)@.len() == old(values)@.len(),
        final(values)@[row as int]@ == old(values)@[row as int]@.push(value),
        forall|i: int|
            0 <= i < old(values)@.len() && i != row ==> (#[trigger] final(values)@[i])@ == old(
                values,
            )@[i]@,
{
    values[row].push(value);
}

} // verus!
