use crate::error::BankError;
use vstd::prelude::*;

verus! {

/// A dense table of integers: `rows` rows of `cols` entries each.
#[derive(Clone, Debug)]
pub struct Matrix {
    pub data: Vec<Vec<i32>>,
    pub rows: usize,
    pub cols: usize,
}

impl View for Matrix {
    type V = Seq<Seq<i32>>;

    open spec fn view(&self) -> Seq<Seq<i32>> {
        self.data@.map_values(|r: Vec<i32>| r@)
    }
}

/// `t` is a table of `rows` rows, each of `cols` entries.
pub open spec fn has_shape(t: Seq<Seq<i32>>, rows: int, cols: int) -> bool {
    &&& t.len() == rows
    &&& forall|i: int| 0 <= i < rows ==> (#[trigger] t[i]).len() == cols
}

impl Matrix {
    /// The fields agree with the stored rows.
    pub open spec fn wf(&self) -> bool {
        has_shape(self@, self.rows as int, self.cols as int)
    }

    /// An all-zero table of the given shape.
    pub fn new(rows: usize, cols: usize) -> (m: Matrix)
        ensures
            m.wf(),
            m.rows == rows,
            m.cols == cols,
            forall|i: int, j: int| 0 <= i < rows && 0 <= j < cols ==> #[trigger] m@[i][j] == 0,
    {
        let mut data: Vec<Vec<i32>> = Vec::new();
        for i in 0..rows
            invariant
                data@.len() == i,
                forall|k: int| 0 <= k < i ==> (#[trigger] data@[k])@.len() == cols,
                forall|k: int, j: int| 0 <= k < i && 0 <= j < cols ==> #[trigger] data@[k]@[j] == 0,
        {
            let mut row: Vec<i32> = Vec::new();
            for j in 0..cols
                invariant
                    row@.len() == j,
                    forall|l: int| 0 <= l < j ==> #[trigger] row@[l] == 0,
            {
                row.push(0);
            }
            data.push(row);
        }
        Matrix { data, rows, cols }
    }

    /// A table built from its rows; it has as many columns as the first row.
    ///
    /// Fails with `DimensionMismatch` where there is no row, or where a row's
    /// length differs from the first row's.
    pub fn from_vec(data: Vec<Vec<i32>>) -> (r: Result<Matrix, BankError>)
        ensures
            r is Ok <==> data@.len() > 0 && has_shape(
                data@.map_values(|v: Vec<i32>| v@),
                data@.len() as int,
                data@[0]@.len() as int,
            ),
            r is Err ==> r == Err::<Matrix, BankError>(BankError::DimensionMismatch),
            r matches Ok(m) ==> m.wf() && m@ == data@.map_values(|v: Vec<i32>| v@) && m.rows
                == data@.len() && m.cols == data@[0]@.len(),
    {
        let rows = data.len();
        if rows == 0 {
            return Err(BankError::DimensionMismatch);
        }
        let cols = data[0].len();
        for i in 0..rows
            invariant
                rows == data@.len(),
                cols == data@[0]@.len(),
                forall|k: int| 0 <= k < i ==> (#[trigger] data@[k])@.len() == cols,
        {
            if data[i].len() != cols {
                proof {
                    let t = data@.map_values(|v: Vec<i32>| v@);
                    assert(t[i as int].len() != cols);
                }
                return Err(BankError::DimensionMismatch);
            }
        }
        let m = Matrix { data, rows, cols };
        proof {
            assert forall|i: int| 0 <= i < rows implies (#[trigger] m@[i]).len() == cols by {
                assert(m@[i] == m.data@[i]@);
            }
        }
        Ok(m)
    }

    /// Checks that the fields agree with the stored rows.
    pub fn is_well_formed(&self) -> (r: bool)
        ensures
            r == self.wf(),
    {
        if self.data.len() != self.rows {
            return false;
        }
        for i in 0..self.rows
            invariant
                self.data@.len() == self.rows,
                forall|k: int| 0 <= k < i ==> (#[trigger] self.data@[k])@.len() == self.cols,
        {
            if self.data[i].len() != self.cols {
                assert(self@[i as int].len() != self.cols);
                return false;
            }
        }
        assert forall|i: int| 0 <= i < self.rows implies (#[trigger] self@[i]).len() == self.cols by {
            assert(self@[i] == self.data@[i]@);
        }
        true
    }

    /// The entry at (`row`, `col`), which lies inside the table.
    pub(crate) fn at(&self, row: usize, col: usize) -> (v: i32)
        requires
            self.wf(),
            row < self.rows,
            col < self.cols,
        ensures
            v == self@[row as int][col as int],
    {
        assert(self@[row as int] == self.data@[row as int]@);
        self.data[row][col]
    }

    /// The entry at (`row`, `col`); `IndexOutOfRange` outside the table.
    pub fn get(&self, row: usize, col: usize) -> (r: Result<i32, BankError>)
        requires
            self.wf(),
        ensures
            row < self.rows && col < self.cols ==> r == Ok::<i32, BankError>(self@[row as int][col as int]),
            !(row < self.rows && col < self.cols) ==> r == Err::<i32, BankError>(BankError::IndexOutOfRange),
    {
        if row >= self.rows || col >= self.cols {
            return Err(BankError::IndexOutOfRange);
        }
        assert(self.data@[row as int]@.len() == self.cols) by {
            assert(self@[row as int] == self.data@[row as int]@);
        }
        Ok(self.data[row][col])
    }

    /// Writes `value` at (`row`, `col`); `IndexOutOfRange` outside the table,
    /// which is then left unchanged.
    pub fn set(&mut self, row: usize, col: usize, value: i32) -> (r: Result<(), BankError>)
        requires
            old(self).wf(),
        ensures
            final(self).wf(),
            final(self).rows == old(self).rows,
            final(self).cols == old(self).cols,
            row < old(self).rows && col < old(self).cols ==> r is Ok && final(self)@ == old(self)@.update(
                row as int,
                old(self)@[row as int].update(col as int, value),
            ),
            !(row < old(self).rows && col < old(self).cols) ==> r == Err::<(), BankError>(
                BankError::IndexOutOfRange,
            ) && final(self)@ == old(self)@,
    {
        if row >= self.rows || col >= self.cols {
            return Err(BankError::IndexOutOfRange);
        }
        self.put(row, col, value);
        Ok(())
    }

    /// Writes `value` at (`row`, `col`), which lies inside the table.
    pub(crate) fn put(&mut self, row: usize, col: usize, value: i32)
        requires
            old(self).wf(),
            row < old(self).rows,
            col < old(self).cols,
        ensures
            final(self).wf(),
            final(self).rows == old(self).rows,
            final(self).cols == old(self).cols,
            final(self)@ == old(self)@.update(row as int, old(self)@[row as int].update(col as int, value)),
    {
        assert(self@[row as int] == self.data@[row as int]@);
        self.data[row][col] = value;
        let ghost old_view = old(self)@;
        assert(self@ =~= old_view.update(row as int, old_view[row as int].update(col as int, value)));
    }
}

} // verus!
