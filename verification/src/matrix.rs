use vstd::prelude::*;

verus! {

/// A matrix: its rows, and the numbers of rows and columns that it was
/// made with.
#[derive(Debug)]
pub struct MatrixRing<Scalar> {
    data: Vec<Vec<Scalar>>,
    row: usize,
    column: usize,
}

/// The matrix type under its short name.
pub type Matrix<Scalar> = MatrixRing<Scalar>;

impl<Scalar> MatrixRing<Scalar> {
    /// The rows of the matrix.
    pub closed spec fn rows(&self) -> Seq<Vec<Scalar>> {
        self.data@
    }

    /// The number of rows that the matrix was made with.
    pub closed spec fn spec_row(&self) -> usize {
        self.row
    }

    /// The number of columns that the matrix was made with.
    pub closed spec fn spec_column(&self) -> usize {
        self.column
    }

    /// A matrix from its rows and its dimensions. The dimensions are kept
    /// as they are given.
    pub fn new(source: Vec<Vec<Scalar>>, row: usize, column: usize) -> (r: Self)
        ensures
            r.rows() == source@,
            r.spec_row() == row,
            r.spec_column() == column,
    {
        MatrixRing { data: source, row, column }
    }

    /// The number of rows that the matrix was made with.
    pub fn row(&self) -> (n: usize)
        ensures
            n == self.spec_row(),
    {
        self.row
    }

    /// The number of columns that the matrix was made with.
    pub fn column(&self) -> (n: usize)
        ensures
            n == self.spec_column(),
    {
        self.column
    }

    /// The number of rows that the matrix holds.
    pub fn height(&self) -> (n: usize)
        ensures
            n == self.rows().len(),
    {
        self.data.len()
    }

    /// The row at index `i`.
    pub fn get_row(&self, i: usize) -> (r: &Vec<Scalar>)
        requires
            i < self.rows().len(),
        ensures
            *r == self.rows()[i as int],
    {
        &self.data[i]
    }
}

} // verus!
