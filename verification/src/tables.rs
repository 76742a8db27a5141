//! The arrays and datasets of the numeric crates, holding bit patterns.
use vstd::prelude::*;

use linfa::dataset::Records;

verus! {

/// The error of an array whose elements do not fill its shape.
#[verifier::external_type_specification]
#[verifier::external_body]
pub struct ExShapeError(ndarray::ShapeError);

/// A two-dimensional array of bit patterns.
#[verifier::external_body]
pub struct Matrix {
    inner: ndarray::Array2<u64>,
}

/// A one-dimensional array of targets.
#[verifier::external_body]
pub struct Targets {
    inner: ndarray::Array1<bool>,
}

/// Records of bit patterns with a target for each.
#[verifier::external_body]
pub struct Dataset {
    inner: linfa::Dataset<u64, bool, ndarray::Ix1>,
}

/// The rows that a matrix holds.
pub uninterp spec fn matrix_rows(matrix: Matrix) -> Seq<Seq<u64>>;

/// The number of columns that a matrix has, with rows or without.
pub uninterp spec fn matrix_columns(matrix: Matrix) -> nat;

/// The targets that an array holds.
pub uninterp spec fn target_values(targets: Targets) -> Seq<bool>;

/// The records that a dataset holds.
pub uninterp spec fn dataset_records(dataset: Dataset) -> Seq<Seq<u64>>;

/// The number of features that the records of a dataset have, with records or without.
pub uninterp spec fn dataset_columns(dataset: Dataset) -> nat;

/// The targets that a dataset holds.
pub uninterp spec fn dataset_targets(dataset: Dataset) -> Seq<bool>;

/// The rows of `columns` elements each into which `elements` fall.
pub open spec fn cut(elements: Seq<u64>, rows: nat, columns: nat) -> Seq<Seq<u64>> {
    Seq::new(rows, |i: int| elements.subrange(i * columns, (i + 1) * columns))
}

/// Whether `length` elements fill a shape whose sides an array can have.
pub open spec fn fills(length: nat, rows: usize, columns: usize) -> bool {
    &&& length == rows * columns
    &&& rows <= isize::MAX
    &&& columns <= isize::MAX
}

/// `ndarray::Array2::from_shape_vec`: fills the shape with the elements, row after
/// row, and has the columns of the shape also where this has no rows. It fails where
/// the shape does not have as many places as there are elements, or where a side of
/// an empty shape is longer than `isize::MAX`.
#[verifier::external_body]
pub(crate) fn matrix_from_elements(rows: usize, columns: usize, elements: Vec<u64>) -> (r: Result<
    Matrix,
    ndarray::ShapeError,
>)
    ensures
        r is Ok == fills(elements@.len(), rows, columns),
        r is Ok ==> matrix_rows(r->Ok_0) == cut(elements@, rows as nat, columns as nat),
        r is Ok ==> matrix_columns(r->Ok_0) == columns,
{
    match ndarray::Array2::from_shape_vec((rows, columns), elements) {
        Ok(inner) => Ok(Matrix { inner }),
        Err(error) => Err(error),
    }
}

/// `ndarray::Array1::from_vec`: holds the elements of the vector in their order.
#[verifier::external_body]
pub(crate) fn targets_from_vec(values: Vec<bool>) -> (targets: Targets)
    ensures
        target_values(targets) == values@,
{
    Targets { inner: ndarray::Array1::from_vec(values) }
}

/// `linfa::Dataset::new`: holds the records and the targets as they are given.
#[verifier::external_body]
pub(crate) fn dataset_new(records: Matrix, targets: Targets) -> (dataset: Dataset)
    ensures
        dataset_records(dataset) == matrix_rows(records),
        dataset_columns(dataset) == matrix_columns(records),
        dataset_targets(dataset) == target_values(targets),
{
    Dataset { inner: linfa::Dataset::new(records.inner, targets.inner) }
}

/// `linfa::dataset::Records::nsamples`: the number of records.
#[verifier::external_body]
fn dataset_length(dataset: &Dataset) -> (n: usize)
    ensures
        n == dataset_records(*dataset).len(),
{
    dataset.inner.nsamples()
}

/// `linfa::dataset::Records::nfeatures`: the number of columns of the records.
#[verifier::external_body]
fn dataset_width(dataset: &Dataset) -> (n: usize)
    ensures
        n == dataset_columns(*dataset),
{
    dataset.inner.nfeatures()
}

/// `ndarray::ArrayBase::row`, copied into a vector: the record with the number `i`.
/// It panics where there is no such record.
#[verifier::external_body]
fn dataset_row(dataset: &Dataset, i: usize) -> (row: Vec<u64>)
    requires
        i < dataset_records(*dataset).len(),
    ensures
        row@ == dataset_records(*dataset)[i as int],
{
    dataset.inner.records.row(i).to_vec()
}

/// `ndarray::ArrayBase::to_vec`: the elements of the targets in their order.
#[verifier::external_body]
fn dataset_labels(dataset: &Dataset) -> (targets: Vec<bool>)
    ensures
        targets@ == dataset_targets(*dataset),
{
    dataset.inner.targets.to_vec()
}

/// The rows of a matrix, given one by one.
pub open spec fn views(rows: Seq<Vec<u64>>) -> Seq<Seq<u64>> {
    rows.map_values(|row: Vec<u64>| row@)
}

impl Dataset {
    /// The records of the dataset.
    pub fn records(&self) -> (rows: Vec<Vec<u64>>)
        ensures
            views(rows@) == dataset_records(*self),
    {
        let n: usize = dataset_length(self);
        let mut rows: Vec<Vec<u64>> = Vec::new();
        let mut i: usize = 0;
        while i < n
            invariant
                i <= n,
                n == dataset_records(*self).len(),
                rows@.len() == i,
                forall|j: int| 0 <= j < i ==> (#[trigger] rows@[j])@ == dataset_records(*self)[j],
            decreases n - i,
        {
            rows.push(dataset_row(self, i));
            i = i + 1;
        }
        assert(views(rows@) =~= dataset_records(*self));
        rows
    }

    /// How many features each record of the dataset has.
    pub fn features(&self) -> (n: usize)
        ensures
            n == dataset_columns(*self),
    {
        dataset_width(self)
    }

    /// The targets of the dataset.
    pub fn targets(&self) -> (targets: Vec<bool>)
        ensures
            targets@ == dataset_targets(*self),
    {
        dataset_labels(self)
    }
}

/// Rows are cut out of elements one after the other: the element in a row and a column is
/// as many rows and places behind the first.
pub proof fn rows_are_cut_in_turn(
    elements: Seq<u64>,
    rows: nat,
    columns: nat,
    i: int,
    c: int,
)
    requires
        elements.len() == rows * columns,
        0 <= i < rows,
        0 <= c < columns,
    ensures
        cut(elements, rows, columns).len() == rows,
        cut(elements, rows, columns)[i].len() == columns,
        cut(elements, rows, columns)[i][c] == elements[i * columns + c],
{
    assert(0 <= i * columns && (i + 1) * columns == i * columns + columns && (i + 1) * columns
        <= rows * columns) by (nonlinear_arith)
        requires
            0 <= i < rows,
            0 <= columns,
    ;
}

/// What is read of a dataset is what it holds, row by row.
pub proof fn datasets_are_read(
    dataset: Dataset,
    rows: Vec<Vec<u64>>,
    targets: Vec<bool>,
    n: usize,
)
    requires
        call_ensures(Dataset::records, (&dataset,), rows),
        call_ensures(Dataset::targets, (&dataset,), targets),
        call_ensures(Dataset::features, (&dataset,), n),
    ensures
        rows@.len() == dataset_records(dataset).len(),
        forall|i: int|
            0 <= i < rows@.len() ==> (#[trigger] rows@[i])@ == dataset_records(dataset)[i],
        targets@ == dataset_targets(dataset),
        n == dataset_columns(dataset),
{
    assert(views(rows@).len() == rows@.len());
    assert forall|i: int| 0 <= i < rows@.len() implies (#[trigger] rows@[i])@ == dataset_records(
        dataset,
    )[i] by {
        assert(views(rows@)[i] == rows@[i]@);
    }
}

} // verus!
