//! The weight matrix of the assignment problem and the solver that works on it.
//!
//! Both come from the `pathfinding` crate. Nothing in this file is proved:
//! each item states what the rest of the library takes on trust.

use pathfinding::kuhn_munkres::kuhn_munkres_min;
use pathfinding::matrix::Matrix;
use vstd::prelude::*;

verus! {

/// `pathfinding::matrix::Matrix`, a dense matrix stored by rows.
#[verifier::external_type_specification]
#[verifier::external_body]
#[verifier::reject_recursive_types(C)]
pub struct ExMatrix<C>(Matrix<C>);

/// The rows of a matrix from top to bottom, each with its cells from left to right.
pub uninterp spec fn matrix_cells(matrix: Matrix<i64>) -> Seq<Seq<i64>>;

/// The number of columns of a matrix: its field `columns`.
pub uninterp spec fn matrix_columns(matrix: Matrix<i64>) -> nat;

/// The assignment that `kuhn_munkres_min` returns for a weight matrix given by its rows.
pub uninterp spec fn kuhn_munkres_min_assignment(weights: Seq<Seq<i64>>) -> Seq<usize>;

/// Largest magnitude of a weight handed to the solver: the penalty for
/// different classes and the largest rewards for overlap and for momentum together.
pub const WEIGHT_LIMIT: i64 = 1_012_000;

/// Every row of `cells` has `columns` cells.
pub open spec fn rectangular(cells: Seq<Seq<i64>>, columns: nat) -> bool {
    forall|r: int| 0 <= r < cells.len() ==> (#[trigger] cells[r]).len() == columns
}

/// Every cell lies within `WEIGHT_LIMIT` of zero.
pub open spec fn weights_bounded(cells: Seq<Seq<i64>>) -> bool {
    forall|r: int, c: int|
        0 <= r < cells.len() && 0 <= c < cells[r].len() ==> -WEIGHT_LIMIT <= #[trigger] cells[r][c]
            <= WEIGHT_LIMIT
}

/// The cells of a matrix of `columns` columns after rows and columns changed places.
pub open spec fn transposed_cells(cells: Seq<Seq<i64>>, columns: nat) -> Seq<Seq<i64>> {
    Seq::new(columns, |c: int| Seq::new(cells.len(), |r: int| cells[r][c]))
}

/// `assignment` gives every one of `rows` rows a column below `columns`, no column twice.
pub open spec fn is_assignment(assignment: Seq<usize>, rows: nat, columns: nat) -> bool {
    &&& assignment.len() == rows
    &&& forall|i: int| 0 <= i < rows ==> (#[trigger] assignment[i]) < columns
    &&& forall|i: int, j: int|
        0 <= i < j < rows ==> (#[trigger] assignment[i]) != (#[trigger] assignment[j])
}

/// Sum of the weights that `assignment` picks, one in each of its rows.
pub open spec fn total_weight(cells: Seq<Seq<i64>>, assignment: Seq<usize>) -> int
    decreases assignment.len(),
{
    if assignment.len() == 0 {
        0
    } else {
        let last = assignment.len() - 1;
        total_weight(cells, assignment.drop_last()) + cells[last][assignment[last] as int]
    }
}

/// `assignment` is an assignment for `cells` and no other one weighs less.
pub open spec fn is_minimum_assignment(
    cells: Seq<Seq<i64>>,
    columns: nat,
    assignment: Seq<usize>,
) -> bool {
    &&& is_assignment(assignment, cells.len(), columns)
    &&& forall|other: Seq<usize>| #[trigger]
        is_assignment(other, cells.len(), columns) ==> total_weight(cells, assignment)
            <= total_weight(cells, other)
}

/// `Matrix::new`: a matrix of `rows` by `columns` cells that all hold `value`.
/// It panics when asked for rows without cells, and the cells must fit in memory.
#[verifier::external_body]
pub(crate) fn matrix_new(rows: usize, columns: usize, value: i64) -> (matrix: Matrix<i64>)
    requires
        rows == 0 || columns > 0,
        rows * columns * 8 <= isize::MAX,
    ensures
        matrix_cells(matrix) == Seq::new(
            rows as nat,
            |r: int| Seq::new(columns as nat, |c: int| value),
        ),
        matrix_columns(matrix) == columns,
{
    Matrix::new(rows, columns, value)
}

/// The field `rows` of a matrix: the number of its rows.
#[verifier::external_body]
pub(crate) fn matrix_row_count(matrix: &Matrix<i64>) -> (rows: usize)
    ensures
        rows == matrix_cells(*matrix).len(),
{
    matrix.rows
}

/// The field `columns` of a matrix: the number of cells in each of its rows.
#[verifier::external_body]
pub(crate) fn matrix_column_count(matrix: &Matrix<i64>) -> (columns: usize)
    ensures
        columns == matrix_columns(*matrix),
        rectangular(matrix_cells(*matrix), columns as nat),
{
    matrix.columns
}

/// Indexing a matrix by `(row, column)`: the cell at that place. It panics outside the matrix.
#[verifier::external_body]
pub(crate) fn matrix_get(matrix: &Matrix<i64>, row: usize, column: usize) -> (value: i64)
    requires
        row < matrix_cells(*matrix).len(),
        column < matrix_columns(*matrix),
    ensures
        value == matrix_cells(*matrix)[row as int][column as int],
{
    matrix[(row, column)]
}

/// Assigning through an index `(row, column)`: that cell now holds `value`, the others
/// are as before. It panics outside the matrix.
#[verifier::external_body]
pub(crate) fn matrix_set(matrix: &mut Matrix<i64>, row: usize, column: usize, value: i64)
    requires
        row < matrix_cells(*old(matrix)).len(),
        column < matrix_columns(*old(matrix)),
    ensures
        matrix_cells(*final(matrix)) == matrix_cells(*old(matrix)).update(
            row as int,
            matrix_cells(*old(matrix))[row as int].update(column as int, value),
        ),
        matrix_columns(*final(matrix)) == matrix_columns(*old(matrix)),
{
    matrix[(row, column)] = value;
}

/// `Clone::clone` of a matrix: the same size and the same cells.
#[verifier::external_body]
pub(crate) fn matrix_clone(matrix: &Matrix<i64>) -> (copy: Matrix<i64>)
    ensures
        matrix_cells(copy) == matrix_cells(*matrix),
        matrix_columns(copy) == matrix_columns(*matrix),
{
    matrix.clone()
}

/// `Matrix::transposed`: rows and columns change places. It panics where the
/// result would have rows without cells.
#[verifier::external_body]
pub(crate) fn matrix_transposed(matrix: &Matrix<i64>) -> (flipped: Matrix<i64>)
    requires
        matrix_cells(*matrix).len() != 0 || matrix_columns(*matrix) == 0,
    ensures
        matrix_cells(flipped) == transposed_cells(
            matrix_cells(*matrix),
            matrix_columns(*matrix),
        ),
        matrix_columns(flipped) == matrix_cells(*matrix).len(),
{
    matrix.transposed()
}

/// `kuhn_munkres_min`: a column for every row, no column twice, such that the
/// picked weights sum to the least possible total. It panics with more rows than
/// columns and where its sums leave `i64`; weights within `WEIGHT_LIMIT` of zero
/// in a matrix whose sides fit in 32 bits keep every label, slack and total inside.
#[verifier::external_body]
pub(crate) fn solve_assignment(weights: &Matrix<i64>) -> (assignment: Vec<usize>)
    requires
        matrix_cells(*weights).len() <= matrix_columns(*weights),
        matrix_columns(*weights) <= u32::MAX,
        rectangular(matrix_cells(*weights), matrix_columns(*weights)),
        weights_bounded(matrix_cells(*weights)),
    ensures
        assignment@ == kuhn_munkres_min_assignment(matrix_cells(*weights)),
        is_minimum_assignment(matrix_cells(*weights), matrix_columns(*weights), assignment@),
{
    kuhn_munkres_min(weights).1
}

} // verus!
