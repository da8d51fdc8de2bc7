//! The cost of pairing a detection with a tracker, and the matrices of such costs.

use crate::kalman_box_tracker::KalmanBoxTracker;
use crate::oc_sort_tracker::Detection;
use crate::weights::{
    matrix_cells, matrix_columns, matrix_get, matrix_new, matrix_set, rectangular,
};
use pathfinding::matrix::Matrix;
use vstd::prelude::*;

verus! {

/// Scale of the overlap costs: an intersection over union of one counts this much.
pub const IOU_MULTIPLIER: i64 = 10_000;

/// Cost of pairing a detection with a tracker of another class. It outweighs
/// anything that overlap and momentum can give.
pub const CLASS_PENALTY: i64 = 1_000_000;

/// Largest reward for a detection that lies in the direction in which a tracker moves.
pub const MOMENTUM_WEIGHT: i64 = 2_000;

/// An overlap cost as it enters a cost matrix: between `-IOU_MULTIPLIER`, for
/// boxes that coincide, and zero, for boxes that do not meet.
pub open spec fn iou_cost(raw: i64) -> i64 {
    if raw < -IOU_MULTIPLIER {
        (-IOU_MULTIPLIER) as i64
    } else if raw > 0 {
        0
    } else {
        raw
    }
}

/// A momentum cost as it enters a cost matrix: between `-MOMENTUM_WEIGHT`, for a
/// detection straight ahead, and zero, for one straight behind.
pub open spec fn momentum_cost(raw: i64) -> i64 {
    if raw < -MOMENTUM_WEIGHT {
        (-MOMENTUM_WEIGHT) as i64
    } else if raw > 0 {
        0
    } else {
        raw
    }
}

/// Nothing for equal classes, `CLASS_PENALTY` for different ones.
pub open spec fn class_cost(detection_class: u32, tracker_class: u32) -> i64 {
    if detection_class == tracker_class {
        0
    } else {
        CLASS_PENALTY
    }
}

/// Every index is below `bound`.
pub open spec fn in_range(indices: Seq<usize>, bound: nat) -> bool {
    forall|i: int| 0 <= i < indices.len() ==> (#[trigger] indices[i]) < bound
}

/// The classes of a list of detections.
pub open spec fn detection_classes(detections: Seq<Detection>) -> Seq<u32> {
    Seq::new(detections.len(), |i: int| detections[i].class)
}

/// The classes of a list of trackers.
pub open spec fn tracker_classes(trackers: Seq<KalmanBoxTracker>) -> Seq<u32> {
    Seq::new(trackers.len(), |i: int| trackers[i]@.class)
}

/// `cells` has `rows` rows of `columns` cells each.
pub open spec fn has_shape(cells: Seq<Seq<i64>>, rows: nat, columns: nat) -> bool {
    cells.len() == rows && rectangular(cells, columns)
}

/// Every cell lies between `low` and zero.
pub open spec fn cells_within(cells: Seq<Seq<i64>>, low: int) -> bool {
    forall|r: int, c: int|
        0 <= r < cells.len() && 0 <= c < cells[r].len() ==> low <= #[trigger] cells[r][c] <= 0
}

/// Overlap costs of the chosen detections, one row each, against the chosen
/// trackers, one column each, read from a table that holds a row for every
/// detection of the frame and a column for every live tracker.
pub open spec fn iou_costs(
    table: Seq<Seq<i64>>,
    detection_indices: Seq<usize>,
    tracker_indices: Seq<usize>,
) -> Seq<Seq<i64>> {
    Seq::new(
        detection_indices.len(),
        |a: int|
            Seq::new(
                tracker_indices.len(),
                |b: int| iou_cost(table[detection_indices[a] as int][tracker_indices[b] as int]),
            ),
    )
}

/// `cells` with the momentum cost of each pair added, read from a table laid
/// out as the one of the overlap costs.
pub open spec fn with_speed_costs(
    cells: Seq<Seq<i64>>,
    table: Seq<Seq<i64>>,
    detection_indices: Seq<usize>,
    tracker_indices: Seq<usize>,
) -> Seq<Seq<i64>> {
    Seq::new(
        detection_indices.len(),
        |a: int|
            Seq::new(
                tracker_indices.len(),
                |b: int|
                    (cells[a][b] + momentum_cost(
                        table[detection_indices[a] as int][tracker_indices[b] as int],
                    )) as i64,
            ),
    )
}

/// `cells` with the class cost of each pair added.
pub open spec fn with_class_costs(
    cells: Seq<Seq<i64>>,
    detection_classes: Seq<u32>,
    detection_indices: Seq<usize>,
    tracker_classes: Seq<u32>,
    tracker_indices: Seq<usize>,
) -> Seq<Seq<i64>> {
    Seq::new(
        detection_indices.len(),
        |a: int|
            Seq::new(
                tracker_indices.len(),
                |b: int|
                    (cells[a][b] + class_cost(
                        detection_classes[detection_indices[a] as int],
                        tracker_classes[tracker_indices[b] as int],
                    )) as i64,
            ),
    )
}

/// Brings an overlap cost into its range.
pub fn clamp_iou_cost(raw: i64) -> (cost: i64)
    ensures
        cost == iou_cost(raw),
{
    if raw < -IOU_MULTIPLIER {
        -IOU_MULTIPLIER
    } else if raw > 0 {
        0
    } else {
        raw
    }
}

/// Brings a momentum cost into its range.
pub fn clamp_momentum_cost(raw: i64) -> (cost: i64)
    ensures
        cost == momentum_cost(raw),
{
    if raw < -MOMENTUM_WEIGHT {
        -MOMENTUM_WEIGHT
    } else if raw > 0 {
        0
    } else {
        raw
    }
}

/// Builds the matrix of the overlap costs of the chosen detections and trackers.
pub(crate) fn calc_iou_cost_matrix(
    table: &Matrix<i64>,
    detection_indices: &[usize],
    tracker_indices: &[usize],
) -> (matrix: Matrix<i64>)
    requires
        detection_indices@.len() > 0,
        tracker_indices@.len() > 0,
        detection_indices@.len() * tracker_indices@.len() * 8 <= isize::MAX,
        in_range(detection_indices@, matrix_cells(*table).len()),
        in_range(tracker_indices@, matrix_columns(*table)),
    ensures
        matrix_cells(matrix) == iou_costs(
            matrix_cells(*table),
            detection_indices@,
            tracker_indices@,
        ),
        matrix_columns(matrix) == tracker_indices@.len(),
{
    let rows: usize = detection_indices.len();
    let columns: usize = tracker_indices.len();
    let mut matrix = matrix_new(rows, columns, 0);
    let ghost wanted = iou_costs(matrix_cells(*table), detection_indices@, tracker_indices@);
    let mut i: usize = 0;
    while i < rows
        invariant
            rows == detection_indices@.len(),
            columns == tracker_indices@.len(),
            0 <= i <= rows,
            in_range(detection_indices@, matrix_cells(*table).len()),
            in_range(tracker_indices@, matrix_columns(*table)),
            wanted == iou_costs(matrix_cells(*table), detection_indices@, tracker_indices@),
            matrix_columns(matrix) == columns,
            has_shape(matrix_cells(matrix), rows as nat, columns as nat),
            forall|a: int| 0 <= a < i ==> #[trigger] matrix_cells(matrix)[a] == wanted[a],
        decreases rows - i,
    {
        let mut j: usize = 0;
        while j < columns
            invariant
                rows == detection_indices@.len(),
                columns == tracker_indices@.len(),
                0 <= i < rows,
                0 <= j <= columns,
                in_range(detection_indices@, matrix_cells(*table).len()),
                in_range(tracker_indices@, matrix_columns(*table)),
                wanted == iou_costs(matrix_cells(*table), detection_indices@, tracker_indices@),
                matrix_columns(matrix) == columns,
                has_shape(matrix_cells(matrix), rows as nat, columns as nat),
                forall|a: int| 0 <= a < i ==> #[trigger] matrix_cells(matrix)[a] == wanted[a],
                forall|b: int|
                    0 <= b < j ==> #[trigger] matrix_cells(matrix)[i as int][b]
                        == wanted[i as int][b],
            decreases columns - j,
        {
            let raw = matrix_get(table, detection_indices[i], tracker_indices[j]);
            matrix_set(&mut matrix, i, j, clamp_iou_cost(raw));
            j += 1;
        }
        proof {
            assert(matrix_cells(matrix)[i as int] =~= wanted[i as int]);
        }
        i += 1;
    }
    proof {
        assert(matrix_cells(matrix) =~= wanted);
    }
    matrix
}

/// Adds to every cell the momentum cost of its pair.
pub(crate) fn add_speed_cost_matrix(
    table: &Matrix<i64>,
    detection_indices: &[usize],
    tracker_indices: &[usize],
    cost_matrix: &mut Matrix<i64>,
)
    requires
        has_shape(
            matrix_cells(*old(cost_matrix)),
            detection_indices@.len(),
            tracker_indices@.len(),
        ),
        matrix_columns(*old(cost_matrix)) == tracker_indices@.len(),
        cells_within(matrix_cells(*old(cost_matrix)), -IOU_MULTIPLIER as int),
        in_range(detection_indices@, matrix_cells(*table).len()),
        in_range(tracker_indices@, matrix_columns(*table)),
    ensures
        matrix_cells(*final(cost_matrix)) == with_speed_costs(
            matrix_cells(*old(cost_matrix)),
            matrix_cells(*table),
            detection_indices@,
            tracker_indices@,
        ),
        matrix_columns(*final(cost_matrix)) == tracker_indices@.len(),
{
    let rows: usize = detection_indices.len();
    let columns: usize = tracker_indices.len();
    let ghost before = matrix_cells(*cost_matrix);
    let ghost wanted = with_speed_costs(
        before,
        matrix_cells(*table),
        detection_indices@,
        tracker_indices@,
    );
    let mut i: usize = 0;
    while i < rows
        invariant
            rows == detection_indices@.len(),
            columns == tracker_indices@.len(),
            0 <= i <= rows,
            in_range(detection_indices@, matrix_cells(*table).len()),
            in_range(tracker_indices@, matrix_columns(*table)),
            has_shape(before, rows as nat, columns as nat),
            cells_within(before, -IOU_MULTIPLIER as int),
            wanted == with_speed_costs(
                before,
                matrix_cells(*table),
                detection_indices@,
                tracker_indices@,
            ),
            matrix_columns(*cost_matrix) == columns,
            has_shape(matrix_cells(*cost_matrix), rows as nat, columns as nat),
            forall|a: int| 0 <= a < i ==> #[trigger] matrix_cells(*cost_matrix)[a] == wanted[a],
            forall|a: int| i <= a < rows ==> #[trigger] matrix_cells(*cost_matrix)[a] == before[a],
        decreases rows - i,
    {
        let mut j: usize = 0;
        while j < columns
            invariant
                rows == detection_indices@.len(),
                columns == tracker_indices@.len(),
                0 <= i < rows,
                0 <= j <= columns,
                in_range(detection_indices@, matrix_cells(*table).len()),
                in_range(tracker_indices@, matrix_columns(*table)),
                has_shape(before, rows as nat, columns as nat),
                cells_within(before, -IOU_MULTIPLIER as int),
                wanted == with_speed_costs(
                    before,
                    matrix_cells(*table),
                    detection_indices@,
                    tracker_indices@,
                ),
                matrix_columns(*cost_matrix) == columns,
                has_shape(matrix_cells(*cost_matrix), rows as nat, columns as nat),
                forall|a: int|
                    0 <= a < i ==> #[trigger] matrix_cells(*cost_matrix)[a] == wanted[a],
                forall|a: int|
                    i < a < rows ==> #[trigger] matrix_cells(*cost_matrix)[a] == before[a],
                forall|b: int|
                    0 <= b < j ==> #[trigger] matrix_cells(*cost_matrix)[i as int][b]
                        == wanted[i as int][b],
                forall|b: int|
                    j <= b < columns ==> #[trigger] matrix_cells(*cost_matrix)[i as int][b]
                        == before[i as int][b],
            decreases columns - j,
        {
            let raw = matrix_get(table, detection_indices[i], tracker_indices[j]);
            let cell = matrix_get(cost_matrix, i, j);
            assert(cell == before[i as int][j as int]);
            matrix_set(cost_matrix, i, j, cell + clamp_momentum_cost(raw));
            j += 1;
        }
        proof {
            assert(matrix_cells(*cost_matrix)[i as int] =~= wanted[i as int]);
        }
        i += 1;
    }
    proof {
        assert(matrix_cells(*cost_matrix) =~= wanted);
    }
}

/// Adds to every cell the class cost of its pair.
pub(crate) fn add_class_cost_matrix(
    detections: &[Detection],
    detection_indices: &[usize],
    trackers: &[KalmanBoxTracker],
    tracker_indices: &[usize],
    cost_matrix: &mut Matrix<i64>,
)
    requires
        has_shape(
            matrix_cells(*old(cost_matrix)),
            detection_indices@.len(),
            tracker_indices@.len(),
        ),
        matrix_columns(*old(cost_matrix)) == tracker_indices@.len(),
        cells_within(matrix_cells(*old(cost_matrix)), -(IOU_MULTIPLIER + MOMENTUM_WEIGHT)),
        in_range(detection_indices@, detections@.len()),
        in_range(tracker_indices@, trackers@.len()),
    ensures
        matrix_cells(*final(cost_matrix)) == with_class_costs(
            matrix_cells(*old(cost_matrix)),
            detection_classes(detections@),
            detection_indices@,
            tracker_classes(trackers@),
            tracker_indices@,
        ),
        matrix_columns(*final(cost_matrix)) == tracker_indices@.len(),
{
    let rows: usize = detection_indices.len();
    let columns: usize = tracker_indices.len();
    let ghost before = matrix_cells(*cost_matrix);
    let ghost wanted = with_class_costs(
        before,
        detection_classes(detections@),
        detection_indices@,
        tracker_classes(trackers@),
        tracker_indices@,
    );
    let mut i: usize = 0;
    while i < rows
        invariant
            rows == detection_indices@.len(),
            columns == tracker_indices@.len(),
            0 <= i <= rows,
            in_range(detection_indices@, detections@.len()),
            in_range(tracker_indices@, trackers@.len()),
            has_shape(before, rows as nat, columns as nat),
            cells_within(before, -(IOU_MULTIPLIER + MOMENTUM_WEIGHT)),
            wanted == with_class_costs(
                before,
                detection_classes(detections@),
                detection_indices@,
                tracker_classes(trackers@),
                tracker_indices@,
            ),
            matrix_columns(*cost_matrix) == columns,
            has_shape(matrix_cells(*cost_matrix), rows as nat, columns as nat),
            forall|a: int| 0 <= a < i ==> #[trigger] matrix_cells(*cost_matrix)[a] == wanted[a],
            forall|a: int| i <= a < rows ==> #[trigger] matrix_cells(*cost_matrix)[a] == before[a],
        decreases rows - i,
    {
        let mut j: usize = 0;
        while j < columns
            invariant
                rows == detection_indices@.len(),
                columns == tracker_indices@.len(),
                0 <= i < rows,
                0 <= j <= columns,
                in_range(detection_indices@, detections@.len()),
                in_range(tracker_indices@, trackers@.len()),
                has_shape(before, rows as nat, columns as nat),
                cells_within(before, -(IOU_MULTIPLIER + MOMENTUM_WEIGHT)),
                wanted == with_class_costs(
                    before,
                    detection_classes(detections@),
                    detection_indices@,
                    tracker_classes(trackers@),
                    tracker_indices@,
                ),
                matrix_columns(*cost_matrix) == columns,
                has_shape(matrix_cells(*cost_matrix), rows as nat, columns as nat),
                forall|a: int|
                    0 <= a < i ==> #[trigger] matrix_cells(*cost_matrix)[a] == wanted[a],
                forall|a: int|
                    i < a < rows ==> #[trigger] matrix_cells(*cost_matrix)[a] == before[a],
                forall|b: int|
                    0 <= b < j ==> #[trigger] matrix_cells(*cost_matrix)[i as int][b]
                        == wanted[i as int][b],
                forall|b: int|
                    j <= b < columns ==> #[trigger] matrix_cells(*cost_matrix)[i as int][b]
                        == before[i as int][b],
            decreases columns - j,
        {
            let cost: i64 = if detections[detection_indices[i]].class
                == trackers[tracker_indices[j]].class() {
                0
            } else {
                CLASS_PENALTY
            };
            let cell = matrix_get(cost_matrix, i, j);
            assert(cell == before[i as int][j as int]);
            matrix_set(cost_matrix, i, j, cell + cost);
            j += 1;
        }
        proof {
            assert(matrix_cells(*cost_matrix)[i as int] =~= wanted[i as int]);
        }
        i += 1;
    }
    proof {
        assert(matrix_cells(*cost_matrix) =~= wanted);
    }
}

} // verus!
