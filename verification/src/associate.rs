//! Association of detections with trackers: which detection continues which track.

use crate::cost::{
    add_class_cost_matrix, add_speed_cost_matrix, calc_iou_cost_matrix, cells_within,
    detection_classes, has_shape, in_range, iou_costs, tracker_classes, with_class_costs,
    with_speed_costs, IOU_MULTIPLIER, MOMENTUM_WEIGHT,
};
use crate::kalman_box_tracker::KalmanBoxTracker;
use crate::oc_sort_tracker::Detection;
use crate::matching::lemma_association_rearranges;
use crate::sequences::{count_up, is_rearrangement, lemma_filter_map_next};
use crate::weights::{
    is_assignment, is_minimum_assignment, kuhn_munkres_min_assignment, matrix_cells,
    matrix_clone, matrix_column_count, matrix_columns, matrix_get, matrix_row_count,
    matrix_transposed, rectangular, solve_assignment, transposed_cells, weights_bounded,
};
use pathfinding::matrix::Matrix;
use vstd::prelude::*;

verus! {

/// What one round of association has to decide on.
pub struct Candidates {
    /// The class of every detection of the frame.
    pub detection_classes: Seq<u32>,
    /// The detections that take part, by their place in the frame.
    pub detection_indices: Seq<usize>,
    /// The class of every live tracker.
    pub tracker_classes: Seq<u32>,
    /// The trackers that take part, by their place among the live trackers.
    pub tracker_indices: Seq<usize>,
    /// Overlap cost of every taking part detection, one row each, with every
    /// taking part tracker, one column each.
    pub iou: Seq<Seq<i64>>,
    /// The overlap below which a pair is refused, on the scale of the overlap costs.
    pub iou_threshold: i64,
}

/// The outcome of one round of association.
pub struct Matching {
    /// Pairs of a detection and the tracker that it continues.
    pub matched: Seq<(usize, usize)>,
    /// The detections that found no tracker.
    pub unmatched_detections: Seq<usize>,
    /// The trackers that found no detection.
    pub unmatched_trackers: Seq<usize>,
}

/// The detections of a list of pairs.
pub open spec fn detections_of(pairs: Seq<(usize, usize)>) -> Seq<usize> {
    Seq::new(pairs.len(), |k: int| pairs[k].0)
}

/// The trackers of a list of pairs.
pub open spec fn trackers_of(pairs: Seq<(usize, usize)>) -> Seq<usize> {
    Seq::new(pairs.len(), |k: int| pairs[k].1)
}

impl Matching {
    /// The detections of the outcome: the matched ones, then the others.
    pub open spec fn detections(self) -> Seq<usize> {
        detections_of(self.matched) + self.unmatched_detections
    }

    /// The trackers of the outcome: the matched ones, then the others.
    pub open spec fn trackers(self) -> Seq<usize> {
        trackers_of(self.matched) + self.unmatched_trackers
    }
}

impl Candidates {
    /// The indices point into the lists they are meant for, and the overlap
    /// costs have a cell for every pair, each in its range.
    pub open spec fn valid(self) -> bool {
        &&& in_range(self.detection_indices, self.detection_classes.len())
        &&& in_range(self.tracker_indices, self.tracker_classes.len())
        &&& has_shape(self.iou, self.detection_indices.len(), self.tracker_indices.len())
        &&& cells_within(self.iou, -IOU_MULTIPLIER as int)
    }

    /// Number of rows of the weight matrix: the detections, or the trackers
    /// where the matrix is transposed.
    pub open spec fn rows(self, transposed: bool) -> nat {
        if transposed {
            self.tracker_indices.len()
        } else {
            self.detection_indices.len()
        }
    }

    /// Number of columns of the weight matrix.
    pub open spec fn columns(self, transposed: bool) -> nat {
        if transposed {
            self.detection_indices.len()
        } else {
            self.tracker_indices.len()
        }
    }

    /// Place, among the taking part detections, of the one that row `i` pairs up.
    pub open spec fn detection_place(self, assignment: Seq<usize>, transposed: bool, i: int) -> int {
        if transposed {
            assignment[i] as int
        } else {
            i
        }
    }

    /// Place, among the taking part trackers, of the one that row `i` pairs up.
    pub open spec fn tracker_place(self, assignment: Seq<usize>, transposed: bool, i: int) -> int {
        if transposed {
            i
        } else {
            assignment[i] as int
        }
    }

    /// The detection that row `i` pairs up.
    pub open spec fn detection_in_row(
        self,
        assignment: Seq<usize>,
        transposed: bool,
    ) -> spec_fn(int) -> usize {
        |i: int| self.detection_indices[self.detection_place(assignment, transposed, i)]
    }

    /// The tracker that row `i` pairs up.
    pub open spec fn tracker_in_row(
        self,
        assignment: Seq<usize>,
        transposed: bool,
    ) -> spec_fn(int) -> usize {
        |i: int| self.tracker_indices[self.tracker_place(assignment, transposed, i)]
    }

    /// The pair that row `i` makes: detection first, tracker second.
    pub open spec fn pair_in_row(
        self,
        assignment: Seq<usize>,
        transposed: bool,
    ) -> spec_fn(int) -> (usize, usize) {
        |i: int|
            (
                self.detection_in_row(assignment, transposed)(i),
                self.tracker_in_row(assignment, transposed)(i),
            )
    }

    /// The pair of row `i` is accepted: the two overlap by the threshold
    /// at least, and they are of one class.
    pub open spec fn accepted(self, assignment: Seq<usize>, transposed: bool, i: int) -> bool {
        &&& -self.iou[self.detection_place(assignment, transposed, i)][self.tracker_place(
            assignment,
            transposed,
            i,
        )] >= self.iou_threshold
        &&& self.detection_classes[self.detection_in_row(assignment, transposed)(i) as int]
            == self.tracker_classes[self.tracker_in_row(assignment, transposed)(i) as int]
    }

    /// The rows whose pair is accepted.
    pub open spec fn accepts(self, assignment: Seq<usize>, transposed: bool) -> spec_fn(
        int,
    ) -> bool {
        |i: int| self.accepted(assignment, transposed, i)
    }

    /// The rows whose pair is refused.
    pub open spec fn rejects(self, assignment: Seq<usize>, transposed: bool) -> spec_fn(
        int,
    ) -> bool {
        |i: int| !self.accepted(assignment, transposed, i)
    }

    /// The columns that the assignment gives to no row.
    pub open spec fn is_free(self, assignment: Seq<usize>) -> spec_fn(int) -> bool {
        |c: int| !assignment.contains(c as usize)
    }

    /// The detection at a place among those taking part.
    pub open spec fn detection_of(self) -> spec_fn(int) -> usize {
        |c: int| self.detection_indices[c]
    }

    /// The tracker at a place among those taking part.
    pub open spec fn tracker_of(self) -> spec_fn(int) -> usize {
        |c: int| self.tracker_indices[c]
    }

    /// The columns without a row, in rising order.
    pub open spec fn free_columns(self, assignment: Seq<usize>, transposed: bool) -> Seq<int> {
        count_up(self.columns(transposed)).filter(self.is_free(assignment))
    }

    /// What an assignment of the rows of the weight matrix to its columns
    /// comes to. Rows stand for detections and columns for trackers, or the
    /// other way round where the matrix is transposed. An accepted pair is a
    /// match. The two of a refused pair are unmatched, and so is whatever
    /// stands at a column without a row; those come first.
    pub open spec fn resolve(self, assignment: Seq<usize>, transposed: bool) -> Matching {
        let rows = count_up(assignment.len());
        let rejected = rows.filter(self.rejects(assignment, transposed));
        let free = self.free_columns(assignment, transposed);
        Matching {
            matched: rows.filter(self.accepts(assignment, transposed)).map_values(
                self.pair_in_row(assignment, transposed),
            ),
            unmatched_detections: if transposed {
                free.map_values(self.detection_of()) + rejected.map_values(
                    self.detection_in_row(assignment, transposed),
                )
            } else {
                rejected.map_values(self.detection_in_row(assignment, transposed))
            },
            unmatched_trackers: if transposed {
                rejected.map_values(self.tracker_in_row(assignment, transposed))
            } else {
                free.map_values(self.tracker_of()) + rejected.map_values(
                    self.tracker_in_row(assignment, transposed),
                )
            },
        }
    }
}

/// The weights handed to the solver, which wants no more rows than columns: the
/// costs as they are, or with rows and columns exchanged where the detections
/// outnumber the trackers.
pub open spec fn solver_weights(cost: Seq<Seq<i64>>, columns: nat) -> Seq<Seq<i64>> {
    if cost.len() > columns {
        transposed_cells(cost, columns)
    } else {
        cost
    }
}

impl Candidates {
    /// Whether the detections outnumber the trackers.
    pub open spec fn outnumbered(self) -> bool {
        self.detection_indices.len() > self.tracker_indices.len()
    }

    /// The assignment that the solver finds for the costs `cost`.
    pub open spec fn solution(self, cost: Seq<Seq<i64>>) -> Seq<usize> {
        kuhn_munkres_min_assignment(solver_weights(cost, self.tracker_indices.len()))
    }

    /// The outcome of a round with the costs `cost`: what the solver's
    /// assignment comes to.
    pub open spec fn matching(self, cost: Seq<Seq<i64>>) -> Matching {
        self.resolve(self.solution(cost), self.outnumbered())
    }
}

/// The costs of a round: overlap, momentum where a table of it is given, and class.
pub open spec fn round_costs(
    detection_classes: Seq<u32>,
    detection_indices: Seq<usize>,
    tracker_classes: Seq<u32>,
    tracker_indices: Seq<usize>,
    iou_table: Seq<Seq<i64>>,
    momentum_table: Option<Seq<Seq<i64>>>,
) -> Seq<Seq<i64>> {
    let overlap = iou_costs(iou_table, detection_indices, tracker_indices);
    with_class_costs(
        match momentum_table {
            Some(table) => with_speed_costs(overlap, table, detection_indices, tracker_indices),
            None => overlap,
        },
        detection_classes,
        detection_indices,
        tracker_classes,
        tracker_indices,
    )
}

/// The candidates of a round that reads its overlap costs from a table with a
/// row for every detection of the frame and a column for every live tracker.
pub open spec fn round_candidates(
    detection_classes: Seq<u32>,
    detection_indices: Seq<usize>,
    tracker_classes: Seq<u32>,
    tracker_indices: Seq<usize>,
    iou_table: Seq<Seq<i64>>,
    iou_threshold: i64,
) -> Candidates {
    Candidates {
        detection_classes,
        detection_indices,
        tracker_classes,
        tracker_indices,
        iou: iou_costs(iou_table, detection_indices, tracker_indices),
        iou_threshold,
    }
}

/// The outcome of a round of association. With nobody on one side, everybody
/// on the other is left over; else the solver pairs them up at the least total
/// cost, and each pair is accepted or refused.
pub open spec fn association(
    detection_classes: Seq<u32>,
    detection_indices: Seq<usize>,
    tracker_classes: Seq<u32>,
    tracker_indices: Seq<usize>,
    iou_table: Seq<Seq<i64>>,
    momentum_table: Option<Seq<Seq<i64>>>,
    iou_threshold: i64,
) -> Matching {
    if detection_indices.len() == 0 || tracker_indices.len() == 0 {
        Matching {
            matched: Seq::empty(),
            unmatched_detections: detection_indices,
            unmatched_trackers: tracker_indices,
        }
    } else {
        round_candidates(
            detection_classes,
            detection_indices,
            tracker_classes,
            tracker_indices,
            iou_table,
            iou_threshold,
        ).matching(
            round_costs(
                detection_classes,
                detection_indices,
                tracker_classes,
                tracker_indices,
                iou_table,
                momentum_table,
            ),
        )
    }
}

/// The cells of a table that may be left out.
pub open spec fn table_cells(table: Option<&Matrix<i64>>) -> Option<Seq<Seq<i64>>> {
    match table {
        Some(table) => Some(matrix_cells(*table)),
        None => None,
    }
}

/// A table has a row for each of `rows` detections and a column for each of
/// `columns` trackers.
pub open spec fn table_covers(table: Matrix<i64>, rows: nat, columns: nat) -> bool {
    matrix_cells(table).len() == rows && matrix_columns(table) == columns
}

/// What the machine asks of a round: the weight matrix fits in memory, and
/// its sides fit in 32 bits.
pub open spec fn round_fits(detections: nat, trackers: nat) -> bool {
    &&& detections * trackers * 8 <= isize::MAX
    &&& detections <= u32::MAX
    &&& trackers <= u32::MAX
}

/// The solver's assignment for the costs `cost` of `detections` detections and
/// `trackers` trackers gives every row of its weight matrix a column of its own,
/// and no such assignment has a smaller total.
pub open spec fn solution_is_minimal(cost: Seq<Seq<i64>>, detections: nat, trackers: nat) -> bool {
    is_minimum_assignment(
        solver_weights(cost, trackers),
        if detections > trackers {
            detections
        } else {
            trackers
        },
        kuhn_munkres_min_assignment(solver_weights(cost, trackers)),
    )
}

/// The candidates of a round, as the executable functions are given them.
pub open spec fn candidates_of(
    detections: Seq<Detection>,
    detection_indices: Seq<usize>,
    trackers: Seq<KalmanBoxTracker>,
    tracker_indices: Seq<usize>,
    iou: Seq<Seq<i64>>,
    iou_threshold: i64,
) -> Candidates {
    Candidates {
        detection_classes: detection_classes(detections),
        detection_indices,
        tracker_classes: tracker_classes(trackers),
        tracker_indices,
        iou,
        iou_threshold,
    }
}

/// Marks the columns that an assignment uses.
fn mark_assigned(assignment: &[usize], columns: usize) -> (taken: Vec<bool>)
    requires
        forall|i: int| 0 <= i < assignment@.len() ==> (#[trigger] assignment@[i]) < columns,
    ensures
        taken@.len() == columns,
        forall|c: int| 0 <= c < columns ==> taken@[c] == assignment@.contains(c as usize),
{
    let mut taken: Vec<bool> = Vec::new();
    let mut c: usize = 0;
    while c < columns
        invariant
            0 <= c <= columns,
            taken@.len() == c,
            forall|k: int| 0 <= k < c ==> !(#[trigger] taken@[k]),
        decreases columns - c,
    {
        taken.push(false);
        c += 1;
    }
    let mut i: usize = 0;
    while i < assignment.len()
        invariant
            0 <= i <= assignment@.len(),
            taken@.len() == columns,
            forall|k: int| 0 <= k < assignment@.len() ==> (#[trigger] assignment@[k]) < columns,
            forall|k: int|
                0 <= k < columns ==> (#[trigger] taken@[k]) == assignment@.take(i as int).contains(
                    k as usize,
                ),
        decreases assignment@.len() - i,
    {
        let ghost before = taken@;
        taken.set(assignment[i], true);
        proof {
            let head = assignment@.take(i as int);
            let next = assignment@.take(i + 1);
            assert(next =~= head.push(assignment@[i as int]));
            assert forall|k: int| 0 <= k < columns implies (#[trigger] taken@[k])
                == next.contains(k as usize) by {
                if k == assignment@[i as int] {
                    assert(next[i as int] == k as usize);
                } else {
                    if head.contains(k as usize) {
                        let w = choose|w: int| 0 <= w < head.len() && head[w] == k as usize;
                        assert(next[w] == k as usize);
                    }
                    if next.contains(k as usize) {
                        let w = choose|w: int| 0 <= w < next.len() && next[w] == k as usize;
                        assert(w < i);
                        assert(head[w] == k as usize);
                    }
                }
            }
        }
        i += 1;
    }
    proof {
        assert(assignment@.take(assignment@.len() as int) =~= assignment@);
    }
    taken
}

/// Turns an assignment of the rows of a weight matrix to its columns into
/// matches and leftovers: see [`Candidates::resolve`].
///
/// ## Args
///  - assignment: The column of every row.
///  - transposed: Whether rows stand for trackers and columns for detections.
///  - detections: Reference to all detections.
///  - detection_indices: The indices of the detections that took part.
///  - trackers: Reference to all trackers.
///  - tracker_indices: The indices of the trackers that took part.
///  - iou_matrix: The overlap costs, detections by trackers.
///  - iou_threshold: The minimum overlap needed for a valid association.
pub fn resolve_assignment(
    assignment: &[usize],
    transposed: bool,
    detections: &[Detection],
    detection_indices: &[usize],
    trackers: &[KalmanBoxTracker],
    tracker_indices: &[usize],
    iou_matrix: &Matrix<i64>,
    iou_threshold: i64,
) -> (result: (Vec<(usize, usize)>, Vec<usize>, Vec<usize>))
    requires
        candidates_of(
            detections@,
            detection_indices@,
            trackers@,
            tracker_indices@,
            matrix_cells(*iou_matrix),
            iou_threshold,
        ).valid(),
        matrix_columns(*iou_matrix) == tracker_indices@.len(),
        is_assignment(
            assignment@,
            candidates_of(
                detections@,
                detection_indices@,
                trackers@,
                tracker_indices@,
                matrix_cells(*iou_matrix),
                iou_threshold,
            ).rows(transposed),
            candidates_of(
                detections@,
                detection_indices@,
                trackers@,
                tracker_indices@,
                matrix_cells(*iou_matrix),
                iou_threshold,
            ).columns(transposed),
        ),
    ensures
        result.0@ == candidates_of(
            detections@,
            detection_indices@,
            trackers@,
            tracker_indices@,
            matrix_cells(*iou_matrix),
            iou_threshold,
        ).resolve(assignment@, transposed).matched,
        result.1@ == candidates_of(
            detections@,
            detection_indices@,
            trackers@,
            tracker_indices@,
            matrix_cells(*iou_matrix),
            iou_threshold,
        ).resolve(assignment@, transposed).unmatched_detections,
        result.2@ == candidates_of(
            detections@,
            detection_indices@,
            trackers@,
            tracker_indices@,
            matrix_cells(*iou_matrix),
            iou_threshold,
        ).resolve(assignment@, transposed).unmatched_trackers,
{
    let ghost candidates = candidates_of(
        detections@,
        detection_indices@,
        trackers@,
        tracker_indices@,
        matrix_cells(*iou_matrix),
        iou_threshold,
    );
    let columns: usize = if transposed {
        detection_indices.len()
    } else {
        tracker_indices.len()
    };
    let taken = mark_assigned(assignment, columns);
    let mut unmatched_detections: Vec<usize> = Vec::new();
    let mut unmatched_trackers: Vec<usize> = Vec::new();
    let ghost all_columns = count_up(columns as nat);
    let mut c: usize = 0;
    while c < columns
        invariant
            0 <= c <= columns,
            columns == candidates.columns(transposed),
            candidates.detection_indices == detection_indices@,
            candidates.tracker_indices == tracker_indices@,
            all_columns == count_up(columns as nat),
            taken@.len() == columns,
            forall|k: int| 0 <= k < columns ==> taken@[k] == assignment@.contains(k as usize),
            transposed ==> unmatched_detections@ == all_columns.take(c as int).filter(
                candidates.is_free(assignment@),
            ).map_values(candidates.detection_of()) && unmatched_trackers@ == Seq::<
                usize,
            >::empty(),
            !transposed ==> unmatched_trackers@ == all_columns.take(c as int).filter(
                candidates.is_free(assignment@),
            ).map_values(candidates.tracker_of()) && unmatched_detections@ == Seq::<
                usize,
            >::empty(),
        decreases columns - c,
    {
        proof {
            lemma_filter_map_next(
                all_columns,
                c as int,
                candidates.is_free(assignment@),
                candidates.detection_of(),
            );
            lemma_filter_map_next(
                all_columns,
                c as int,
                candidates.is_free(assignment@),
                candidates.tracker_of(),
            );
        }
        if !taken[c] {
            if transposed {
                unmatched_detections.push(detection_indices[c]);
            } else {
                unmatched_trackers.push(tracker_indices[c]);
            }
        }
        c += 1;
    }
    let ghost free_detections = unmatched_detections@;
    let ghost free_trackers = unmatched_trackers@;
    let ghost all_rows = count_up(assignment@.len());
    proof {
        assert(all_columns.take(columns as int) =~= all_columns);
        assert(all_columns.filter(candidates.is_free(assignment@)) == candidates.free_columns(
            assignment@,
            transposed,
        ));
    }
    let mut matched: Vec<(usize, usize)> = Vec::new();
    let mut i: usize = 0;
    while i < assignment.len()
        invariant
            0 <= i <= assignment@.len(),
            candidates == candidates_of(
                detections@,
                detection_indices@,
                trackers@,
                tracker_indices@,
                matrix_cells(*iou_matrix),
                iou_threshold,
            ),
            candidates.valid(),
            matrix_columns(*iou_matrix) == tracker_indices@.len(),
            is_assignment(
                assignment@,
                candidates.rows(transposed),
                candidates.columns(transposed),
            ),
            all_rows == count_up(assignment@.len()),
            matched@ == all_rows.take(i as int).filter(
                candidates.accepts(assignment@, transposed),
            ).map_values(candidates.pair_in_row(assignment@, transposed)),
            unmatched_detections@ == free_detections + all_rows.take(i as int).filter(
                candidates.rejects(assignment@, transposed),
            ).map_values(candidates.detection_in_row(assignment@, transposed)),
            unmatched_trackers@ == free_trackers + all_rows.take(i as int).filter(
                candidates.rejects(assignment@, transposed),
            ).map_values(candidates.tracker_in_row(assignment@, transposed)),
        decreases assignment@.len() - i,
    {
        let j: usize = assignment[i];
        let (detection_place, tracker_place) = if transposed {
            (j, i)
        } else {
            (i, j)
        };
        let detection_index: usize = detection_indices[detection_place];
        let tracker_index: usize = tracker_indices[tracker_place];
        let overlap_cost: i64 = matrix_get(iou_matrix, detection_place, tracker_place);
        let invalid_iou = -overlap_cost < iou_threshold;
        let invalid_class = detections[detection_index].class != trackers[tracker_index].class();
        proof {
            lemma_filter_map_next(
                all_rows,
                i as int,
                candidates.accepts(assignment@, transposed),
                candidates.pair_in_row(assignment@, transposed),
            );
            lemma_filter_map_next(
                all_rows,
                i as int,
                candidates.rejects(assignment@, transposed),
                candidates.detection_in_row(assignment@, transposed),
            );
            lemma_filter_map_next(
                all_rows,
                i as int,
                candidates.rejects(assignment@, transposed),
                candidates.tracker_in_row(assignment@, transposed),
            );
            assert(candidates.accepted(assignment@, transposed, i as int) == !(invalid_iou
                || invalid_class));
        }
        if invalid_iou || invalid_class {
            let ghost rejected = all_rows.take(i as int).filter(
                candidates.rejects(assignment@, transposed),
            );
            unmatched_detections.push(detection_index);
            unmatched_trackers.push(tracker_index);
            proof {
                assert(unmatched_detections@ =~= free_detections + rejected.map_values(
                    candidates.detection_in_row(assignment@, transposed),
                ).push(detection_index));
                assert(unmatched_trackers@ =~= free_trackers + rejected.map_values(
                    candidates.tracker_in_row(assignment@, transposed),
                ).push(tracker_index));
            }
        } else {
            matched.push((detection_index, tracker_index));
        }
        i += 1;
    }
    proof {
        assert(all_rows.take(assignment@.len() as int) =~= all_rows);
        let outcome = candidates.resolve(assignment@, transposed);
        assert(unmatched_detections@ =~= outcome.unmatched_detections);
        assert(unmatched_trackers@ =~= outcome.unmatched_trackers);
    }
    (matched, unmatched_detections, unmatched_trackers)
}

/// A copy of a list of indices.
fn copy_indices(indices: &[usize]) -> (copy: Vec<usize>)
    ensures
        copy@ == indices@,
{
    let mut copy: Vec<usize> = Vec::new();
    let mut i: usize = 0;
    while i < indices.len()
        invariant
            0 <= i <= indices@.len(),
            copy@ == indices@.take(i as int),
        decreases indices@.len() - i,
    {
        copy.push(indices[i]);
        proof {
            assert(indices@.take(i + 1) =~= indices@.take(i as int).push(indices@[i as int]));
        }
        i += 1;
    }
    proof {
        assert(indices@.take(indices@.len() as int) =~= indices@);
    }
    copy
}

/// Solves the assignment problem of a cost matrix and sorts the pairs of the
/// solution into matches and leftovers.
pub(crate) fn calculate_matching(
    detections: &[Detection],
    detection_indices: &[usize],
    trackers: &[KalmanBoxTracker],
    tracker_indices: &[usize],
    cost_matrix: &Matrix<i64>,
    iou_matrix: &Matrix<i64>,
    iou_threshold: i64,
) -> (result: (Vec<(usize, usize)>, Vec<usize>, Vec<usize>))
    requires
        detection_indices@.len() > 0,
        tracker_indices@.len() > 0,
        detection_indices@.len() <= u32::MAX,
        tracker_indices@.len() <= u32::MAX,
        candidates_of(
            detections@,
            detection_indices@,
            trackers@,
            tracker_indices@,
            matrix_cells(*iou_matrix),
            iou_threshold,
        ).valid(),
        matrix_columns(*iou_matrix) == tracker_indices@.len(),
        has_shape(
            matrix_cells(*cost_matrix),
            detection_indices@.len(),
            tracker_indices@.len(),
        ),
        matrix_columns(*cost_matrix) == tracker_indices@.len(),
        weights_bounded(matrix_cells(*cost_matrix)),
    ensures
        result.0@ == candidates_of(
            detections@,
            detection_indices@,
            trackers@,
            tracker_indices@,
            matrix_cells(*iou_matrix),
            iou_threshold,
        ).matching(matrix_cells(*cost_matrix)).matched,
        result.1@ == candidates_of(
            detections@,
            detection_indices@,
            trackers@,
            tracker_indices@,
            matrix_cells(*iou_matrix),
            iou_threshold,
        ).matching(matrix_cells(*cost_matrix)).unmatched_detections,
        result.2@ == candidates_of(
            detections@,
            detection_indices@,
            trackers@,
            tracker_indices@,
            matrix_cells(*iou_matrix),
            iou_threshold,
        ).matching(matrix_cells(*cost_matrix)).unmatched_trackers,
        solution_is_minimal(
            matrix_cells(*cost_matrix),
            detection_indices@.len(),
            tracker_indices@.len(),
        ),
{
    let rows: usize = matrix_row_count(cost_matrix);
    let columns: usize = matrix_column_count(cost_matrix);
    let transpose = rows > columns;
    let assignment_vector = if transpose {
        let weights = matrix_transposed(cost_matrix);
        proof {
            let cells = matrix_cells(weights);
            assert(rectangular(cells, rows as nat));
            assert(weights_bounded(cells));
        }
        solve_assignment(&weights)
    } else {
        solve_assignment(cost_matrix)
    };
    resolve_assignment(
        assignment_vector.as_slice(),
        transpose,
        detections,
        detection_indices,
        trackers,
        tracker_indices,
        iou_matrix,
        iou_threshold,
    )
}

/// One round of association: see [`association`].
fn associate_round(
    detections: &[Detection],
    detection_indices: &[usize],
    trackers: &[KalmanBoxTracker],
    tracker_indices: &[usize],
    iou_threshold: i64,
    iou_table: &Matrix<i64>,
    momentum_table: Option<&Matrix<i64>>,
) -> (result: (Vec<(usize, usize)>, Vec<usize>, Vec<usize>))
    requires
        in_range(detection_indices@, detections@.len()),
        in_range(tracker_indices@, trackers@.len()),
        round_fits(detection_indices@.len(), tracker_indices@.len()),
        detection_indices@.len() > 0 && tracker_indices@.len() > 0 ==> table_covers(
            *iou_table,
            detections@.len(),
            trackers@.len(),
        ),
        detection_indices@.len() > 0 && tracker_indices@.len() > 0 ==> match momentum_table {
            Some(table) => table_covers(*table, detections@.len(), trackers@.len()),
            None => true,
        },
    ensures
        result.0@ == association(
            detection_classes(detections@),
            detection_indices@,
            tracker_classes(trackers@),
            tracker_indices@,
            matrix_cells(*iou_table),
            table_cells(momentum_table),
            iou_threshold,
        ).matched,
        result.1@ == association(
            detection_classes(detections@),
            detection_indices@,
            tracker_classes(trackers@),
            tracker_indices@,
            matrix_cells(*iou_table),
            table_cells(momentum_table),
            iou_threshold,
        ).unmatched_detections,
        result.2@ == association(
            detection_classes(detections@),
            detection_indices@,
            tracker_classes(trackers@),
            tracker_indices@,
            matrix_cells(*iou_table),
            table_cells(momentum_table),
            iou_threshold,
        ).unmatched_trackers,
        detection_indices@.len() > 0 && tracker_indices@.len() > 0 ==> solution_is_minimal(
            round_costs(
                detection_classes(detections@),
                detection_indices@,
                tracker_classes(trackers@),
                tracker_indices@,
                matrix_cells(*iou_table),
                table_cells(momentum_table),
            ),
            detection_indices@.len(),
            tracker_indices@.len(),
        ),
        is_rearrangement(detections_of(result.0@) + result.1@, detection_indices@),
        is_rearrangement(trackers_of(result.0@) + result.2@, tracker_indices@),
{
    proof {
        if detection_indices@.len() == 0 || tracker_indices@.len() == 0 {
            lemma_association_rearranges(
                detection_classes(detections@),
                detection_indices@,
                tracker_classes(trackers@),
                tracker_indices@,
                matrix_cells(*iou_table),
                table_cells(momentum_table),
                iou_threshold,
            );
        }
    }
    if detection_indices.is_empty() || tracker_indices.is_empty() {
        return (Vec::new(), copy_indices(detection_indices), copy_indices(tracker_indices));
    }
    let iou_matrix = calc_iou_cost_matrix(iou_table, detection_indices, tracker_indices);
    let mut cost_matrix = matrix_clone(&iou_matrix);
    proof {
        assert(has_shape(
            matrix_cells(iou_matrix),
            detection_indices@.len(),
            tracker_indices@.len(),
        ));
        assert(cells_within(matrix_cells(iou_matrix), -IOU_MULTIPLIER as int));
    }
    match momentum_table {
        Some(table) => {
            add_speed_cost_matrix(table, detection_indices, tracker_indices, &mut cost_matrix);
        },
        None => {},
    }
    proof {
        assert(cells_within(matrix_cells(cost_matrix), -(IOU_MULTIPLIER + MOMENTUM_WEIGHT)));
    }
    add_class_cost_matrix(
        detections,
        detection_indices,
        trackers,
        tracker_indices,
        &mut cost_matrix,
    );
    proof {
        assert(weights_bounded(matrix_cells(cost_matrix)));
        assert(candidates_of(
            detections@,
            detection_indices@,
            trackers@,
            tracker_indices@,
            matrix_cells(iou_matrix),
            iou_threshold,
        ) == round_candidates(
            detection_classes(detections@),
            detection_indices@,
            tracker_classes(trackers@),
            tracker_indices@,
            matrix_cells(*iou_table),
            iou_threshold,
        ));
    }
    let result = calculate_matching(
        detections,
        detection_indices,
        trackers,
        tracker_indices,
        &cost_matrix,
        &iou_matrix,
        iou_threshold,
    );
    proof {
        lemma_association_rearranges(
            detection_classes(detections@),
            detection_indices@,
            tracker_classes(trackers@),
            tracker_indices@,
            matrix_cells(*iou_table),
            table_cells(momentum_table),
            iou_threshold,
        );
    }
    result
}

/// Associates the given detections to the given trackers.
///
/// ## Args
///  - detections: Reference to all detections
///  - detection_indices: The indices of the detections available for association.
///  - trackers: Reference to all trackers.
///  - tracker_indices: The indices of the trackers available for association.
///  - iou_threshold: The minimum iou score needed for a valid association, on
///    the scale of the overlap costs.
///  - iou_table: For every detection and every tracker, the overlap cost of the
///    detection's box with the box that the tracker predicts.
///  - momentum_table: For every detection and every tracker, the momentum cost
///    of the step from the tracker's earlier observation to the detection.
///
/// Takes into account iou scores, observation centric momentum
/// and class similarity.
pub fn associate_detections_to_trackers(
    detections: &[Detection],
    detection_indices: &[usize],
    trackers: &[KalmanBoxTracker],
    tracker_indices: &[usize],
    iou_threshold: i64,
    iou_table: &Matrix<i64>,
    momentum_table: &Matrix<i64>,
) -> (result: (Vec<(usize, usize)>, Vec<usize>, Vec<usize>))
    requires
        in_range(detection_indices@, detections@.len()),
        in_range(tracker_indices@, trackers@.len()),
        round_fits(detection_indices@.len(), tracker_indices@.len()),
        detection_indices@.len() > 0 && tracker_indices@.len() > 0 ==> table_covers(
            *iou_table,
            detections@.len(),
            trackers@.len(),
        ),
        detection_indices@.len() > 0 && tracker_indices@.len() > 0 ==> table_covers(
            *momentum_table,
            detections@.len(),
            trackers@.len(),
        ),
    ensures
        result.0@ == association(
            detection_classes(detections@),
            detection_indices@,
            tracker_classes(trackers@),
            tracker_indices@,
            matrix_cells(*iou_table),
            Some(matrix_cells(*momentum_table)),
            iou_threshold,
        ).matched,
        result.1@ == association(
            detection_classes(detections@),
            detection_indices@,
            tracker_classes(trackers@),
            tracker_indices@,
            matrix_cells(*iou_table),
            Some(matrix_cells(*momentum_table)),
            iou_threshold,
        ).unmatched_detections,
        result.2@ == association(
            detection_classes(detections@),
            detection_indices@,
            tracker_classes(trackers@),
            tracker_indices@,
            matrix_cells(*iou_table),
            Some(matrix_cells(*momentum_table)),
            iou_threshold,
        ).unmatched_trackers,
        detection_indices@.len() > 0 && tracker_indices@.len() > 0 ==> solution_is_minimal(
            round_costs(
                detection_classes(detections@),
                detection_indices@,
                tracker_classes(trackers@),
                tracker_indices@,
                matrix_cells(*iou_table),
                Some(matrix_cells(*momentum_table)),
            ),
            detection_indices@.len(),
            tracker_indices@.len(),
        ),
        is_rearrangement(detections_of(result.0@) + result.1@, detection_indices@),
        is_rearrangement(trackers_of(result.0@) + result.2@, tracker_indices@),
{
    associate_round(
        detections,
        detection_indices,
        trackers,
        tracker_indices,
        iou_threshold,
        iou_table,
        Some(momentum_table),
    )
}

/// Runs BYTE association, i.e, associates the low score detections to the current
/// position of the trackers by only considering iou and class similarity.
///
/// ## Args
///  - detections: Reference to all detections.
///  - detection_indices: The indices of detections with a low score.
///  - trackers: Reference to all trackers.
///  - tracker_indices: The indices of trackers available for association.
///  - iou_threshold: The minimum iou score needed for a valid association, on
///    the scale of the overlap costs.
///  - iou_table: For every detection and every tracker, the overlap cost of the
///    detection's box with the box that the tracker predicts.
pub fn byte_associate(
    detections: &[Detection],
    detection_indices: &[usize],
    trackers: &[KalmanBoxTracker],
    tracker_indices: &[usize],
    iou_threshold: i64,
    iou_table: &Matrix<i64>,
) -> (result: (Vec<(usize, usize)>, Vec<usize>, Vec<usize>))
    requires
        in_range(detection_indices@, detections@.len()),
        in_range(tracker_indices@, trackers@.len()),
        round_fits(detection_indices@.len(), tracker_indices@.len()),
        detection_indices@.len() > 0 && tracker_indices@.len() > 0 ==> table_covers(
            *iou_table,
            detections@.len(),
            trackers@.len(),
        ),
    ensures
        result.0@ == association(
            detection_classes(detections@),
            detection_indices@,
            tracker_classes(trackers@),
            tracker_indices@,
            matrix_cells(*iou_table),
            None,
            iou_threshold,
        ).matched,
        result.1@ == association(
            detection_classes(detections@),
            detection_indices@,
            tracker_classes(trackers@),
            tracker_indices@,
            matrix_cells(*iou_table),
            None,
            iou_threshold,
        ).unmatched_detections,
        result.2@ == association(
            detection_classes(detections@),
            detection_indices@,
            tracker_classes(trackers@),
            tracker_indices@,
            matrix_cells(*iou_table),
            None,
            iou_threshold,
        ).unmatched_trackers,
        detection_indices@.len() > 0 && tracker_indices@.len() > 0 ==> solution_is_minimal(
            round_costs(
                detection_classes(detections@),
                detection_indices@,
                tracker_classes(trackers@),
                tracker_indices@,
                matrix_cells(*iou_table),
                None,
            ),
            detection_indices@.len(),
            tracker_indices@.len(),
        ),
        is_rearrangement(detections_of(result.0@) + result.1@, detection_indices@),
        is_rearrangement(trackers_of(result.0@) + result.2@, tracker_indices@),
{
    associate_round(
        detections,
        detection_indices,
        trackers,
        tracker_indices,
        iou_threshold,
        iou_table,
        None,
    )
}

/// Runs Observation Centric Recovery (OCR) association, i.e, associates
/// detections to the last associations made by the trackers by only
/// considering iou and class similarity.
///
/// ## Args
///  - detections: Reference to all detections.
///  - detection_indices: The indices of detections available for association.
///  - trackers: Reference to all trackers.
///  - tracker_indices: The indices of trackers available for association.
///  - iou_threshold: The minimum iou score needed for a valid association, on
///    the scale of the overlap costs.
///  - iou_table: For every detection and every tracker, the overlap cost of the
///    detection's box with the box of the tracker's last observation.
pub fn observation_centric_recovery(
    detections: &[Detection],
    detection_indices: &[usize],
    trackers: &[KalmanBoxTracker],
    tracker_indices: &[usize],
    iou_threshold: i64,
    iou_table: &Matrix<i64>,
) -> (result: (Vec<(usize, usize)>, Vec<usize>, Vec<usize>))
    requires
        in_range(detection_indices@, detections@.len()),
        in_range(tracker_indices@, trackers@.len()),
        round_fits(detection_indices@.len(), tracker_indices@.len()),
        detection_indices@.len() > 0 && tracker_indices@.len() > 0 ==> table_covers(
            *iou_table,
            detections@.len(),
            trackers@.len(),
        ),
    ensures
        result.0@ == association(
            detection_classes(detections@),
            detection_indices@,
            tracker_classes(trackers@),
            tracker_indices@,
            matrix_cells(*iou_table),
            None,
            iou_threshold,
        ).matched,
        result.1@ == association(
            detection_classes(detections@),
            detection_indices@,
            tracker_classes(trackers@),
            tracker_indices@,
            matrix_cells(*iou_table),
            None,
            iou_threshold,
        ).unmatched_detections,
        result.2@ == association(
            detection_classes(detections@),
            detection_indices@,
            tracker_classes(trackers@),
            tracker_indices@,
            matrix_cells(*iou_table),
            None,
            iou_threshold,
        ).unmatched_trackers,
        detection_indices@.len() > 0 && tracker_indices@.len() > 0 ==> solution_is_minimal(
            round_costs(
                detection_classes(detections@),
                detection_indices@,
                tracker_classes(trackers@),
                tracker_indices@,
                matrix_cells(*iou_table),
                None,
            ),
            detection_indices@.len(),
            tracker_indices@.len(),
        ),
        is_rearrangement(detections_of(result.0@) + result.1@, detection_indices@),
        is_rearrangement(trackers_of(result.0@) + result.2@, tracker_indices@),
{
    associate_round(
        detections,
        detection_indices,
        trackers,
        tracker_indices,
        iou_threshold,
        iou_table,
        None,
    )
}

} // verus!
