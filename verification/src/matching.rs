//! What holds of every outcome of a round of association.

use crate::associate::{
    association, round_candidates, round_costs, solution_is_minimal, Candidates,
};
use crate::sequences::{
    arranges, count_up, is_ordering, is_rearrangement, lemma_filter_count_up,
    lemma_filter_split_len, lemma_ordering_len,
};
use crate::weights::is_assignment;
use vstd::prelude::*;

verus! {

/// The rows that a filter keeps, followed by the rows that it drops, list
/// every row once.
proof fn lemma_rows_ordering(
    rows: nat,
    accepts: spec_fn(int) -> bool,
    rejects: spec_fn(int) -> bool,
)
    requires
        forall|i: int| #[trigger] rejects(i) == !accepts(i),
    ensures
        is_ordering(count_up(rows).filter(accepts) + count_up(rows).filter(rejects), rows),
{
    let accepted = count_up(rows).filter(accepts);
    let rejected = count_up(rows).filter(rejects);
    let order = accepted + rejected;
    lemma_filter_count_up(rows, accepts);
    lemma_filter_count_up(rows, rejects);
    lemma_filter_split_len(count_up(rows), accepts, rejects);
    assert forall|k: int, l: int| 0 <= k < order.len() && 0 <= l < order.len() && k != l implies order[k]
        != order[l] by {
        if k < accepted.len() && l >= accepted.len() {
            assert(accepts(accepted[k]));
            assert(rejects(rejected[l - accepted.len()]));
        }
        if l < accepted.len() && k >= accepted.len() {
            assert(accepts(accepted[l]));
            assert(rejects(rejected[k - accepted.len()]));
        }
    }
    assert forall|i: int| 0 <= i < rows implies order.contains(i) by {
        if accepts(i) {
            assert(accepted.contains(i));
            let k = choose|k: int| 0 <= k < accepted.len() && accepted[k] == i;
            assert(order[k] == i);
        } else {
            assert(rejects(i));
            assert(rejected.contains(i));
            let k = choose|k: int| 0 <= k < rejected.len() && rejected[k] == i;
            assert(order[accepted.len() + k] == i);
        }
    }
}

/// The columns of the rows that a filter keeps, the columns without a row, and
/// the columns of the rows that the filter drops list every column once.
proof fn lemma_columns_ordering(
    assignment: Seq<usize>,
    rows: nat,
    columns: nat,
    accepts: spec_fn(int) -> bool,
    rejects: spec_fn(int) -> bool,
    is_free: spec_fn(int) -> bool,
    column_of: spec_fn(int) -> int,
)
    requires
        is_assignment(assignment, rows, columns),
        columns <= usize::MAX,
        forall|i: int| #[trigger] rejects(i) == !accepts(i),
        forall|c: int| #[trigger] is_free(c) == !assignment.contains(c as usize),
        forall|i: int| #[trigger] column_of(i) == assignment[i] as int,
    ensures
        is_ordering(
            count_up(rows).filter(accepts).map_values(column_of) + (count_up(columns).filter(
                is_free,
            ) + count_up(rows).filter(rejects).map_values(column_of)),
            columns,
        ),
{
    let accepted = count_up(rows).filter(accepts);
    let rejected = count_up(rows).filter(rejects);
    let free = count_up(columns).filter(is_free);
    let first = accepted.map_values(column_of);
    let last = rejected.map_values(column_of);
    let order = first + (free + last);
    lemma_filter_count_up(rows, accepts);
    lemma_filter_count_up(rows, rejects);
    lemma_filter_count_up(columns, is_free);
    // The row that stands behind an entry of `order`, or -1 for a free column.
    let row_of = |k: int|
        if k < first.len() {
            accepted[k]
        } else if k < first.len() + free.len() {
            -1
        } else {
            rejected[k - first.len() - free.len()]
        };
    assert forall|k: int| 0 <= k < order.len() implies (row_of(k) == -1 ==> is_free(order[k])
        && 0 <= order[k] < columns) && (row_of(k) != -1 ==> 0 <= row_of(k) < rows && order[k]
        == assignment[row_of(k)] as int && (accepts(row_of(k)) <==> k < first.len())) by {
        if k < first.len() {
            assert(order[k] == column_of(accepted[k]));
        } else if k < first.len() + free.len() {
            assert(order[k] == free[k - first.len()]);
        } else {
            let r = k - first.len() - free.len();
            assert(order[k] == column_of(rejected[r]));
            assert(rejects(rejected[r]));
        }
    }
    assert forall|k: int, l: int| 0 <= k < order.len() && 0 <= l < order.len() && k != l implies order[k]
        != order[l] by {
        let rk = row_of(k);
        let rl = row_of(l);
        if rk == -1 && rl == -1 {
            assert(free[k - first.len()] != free[l - first.len()]);
        } else if rk == -1 {
            assert(assignment.contains(assignment[rl]));
        } else if rl == -1 {
            assert(assignment.contains(assignment[rk]));
        } else {
            if rk == rl {
                if k < first.len() {
                    assert(accepted[k] != accepted[l]);
                } else {
                    assert(rejected[k - first.len() - free.len()] != rejected[l - first.len()
                        - free.len()]);
                }
            }
            assert(rk != rl);
            if rk < rl {
                assert(assignment[rk] != assignment[rl]);
            } else {
                assert(assignment[rl] != assignment[rk]);
            }
        }
    }
    assert forall|c: int| 0 <= c < columns implies order.contains(c) by {
        if is_free(c) {
            assert(free.contains(c));
            let k = choose|k: int| 0 <= k < free.len() && free[k] == c;
            assert(order[first.len() + k] == c);
        } else {
            assert(assignment.contains(c as usize));
            let i = choose|i: int| 0 <= i < assignment.len() && assignment[i] == c as usize;
            if accepts(i) {
                assert(accepted.contains(i));
                let k = choose|k: int| 0 <= k < accepted.len() && accepted[k] == i;
                assert(order[k] == column_of(accepted[k]));
            } else {
                assert(rejects(i));
                assert(rejected.contains(i));
                let k = choose|k: int| 0 <= k < rejected.len() && rejected[k] == i;
                assert(order[first.len() + free.len() + k] == column_of(rejected[k]));
            }
        }
    }
    lemma_ordering_len(order, columns);
}

/// Whatever the assignment, a round loses nobody and invents nobody: the
/// detections of its outcome are the detections that took part, in another
/// order, and the trackers of its outcome are the trackers that took part.
pub proof fn lemma_resolve_rearranges(
    candidates: Candidates,
    assignment: Seq<usize>,
    transposed: bool,
)
    requires
        is_assignment(assignment, candidates.rows(transposed), candidates.columns(transposed)),
        candidates.detection_indices.len() <= usize::MAX,
        candidates.tracker_indices.len() <= usize::MAX,
    ensures
        is_rearrangement(
            candidates.resolve(assignment, transposed).detections(),
            candidates.detection_indices,
        ),
        is_rearrangement(
            candidates.resolve(assignment, transposed).trackers(),
            candidates.tracker_indices,
        ),
{
    let rows = candidates.rows(transposed);
    let columns = candidates.columns(transposed);
    let accepts = candidates.accepts(assignment, transposed);
    let rejects = candidates.rejects(assignment, transposed);
    let is_free = candidates.is_free(assignment);
    let column_of = |i: int| assignment[i] as int;
    let accepted = count_up(rows).filter(accepts);
    let rejected = count_up(rows).filter(rejects);
    let free = count_up(columns).filter(is_free);
    let by_row = accepted + rejected;
    let by_column = accepted.map_values(column_of) + (free + rejected.map_values(column_of));
    lemma_rows_ordering(rows, accepts, rejects);
    lemma_columns_ordering(assignment, rows, columns, accepts, rejects, is_free, column_of);
    lemma_filter_count_up(rows, accepts);
    lemma_filter_count_up(rows, rejects);
    lemma_filter_count_up(columns, is_free);
    let outcome = candidates.resolve(assignment, transposed);
    assert(outcome.matched.len() == accepted.len());
    if transposed {
        assert(arranges(by_column, outcome.detections(), candidates.detection_indices));
        assert(arranges(by_row, outcome.trackers(), candidates.tracker_indices));
    } else {
        assert(arranges(by_row, outcome.detections(), candidates.detection_indices));
        assert(arranges(by_column, outcome.trackers(), candidates.tracker_indices));
    }
}

/// Every matched pair was accepted: it stands at places of the two lists of
/// those that took part, and there the two overlap by the threshold at least
/// and are of one class.
pub proof fn lemma_matched_accepted(
    candidates: Candidates,
    assignment: Seq<usize>,
    transposed: bool,
    k: int,
)
    requires
        is_assignment(assignment, candidates.rows(transposed), candidates.columns(transposed)),
        0 <= k < candidates.resolve(assignment, transposed).matched.len(),
    ensures
        exists|p: int, q: int|
            0 <= p < candidates.detection_indices.len() && 0 <= q
                < candidates.tracker_indices.len() && candidates.resolve(
                assignment,
                transposed,
            ).matched[k] == (candidates.detection_indices[p], candidates.tracker_indices[q])
                && -#[trigger] candidates.iou[p][q] >= candidates.iou_threshold
                && candidates.detection_classes[candidates.detection_indices[p] as int]
                == candidates.tracker_classes[candidates.tracker_indices[q] as int],
{
    let rows = count_up(assignment.len());
    let accepts = candidates.accepts(assignment, transposed);
    lemma_filter_count_up(assignment.len(), accepts);
    let i = rows.filter(accepts)[k];
    assert(candidates.accepted(assignment, transposed, i));
    let p = candidates.detection_place(assignment, transposed, i);
    let q = candidates.tracker_place(assignment, transposed, i);
    assert(candidates.resolve(assignment, transposed).matched[k] == candidates.pair_in_row(
        assignment,
        transposed,
    )(i));
    assert(0 <= p < candidates.detection_indices.len() && 0 <= q
        < candidates.tracker_indices.len() && -candidates.iou[p][q] >= candidates.iou_threshold);
}

/// Every matched pair was accepted: its detection and its tracker are of one class.
pub proof fn lemma_matched_same_class(
    candidates: Candidates,
    assignment: Seq<usize>,
    transposed: bool,
    k: int,
)
    requires
        0 <= k < candidates.resolve(assignment, transposed).matched.len(),
    ensures
        candidates.detection_classes[candidates.resolve(assignment, transposed).matched[k].0 as int]
            == candidates.tracker_classes[candidates.resolve(
            assignment,
            transposed,
        ).matched[k].1 as int],
{
    let rows = count_up(assignment.len());
    let accepts = candidates.accepts(assignment, transposed);
    rows.lemma_filter_pred(accepts, k);
    assert(candidates.accepted(assignment, transposed, rows.filter(accepts)[k]));
}

/// In every round of association, a matched pair is of one class.
pub proof fn lemma_association_same_class(
    detection_classes: Seq<u32>,
    detection_indices: Seq<usize>,
    tracker_classes: Seq<u32>,
    tracker_indices: Seq<usize>,
    iou_table: Seq<Seq<i64>>,
    momentum_table: Option<Seq<Seq<i64>>>,
    iou_threshold: i64,
)
    ensures
        forall|k: int|
            0 <= k < association(
                detection_classes,
                detection_indices,
                tracker_classes,
                tracker_indices,
                iou_table,
                momentum_table,
                iou_threshold,
            ).matched.len() ==> detection_classes[(#[trigger] association(
                detection_classes,
                detection_indices,
                tracker_classes,
                tracker_indices,
                iou_table,
                momentum_table,
                iou_threshold,
            ).matched[k]).0 as int] == tracker_classes[association(
                detection_classes,
                detection_indices,
                tracker_classes,
                tracker_indices,
                iou_table,
                momentum_table,
                iou_threshold,
            ).matched[k].1 as int],
{
    let outcome = association(
        detection_classes,
        detection_indices,
        tracker_classes,
        tracker_indices,
        iou_table,
        momentum_table,
        iou_threshold,
    );
    if detection_indices.len() > 0 && tracker_indices.len() > 0 {
        let candidates = round_candidates(
            detection_classes,
            detection_indices,
            tracker_classes,
            tracker_indices,
            iou_table,
            iou_threshold,
        );
        let cost = round_costs(
            detection_classes,
            detection_indices,
            tracker_classes,
            tracker_indices,
            iou_table,
            momentum_table,
        );
        assert forall|k: int| 0 <= k < outcome.matched.len() implies detection_classes[(
        #[trigger] outcome.matched[k]).0 as int] == tracker_classes[outcome.matched[k].1 as int] by {
            lemma_matched_same_class(
                candidates,
                candidates.solution(cost),
                candidates.outnumbered(),
                k,
            );
        }
    }
}

/// A round of association loses nobody and invents nobody, given that the
/// solver's assignment is one: the detections of the outcome are those that
/// took part, in another order, and so are the trackers.
pub proof fn lemma_association_rearranges(
    detection_classes: Seq<u32>,
    detection_indices: Seq<usize>,
    tracker_classes: Seq<u32>,
    tracker_indices: Seq<usize>,
    iou_table: Seq<Seq<i64>>,
    momentum_table: Option<Seq<Seq<i64>>>,
    iou_threshold: i64,
)
    requires
        detection_indices.len() <= usize::MAX,
        tracker_indices.len() <= usize::MAX,
        detection_indices.len() > 0 && tracker_indices.len() > 0 ==> solution_is_minimal(
            round_costs(
                detection_classes,
                detection_indices,
                tracker_classes,
                tracker_indices,
                iou_table,
                momentum_table,
            ),
            detection_indices.len(),
            tracker_indices.len(),
        ),
    ensures
        is_rearrangement(
            association(
                detection_classes,
                detection_indices,
                tracker_classes,
                tracker_indices,
                iou_table,
                momentum_table,
                iou_threshold,
            ).detections(),
            detection_indices,
        ),
        is_rearrangement(
            association(
                detection_classes,
                detection_indices,
                tracker_classes,
                tracker_indices,
                iou_table,
                momentum_table,
                iou_threshold,
            ).trackers(),
            tracker_indices,
        ),
{
    let outcome = association(
        detection_classes,
        detection_indices,
        tracker_classes,
        tracker_indices,
        iou_table,
        momentum_table,
        iou_threshold,
    );
    if detection_indices.len() > 0 && tracker_indices.len() > 0 {
        let candidates = round_candidates(
            detection_classes,
            detection_indices,
            tracker_classes,
            tracker_indices,
            iou_table,
            iou_threshold,
        );
        let cost = round_costs(
            detection_classes,
            detection_indices,
            tracker_classes,
            tracker_indices,
            iou_table,
            momentum_table,
        );
        lemma_resolve_rearranges(candidates, candidates.solution(cost), candidates.outnumbered());
    } else {
        lemma_identity_arranges(outcome.detections(), detection_indices);
        lemma_identity_arranges(outcome.trackers(), tracker_indices);
    }
}

/// A sequence is a rearrangement of itself.
proof fn lemma_identity_arranges(out: Seq<usize>, items: Seq<usize>)
    requires
        out =~= items,
    ensures
        is_rearrangement(out, items),
{
    let order = count_up(items.len());
    assert forall|i: int| 0 <= i < items.len() implies order.contains(i) by {
        assert(order[i] == i);
    }
    assert(arranges(order, out, items));
}

} // verus!
