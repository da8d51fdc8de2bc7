//! The rounds of association that the detections of a frame go through.

use crate::associate::{
    association, detections_of, round_costs, solution_is_minimal, trackers_of, Matching,
};
use crate::cost::{detection_classes, in_range};
use crate::oc_sort_tracker::Detection;
use crate::sequences::{
    count_up, is_rearrangement, lemma_filter_count_up, lemma_filter_map_next,
    lemma_rearrangement_keeps,
};
use vstd::prelude::*;
use vstd::seq_lib::lemma_no_dup_in_concat;

verus! {

/// What the boxes of a frame mean for the association, pair by pair. Each
/// table has a row for every detection of the frame and a column for every
/// live tracker.
pub struct CostTables {
    /// Overlap cost of a detection's box with the box that a tracker predicts.
    pub iou_predicted: Seq<Seq<i64>>,
    /// Momentum cost of the step from a tracker's earlier observation to a detection.
    pub momentum: Seq<Seq<i64>>,
    /// Overlap cost of a detection's box with the box of a tracker's last observation.
    pub iou_observed: Seq<Seq<i64>>,
}

/// The detections whose score reaches the threshold.
pub open spec fn is_high(detections: Seq<Detection>, threshold: u64) -> spec_fn(int) -> bool {
    |i: int| detections[i].score >= threshold
}

/// The detections whose score stays below the threshold.
pub open spec fn is_low(detections: Seq<Detection>, threshold: u64) -> spec_fn(int) -> bool {
    |i: int| detections[i].score < threshold
}

/// A place in a list as an index.
pub open spec fn as_index() -> spec_fn(int) -> usize {
    |i: int| i as usize
}

/// The indices of the detections whose score reaches the threshold, in rising order.
pub open spec fn high_score_indices(detections: Seq<Detection>, threshold: u64) -> Seq<usize> {
    count_up(detections.len()).filter(is_high(detections, threshold)).map_values(as_index())
}

/// The indices of the detections whose score stays below the threshold, in rising order.
pub open spec fn low_score_indices(detections: Seq<Detection>, threshold: u64) -> Seq<usize> {
    count_up(detections.len()).filter(is_low(detections, threshold)).map_values(as_index())
}

/// The indices of `count` trackers.
pub open spec fn all_indices(count: nat) -> Seq<usize> {
    Seq::new(count, |j: int| j as usize)
}

/// The outcomes of the three rounds of a frame.
pub struct Cascade {
    /// Detections with a high score against all trackers, by overlap with the
    /// predicted boxes, momentum and class.
    pub primary: Matching,
    /// Detections with a low score against the trackers that the first round
    /// left over, by overlap with the predicted boxes and class.
    pub byte: Matching,
    /// The detections that the first round left over against the trackers that
    /// the second round left over, by overlap with the last observed boxes and class.
    pub recovery: Matching,
}

/// The three rounds of a frame, each working on what the ones before left over.
pub open spec fn cascade(
    detections: Seq<Detection>,
    tracker_classes: Seq<u32>,
    tables: CostTables,
    score_threshold: u64,
    iou_threshold: i64,
) -> Cascade {
    let primary = association(
        detection_classes(detections),
        high_score_indices(detections, score_threshold),
        tracker_classes,
        all_indices(tracker_classes.len()),
        tables.iou_predicted,
        Some(tables.momentum),
        iou_threshold,
    );
    let byte = association(
        detection_classes(detections),
        low_score_indices(detections, score_threshold),
        tracker_classes,
        primary.unmatched_trackers,
        tables.iou_predicted,
        None,
        iou_threshold,
    );
    let recovery = association(
        detection_classes(detections),
        primary.unmatched_detections,
        tracker_classes,
        byte.unmatched_trackers,
        tables.iou_observed,
        None,
        iou_threshold,
    );
    Cascade { primary, byte, recovery }
}

/// In a round with somebody on both sides, the solver's assignment is one of
/// the least total cost.
pub open spec fn round_is_optimal(
    detection_classes: Seq<u32>,
    detection_indices: Seq<usize>,
    tracker_classes: Seq<u32>,
    tracker_indices: Seq<usize>,
    iou_table: Seq<Seq<i64>>,
    momentum_table: Option<Seq<Seq<i64>>>,
) -> bool {
    detection_indices.len() > 0 && tracker_indices.len() > 0 ==> solution_is_minimal(
        round_costs(
            detection_classes,
            detection_indices,
            tracker_classes,
            tracker_indices,
            iou_table,
            momentum_table,
        ),
        detection_indices.len(),
        tracker_indices.len(),
    )
}

/// Each of the three rounds of a frame pairs up its detections and trackers at
/// the least total cost.
pub open spec fn cascade_is_optimal(
    detections: Seq<Detection>,
    tracker_classes: Seq<u32>,
    tables: CostTables,
    score_threshold: u64,
    iou_threshold: i64,
) -> bool {
    let rounds = cascade(detections, tracker_classes, tables, score_threshold, iou_threshold);
    &&& round_is_optimal(
        detection_classes(detections),
        high_score_indices(detections, score_threshold),
        tracker_classes,
        all_indices(tracker_classes.len()),
        tables.iou_predicted,
        Some(tables.momentum),
    )
    &&& round_is_optimal(
        detection_classes(detections),
        low_score_indices(detections, score_threshold),
        tracker_classes,
        rounds.primary.unmatched_trackers,
        tables.iou_predicted,
        None,
    )
    &&& round_is_optimal(
        detection_classes(detections),
        rounds.primary.unmatched_detections,
        tracker_classes,
        rounds.byte.unmatched_trackers,
        tables.iou_observed,
        None,
    )
}

impl Cascade {
    /// The matches of the frame: those of the first round, then those of the
    /// second, then those of the third.
    pub open spec fn matched(self) -> Seq<(usize, usize)> {
        self.primary.matched + self.byte.matched + self.recovery.matched
    }

    /// The detections that start a new track: those with a high score that no
    /// round could match.
    pub open spec fn born(self) -> Seq<usize> {
        self.recovery.unmatched_detections
    }

    /// The tracker at place `tracker` was matched in this frame.
    pub open spec fn is_matched(self, tracker: int) -> bool {
        exists|k: int| 0 <= k < self.matched().len() && #[trigger] self.matched()[k].1 == tracker
    }

    /// Every round passed on everybody that it was given: those it matched
    /// and those it left over are those that took part, in another order.
    pub open spec fn complete(
        self,
        detections: Seq<Detection>,
        trackers: nat,
        score_threshold: u64,
    ) -> bool {
        &&& is_rearrangement(
            self.primary.detections(),
            high_score_indices(detections, score_threshold),
        )
        &&& is_rearrangement(self.primary.trackers(), all_indices(trackers))
        &&& is_rearrangement(
            self.byte.detections(),
            low_score_indices(detections, score_threshold),
        )
        &&& is_rearrangement(self.byte.trackers(), self.primary.unmatched_trackers)
        &&& is_rearrangement(self.recovery.detections(), self.primary.unmatched_detections)
        &&& is_rearrangement(self.recovery.trackers(), self.byte.unmatched_trackers)
    }

    /// No tracker is matched twice, no detection is matched twice or matched
    /// and made a new track of, and all of them exist.
    pub open spec fn distinct(self, detections: nat, trackers: nat) -> bool {
        &&& trackers_of(self.matched()).no_duplicates()
        &&& (detections_of(self.matched()) + self.born()).no_duplicates()
        &&& in_range(trackers_of(self.matched()), trackers)
        &&& in_range(detections_of(self.matched()) + self.born(), detections)
    }
}

/// The indices of the detections with a high score and of those with a low
/// score: indices of detections, none twice, and none on both sides.
pub proof fn lemma_score_partition(detections: Seq<Detection>, threshold: u64)
    requires
        detections.len() <= usize::MAX,
    ensures
        high_score_indices(detections, threshold).no_duplicates(),
        low_score_indices(detections, threshold).no_duplicates(),
        in_range(high_score_indices(detections, threshold), detections.len()),
        in_range(low_score_indices(detections, threshold), detections.len()),
        high_score_indices(detections, threshold).len() <= detections.len(),
        low_score_indices(detections, threshold).len() <= detections.len(),
        forall|k: int, l: int|
            0 <= k < high_score_indices(detections, threshold).len() && 0 <= l
                < low_score_indices(detections, threshold).len() ==> high_score_indices(
                detections,
                threshold,
            )[k] != low_score_indices(detections, threshold)[l],
        forall|k: int|
            0 <= k < high_score_indices(detections, threshold).len() ==> detections[(
            #[trigger] high_score_indices(detections, threshold)[k]) as int].score >= threshold,
{
    let all = count_up(detections.len());
    let high = all.filter(is_high(detections, threshold));
    let low = all.filter(is_low(detections, threshold));
    lemma_filter_count_up(detections.len(), is_high(detections, threshold));
    lemma_filter_count_up(detections.len(), is_low(detections, threshold));
    all.lemma_filter_len(is_high(detections, threshold));
    all.lemma_filter_len(is_low(detections, threshold));
    assert forall|k: int, l: int|
        0 <= k < high.len() && 0 <= l < low.len() implies high_score_indices(
        detections,
        threshold,
    )[k] != low_score_indices(detections, threshold)[l] by {
        assert(is_high(detections, threshold)(high[k]));
        assert(is_low(detections, threshold)(low[l]));
    }
    assert forall|k: int|
        0 <= k < high.len() implies detections[(#[trigger] high_score_indices(
        detections,
        threshold,
    )[k]) as int].score >= threshold by {
        assert(is_high(detections, threshold)(high[k]));
    }
}

/// Splits the detections of a frame by their score: the indices of those that
/// reach the threshold, and the indices of the others, both in rising order.
pub fn partition_by_score(detections: &[Detection], score_threshold: u64) -> (result: (
    Vec<usize>,
    Vec<usize>,
))
    ensures
        result.0@ == high_score_indices(detections@, score_threshold),
        result.1@ == low_score_indices(detections@, score_threshold),
{
    let mut high: Vec<usize> = Vec::new();
    let mut low: Vec<usize> = Vec::new();
    let ghost all = count_up(detections@.len());
    let mut i: usize = 0;
    while i < detections.len()
        invariant
            0 <= i <= detections@.len(),
            all == count_up(detections@.len()),
            high@ == all.take(i as int).filter(is_high(detections@, score_threshold)).map_values(
                as_index(),
            ),
            low@ == all.take(i as int).filter(is_low(detections@, score_threshold)).map_values(
                as_index(),
            ),
        decreases detections@.len() - i,
    {
        proof {
            lemma_filter_map_next(
                all,
                i as int,
                is_high(detections@, score_threshold),
                as_index(),
            );
            lemma_filter_map_next(all, i as int, is_low(detections@, score_threshold), as_index());
        }
        if detections[i].score >= score_threshold {
            high.push(i);
        } else {
            low.push(i);
        }
        i += 1;
    }
    proof {
        assert(all.take(detections@.len() as int) =~= all);
    }
    (high, low)
}

/// The indices of `count` trackers.
pub fn tracker_indices(count: usize) -> (indices: Vec<usize>)
    ensures
        indices@ == all_indices(count as nat),
{
    let mut indices: Vec<usize> = Vec::new();
    let mut j: usize = 0;
    while j < count
        invariant
            0 <= j <= count,
            indices@.len() == j,
            forall|k: int| 0 <= k < j ==> indices@[k] == k,
        decreases count - j,
    {
        indices.push(j);
        j += 1;
    }
    proof {
        assert(indices@ =~= all_indices(count as nat));
    }
    indices
}

/// The two parts of a sequence without duplicates have no entry in common.
proof fn lemma_parts_apart(first: Seq<usize>, second: Seq<usize>)
    requires
        (first + second).no_duplicates(),
    ensures
        first.no_duplicates(),
        second.no_duplicates(),
        forall|k: int, l: int|
            0 <= k < first.len() && 0 <= l < second.len() ==> first[k] != second[l],
{
    let whole = first + second;
    assert forall|k: int, l: int| 0 <= k < first.len() && 0 <= l < first.len() && k != l implies first[k]
        != first[l] by {
        assert(whole[k] == first[k] && whole[l] == first[l]);
    }
    assert forall|k: int, l: int|
        0 <= k < second.len() && 0 <= l < second.len() && k != l implies second[k] != second[l] by {
        assert(whole[first.len() + k] == second[k] && whole[first.len() + l] == second[l]);
    }
    assert forall|k: int, l: int| 0 <= k < first.len() && 0 <= l < second.len() implies first[k]
        != second[l] by {
        assert(whole[k] == first[k] && whole[first.len() + l] == second[l]);
    }
}

/// What is in a part of a sequence is in the sequence.
proof fn lemma_parts_contained(first: Seq<usize>, second: Seq<usize>)
    ensures
        forall|k: int| 0 <= k < first.len() ==> (first + second).contains(#[trigger] first[k]),
        forall|l: int| 0 <= l < second.len() ==> (first + second).contains(#[trigger] second[l]),
{
    let whole = first + second;
    assert forall|k: int| 0 <= k < first.len() implies whole.contains(#[trigger] first[k]) by {
        assert(whole[k] == first[k]);
    }
    assert forall|l: int| 0 <= l < second.len() implies whole.contains(#[trigger] second[l]) by {
        assert(whole[first.len() + l] == second[l]);
    }
}

/// What a round keeps of those that took part: the ones it leaves over are
/// among them, no more of them, and none twice unless it was given twice.
pub proof fn lemma_round_keeps(
    outcome: Matching,
    detection_indices: Seq<usize>,
    tracker_indices: Seq<usize>,
    detections: nat,
    trackers: nat,
)
    requires
        is_rearrangement(outcome.detections(), detection_indices),
        is_rearrangement(outcome.trackers(), tracker_indices),
        in_range(detection_indices, detections),
        in_range(tracker_indices, trackers),
    ensures
        in_range(outcome.unmatched_detections, detections),
        in_range(outcome.unmatched_trackers, trackers),
        in_range(detections_of(outcome.matched), detections),
        in_range(trackers_of(outcome.matched), trackers),
        outcome.unmatched_detections.len() <= detection_indices.len(),
        outcome.unmatched_trackers.len() <= tracker_indices.len(),
        detection_indices.no_duplicates() ==> outcome.unmatched_detections.no_duplicates(),
        tracker_indices.no_duplicates() ==> outcome.unmatched_trackers.no_duplicates(),
{
    lemma_rearrangement_keeps(outcome.detections(), detection_indices);
    lemma_rearrangement_keeps(outcome.trackers(), tracker_indices);
    lemma_parts_contained(detections_of(outcome.matched), outcome.unmatched_detections);
    lemma_parts_contained(trackers_of(outcome.matched), outcome.unmatched_trackers);
    lemma_in_range_of_contained(outcome.unmatched_detections, detection_indices, detections);
    lemma_in_range_of_contained(detections_of(outcome.matched), detection_indices, detections);
    lemma_in_range_of_contained(outcome.unmatched_trackers, tracker_indices, trackers);
    lemma_in_range_of_contained(trackers_of(outcome.matched), tracker_indices, trackers);
    if detection_indices.no_duplicates() {
        lemma_parts_apart(detections_of(outcome.matched), outcome.unmatched_detections);
    }
    if tracker_indices.no_duplicates() {
        lemma_parts_apart(trackers_of(outcome.matched), outcome.unmatched_trackers);
    }
}

/// Indices that all occur in a list of indices below a bound are below that bound.
proof fn lemma_in_range_of_contained(part: Seq<usize>, whole: Seq<usize>, bound: nat)
    requires
        in_range(whole, bound),
        forall|k: int| 0 <= k < part.len() ==> whole.contains(#[trigger] part[k]),
    ensures
        in_range(part, bound),
{
    assert forall|k: int| 0 <= k < part.len() implies (#[trigger] part[k]) < bound by {
        assert(whole.contains(part[k]));
        let w = choose|w: int| 0 <= w < whole.len() && whole[w] == part[k];
        assert(whole[w] < bound);
    }
}

/// Over the three rounds of a frame nobody is used twice: the matches name
/// every tracker at most once, and no detection is matched twice or matched
/// and made a new track of.
pub proof fn lemma_cascade_distinct(
    rounds: Cascade,
    detections: Seq<Detection>,
    trackers: nat,
    score_threshold: u64,
)
    requires
        rounds.complete(detections, trackers, score_threshold),
        detections.len() <= usize::MAX,
        trackers <= usize::MAX,
    ensures
        rounds.distinct(detections.len(), trackers),
{
    let high = high_score_indices(detections, score_threshold);
    let low = low_score_indices(detections, score_threshold);
    let all = all_indices(trackers);
    let (m1, u1) = (trackers_of(rounds.primary.matched), rounds.primary.unmatched_trackers);
    let (m2, u2) = (trackers_of(rounds.byte.matched), rounds.byte.unmatched_trackers);
    let (m3, u3) = (trackers_of(rounds.recovery.matched), rounds.recovery.unmatched_trackers);
    let (d1, v1) = (detections_of(rounds.primary.matched), rounds.primary.unmatched_detections);
    let (d2, v2) = (detections_of(rounds.byte.matched), rounds.byte.unmatched_detections);
    let (d3, v3) = (detections_of(rounds.recovery.matched), rounds.recovery.unmatched_detections);
    lemma_score_partition(detections, score_threshold);
    assert(all.no_duplicates());
    assert(in_range(all, trackers));
    lemma_round_keeps(rounds.primary, high, all, detections.len(), trackers);
    lemma_round_keeps(rounds.byte, low, u1, detections.len(), trackers);
    lemma_round_keeps(rounds.recovery, v1, u2, detections.len(), trackers);
    lemma_rearrangement_keeps(m1 + u1, all);
    lemma_rearrangement_keeps(m2 + u2, u1);
    lemma_rearrangement_keeps(m3 + u3, u2);
    lemma_rearrangement_keeps(d1 + v1, high);
    lemma_rearrangement_keeps(d2 + v2, low);
    lemma_rearrangement_keeps(d3 + v3, v1);
    lemma_parts_apart(m1, u1);
    lemma_parts_apart(m2, u2);
    lemma_parts_apart(m3, u3);
    lemma_parts_apart(d1, v1);
    lemma_parts_apart(d2, v2);
    lemma_parts_apart(d3, v3);
    lemma_parts_contained(m1, u1);
    lemma_parts_contained(m2, u2);
    lemma_parts_contained(m3, u3);
    lemma_parts_contained(d1, v1);
    lemma_parts_contained(d2, v2);
    lemma_parts_contained(d3, v3);
    // Trackers: what the second round matched was left over by the first, and
    // what the third round matched was left over by both.
    assert forall|k: int, l: int| 0 <= k < m1.len() && 0 <= l < m2.len() implies m1[k] != m2[l] by {
        assert(u1.contains(m2[l]));
        let w = choose|w: int| 0 <= w < u1.len() && u1[w] == m2[l];
        assert(m1[k] != u1[w]);
    }
    assert forall|k: int, l: int| 0 <= k < m2.len() && 0 <= l < m3.len() implies m2[k] != m3[l] by {
        assert(u2.contains(m3[l]));
        let w = choose|w: int| 0 <= w < u2.len() && u2[w] == m3[l];
        assert(m2[k] != u2[w]);
    }
    assert forall|k: int, l: int| 0 <= k < m1.len() && 0 <= l < m3.len() implies m1[k] != m3[l] by {
        assert(u2.contains(m3[l]));
        let w = choose|w: int| 0 <= w < u2.len() && u2[w] == m3[l];
        assert((m2 + u2).contains(u2[w]));
        assert(u1.contains(m3[l]));
        let x = choose|x: int| 0 <= x < u1.len() && u1[x] == m3[l];
        assert(m1[k] != u1[x]);
    }
    lemma_no_dup_in_concat(m1, m2);
    assert forall|k: int, l: int| 0 <= k < (m1 + m2).len() && 0 <= l < m3.len() implies (m1
        + m2)[k] != m3[l] by {
        if k < m1.len() {
            assert((m1 + m2)[k] == m1[k]);
        } else {
            assert((m1 + m2)[k] == m2[k - m1.len()]);
        }
    }
    lemma_no_dup_in_concat(m1 + m2, m3);
    assert(trackers_of(rounds.matched()) =~= m1 + m2 + m3);
    // Detections: the second round works on those with a low score, the
    // others on those with a high score; the third on what the first left over.
    assert forall|k: int, l: int| 0 <= k < d1.len() && 0 <= l < d2.len() implies d1[k] != d2[l] by {
        assert(high.contains(d1[k]));
        assert(low.contains(d2[l]));
        let a = choose|a: int| 0 <= a < high.len() && high[a] == d1[k];
        let b = choose|b: int| 0 <= b < low.len() && low[b] == d2[l];
        assert(high[a] != low[b]);
    }
    assert forall|k: int, l: int| 0 <= k < d1.len() && 0 <= l < (d3 + v3).len() implies d1[k] != (
    d3 + v3)[l] by {
        assert((d3 + v3).contains((d3 + v3)[l]));
        assert(v1.contains((d3 + v3)[l]));
        let w = choose|w: int| 0 <= w < v1.len() && v1[w] == (d3 + v3)[l];
        assert(d1[k] != v1[w]);
    }
    assert forall|k: int, l: int| 0 <= k < d2.len() && 0 <= l < (d3 + v3).len() implies d2[k] != (
    d3 + v3)[l] by {
        assert((d3 + v3).contains((d3 + v3)[l]));
        assert(v1.contains((d3 + v3)[l]));
        let w = choose|w: int| 0 <= w < v1.len() && v1[w] == (d3 + v3)[l];
        assert((d1 + v1).contains(v1[w]));
        assert(high.contains(v1[w]));
        assert(low.contains(d2[k]));
        let a = choose|a: int| 0 <= a < high.len() && high[a] == v1[w];
        let b = choose|b: int| 0 <= b < low.len() && low[b] == d2[k];
        assert(high[a] != low[b]);
    }
    lemma_no_dup_in_concat(d1, d2);
    assert forall|k: int, l: int| 0 <= k < (d1 + d2).len() && 0 <= l < (d3 + v3).len() implies (d1
        + d2)[k] != (d3 + v3)[l] by {
        if k < d1.len() {
            assert((d1 + d2)[k] == d1[k]);
        } else {
            assert((d1 + d2)[k] == d2[k - d1.len()]);
        }
    }
    lemma_no_dup_in_concat(d1 + d2, d3 + v3);
    assert(detections_of(rounds.matched()) + rounds.born() =~= (d1 + d2) + (d3 + v3));
    assert(in_range(trackers_of(rounds.matched()), trackers));
    assert(in_range(detections_of(rounds.matched()) + rounds.born(), detections.len()));
}

} // verus!
