//! The tracker itself: what happens to the live tracks in each frame.

use crate::associate::{
    associate_detections_to_trackers, byte_associate, detections_of, observation_centric_recovery,
    round_fits, table_covers, trackers_of,
};
use crate::cascade::{
    cascade, cascade_is_optimal, lemma_cascade_distinct, lemma_round_keeps,
    lemma_score_partition, partition_by_score, tracker_indices, Cascade, CostTables,
};
use crate::cost::{detection_classes, in_range, tracker_classes};
use crate::id_allocator::{nth_id, IdAllocator};
use crate::kalman_box_tracker::{KalmanBoxTracker, Track, TrackerState, UpdatePlan};
use crate::lifecycle::{
    lemma_predict_keeps_ids_apart, lemma_predicted_within_age, lemma_reported_follow_detections,
    lemma_update_keeps_ids_apart, lemma_update_marks_matched, marks_matched, reports_detected,
};
use crate::matching::lemma_association_rearranges;
use crate::sequences::{count_up, lemma_filter_map_next, lemma_filter_next};
use crate::weights::matrix_cells;
use pathfinding::matrix::Matrix;
use vstd::prelude::*;

verus! {

/// A detection received from an object detector.
///
/// Its bounding box stays with the caller, who states what the box means for
/// the association in the cost tables of the frame.
#[derive(Clone, Copy, Debug, PartialEq, Eq, Structural)]
pub struct Detection {
    /// The class id of the detection.
    pub class: u32,
    /// The confidence score of the detection, on the scale on which the
    /// tracker's score threshold is given.
    pub score: u64,
}

/// A detection that continues a track.
#[derive(Clone, Copy, Debug, PartialEq, Eq, Structural)]
pub struct Match {
    /// Place of the detection among the detections of the frame.
    pub detection: usize,
    /// Place of the tracker among the live trackers.
    pub tracker: usize,
    /// What the update asks of the tracker's numeric state.
    pub plan: UpdatePlan,
}

/// What a frame did to the tracks.
#[derive(Clone, Debug, PartialEq, Eq)]
pub struct FrameOutcome {
    /// The detections that continue a track, in the order of the rounds that matched them.
    pub matched: Vec<Match>,
    /// The detections that started a track. Their trackers were added behind
    /// the live ones, in this order.
    pub born: Vec<usize>,
    /// The tracks to report.
    pub tracks: Vec<Track>,
}

/// The cost tables of a frame as the executable functions are given them.
pub open spec fn tables_of(
    iou_predicted: Matrix<i64>,
    momentum: Matrix<i64>,
    iou_observed: Matrix<i64>,
) -> CostTables {
    CostTables {
        iou_predicted: matrix_cells(iou_predicted),
        momentum: matrix_cells(momentum),
        iou_observed: matrix_cells(iou_observed),
    }
}

/// Mathematical model of the tracker: its live tracks, oldest first, and its settings.
pub struct OCSortState {
    pub trackers: Seq<TrackerState>,
    pub max_age: u32,
    pub iou_threshold: i64,
    pub delta_t: u32,
    pub score_threshold: u64,
    pub min_hit_streak: u32,
}

/// The models of a list of trackers.
pub open spec fn states(trackers: Seq<KalmanBoxTracker>) -> Seq<TrackerState> {
    trackers.map_values(|tracker: KalmanBoxTracker| tracker@)
}

impl OCSortState {
    /// Every live track is valid.
    pub open spec fn valid(self) -> bool {
        forall|j: int| 0 <= j < self.trackers.len() ==> (#[trigger] self.trackers[j]).valid()
    }

    /// Every live track can grow one frame older.
    pub open spec fn can_age(self) -> bool {
        forall|j: int| 0 <= j < self.trackers.len() ==> (#[trigger] self.trackers[j]).age < u32::MAX
    }

    /// Every live track can take one more association.
    pub open spec fn can_hit(self) -> bool {
        forall|j: int|
            0 <= j < self.trackers.len() ==> (#[trigger] self.trackers[j]).hit_streak < u32::MAX
    }

    /// A track that has gone without an association for no more than `max_age` frames stays.
    pub open spec fn stays(self) -> spec_fn(TrackerState) -> bool {
        |tracker: TrackerState| tracker.time_since_update <= self.max_age
    }

    /// Every track as it is one frame later.
    pub open spec fn aged(self) -> Seq<TrackerState> {
        self.trackers.map_values(|tracker: TrackerState| tracker.predicted())
    }

    /// The tracker one frame later, before the detections of that frame are
    /// looked at: every track has aged, and those that went without an
    /// association for more than `max_age` frames are gone.
    pub open spec fn predicted(self) -> OCSortState {
        OCSortState { trackers: self.aged().filter(self.stays()), ..self }
    }

    /// For every live track, whether it is still there one frame later.
    pub open spec fn survivors(self) -> Seq<bool> {
        self.aged().map_values(self.stays())
    }

    /// The class of every live track.
    pub open spec fn classes(self) -> Seq<u32> {
        Seq::new(self.trackers.len(), |j: int| self.trackers[j].class)
    }

    /// The rounds of association of a frame with the given detections.
    pub open spec fn rounds(self, detections: Seq<Detection>, tables: CostTables) -> Cascade {
        cascade(detections, self.classes(), tables, self.score_threshold, self.iou_threshold)
    }

    /// The live tracks after the matches of a frame: a matched track has
    /// recorded the observation, the others are as they were.
    pub open spec fn continued(self, rounds: Cascade) -> Seq<TrackerState> {
        Seq::new(
            self.trackers.len(),
            |j: int|
                if rounds.is_matched(j) {
                    self.trackers[j].updated()
                } else {
                    self.trackers[j]
                },
        )
    }

    /// The tracks that a frame starts, one for each detection in `rounds.born()`,
    /// with consecutive ids from `first_id` on.
    pub open spec fn started(
        self,
        detections: Seq<Detection>,
        rounds: Cascade,
        first_id: u32,
    ) -> Seq<TrackerState> {
        Seq::new(
            rounds.born().len(),
            |k: int|
                TrackerState::born(
                    nth_id(first_id, k as nat),
                    detections[rounds.born()[k] as int].class,
                    self.delta_t,
                ),
        )
    }

    /// The tracker after the detections of a frame were looked at: matched
    /// tracks have recorded their observation, and every detection with a high
    /// score that no round could match has started a track of its own.
    pub open spec fn updated(
        self,
        detections: Seq<Detection>,
        tables: CostTables,
        first_id: u32,
    ) -> OCSortState {
        let rounds = self.rounds(detections, tables);
        OCSortState {
            trackers: self.continued(rounds) + self.started(detections, rounds, first_id),
            ..self
        }
    }

    /// A matched pair with what its update asks of the numeric state.
    pub open spec fn match_of(self) -> spec_fn((usize, usize)) -> Match {
        |pair: (usize, usize)|
            Match {
                detection: pair.0,
                tracker: pair.1,
                plan: self.trackers[pair.1 as int].update_plan(),
            }
    }

    /// The matches of a frame, each with what it asks of the numeric state.
    pub open spec fn matches(self, detections: Seq<Detection>, tables: CostTables) -> Seq<Match> {
        self.rounds(detections, tables).matched().map_values(self.match_of())
    }

    /// The track at place `j` is reported: it was associated in the latest
    /// frame, and its streak of associations is long enough.
    pub open spec fn is_reported(self) -> spec_fn(int) -> bool {
        |j: int|
            self.trackers[j].time_since_update < 1 && self.trackers[j].hit_streak
                >= self.min_hit_streak
    }

    /// The track at place `j` as it is reported.
    pub open spec fn track_at(self) -> spec_fn(int) -> Track {
        |j: int| self.trackers[j].track(j as usize)
    }

    /// The tracks that are reported, in the order of the live tracks.
    pub open spec fn reported(self) -> Seq<Track> {
        count_up(self.trackers.len()).filter(self.is_reported()).map_values(self.track_at())
    }
}

/// The OC-SORT tracker.
#[derive(Debug)]
pub struct OCSort {
    /// Vec of object that are currently being tracked.
    trackers: Vec<KalmanBoxTracker>,
    /// The maximum number of updates a tracker can have without new associations to detections.
    max_age: u32,
    /// The minimum IoU score need for an association, on the scale of the overlap costs.
    iou_threshold: i64,
    /// The time lag used for speed direction calculations.
    delta_t: u32,
    /// Score threshold used to divide detections to high and low sets in BYTE association.
    score_threshold: u64,
    /// The minimum number of consecutive association a track needs to be returned.
    min_hit_streak: u32,
}

impl View for OCSort {
    type V = OCSortState;

    closed spec fn view(&self) -> OCSortState {
        OCSortState {
            trackers: states(self.trackers@),
            max_age: self.max_age,
            iou_threshold: self.iou_threshold,
            delta_t: self.delta_t,
            score_threshold: self.score_threshold,
            min_hit_streak: self.min_hit_streak,
        }
    }
}

impl OCSort {
    /// Creates a new OCSort instance with the given configuration no initial tracked objects
    ///
    /// ## Args
    ///  - max_age: The maximum number of updates a tracker can have without new associations to detections.
    ///  - iou_threshold: The minimum IoU score needed for an association, on the
    ///    scale of the overlap costs.
    ///  - delta_t: The time lag used for speed direction calculations.
    ///  - score_threshold: Used to divide detections to high and low sets in BYTE association.
    ///  - min_hit_streak: The minimum number of consecutive associations a track needs to be returned.
    pub fn new(
        max_age: u32,
        iou_threshold: i64,
        delta_t: u32,
        score_threshold: u64,
        min_hit_streak: u32,
    ) -> (tracker: Self)
        ensures
            tracker@ == (OCSortState {
                trackers: Seq::empty(),
                max_age,
                iou_threshold,
                delta_t,
                score_threshold,
                min_hit_streak,
            }),
            tracker@.valid(),
    {
        let tracker = OCSort {
            trackers: Vec::new(),
            max_age,
            iou_threshold,
            delta_t,
            score_threshold,
            min_hit_streak,
        };
        proof {
            assert(tracker@.trackers =~= Seq::empty());
        }
        tracker
    }

    /// The live trackers, oldest first.
    pub fn trackers(&self) -> (trackers: &Vec<KalmanBoxTracker>)
        ensures
            states(trackers@) == self@.trackers,
    {
        &self.trackers
    }

    /// Whether `predict` can be called: no live track is so old that its age
    /// cannot be counted any further.
    pub fn can_predict(&self) -> (ok: bool)
        ensures
            ok == self@.can_age(),
    {
        let mut j: usize = 0;
        while j < self.trackers.len()
            invariant
                0 <= j <= self.trackers@.len(),
                forall|i: int| 0 <= i < j ==> (#[trigger] self@.trackers[i]).age < u32::MAX,
            decreases self.trackers@.len() - j,
        {
            if self.trackers[j].age() == u32::MAX {
                proof {
                    assert(self@.trackers[j as int].age == u32::MAX);
                }
                return false;
            }
            j += 1;
        }
        true
    }

    /// Whether `update` can be called with `detections` detections: the frame
    /// fits the machine, and no live track has a streak of associations so long
    /// that it cannot be counted any further.
    pub fn can_update(&self, detections: usize) -> (ok: bool)
        ensures
            ok == (self@.can_hit() && round_fits(detections as nat, self@.trackers.len())),
    {
        let count: usize = self.trackers.len();
        if detections > u32::MAX as usize || count > u32::MAX as usize {
            return false;
        }
        proof {
            assert(detections * count <= 0xFFFF_FFFF * 0xFFFF_FFFF) by (nonlinear_arith)
                requires
                    0 <= detections <= 0xFFFF_FFFF,
                    0 <= count <= 0xFFFF_FFFF,
            ;
        }
        if detections as u128 * count as u128 * 8 > isize::MAX as u128 {
            return false;
        }
        let mut j: usize = 0;
        while j < count
            invariant
                0 <= j <= count,
                count == self.trackers@.len(),
                forall|i: int| 0 <= i < j ==> (#[trigger] self@.trackers[i]).hit_streak < u32::MAX,
            decreases count - j,
        {
            if self.trackers[j].hit_streak() == u32::MAX {
                proof {
                    assert(self@.trackers[j as int].hit_streak == u32::MAX);
                }
                return false;
            }
            j += 1;
        }
        true
    }

    /// Returns the currently tracked objects filtered by min_hit_streak.
    ///
    /// Does not update the state of the tracks.
    pub fn get_trackers(&self) -> (tracks: Vec<Track>)
        ensures
            tracks@ == self@.reported(),
    {
        let mut tracks: Vec<Track> = Vec::new();
        let ghost places = count_up(self.trackers@.len());
        let mut j: usize = 0;
        while j < self.trackers.len()
            invariant
                0 <= j <= self.trackers@.len(),
                places == count_up(self.trackers@.len()),
                tracks@ == places.take(j as int).filter(self@.is_reported()).map_values(
                    self@.track_at(),
                ),
            decreases self.trackers@.len() - j,
        {
            proof {
                lemma_filter_map_next(places, j as int, self@.is_reported(), self@.track_at());
            }
            let tracker = &self.trackers[j];
            if tracker.time_since_update() < 1 && tracker.hit_streak() >= self.min_hit_streak {
                tracks.push(tracker.get_state(j));
            }
            j += 1;
        }
        proof {
            assert(places.take(self.trackers@.len() as int) =~= places);
        }
        tracks
    }

    /// Moves on to the next frame: every track grows one frame older, and the
    /// tracks that went without an association for more than `max_age` frames
    /// are dropped. Tells for every track that was live whether it still is.
    pub fn predict(&mut self) -> (survived: Vec<bool>)
        requires
            old(self)@.valid(),
            old(self)@.can_age(),
        ensures
            final(self)@ == old(self)@.predicted(),
            final(self)@.valid(),
            final(self)@.waiting(),
            final(self)@.within_age(),
            survived@ == old(self)@.survivors(),
            forall|next: u32| #[trigger]
                old(self)@.ids_issued(next) ==> final(self)@.ids_issued(next),
    {
        let count: usize = self.trackers.len();
        let ghost before = self@;
        let mut i: usize = 0;
        while i < count
            invariant
                0 <= i <= count,
                before.valid(),
                before.can_age(),
                before.trackers.len() == count,
                self@ == (OCSortState { trackers: self@.trackers, ..before }),
                self@.trackers.len() == count,
                forall|j: int| 0 <= j < i ==> self@.trackers[j] == before.aged()[j],
                forall|j: int| i <= j < count ==> self@.trackers[j] == before.trackers[j],
            decreases count - i,
        {
            assert(self@.trackers[i as int] == before.trackers[i as int]);
            assert(before.trackers[i as int].valid());
            self.trackers[i].predict();
            i += 1;
        }
        let ghost aged = before.aged();
        let ghost stays = before.stays();
        proof {
            assert(self@.trackers =~= aged);
        }
        let mut survived: Vec<bool> = Vec::new();
        let mut kept: usize = 0;
        let mut seen: usize = 0;
        while seen < count
            invariant
                0 <= kept <= seen <= count,
                aged.len() == count,
                aged == before.aged(),
                stays == before.stays(),
                forall|j: int| 0 <= j < count ==> (#[trigger] aged[j]).valid(),
                self@ == (OCSortState { trackers: self@.trackers, ..before }),
                kept == aged.take(seen as int).filter(stays).len(),
                self.trackers@.len() == kept + count - seen,
                self@.trackers == aged.take(seen as int).filter(stays) + aged.skip(seen as int),
                survived@ == aged.take(seen as int).map_values(stays),
            decreases count - seen,
        {
            proof {
                lemma_filter_next(aged, seen as int, stays);
                assert(aged.take(seen + 1) =~= aged.take(seen as int).push(aged[seen as int]));
                assert(self@.trackers[kept as int] == aged.skip(seen as int)[0]);
            }
            let gone = self.trackers[kept].time_since_update() > self.max_age;
            let ghost prior = self@.trackers;
            if gone {
                self.trackers.remove(kept);
                survived.push(false);
                proof {
                    assert(self@.trackers =~= prior.remove(kept as int));
                    assert(self@.trackers =~= aged.take(seen + 1).filter(stays) + aged.skip(
                        seen + 1,
                    ));
                }
            } else {
                survived.push(true);
                proof {
                    assert(self@.trackers =~= aged.take(seen + 1).filter(stays) + aged.skip(
                        seen + 1,
                    ));
                }
                kept += 1;
            }
            proof {
                assert(survived@ =~= aged.take(seen + 1).map_values(stays));
            }
            seen += 1;
        }
        proof {
            assert(aged.take(count as int) =~= aged);
            assert(self@.trackers =~= aged.filter(stays));
            assert(survived@ =~= before.survivors());
            assert forall|j: int| 0 <= j < self@.trackers.len() implies (
            #[trigger] self@.trackers[j]).valid() by {
                let kept_tracks = aged.filter(stays);
                assert(kept_tracks.contains(kept_tracks[j]));
                aged.lemma_filter_contains_rev(stays, kept_tracks[j]);
            }
            lemma_predicted_within_age(before);
            assert forall|next: u32| #[trigger] before.ids_issued(next) implies self@.ids_issued(
                next,
            ) by {
                lemma_predict_keeps_ids_apart(before, next);
            }
        }
        survived
    }
}

impl OCSort {
    /// Associates the detections of a frame with the live tracks, which
    /// `predict` has moved on to that frame, and starts a track for every
    /// detection with a high score that continues none.
    ///
    /// Uses the OC-SORT algorithm with BYTE association.
    ///
    /// ## Args
    ///  - detections: The detections of the frame.
    ///  - iou_predicted: For every detection and every live tracker, the overlap
    ///    cost of the detection's box with the box that the tracker predicts.
    ///  - momentum: For every detection and every live tracker, the momentum cost
    ///    of the step from the tracker's earlier observation to the detection.
    ///  - iou_observed: For every detection and every live tracker, the overlap
    ///    cost of the detection's box with the box of the tracker's last observation.
    ///  - ids: The source of the ids of new tracks.
    ///
    /// The tables are not read where there are no detections or no live trackers.
    pub fn update(
        &mut self,
        detections: &[Detection],
        iou_predicted: &Matrix<i64>,
        momentum: &Matrix<i64>,
        iou_observed: &Matrix<i64>,
        ids: &mut IdAllocator,
    ) -> (outcome: FrameOutcome)
        requires
            old(self)@.valid(),
            old(self)@.can_hit(),
            round_fits(detections@.len(), old(self)@.trackers.len()),
            detections@.len() > 0 && old(self)@.trackers.len() > 0 ==> table_covers(
                *iou_predicted,
                detections@.len(),
                old(self)@.trackers.len(),
            ) && table_covers(*momentum, detections@.len(), old(self)@.trackers.len())
                && table_covers(*iou_observed, detections@.len(), old(self)@.trackers.len()),
        ensures
            final(self)@ == old(self)@.updated(
                detections@,
                tables_of(*iou_predicted, *momentum, *iou_observed),
                old(ids).upcoming(),
            ),
            final(self)@.valid(),
            final(ids).upcoming() == nth_id(old(ids).upcoming(), outcome.born@.len()),
            outcome.matched@ == old(self)@.matches(
                detections@,
                tables_of(*iou_predicted, *momentum, *iou_observed),
            ),
            outcome.born@ == old(self)@.rounds(
                detections@,
                tables_of(*iou_predicted, *momentum, *iou_observed),
            ).born(),
            outcome.tracks@ == final(self)@.reported(),
            old(self)@.rounds(
                detections@,
                tables_of(*iou_predicted, *momentum, *iou_observed),
            ).complete(detections@, old(self)@.trackers.len(), old(self)@.score_threshold),
            old(self)@.rounds(
                detections@,
                tables_of(*iou_predicted, *momentum, *iou_observed),
            ).distinct(detections@.len(), old(self)@.trackers.len()),
            cascade_is_optimal(
                detections@,
                old(self)@.classes(),
                tables_of(*iou_predicted, *momentum, *iou_observed),
                old(self)@.score_threshold,
                old(self)@.iou_threshold,
            ),
            old(self)@.waiting() ==> marks_matched(
                old(self)@,
                final(self)@,
                old(self)@.rounds(
                    detections@,
                    tables_of(*iou_predicted, *momentum, *iou_observed),
                ),
            ),
            old(self)@.waiting() ==> reports_detected(
                old(self)@,
                final(self)@,
                detections@,
                old(self)@.rounds(
                    detections@,
                    tables_of(*iou_predicted, *momentum, *iou_observed),
                ),
            ),
            old(self)@.ids_issued(old(ids).upcoming()) && old(ids).upcoming() + outcome.born@.len()
                <= u32::MAX ==> final(self)@.ids_issued(final(ids).upcoming()),
    {
        let ghost before = self@;
        let ghost tables = tables_of(*iou_predicted, *momentum, *iou_observed);
        let ghost rounds = before.rounds(detections@, tables);
        let ghost first_id = ids.upcoming();
        let count: usize = self.trackers.len();
        let (high, low) = partition_by_score(detections, self.score_threshold);
        let all = tracker_indices(count);
        proof {
            lemma_score_partition(detections@, self.score_threshold);
            assert(tracker_classes(self.trackers@) =~= before.classes());
            lemma_product_grows(
                high@.len() as int,
                count as int,
                detections@.len() as int,
                count as int,
            );
        }
        let (matched_indices, unmatched_detection_indices, unmatched_tracker_indices) =
            associate_detections_to_trackers(
            detections,
            high.as_slice(),
            self.trackers.as_slice(),
            all.as_slice(),
            self.iou_threshold,
            iou_predicted,
            momentum,
        );
        proof {
            lemma_association_rearranges(
                detection_classes(detections@),
                high@,
                before.classes(),
                all@,
                tables.iou_predicted,
                Some(tables.momentum),
                self.iou_threshold,
            );
            lemma_round_keeps(rounds.primary, high@, all@, detections@.len(), count as nat);
            lemma_product_grows(
                low@.len() as int,
                unmatched_tracker_indices@.len() as int,
                detections@.len() as int,
                count as int,
            );
        }
        let (byte_matched_indices, _, unmatched_tracker_indices) = byte_associate(
            detections,
            low.as_slice(),
            self.trackers.as_slice(),
            unmatched_tracker_indices.as_slice(),
            self.iou_threshold,
            iou_predicted,
        );
        proof {
            lemma_association_rearranges(
                detection_classes(detections@),
                low@,
                before.classes(),
                rounds.primary.unmatched_trackers,
                tables.iou_predicted,
                None,
                self.iou_threshold,
            );
            lemma_round_keeps(
                rounds.byte,
                low@,
                rounds.primary.unmatched_trackers,
                detections@.len(),
                count as nat,
            );
            lemma_product_grows(
                unmatched_detection_indices@.len() as int,
                unmatched_tracker_indices@.len() as int,
                detections@.len() as int,
                count as int,
            );
        }
        let (ocr_matched_indices, unmatched_detection_indices, _) = observation_centric_recovery(
            detections,
            unmatched_detection_indices.as_slice(),
            self.trackers.as_slice(),
            unmatched_tracker_indices.as_slice(),
            self.iou_threshold,
            iou_observed,
        );
        proof {
            lemma_association_rearranges(
                detection_classes(detections@),
                rounds.primary.unmatched_detections,
                before.classes(),
                rounds.byte.unmatched_trackers,
                tables.iou_observed,
                None,
                self.iou_threshold,
            );
            lemma_cascade_distinct(rounds, detections@, count as nat, self.score_threshold);
        }
        let mut pairs = matched_indices;
        let mut byte_matched_indices = byte_matched_indices;
        let mut ocr_matched_indices = ocr_matched_indices;
        pairs.append(&mut byte_matched_indices);
        pairs.append(&mut ocr_matched_indices);
        assert(pairs@ == rounds.matched());
        let mut matched: Vec<Match> = Vec::new();
        let mut k: usize = 0;
        while k < pairs.len()
            invariant
                0 <= k <= pairs@.len(),
                pairs@ == rounds.matched(),
                trackers_of(pairs@).no_duplicates(),
                in_range(trackers_of(pairs@), count as nat),
                before.valid(),
                before.can_hit(),
                before.trackers.len() == count,
                self@ == (OCSortState { trackers: self@.trackers, ..before }),
                self@.trackers.len() == count,
                forall|j: int|
                    0 <= j < count ==> #[trigger] self@.trackers[j] == if matched_before(
                        pairs@,
                        k as int,
                        j,
                    ) {
                        before.trackers[j].updated()
                    } else {
                        before.trackers[j]
                    },
                forall|j: int| 0 <= j < count ==> (#[trigger] self@.trackers[j]).valid(),
                matched@ == pairs@.take(k as int).map_values(before.match_of()),
            decreases pairs@.len() - k,
        {
            let (detection, tracker) = pairs[k];
            proof {
                assert(trackers_of(pairs@)[k as int] == tracker);
                assert(!matched_before(pairs@, k as int, tracker as int)) by {
                    if matched_before(pairs@, k as int, tracker as int) {
                        let i = choose|i: int| 0 <= i < k && #[trigger] pairs@[i].1 == tracker;
                        assert(trackers_of(pairs@)[i] == trackers_of(pairs@)[k as int]);
                    }
                }
                assert(self@.trackers[tracker as int] == before.trackers[tracker as int]);
                assert(before.trackers[tracker as int].hit_streak < u32::MAX);
            }
            let ghost prior = self@.trackers;
            let plan = self.trackers[tracker].update();
            matched.push(Match { detection, tracker, plan });
            proof {
                assert(self@.trackers =~= prior.update(
                    tracker as int,
                    before.trackers[tracker as int].updated(),
                ));
                assert forall|j: int| 0 <= j < count implies #[trigger] self@.trackers[j]
                    == if matched_before(pairs@, k + 1, j) {
                    before.trackers[j].updated()
                } else {
                    before.trackers[j]
                } by {
                    if j == tracker {
                        assert(pairs@[k as int].1 == j);
                    } else if matched_before(pairs@, k + 1, j) {
                        let i = choose|i: int| 0 <= i < k + 1 && #[trigger] pairs@[i].1 == j;
                        assert(i < k);
                    } else if matched_before(pairs@, k as int, j) {
                        let i = choose|i: int| 0 <= i < k && #[trigger] pairs@[i].1 == j;
                        assert(i < k + 1);
                    }
                }
                assert(pairs@.take(k + 1) =~= pairs@.take(k as int).push(pairs@[k as int]));
                pairs@.take(k as int).lemma_push_map_commute(before.match_of(), pairs@[k as int]);
            }
            k += 1;
        }
        proof {
            assert(pairs@.take(pairs@.len() as int) =~= pairs@);
            assert(self@.trackers =~= before.continued(rounds)) by {
                assert forall|j: int| 0 <= j < count implies matched_before(
                    pairs@,
                    pairs@.len() as int,
                    j,
                ) == rounds.is_matched(j) by {
                    if matched_before(pairs@, pairs@.len() as int, j) {
                        let i = choose|i: int|
                            0 <= i < pairs@.len() && #[trigger] pairs@[i].1 == j;
                        assert(rounds.matched()[i].1 == j);
                    }
                    if rounds.is_matched(j) {
                        let i = choose|i: int|
                            0 <= i < rounds.matched().len() && #[trigger] rounds.matched()[i].1
                                == j;
                        assert(pairs@[i].1 == j);
                    }
                }
            }
        }
        let ghost continued = self@.trackers;
        proof {
            let used = detections_of(rounds.matched());
            assert forall|i: int| 0 <= i < rounds.born().len() implies (
            #[trigger] rounds.born()[i]) < detections@.len() by {
                assert((used + rounds.born())[used.len() + i] == rounds.born()[i]);
            }
        }
        let mut b: usize = 0;
        while b < unmatched_detection_indices.len()
            invariant
                0 <= b <= unmatched_detection_indices@.len(),
                unmatched_detection_indices@ == rounds.born(),
                in_range(unmatched_detection_indices@, detections@.len()),
                continued == before.continued(rounds),
                self@ == (OCSortState { trackers: self@.trackers, ..before }),
                self@.trackers == continued + before.started(detections@, rounds, first_id).take(
                    b as int,
                ),
                forall|j: int|
                    0 <= j < self@.trackers.len() ==> (#[trigger] self@.trackers[j]).valid(),
                ids.upcoming() == nth_id(first_id, b as nat),
            decreases unmatched_detection_indices@.len() - b,
        {
            let detection = detections[unmatched_detection_indices[b]];
            let ghost prior = self@.trackers;
            let tracker = KalmanBoxTracker::new(detection.class, self.delta_t, ids);
            self.trackers.push(tracker);
            proof {
                let started = before.started(detections@, rounds, first_id);
                assert(started.take(b + 1) =~= started.take(b as int).push(started[b as int]));
                assert(self@.trackers =~= prior.push(started[b as int]));
                assert(self@.trackers =~= continued + started.take(b + 1));
            }
            b += 1;
        }
        proof {
            let started = before.started(detections@, rounds, first_id);
            assert(started.take(started.len() as int) =~= started);
            assert(self@.trackers.len() == self.trackers.len());
            assert(self@.trackers == before.updated(detections@, tables, first_id).trackers);
            if before.waiting() {
                lemma_update_marks_matched(before, detections@, tables, first_id);
                lemma_reported_follow_detections(before, detections@, tables, first_id);
            }
            if before.ids_issued(first_id) && first_id + rounds.born().len() <= u32::MAX {
                lemma_update_keeps_ids_apart(before, detections@, tables, first_id);
            }
        }
        let tracks = self.get_trackers();
        FrameOutcome { matched, born: unmatched_detection_indices, tracks }
    }
}

/// Some tracker among the first `k` pairs is the one at place `tracker`.
pub open spec fn matched_before(pairs: Seq<(usize, usize)>, k: int, tracker: int) -> bool {
    exists|i: int| 0 <= i < k && #[trigger] pairs[i].1 == tracker
}

/// A product of two sides that both fit in a larger matrix fits as well.
proof fn lemma_product_grows(a: int, b: int, c: int, d: int)
    requires
        0 <= a <= c,
        0 <= b <= d,
    ensures
        a * b * 8 <= c * d * 8,
{
    assert(a * b <= c * d) by (nonlinear_arith)
        requires
            0 <= a <= c,
            0 <= b <= d,
    ;
}

} // verus!
