//! How tracks live from frame to frame: what the matches of a frame do to
//! them, which of them are reported, and when they end.

use crate::associate::{detections_of, trackers_of};
use crate::cascade::{
    all_indices, high_score_indices, low_score_indices, Cascade, CostTables,
};
use crate::cost::detection_classes;
use crate::id_allocator::{lemma_nth_id_linear, nth_id};
use crate::matching::lemma_association_same_class;
use crate::oc_sort_tracker::{Detection, OCSortState};
use crate::sequences::{count_up, lemma_filter_count_up, lemma_filter_keeps_order};
use vstd::prelude::*;

verus! {

impl OCSortState {
    /// Every live track has gone a frame or more without an association: the
    /// tracker has moved on to a frame whose detections it has not seen yet.
    pub open spec fn waiting(self) -> bool {
        forall|j: int|
            0 <= j < self.trackers.len() ==> (#[trigger] self.trackers[j]).time_since_update >= 1
    }

    /// No live track has gone more than `max_age` frames without an association.
    pub open spec fn within_age(self) -> bool {
        forall|j: int|
            0 <= j < self.trackers.len() ==> (#[trigger] self.trackers[j]).time_since_update
                <= self.max_age
    }

    /// The ids of the live tracks are below `next` and differ from each other.
    pub open spec fn ids_issued(self, next: u32) -> bool {
        &&& forall|j: int| 0 <= j < self.trackers.len() ==> (#[trigger] self.trackers[j]).id < next
        &&& forall|i: int, j: int|
            0 <= i < j < self.trackers.len() ==> (#[trigger] self.trackers[i]).id != (
            #[trigger] self.trackers[j]).id
    }
}

impl Cascade {
    /// The detection that the track at place `tracker` got in this frame: the
    /// one matched with it, or the one that started it, where `live` trackers
    /// were there before the frame.
    pub open spec fn detection_for(self, tracker: int, live: nat) -> int {
        if tracker < live {
            let k = choose|k: int|
                0 <= k < self.matched().len() && #[trigger] self.matched()[k].1 == tracker;
            self.matched()[k].0 as int
        } else {
            self.born()[tracker - live] as int
        }
    }
}

/// Every track that is reported after a frame got a detection in that frame,
/// by a match or by starting with it, and is of that detection's class.
pub open spec fn reports_detected(
    before: OCSortState,
    after: OCSortState,
    detections: Seq<Detection>,
    rounds: Cascade,
) -> bool {
    forall|i: int|
        0 <= i < after.reported().len() ==> {
            let track = #[trigger] after.reported()[i];
            &&& track.index < before.trackers.len() ==> rounds.is_matched(track.index as int)
            &&& 0 <= rounds.detection_for(track.index as int, before.trackers.len())
                < detections.len()
            &&& track.class == detections[rounds.detection_for(
                track.index as int,
                before.trackers.len(),
            )].class
        }
}

/// A track that was live before the frame has gone zero frames without an
/// association after it if and only if one of the frame's matches names it. A
/// track that the frame started has gone zero frames without one.
pub open spec fn marks_matched(before: OCSortState, after: OCSortState, rounds: Cascade) -> bool {
    &&& forall|j: int|
        0 <= j < before.trackers.len() ==> ((#[trigger] after.trackers[j]).time_since_update == 0
            <==> rounds.is_matched(j))
    &&& forall|j: int|
        before.trackers.len() <= j < after.trackers.len() ==> (
        #[trigger] after.trackers[j]).time_since_update == 0
}

/// After a frame, exactly the tracks that the frame matched or started have
/// gone zero frames without an association.
pub proof fn lemma_update_marks_matched(
    state: OCSortState,
    detections: Seq<Detection>,
    tables: CostTables,
    first_id: u32,
)
    requires
        state.waiting(),
    ensures
        marks_matched(
            state,
            state.updated(detections, tables, first_id),
            state.rounds(detections, tables),
        ),
{
    let rounds = state.rounds(detections, tables);
    let after = state.updated(detections, tables, first_id);
    let continued = state.continued(rounds);
    let started = state.started(detections, rounds, first_id);
    assert forall|j: int| 0 <= j < state.trackers.len() implies ((
    #[trigger] after.trackers[j]).time_since_update == 0 <==> rounds.is_matched(j)) by {
        assert(after.trackers[j] == continued[j]);
        assert(state.trackers[j].time_since_update >= 1);
    }
    assert forall|j: int| state.trackers.len() <= j < after.trackers.len() implies (
    #[trigger] after.trackers[j]).time_since_update == 0 by {
        assert(after.trackers[j] == started[j - state.trackers.len()]);
    }
}

/// In every match of a frame the detection and the tracker are of one class,
/// given that both exist.
proof fn lemma_cascade_same_class(
    state: OCSortState,
    detections: Seq<Detection>,
    tables: CostTables,
    k: int,
)
    requires
        0 <= k < state.rounds(detections, tables).matched().len(),
        state.rounds(detections, tables).matched()[k].0 < detections.len(),
        state.rounds(detections, tables).matched()[k].1 < state.trackers.len(),
    ensures
        detections[state.rounds(detections, tables).matched()[k].0 as int].class
            == state.trackers[state.rounds(detections, tables).matched()[k].1 as int].class,
{
    let rounds = state.rounds(detections, tables);
    let classes = detection_classes(detections);
    lemma_association_same_class(
        classes,
        high_score_indices(detections, state.score_threshold),
        state.classes(),
        all_indices(state.classes().len()),
        tables.iou_predicted,
        Some(tables.momentum),
        state.iou_threshold,
    );
    lemma_association_same_class(
        classes,
        low_score_indices(detections, state.score_threshold),
        state.classes(),
        rounds.primary.unmatched_trackers,
        tables.iou_predicted,
        None,
        state.iou_threshold,
    );
    lemma_association_same_class(
        classes,
        rounds.primary.unmatched_detections,
        state.classes(),
        rounds.byte.unmatched_trackers,
        tables.iou_observed,
        None,
        state.iou_threshold,
    );
    let first = rounds.primary.matched.len();
    let second = rounds.byte.matched.len();
    if k < first {
        assert(rounds.matched()[k] == rounds.primary.matched[k]);
    } else if k < first + second {
        assert(rounds.matched()[k] == rounds.byte.matched[k - first]);
    } else {
        assert(rounds.matched()[k] == rounds.recovery.matched[k - first - second]);
    }
}

/// Every track that is reported after a frame was matched in that frame or
/// started by it, and its class is the class of the detection that it got.
pub proof fn lemma_reported_follow_detections(
    state: OCSortState,
    detections: Seq<Detection>,
    tables: CostTables,
    first_id: u32,
)
    requires
        state.waiting(),
        state.rounds(detections, tables).distinct(detections.len(), state.trackers.len()),
        state.updated(detections, tables, first_id).trackers.len() <= usize::MAX,
    ensures
        reports_detected(
            state,
            state.updated(detections, tables, first_id),
            detections,
            state.rounds(detections, tables),
        ),
{
    let rounds = state.rounds(detections, tables);
    let after = state.updated(detections, tables, first_id);
    let live = state.trackers.len();
    let used = detections_of(rounds.matched());
    lemma_update_marks_matched(state, detections, tables, first_id);
    lemma_filter_count_up(after.trackers.len(), after.is_reported());
    let places = count_up(after.trackers.len()).filter(after.is_reported());
    assert forall|i: int| 0 <= i < after.reported().len() implies {
        let track = #[trigger] after.reported()[i];
        &&& track.index < live ==> rounds.is_matched(track.index as int)
        &&& 0 <= rounds.detection_for(track.index as int, live) < detections.len()
        &&& track.class == detections[rounds.detection_for(track.index as int, live)].class
    } by {
        let j = places[i];
        let track = after.reported()[i];
        assert(0 <= j < after.trackers.len());
        assert(after.is_reported()(j));
        assert(track == after.track_at()(j));
        assert(track == after.trackers[j].track(j as usize));
        assert(track.index as int == j);
        assert(after.trackers[j].time_since_update == 0);
        if j < live {
            assert(rounds.is_matched(j));
            let k = choose|k: int|
                0 <= k < rounds.matched().len() && #[trigger] rounds.matched()[k].1 == j;
            assert forall|other: int|
                0 <= other < rounds.matched().len() && #[trigger] rounds.matched()[other].1
                    == j implies other == k by {
                assert(trackers_of(rounds.matched())[other] == trackers_of(rounds.matched())[k]);
            }
            assert(rounds.detection_for(j, live) == rounds.matched()[k].0);
            assert(used[k] == rounds.matched()[k].0);
            assert((used + rounds.born())[k] == used[k]);
            assert(rounds.matched()[k].0 < detections.len());
            assert(trackers_of(rounds.matched())[k] == j);
            lemma_cascade_same_class(state, detections, tables, k);
            assert(after.trackers[j] == state.continued(rounds)[j]);
            assert(track.class == state.trackers[j].class);
        } else {
            let b = j - live;
            assert(after.trackers[j] == state.started(detections, rounds, first_id)[b]);
            assert((used + rounds.born())[used.len() + b] == rounds.born()[b]);
            assert(rounds.detection_for(j, live) == rounds.born()[b]);
        }
    }
}

/// A frame never hands out an id twice: where the ids of the live tracks
/// differ and lie below the next id to come, and the counter does not wrap
/// around within the frame, the same holds after the frame, and the tracks
/// that it started have the ids from `first_id` on, in rising order.
pub proof fn lemma_update_keeps_ids_apart(
    state: OCSortState,
    detections: Seq<Detection>,
    tables: CostTables,
    first_id: u32,
)
    requires
        state.ids_issued(first_id),
        first_id + state.rounds(detections, tables).born().len() <= u32::MAX,
    ensures
        state.updated(detections, tables, first_id).ids_issued(
            nth_id(first_id, state.rounds(detections, tables).born().len()),
        ),
        forall|k: int|
            0 <= k < state.rounds(detections, tables).born().len() ==> (#[trigger] state.updated(
                detections,
                tables,
                first_id,
            ).trackers[state.trackers.len() + k]).id == first_id + k,
{
    let rounds = state.rounds(detections, tables);
    let after = state.updated(detections, tables, first_id);
    let live = state.trackers.len();
    let started = state.started(detections, rounds, first_id);
    let next = nth_id(first_id, rounds.born().len());
    lemma_nth_id_linear(first_id, rounds.born().len());
    assert forall|j: int| 0 <= j < after.trackers.len() implies (#[trigger] after.trackers[j]).id
        < next && (j < live ==> after.trackers[j].id == state.trackers[j].id) && (j >= live
        ==> after.trackers[j].id == first_id + (j - live)) by {
        if j < live {
            assert(after.trackers[j] == state.continued(rounds)[j]);
        } else {
            assert(after.trackers[j] == started[j - live]);
            lemma_nth_id_linear(first_id, (j - live) as nat);
        }
    }
    assert forall|k: int| 0 <= k < rounds.born().len() implies (#[trigger] after.trackers[live
        + k]).id == first_id + k by {
        assert(after.trackers[live + k] == started[k]);
        lemma_nth_id_linear(first_id, k as nat);
    }
}

/// Dropping tracks makes no two ids equal: where the ids of the live tracks
/// differ and lie below `next`, they still do one frame later.
pub proof fn lemma_predict_keeps_ids_apart(state: OCSortState, next: u32)
    requires
        state.ids_issued(next),
    ensures
        state.predicted().ids_issued(next),
{
    let aged = state.aged();
    let kept = aged.filter(state.stays());
    assert forall|j: int| 0 <= j < kept.len() implies (#[trigger] kept[j]).id < next by {
        assert(kept.contains(kept[j]));
        aged.lemma_filter_contains_rev(state.stays(), kept[j]);
        let w = choose|w: int| 0 <= w < aged.len() && aged[w] == kept[j];
        assert(aged[w].id == state.trackers[w].id);
    }
    assert forall|i: int, j: int| 0 <= i < j < kept.len() implies (#[trigger] kept[i]).id != (
    #[trigger] kept[j]).id by {
        lemma_filter_keeps_order(aged, state.stays(), i, j);
        let (a, b) = choose|a: int, b: int|
            0 <= a < b < aged.len() && aged[a] == kept[i] && aged[b] == kept[j];
        assert(aged[a].id == state.trackers[a].id);
        assert(aged[b].id == state.trackers[b].id);
    }
}

/// One frame later every live track has gone one frame at least and `max_age`
/// frames at most without an association: a track that went longer is gone.
pub proof fn lemma_predicted_within_age(state: OCSortState)
    requires
        state.can_age(),
        state.valid(),
    ensures
        state.predicted().within_age(),
        state.predicted().waiting(),
{
    let aged = state.aged();
    let kept = aged.filter(state.stays());
    assert forall|j: int| 0 <= j < kept.len() implies (#[trigger] kept[j]).time_since_update
        <= state.max_age && kept[j].time_since_update >= 1 by {
        aged.lemma_filter_pred(state.stays(), j);
        assert(kept.contains(kept[j]));
        aged.lemma_filter_contains_rev(state.stays(), kept[j]);
        let w = choose|w: int| 0 <= w < aged.len() && aged[w] == kept[j];
        assert(aged[w] == state.trackers[w].predicted());
        assert(state.trackers[w].valid());
    }
}

impl OCSortState {
    /// Some live track has the id `id`.
    pub open spec fn holds_id(self, id: u32) -> bool {
        exists|j: int| 0 <= j < self.trackers.len() && (#[trigger] self.trackers[j]).id == id
    }
}

/// A reported track is a live track: its id is the id of the tracker at the
/// place that it names.
pub proof fn lemma_reported_are_live(state: OCSortState, i: int)
    requires
        0 <= i < state.reported().len(),
        state.trackers.len() <= usize::MAX,
    ensures
        state.reported()[i].index < state.trackers.len(),
        state.reported()[i].id == state.trackers[state.reported()[i].index as int].id,
        state.trackers[state.reported()[i].index as int].time_since_update == 0,
        state.holds_id(state.reported()[i].id),
{
    lemma_filter_count_up(state.trackers.len(), state.is_reported());
    let places = count_up(state.trackers.len()).filter(state.is_reported());
    let j = places[i];
    assert(state.is_reported()(j));
    assert(state.reported()[i] == state.track_at()(j));
    assert(state.trackers[j].id == state.reported()[i].id);
}

/// A track that has gone `max_age` frames without an association and goes
/// without one again is gone one frame later: no live track has its id then.
pub proof fn lemma_stale_track_leaves(state: OCSortState, j: int, next: u32)
    requires
        state.ids_issued(next),
        0 <= j < state.trackers.len(),
        state.max_age <= state.trackers[j].time_since_update < u32::MAX,
    ensures
        !state.predicted().holds_id(state.trackers[j].id),
{
    let aged = state.aged();
    let kept = aged.filter(state.stays());
    if state.predicted().holds_id(state.trackers[j].id) {
        let k = choose|k: int| 0 <= k < kept.len() && (#[trigger] kept[k]).id == state.trackers[j].id;
        aged.lemma_filter_pred(state.stays(), k);
        assert(kept.contains(kept[k]));
        aged.lemma_filter_contains_rev(state.stays(), kept[k]);
        let w = choose|w: int| 0 <= w < aged.len() && aged[w] == kept[k];
        assert(aged[w] == state.trackers[w].predicted());
        assert(state.trackers[w].id == state.trackers[j].id);
        assert(w == j);
        assert(aged[j] == state.trackers[j].predicted());
    }
}

/// An id that was issued and that no live track has does not come back: not
/// when tracks are dropped, and not when a frame starts new tracks, as long
/// as the counter of ids does not wrap around.
pub proof fn lemma_dropped_stays_out(
    state: OCSortState,
    id: u32,
    detections: Seq<Detection>,
    tables: CostTables,
    first_id: u32,
)
    requires
        !state.holds_id(id),
        id < first_id,
        first_id + state.rounds(detections, tables).born().len() <= u32::MAX,
    ensures
        !state.predicted().holds_id(id),
        !state.updated(detections, tables, first_id).holds_id(id),
{
    let aged = state.aged();
    let kept = aged.filter(state.stays());
    if state.predicted().holds_id(id) {
        let k = choose|k: int| 0 <= k < kept.len() && (#[trigger] kept[k]).id == id;
        assert(kept.contains(kept[k]));
        aged.lemma_filter_contains_rev(state.stays(), kept[k]);
        let w = choose|w: int| 0 <= w < aged.len() && aged[w] == kept[k];
        assert(aged[w] == state.trackers[w].predicted());
        assert(state.trackers[w].id == id);
    }
    let rounds = state.rounds(detections, tables);
    let after = state.updated(detections, tables, first_id);
    if after.holds_id(id) {
        let k = choose|k: int| 0 <= k < after.trackers.len() && (#[trigger] after.trackers[k]).id == id;
        if k < state.trackers.len() {
            assert(after.trackers[k] == state.continued(rounds)[k]);
            assert(state.trackers[k].id == id);
        } else {
            let b = k - state.trackers.len();
            assert(after.trackers[k] == state.started(detections, rounds, first_id)[b]);
            lemma_nth_id_linear(first_id, b as nat);
        }
    }
}

/// What a frame brings: the detections and what their boxes mean for the association.
pub struct Frame {
    pub detections: Seq<Detection>,
    pub tables: CostTables,
}

impl OCSortState {
    /// The tracker after a whole frame: it has moved on to the frame and then
    /// looked at the frame's detections.
    pub open spec fn framed(self, frame: Frame, first_id: u32) -> OCSortState {
        self.predicted().updated(frame.detections, frame.tables, first_id)
    }

    /// The number of tracks that a frame starts.
    pub open spec fn started_in(self, frame: Frame) -> nat {
        self.predicted().rounds(frame.detections, frame.tables).born().len()
    }

    /// The track with the id `id` goes without a match in a frame: if the
    /// track is still live when the detections are looked at, no match names it.
    pub open spec fn misses(self, frame: Frame, id: u32) -> bool {
        forall|j: int|
            0 <= j < self.predicted().trackers.len() && (
            #[trigger] self.predicted().trackers[j]).id == id ==> !self.predicted().rounds(
                frame.detections,
                frame.tables,
            ).is_matched(j)
    }
}

/// The tracker and the next id to come after a run of frames.
pub open spec fn run(state: OCSortState, first_id: u32, frames: Seq<Frame>) -> (OCSortState, u32)
    decreases frames.len(),
{
    if frames.len() == 0 {
        (state, first_id)
    } else {
        let (before, next) = run(state, first_id, frames.drop_last());
        (before.framed(frames.last(), next), nth_id(next, before.started_in(frames.last())))
    }
}

/// The track with the id `id` goes without a match in every frame of a run,
/// and the counter of ids does not wrap around during the run.
pub open spec fn misses_throughout(
    state: OCSortState,
    first_id: u32,
    frames: Seq<Frame>,
    id: u32,
) -> bool {
    forall|i: int|
        0 <= i < frames.len() ==> (#[trigger] run(state, first_id, frames.take(i))).0.misses(
            frames[i],
            id,
        ) && run(state, first_id, frames.take(i)).1 + run(
            state,
            first_id,
            frames.take(i),
        ).0.started_in(frames[i]) <= u32::MAX
}

/// After a whole frame, exactly the tracks that the frame matched or started
/// have gone zero frames without an association.
pub proof fn lemma_frame_marks_matched(state: OCSortState, frame: Frame, first_id: u32)
    requires
        state.valid(),
        state.can_age(),
    ensures
        marks_matched(
            state.predicted(),
            state.framed(frame, first_id),
            state.predicted().rounds(frame.detections, frame.tables),
        ),
{
    lemma_predicted_within_age(state);
    lemma_update_marks_matched(state.predicted(), frame.detections, frame.tables, first_id);
}

/// After a whole frame no live track has gone more than `max_age` frames
/// without an association.
pub proof fn lemma_framed_within_age(state: OCSortState, frame: Frame, first_id: u32)
    ensures
        state.framed(frame, first_id).within_age(),
        state.framed(frame, first_id).max_age == state.max_age,
{
    let moved = state.predicted();
    let rounds = moved.rounds(frame.detections, frame.tables);
    let after = state.framed(frame, first_id);
    let kept = state.aged().filter(state.stays());
    assert forall|j: int| 0 <= j < after.trackers.len() implies (
    #[trigger] after.trackers[j]).time_since_update <= after.max_age by {
        if j < moved.trackers.len() {
            assert(after.trackers[j] == moved.continued(rounds)[j]);
            state.aged().lemma_filter_pred(state.stays(), j);
        } else {
            assert(after.trackers[j] == moved.started(frame.detections, rounds, first_id)[j
                - moved.trackers.len()]);
        }
    }
}

/// What a run of frames without a match does to a track: as long as the track
/// is live, it has gone as many frames without an association as the run has.
proof fn lemma_missed_track_ages(
    state: OCSortState,
    first_id: u32,
    frames: Seq<Frame>,
    place: int,
)
    requires
        state.ids_issued(first_id),
        0 <= place < state.trackers.len(),
        state.trackers[place].time_since_update <= state.trackers[place].age,
        state.trackers[place].age + frames.len() <= u32::MAX,
        misses_throughout(state, first_id, frames, state.trackers[place].id),
    ensures
        run(state, first_id, frames).0.ids_issued(run(state, first_id, frames).1),
        state.trackers[place].id < run(state, first_id, frames).1,
        run(state, first_id, frames).0.max_age == state.max_age,
        forall|j: int|
            0 <= j < run(state, first_id, frames).0.trackers.len() && (#[trigger] run(
                state,
                first_id,
                frames,
            ).0.trackers[j]).id == state.trackers[place].id ==> {
                let track = run(state, first_id, frames).0.trackers[j];
                &&& track.time_since_update >= frames.len()
                &&& track.time_since_update <= track.age
                &&& track.age == state.trackers[place].age + frames.len()
            },
    decreases frames.len(),
{
    let id = state.trackers[place].id;
    if frames.len() > 0 {
        let earlier = frames.drop_last();
        let frame = frames.last();
        assert(earlier =~= frames.take(frames.len() - 1));
        assert forall|i: int| 0 <= i < earlier.len() implies (#[trigger] run(
            state,
            first_id,
            earlier.take(i),
        )).0.misses(earlier[i], id) && run(state, first_id, earlier.take(i)).1 + run(
            state,
            first_id,
            earlier.take(i),
        ).0.started_in(earlier[i]) <= u32::MAX by {
            assert(earlier.take(i) =~= frames.take(i));
            assert(run(state, first_id, frames.take(i)).0.misses(frames[i], id));
        }
        lemma_missed_track_ages(state, first_id, earlier, place);
        let (before, next) = run(state, first_id, earlier);
        assert(run(state, first_id, frames.take(frames.len() - 1)).0.misses(
            frames[frames.len() - 1],
            id,
        ));
        assert(before.misses(frame, id));
        let moved = before.predicted();
        let rounds = moved.rounds(frame.detections, frame.tables);
        let after = before.framed(frame, next);
        let born = before.started_in(frame);
        lemma_predict_keeps_ids_apart(before, next);
        lemma_update_keeps_ids_apart(moved, frame.detections, frame.tables, next);
        lemma_nth_id_linear(next, born);
        let aged = before.aged();
        let kept = aged.filter(before.stays());
        assert forall|j: int| 0 <= j < after.trackers.len() && (#[trigger] after.trackers[j]).id
            == id implies {
            let track = after.trackers[j];
            &&& track.time_since_update >= frames.len()
            &&& track.time_since_update <= track.age
            &&& track.age == state.trackers[place].age + frames.len()
        } by {
            if j < moved.trackers.len() {
                assert(after.trackers[j] == moved.continued(rounds)[j]);
                assert(moved.trackers[j].id == id);
                assert(!rounds.is_matched(j));
                assert(kept.contains(kept[j]));
                aged.lemma_filter_contains_rev(before.stays(), kept[j]);
                let w = choose|w: int| 0 <= w < aged.len() && aged[w] == kept[j];
                assert(aged[w] == before.trackers[w].predicted());
                assert(before.trackers[w].id == id);
            } else {
                let b = j - moved.trackers.len();
                assert(after.trackers[j] == moved.started(frame.detections, rounds, next)[b]);
                lemma_nth_id_linear(next, b as nat);
            }
        }
    }
}

/// A track that goes without a match for more than `max_age` frames in a row
/// is gone after them: no live track has its id then.
pub proof fn lemma_missed_track_ends(
    state: OCSortState,
    first_id: u32,
    frames: Seq<Frame>,
    place: int,
)
    requires
        state.ids_issued(first_id),
        0 <= place < state.trackers.len(),
        state.trackers[place].time_since_update <= state.trackers[place].age,
        state.trackers[place].age + frames.len() <= u32::MAX,
        misses_throughout(state, first_id, frames, state.trackers[place].id),
        frames.len() > state.max_age,
    ensures
        !run(state, first_id, frames).0.holds_id(state.trackers[place].id),
{
    let id = state.trackers[place].id;
    let (after, next) = run(state, first_id, frames);
    lemma_missed_track_ages(state, first_id, frames, place);
    let (before, first) = run(state, first_id, frames.drop_last());
    lemma_framed_within_age(before, frames.last(), first);
    lemma_run_keeps_max_age(state, first_id, frames.drop_last());
    if after.holds_id(id) {
        let j = choose|j: int| 0 <= j < after.trackers.len() && (#[trigger] after.trackers[j]).id == id;
        assert(after.trackers[j].time_since_update >= frames.len());
        assert(after.trackers[j].time_since_update <= after.max_age);
    }
}

/// A run of frames leaves the settings of the tracker as they are.
pub proof fn lemma_run_keeps_max_age(state: OCSortState, first_id: u32, frames: Seq<Frame>)
    ensures
        run(state, first_id, frames).0.max_age == state.max_age,
    decreases frames.len(),
{
    if frames.len() > 0 {
        lemma_run_keeps_max_age(state, first_id, frames.drop_last());
    }
}

/// A track that goes without a match in a frame is not reported after that frame.
pub proof fn lemma_missed_track_not_reported(
    state: OCSortState,
    frame: Frame,
    first_id: u32,
    id: u32,
    i: int,
)
    requires
        state.valid(),
        state.can_age(),
        state.ids_issued(first_id),
        id < first_id,
        first_id + state.started_in(frame) <= u32::MAX,
        state.misses(frame, id),
        state.framed(frame, first_id).trackers.len() <= usize::MAX,
        0 <= i < state.framed(frame, first_id).reported().len(),
    ensures
        state.framed(frame, first_id).reported()[i].id != id,
{
    let moved = state.predicted();
    let rounds = moved.rounds(frame.detections, frame.tables);
    let after = state.framed(frame, first_id);
    lemma_predicted_within_age(state);
    lemma_update_marks_matched(moved, frame.detections, frame.tables, first_id);
    lemma_reported_are_live(after, i);
    let j = after.reported()[i].index as int;
    if after.reported()[i].id == id {
        if j < moved.trackers.len() {
            assert(after.trackers[j] == moved.continued(rounds)[j]);
            assert(moved.trackers[j].id == id);
            assert(!rounds.is_matched(j));
        } else {
            let b = j - moved.trackers.len();
            assert(after.trackers[j] == moved.started(frame.detections, rounds, first_id)[b]);
            lemma_nth_id_linear(first_id, b as nat);
        }
    }
}

} // verus!
