//! Decision core of an observation-centric multi-object tracker.
//!
//! The tracker follows objects over the frames of a video. A detector names
//! the objects of each frame; the tracker decides which detection continues
//! which track, which detections start a track, and which tracks end.
//!
//! Everything here is counted in integers. The boxes of detections and tracks,
//! and the motion filter that predicts where a track goes, are numeric state of
//! the caller. The caller states what the boxes mean for a frame in tables of
//! integer costs, and carries out on its numeric state what the tracker decided.
//!
//! A frame goes like this:
//!
//! 1. [`OCSort::predict`] moves every track on to the frame and drops the
//!    tracks that have gone too long without a detection. The caller moves its
//!    motion filters on and drops the same tracks.
//! 2. The caller fills three tables, each with a row for every detection and
//!    a column for every live track: the overlap cost of the detection's box
//!    with the box that the track predicts, the momentum cost of the step from
//!    the track's earlier observation to the detection, and the overlap cost
//!    with the box of the track's last observation. An overlap cost is the
//!    intersection over union of the two boxes, times [`IOU_MULTIPLIER`],
//!    negated; a momentum cost lies between minus [`MOMENTUM_WEIGHT`] and zero.
//! 3. [`OCSort::update`] pairs detections with tracks in three rounds, records
//!    the matches, starts a track for every detection with a high score that
//!    continues none, and says which tracks to report. The caller updates the
//!    filter of every matched track as its [`UpdatePlan`] says, and makes a
//!    filter for every new track.

pub mod associate;
pub mod cascade;
pub mod cost;
pub mod id_allocator;
pub mod kalman_box_tracker;
pub mod lifecycle;
pub mod matching;
pub mod oc_sort_tracker;
pub mod schedule;
pub mod sequences;
pub mod weights;

pub use associate::{
    associate_detections_to_trackers, byte_associate, observation_centric_recovery,
    resolve_assignment,
};
pub use cascade::partition_by_score;
pub use cost::{CLASS_PENALTY, IOU_MULTIPLIER, MOMENTUM_WEIGHT};
pub use id_allocator::IdAllocator;
pub use kalman_box_tracker::{KalmanBoxTracker, Observation, Track, TrackerState, UpdatePlan};
pub use oc_sort_tracker::{Detection, FrameOutcome, Match, OCSort, OCSortState};
pub use schedule::{FilterStep, UpdateSchedule};
