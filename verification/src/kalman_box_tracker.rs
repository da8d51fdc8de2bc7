//! Bookkeeping of one tracked object: its age counters and the ring of the
//! time steps at which it was observed.
//!
//! The motion filter and the boxes themselves are numeric state that the caller
//! keeps beside each tracker; an [`Observation`] tells the caller which of the
//! boxes it recorded is meant.

use crate::id_allocator::{next_id, IdAllocator};
use std::collections::VecDeque;
use vstd::prelude::*;

verus! {

/// One entry of a tracker's ring of observations.
#[derive(Clone, Copy, Debug, PartialEq, Eq, Structural)]
pub struct Observation {
    /// Position of the entry in the ring, the oldest entry at zero.
    pub index: usize,
    /// The tracker's age when the observation was recorded.
    pub time_step: u32,
}

/// A tracked object as it is reported to the outside.
#[derive(Clone, Copy, Debug, PartialEq, Eq, Structural)]
pub struct Track {
    /// Unique id of the object.
    pub id: u32,
    /// The class id of the object.
    pub class: u32,
    /// Position of the object's tracker among the live trackers.
    pub index: usize,
}

/// What an update asks of the numeric state that belongs to a tracker.
#[derive(Clone, Copy, Debug, PartialEq, Eq, Structural)]
pub struct UpdatePlan {
    /// The observation from which the new speed direction is measured; it is
    /// named as the ring stood before the update.
    pub reference: Observation,
    /// Number of time steps since the last observation: the motion filter is
    /// fed that many observations, spread evenly between the last and the new one.
    pub steps_between: u32,
    /// Whether the oldest observation left the ring to make room for the new one.
    pub dropped_oldest: bool,
}

/// Mathematical model of a tracker.
pub struct TrackerState {
    pub id: u32,
    pub class: u32,
    pub delta_t: u32,
    pub age: u32,
    pub hit_streak: u32,
    pub time_since_update: u32,
    /// Time steps of the recorded observations, oldest first.
    pub observations: Seq<u32>,
}

/// Distance between two time steps.
pub open spec fn time_distance(a: u32, b: u32) -> int {
    if a >= b {
        a - b
    } else {
        b - a
    }
}

/// Distance between two time steps.
fn time_steps_apart(a: u32, b: u32) -> (distance: u32)
    ensures
        distance == time_distance(a, b),
{
    if a >= b {
        a - b
    } else {
        b - a
    }
}

impl TrackerState {
    /// The ring is never empty, holds at most `delta_t` entries (one where
    /// `delta_t` is zero), its time steps never decrease, and none lies in the future.
    pub open spec fn valid(self) -> bool {
        &&& 1 <= self.observations.len()
        &&& self.observations.len() <= 1 || self.observations.len() <= self.delta_t
        &&& forall|i: int, j: int|
            0 <= i <= j < self.observations.len() ==> self.observations[i]
                <= self.observations[j]
        &&& self.observations.last() <= self.age
        &&& self.time_since_update <= self.age
    }

    /// A tracker as it is born: seen once, at age zero.
    pub open spec fn born(id: u32, class: u32, delta_t: u32) -> TrackerState {
        TrackerState {
            id,
            class,
            delta_t,
            age: 0,
            hit_streak: 1,
            time_since_update: 0,
            observations: seq![0u32],
        }
    }

    /// The state one frame later, before anything is known of that frame: a
    /// streak ends with the second frame in a row without an observation.
    pub open spec fn predicted(self) -> TrackerState {
        TrackerState {
            age: (self.age + 1) as u32,
            hit_streak: if self.time_since_update > 0 {
                0
            } else {
                self.hit_streak
            },
            time_since_update: (self.time_since_update + 1) as u32,
            ..self
        }
    }

    /// The time step that lies `delta_t` steps back, or zero for a younger tracker.
    pub open spec fn lag_target(self) -> u32 {
        if self.age >= self.delta_t {
            (self.age - self.delta_t) as u32
        } else {
            0
        }
    }

    /// Entry `i` of the ring is the one closest to `delta_t` steps back, and the
    /// earliest of those that are equally close.
    pub open spec fn is_reference(self, i: int) -> bool {
        &&& 0 <= i < self.observations.len()
        &&& forall|j: int|
            0 <= j < self.observations.len() ==> time_distance(
                self.observations[i],
                self.lag_target(),
            ) <= time_distance(#[trigger] self.observations[j], self.lag_target())
        &&& forall|j: int|
            0 <= j < i ==> time_distance(self.observations[i], self.lag_target())
                < time_distance(#[trigger] self.observations[j], self.lag_target())
    }

    /// Position of the observation closest to `delta_t` steps back.
    pub open spec fn reference_index(self) -> int {
        choose|i: int| self.is_reference(i)
    }

    /// The observation closest to `delta_t` steps back.
    pub open spec fn reference(self) -> Observation {
        Observation {
            index: self.reference_index() as usize,
            time_step: self.observations[self.reference_index()],
        }
    }

    /// The most recent observation.
    pub open spec fn last_observation(self) -> Observation {
        Observation {
            index: (self.observations.len() - 1) as usize,
            time_step: self.observations.last(),
        }
    }

    /// Whether the ring is full, so that recording one more observation drops the oldest.
    pub open spec fn ring_full(self) -> bool {
        self.observations.len() >= self.delta_t
    }

    /// The state after an observation at the present age was recorded.
    pub open spec fn updated(self) -> TrackerState {
        TrackerState {
            hit_streak: (self.hit_streak + 1) as u32,
            time_since_update: 0,
            observations: if self.ring_full() {
                self.observations.skip(1).push(self.age)
            } else {
                self.observations.push(self.age)
            },
            ..self
        }
    }

    /// What recording an observation at the present age asks of the numeric state.
    pub open spec fn update_plan(self) -> UpdatePlan {
        UpdatePlan {
            reference: self.reference(),
            steps_between: (self.age - self.observations.last()) as u32,
            dropped_oldest: self.ring_full(),
        }
    }

    /// The track reported for a tracker at position `index`.
    pub open spec fn track(self, index: usize) -> Track {
        Track { id: self.id, class: self.class, index }
    }
}

/// Keeps the books of one tracked object.
#[derive(Debug)]
pub struct KalmanBoxTracker {
    /// The age of the tracked object in time steps.
    age: u32,
    /// The class id of the object.
    class: u32,
    /// The time lag used for speed direction calculations.
    delta_t: u32,
    /// The number of consecutive associations.
    hit_streak: u32,
    /// The id of the tracker.
    id: u32,
    /// Time steps of the previous associations, oldest first.
    prev_observations: VecDeque<u32>,
    /// Time since last association.
    time_since_update: u32,
}

impl View for KalmanBoxTracker {
    type V = TrackerState;

    closed spec fn view(&self) -> TrackerState {
        TrackerState {
            id: self.id,
            class: self.class,
            delta_t: self.delta_t,
            age: self.age,
            hit_streak: self.hit_streak,
            time_since_update: self.time_since_update,
            observations: self.prev_observations@,
        }
    }
}

/// Every valid state has exactly one reference observation.
pub proof fn lemma_reference_unique(state: TrackerState, i: int)
    requires
        state.is_reference(i),
    ensures
        state.reference_index() == i,
        state.is_reference(state.reference_index()),
{
    let k = state.reference_index();
    assert(state.is_reference(k));
    if k < i {
        assert(time_distance(state.observations[i], state.lag_target()) < time_distance(
            state.observations[k],
            state.lag_target(),
        ));
    } else if i < k {
        assert(time_distance(state.observations[k], state.lag_target()) < time_distance(
            state.observations[i],
            state.lag_target(),
        ));
    }
}

impl KalmanBoxTracker {
    /// Creates the tracker of a newly seen object and draws its id from `ids`.
    ///
    /// ## Args:
    ///  - class: The class id of the object.
    ///  - delta_t: The time lag used for speed direction calculations.
    ///  - ids: The source of track ids.
    pub fn new(class: u32, delta_t: u32, ids: &mut IdAllocator) -> (tracker: Self)
        ensures
            tracker@ == TrackerState::born(old(ids).upcoming(), class, delta_t),
            tracker@.valid(),
            final(ids).upcoming() == next_id(old(ids).upcoming()),
    {
        let id: u32 = ids.allocate();
        let mut prev_observations: VecDeque<u32> = VecDeque::new();
        prev_observations.push_back(0);
        proof {
            assert(prev_observations@ =~= seq![0u32]);
        }
        KalmanBoxTracker {
            age: 0,
            class,
            delta_t,
            hit_streak: 1,
            id,
            prev_observations,
            time_since_update: 0,
        }
    }

    /// The id of the tracker.
    pub fn id(&self) -> (id: u32)
        ensures
            id == self@.id,
    {
        self.id
    }

    /// The class id of the object.
    pub fn class(&self) -> (class: u32)
        ensures
            class == self@.class,
    {
        self.class
    }

    /// The time lag used for speed direction calculations.
    pub fn delta_t(&self) -> (delta_t: u32)
        ensures
            delta_t == self@.delta_t,
    {
        self.delta_t
    }

    /// The age of the tracked object in time steps.
    pub fn age(&self) -> (age: u32)
        ensures
            age == self@.age,
    {
        self.age
    }

    /// The number of consecutive associations.
    pub fn hit_streak(&self) -> (hit_streak: u32)
        ensures
            hit_streak == self@.hit_streak,
    {
        self.hit_streak
    }

    /// Time since last association.
    pub fn time_since_update(&self) -> (time_since_update: u32)
        ensures
            time_since_update == self@.time_since_update,
    {
        self.time_since_update
    }

    /// Returns the observation of the last association made to a detection.
    pub fn get_last_observation(&self) -> (observation: Observation)
        requires
            self@.valid(),
        ensures
            observation == self@.last_observation(),
    {
        let index: usize = self.prev_observations.len() - 1;
        Observation { index, time_step: self.prev_observations[index] }
    }

    /// Returns the observation of the tracker that is closest to delta_t
    /// time steps away, the earliest of those equally close.
    pub fn get_observation_dt_time_steps_away(&self) -> (observation: Observation)
        requires
            self@.valid(),
        ensures
            self@.is_reference(observation.index as int),
            observation == self@.reference(),
    {
        let target: u32 = self.age.saturating_sub(self.delta_t);
        let mut best: usize = 0;
        let mut best_distance: u32 = time_steps_apart(self.prev_observations[0], target);
        let mut j: usize = 1;
        while j < self.prev_observations.len()
            invariant
                1 <= j <= self.prev_observations.len(),
                target == self@.lag_target(),
                0 <= best < j,
                best_distance == time_distance(self.prev_observations@[best as int], target),
                forall|k: int|
                    0 <= k < j ==> best_distance <= time_distance(
                        #[trigger] self.prev_observations@[k],
                        target,
                    ),
                forall|k: int|
                    0 <= k < best ==> best_distance < time_distance(
                        #[trigger] self.prev_observations@[k],
                        target,
                    ),
            decreases self.prev_observations.len() - j,
        {
            let distance: u32 = time_steps_apart(self.prev_observations[j], target);
            if distance < best_distance {
                best = j;
                best_distance = distance;
            }
            j += 1;
        }
        proof {
            assert(self@.is_reference(best as int));
            lemma_reference_unique(self@, best as int);
        }
        Observation { index: best, time_step: self.prev_observations[best] }
    }

    /// Returns the Track representation of the currently tracked object, for a
    /// tracker that stands at position `index` among the live trackers.
    pub fn get_state(&self, index: usize) -> (track: Track)
        ensures
            track == self@.track(index),
    {
        Track { id: self.id, class: self.class, index }
    }

    /// Records an association with a detection at the present age and returns
    /// what the numeric state has to do for it.
    pub fn update(&mut self) -> (plan: UpdatePlan)
        requires
            old(self)@.valid(),
            old(self)@.hit_streak < u32::MAX,
        ensures
            final(self)@ == old(self)@.updated(),
            final(self)@.valid(),
            plan == old(self)@.update_plan(),
    {
        let reference = self.get_observation_dt_time_steps_away();
        let last: u32 = self.prev_observations[self.prev_observations.len() - 1];
        let steps_between: u32 = self.age - last;
        let dropped_oldest = self.add_time_step_to_observations();
        self.time_since_update = 0;
        self.hit_streak += 1;
        UpdatePlan { reference, steps_between, dropped_oldest }
    }

    /// Predicts the next state of the object: one frame older, and one frame
    /// longer without an association.
    pub fn predict(&mut self)
        requires
            old(self)@.valid(),
            old(self)@.age < u32::MAX,
        ensures
            final(self)@ == old(self)@.predicted(),
            final(self)@.valid(),
    {
        self.age += 1;
        if self.time_since_update > 0 {
            self.hit_streak = 0;
        }
        self.time_since_update += 1;
    }

    /// Appends the present age to the ring and says whether the oldest entry
    /// had to leave for it.
    fn add_time_step_to_observations(&mut self) -> (dropped_oldest: bool)
        requires
            old(self)@.valid(),
        ensures
            dropped_oldest == old(self)@.ring_full(),
            final(self)@ == (TrackerState {
                observations: old(self)@.updated().observations,
                ..old(self)@
            }),
            final(self)@.valid(),
    {
        let dropped_oldest = self.prev_observations.len() >= self.delta_t as usize;
        if dropped_oldest {
            self.prev_observations.pop_front();
            proof {
                assert(self.prev_observations@ =~= old(self).prev_observations@.skip(1));
            }
        }
        self.prev_observations.push_back(self.age);
        dropped_oldest
    }
}

} // verus!
