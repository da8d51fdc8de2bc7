//! The order in which a motion filter is brought up to date after frames
//! without an observation.

use vstd::prelude::*;

verus! {

/// One step asked of a motion filter.
#[derive(Clone, Copy, Debug, PartialEq, Eq, Structural)]
pub enum FilterStep {
    /// Feed the filter the observation that lies `numerator / denominator` of
    /// the way from the last observation to the new one.
    Update { numerator: u32, denominator: u32 },
    /// Advance the filter by one time step.
    Predict,
}

/// The steps that bring a filter up to date over `steps_between` time steps: one
/// update for each time step, and a prediction between two updates but none
/// after the last.
pub open spec fn update_steps(steps_between: u32) -> Seq<FilterStep> {
    if steps_between == 0 {
        Seq::empty()
    } else {
        Seq::new(
            (2 * steps_between - 1) as nat,
            |i: int|
                if i % 2 == 0 {
                    FilterStep::Update {
                        numerator: (i / 2 + 1) as u32,
                        denominator: steps_between,
                    }
                } else {
                    FilterStep::Predict
                },
        )
    }
}

/// Hands out the steps of `update_steps` one by one.
#[derive(Clone, Debug)]
pub struct UpdateSchedule {
    steps_between: u32,
    position: u64,
}

impl UpdateSchedule {
    /// The schedule covers as many steps as `update_steps` lists and has not run past them.
    pub closed spec fn valid(&self) -> bool {
        self.position <= update_steps(self.steps_between).len()
    }

    /// The steps that are still to come.
    pub closed spec fn remaining(&self) -> Seq<FilterStep> {
        update_steps(self.steps_between).skip(self.position as int)
    }

    /// The schedule for an update that comes `steps_between` time steps after
    /// the last observation.
    pub fn new(steps_between: u32) -> (schedule: Self)
        ensures
            schedule.valid(),
            schedule.remaining() == update_steps(steps_between),
    {
        proof {
            assert(update_steps(steps_between).skip(0) =~= update_steps(steps_between));
        }
        UpdateSchedule { steps_between, position: 0 }
    }

    /// The next step, or `None` once all were handed out.
    pub fn next_step(&mut self) -> (step: Option<FilterStep>)
        requires
            old(self).valid(),
        ensures
            final(self).valid(),
            match step {
                Some(s) => old(self).remaining().len() > 0 && s == old(self).remaining()[0]
                    && final(self).remaining() == old(self).remaining().skip(1),
                None => old(self).remaining().len() == 0 && final(self).remaining() == old(
                    self,
                ).remaining(),
            },
    {
        if self.steps_between == 0 {
            return None;
        }
        let count: u64 = 2 * (self.steps_between as u64) - 1;
        if self.position >= count {
            return None;
        }
        let step = if self.position % 2 == 0 {
            FilterStep::Update {
                numerator: (self.position / 2 + 1) as u32,
                denominator: self.steps_between,
            }
        } else {
            FilterStep::Predict
        };
        proof {
            let all = update_steps(self.steps_between);
            assert(all.skip(self.position as int).skip(1) =~= all.skip(self.position + 1));
        }
        self.position += 1;
        Some(step)
    }
}

} // verus!
