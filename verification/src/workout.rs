//! Workout records and their estimates.

use vstd::prelude::*;
use crate::cli::Failure;
use crate::estimate::{epley, epley_1rm};
use crate::weight::{parsed, Weight};

verus! {

/// One logged set.
#[derive(Clone, Debug, PartialEq, Eq)]
pub struct Workout {
    /// The day of the set, as it was written down.
    pub date: String,
    /// The movement.
    pub exercise: String,
    /// The load, in the unit of the log.
    pub weight: Weight,
    /// How often the load was moved.
    pub reps: u32,
    /// The estimated one-repetition maximum in whole units, once computed.
    pub estimated_1rm: Option<i128>,
}

/// The Epley estimate for a set, rounded to whole units, halves away from
/// zero.
pub open spec fn rounded_estimate(weight: Weight, reps: u32) -> int {
    epley(weight@, reps as nat).rounded()
}

/// The Epley estimate for a set, rounded to whole units.
pub fn estimated_1rm(weight: Weight, reps: u32) -> (r: i128)
    requires
        weight.wf(),
    ensures
        r == rounded_estimate(weight, reps),
{
    epley_1rm(weight, reps).round()
}

impl Workout {
    /// The weight of the record is well formed.
    pub open spec fn wf(self) -> bool {
        self.weight.wf()
    }

    /// The record with its estimate filled in.
    pub open spec fn estimated(self) -> Workout {
        Workout {
            estimated_1rm: Some(rounded_estimate(self.weight, self.reps) as i128),
            ..self
        }
    }

    /// A record without an estimate, from the fields of a log entry. The
    /// weight is read from its decimal text; where that is no weight, the
    /// entry is malformed.
    pub fn from_fields(date: String, exercise: String, weight: &str, reps: u32) -> (r: Result<
        Workout,
        Failure,
    >)
        ensures
            parsed(weight@) is None ==> r == Err::<Workout, Failure>(Failure::Format),
            parsed(weight@) matches Some(w) ==> r == Ok::<Workout, Failure>(
                Workout { date, exercise, weight: w, reps, estimated_1rm: None },
            ) && w.wf(),
    {
        match Weight::parse(weight) {
            Some(w) => Ok(Workout { date, exercise, weight: w, reps, estimated_1rm: None }),
            None => Err(Failure::Format),
        }
    }

    /// Computes the estimate of the record and stores it.
    pub fn estimate(&mut self)
        requires
            old(self).wf(),
        ensures
            *final(self) == old(self).estimated(),
    {
        self.estimated_1rm = Some(estimated_1rm(self.weight, self.reps));
    }
}

/// Fills in the estimate of every record, in place and in order.
pub fn estimate_all(workouts: &mut Vec<Workout>)
    requires
        forall|i: int| 0 <= i < old(workouts)@.len() ==> (#[trigger] old(workouts)@[i]).wf(),
    ensures
        final(workouts)@.len() == old(workouts)@.len(),
        forall|i: int|
            0 <= i < old(workouts)@.len() ==> #[trigger] final(workouts)@[i] == old(
                workouts,
            )@[i].estimated(),
{
    let n = workouts.len();
    let mut i: usize = 0;
    while i < n
        invariant
            i <= n,
            workouts@.len() == n,
            n == old(workouts)@.len(),
            forall|k: int| 0 <= k < i ==> #[trigger] workouts@[k] == old(workouts)@[k].estimated(),
            forall|k: int| i <= k < n ==> #[trigger] workouts@[k] == old(workouts)@[k],
            forall|k: int| 0 <= k < n ==> (#[trigger] old(workouts)@[k]).wf(),
        decreases n - i,
    {
        workouts[i].estimate();
        i = i + 1;
    }
}

} // verus!
