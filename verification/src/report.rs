//! The report: a banner and one line for each record.

use vstd::prelude::*;
use crate::digits::{append_int, append_nat, int_text, nat_text};
use crate::workout::{estimate_all, Workout};

verus! {

/// The first line of every report.
pub open spec fn banner_text() -> Seq<char> {
    "Stats Calculation"@
}

/// The line of one record: date, exercise, weight and repetitions as they
/// are written, and the estimate in whole units.
pub open spec fn line_text(w: Workout) -> Seq<char> {
    w.date@ + "  |  "@ + w.exercise@ + "  | "@ + w.weight.text() + " lb x "@ + nat_text(
        w.reps as nat,
    ) + " reps -> est. 1RM: "@ + int_text(w.estimated_1rm->0 as int) + " lb"@
}

/// The first line of every report.
pub fn banner() -> (s: String)
    ensures
        s@ == banner_text(),
{
    String::from_str("Stats Calculation")
}

/// The report line of a record whose estimate has been computed.
pub fn report_line(w: &Workout) -> (s: String)
    requires
        w.wf(),
        w.estimated_1rm is Some,
    ensures
        s@ == line_text(*w),
{
    let mut s = w.date.clone();
    s.append("  |  ");
    s.append(w.exercise.as_str());
    s.append("  | ");
    w.weight.append_to(&mut s);
    s.append(" lb x ");
    append_nat(&mut s, w.reps as u128);
    s.append(" reps -> est. 1RM: ");
    match w.estimated_1rm {
        Some(estimate) => append_int(&mut s, estimate),
        None => {},
    }
    s.append(" lb");
    s
}

/// The whole report: the banner, then the line of each record, in the
/// order of the records.
pub fn report(workouts: &Vec<Workout>) -> (lines: Vec<String>)
    requires
        forall|i: int|
            0 <= i < workouts@.len() ==> (#[trigger] workouts@[i]).wf()
                && workouts@[i].estimated_1rm is Some,
    ensures
        lines@.len() == workouts@.len() + 1,
        lines@[0]@ == banner_text(),
        forall|j: int|
            1 <= j < lines@.len() ==> (#[trigger] lines@[j])@ == line_text(workouts@[j - 1]),
{
    let mut lines: Vec<String> = Vec::new();
    lines.push(banner());
    let mut i: usize = 0;
    while i < workouts.len()
        invariant
            i <= workouts@.len(),
            lines@.len() == i + 1,
            lines@[0]@ == banner_text(),
            forall|j: int|
                1 <= j < lines@.len() ==> (#[trigger] lines@[j])@ == line_text(workouts@[j - 1]),
            forall|k: int|
                0 <= k < workouts@.len() ==> (#[trigger] workouts@[k]).wf()
                    && workouts@[k].estimated_1rm is Some,
        decreases workouts@.len() - i,
    {
        lines.push(report_line(&workouts[i]));
        i = i + 1;
    }
    lines
}

/// Estimates every record and gives the report of the estimated records:
/// as many lines after the banner as there are records, in their order.
pub fn estimate_and_report(workouts: &mut Vec<Workout>) -> (lines: Vec<String>)
    requires
        forall|i: int| 0 <= i < old(workouts)@.len() ==> (#[trigger] old(workouts)@[i]).wf(),
    ensures
        final(workouts)@.len() == old(workouts)@.len(),
        forall|i: int|
            0 <= i < old(workouts)@.len() ==> #[trigger] final(workouts)@[i] == old(
                workouts,
            )@[i].estimated(),
        lines@.len() == old(workouts)@.len() + 1,
        lines@[0]@ == banner_text(),
        forall|j: int|
            1 <= j < lines@.len() ==> (#[trigger] lines@[j])@ == line_text(
                old(workouts)@[j - 1].estimated(),
            ),
{
    estimate_all(workouts);
    report(workouts)
}

} // verus!
