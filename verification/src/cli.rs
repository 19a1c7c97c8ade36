//! The command line: its one argument, the usage message and exit codes.

use vstd::prelude::*;

verus! {

/// Why a run ended without a report.
#[derive(Clone, Copy, Debug, PartialEq, Eq, Structural)]
pub enum Failure {
    /// The command line did not have exactly one argument.
    Usage,
    /// The input could not be read, or the report could not be written.
    Io,
    /// The input is not a list of workout records.
    Format,
}

/// The exit code of a run: 0 where it succeeded, 1 where it failed.
pub open spec fn exit_status(outcome: Result<(), Failure>) -> int {
    match outcome {
        Ok(_) => 0,
        Err(_) => 1,
    }
}

/// The exit code with which a run that ended in `outcome` leaves.
pub fn exit_code(outcome: Result<(), Failure>) -> (code: i32)
    ensures
        code == exit_status(outcome),
{
    match outcome {
        Ok(_) => 0,
        Err(_) => 1,
    }
}

/// The line that tells how the program is called.
pub fn usage() -> (s: String)
    ensures
        s@ == "Usage: stats <path_to_workouts.json>"@,
{
    String::from_str("Usage: stats <path_to_workouts.json>")
}

/// The path of the input file: the one argument after the program's name.
/// Any other number of arguments is a usage failure.
pub fn input_path(args: &Vec<String>) -> (r: Result<String, Failure>)
    ensures
        args@.len() == 2 ==> r == Ok::<String, Failure>(args@[1]),
        args@.len() != 2 ==> r == Err::<String, Failure>(Failure::Usage),
{
    if args.len() == 2 {
        Ok(args[1].clone())
    } else {
        Err(Failure::Usage)
    }
}

} // verus!
