//! What a run is asked to do, and what it then does.

use crate::error::Error;
use vstd::prelude::*;

verus! {

/// The threshold of a run that was given none.
pub const DEFAULT_THRESHOLD: u32 = 1;

/// What a run is asked to do.
#[derive(Debug, Clone, Copy, PartialEq, Eq, Structural)]
pub enum Mode {
    /// Digest the inputs and write their records.
    Generate,
    /// Read one or two files of records and compare them.
    Compare,
    /// Digest the inputs and compare all pairs of them.
    GenerateAndCompare,
}

/// The configuration of one run.
#[derive(Debug, Clone)]
pub struct RunOptions {
    pub mode: Mode,
    /// Results with a lower score are not reported.
    pub threshold: u32,
    /// The number of worker threads.
    pub workers: usize,
    /// The paths to read.
    pub inputs: Vec<String>,
    /// Where to write; `None` is the standard output.
    pub output: Option<String>,
}

/// The work that a run does.
#[derive(Debug, Clone, Copy, PartialEq, Eq, Structural)]
pub enum Task {
    /// Digest every input and write the records.
    Generate,
    /// Read the one file of records and compare it with itself.
    CompareWithin,
    /// Read the two files of records and compare the first with the second.
    CompareAcross,
    /// Digest every input and compare the digests with one another.
    GenerateAndCompare,
}

/// The mode that two switches ask for: comparing files of records comes
/// before digesting and comparing, and with neither switch the inputs are
/// only digested.
pub open spec fn mode_of(compare: bool, compare_all: bool) -> Mode {
    if compare {
        Mode::Compare
    } else if compare_all {
        Mode::GenerateAndCompare
    } else {
        Mode::Generate
    }
}

/// The mode that two switches of the command line ask for.
pub fn select_mode(compare: bool, compare_all: bool) -> (mode: Mode)
    ensures
        mode == mode_of(compare, compare_all),
{
    if compare {
        Mode::Compare
    } else if compare_all {
        Mode::GenerateAndCompare
    } else {
        Mode::Generate
    }
}

/// The task of a run, or why there is none. A run needs at least one worker;
/// a comparison of files takes one file or two.
pub open spec fn task_for(mode: Mode, workers: nat, inputs: nat) -> Result<Task, Error> {
    if workers == 0 {
        Err(Error::PoolInit)
    } else {
        match mode {
            Mode::Generate => Ok(Task::Generate),
            Mode::GenerateAndCompare => Ok(Task::GenerateAndCompare),
            Mode::Compare => if inputs == 1 {
                Ok(Task::CompareWithin)
            } else if inputs == 2 {
                Ok(Task::CompareAcross)
            } else {
                Err(Error::Arity { given: inputs as usize })
            },
        }
    }
}

/// Whether a task compares a list of records with itself.
pub open spec fn compares_with_itself(task: Task) -> bool {
    task == Task::CompareWithin || task == Task::GenerateAndCompare
}

/// Decides what a run does.
pub fn plan(options: &RunOptions) -> (task: Result<Task, Error>)
    ensures
        task == task_for(options.mode, options.workers as nat, options.inputs.len() as nat),
{
    if options.workers == 0 {
        return Err(Error::PoolInit);
    }
    match options.mode {
        Mode::Generate => Ok(Task::Generate),
        Mode::GenerateAndCompare => Ok(Task::GenerateAndCompare),
        Mode::Compare => {
            let given = options.inputs.len();
            if given == 1 {
                Ok(Task::CompareWithin)
            } else if given == 2 {
                Ok(Task::CompareAcross)
            } else {
                Err(Error::Arity { given })
            }
        },
    }
}

/// Whether a task compares a list of records with itself, so that only the
/// pairs above the diagonal are scored.
pub fn is_self_comparison(task: Task) -> (same: bool)
    ensures
        same == compares_with_itself(task),
{
    match task {
        Task::CompareWithin => true,
        Task::GenerateAndCompare => true,
        Task::Generate => false,
        Task::CompareAcross => false,
    }
}

} // verus!
