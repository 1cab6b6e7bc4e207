//! What a module's report of its recovery progress is worth passing on.
use vstd::prelude::*;

verus! {

/// What to do with a report of recovery progress.
#[derive(Clone, Copy, Debug, PartialEq, Eq, Structural)]
pub enum ProgressUpdate {
    /// Pass the report on to whoever listens.
    Forward,
    /// Drop it: recovery is complete when the recovery itself has ended, and
    /// a report that says so before that would mislead.
    IgnoreDone,
    /// Drop it: recovery starts from no progress, and a report of none
    /// afterwards would mislead.
    IgnoreNone,
}

/// Decides what to do with a report, given whether it says that recovery is
/// done and whether it says that there is no progress. A report that says
/// both counts as done.
pub fn recovery_progress_update(is_done: bool, is_none: bool) -> (update: ProgressUpdate)
    ensures
        update == if is_done {
            ProgressUpdate::IgnoreDone
        } else if is_none {
            ProgressUpdate::IgnoreNone
        } else {
            ProgressUpdate::Forward
        },
{
    if is_done {
        ProgressUpdate::IgnoreDone
    } else if is_none {
        ProgressUpdate::IgnoreNone
    } else {
        ProgressUpdate::Forward
    }
}

} // verus!
