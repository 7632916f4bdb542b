//! The decisions of a search worker between two writes.
use vstd::prelude::*;

verus! {

/// What a worker does after an attempt to write the next expression.
#[derive(Debug, Clone, Copy, PartialEq, Eq)]
pub enum WorkerAction {
    /// Go on writing.
    Continue,
    /// Report that `count` more expressions were tried, show the current
    /// one, and look at the manager's commands.
    Report { count: u128 },
    /// The task is done: report the last `count` expressions tried, then
    /// that the worker is done.
    Finish { count: u128 },
}

/// The worker's count of expressions tried since its last report, after an
/// attempt to write (`wrote` tells whether it wrote one), and what it does
/// next: every `spacing` expressions it reports and starts counting again,
/// and once the writer has nothing left it reports what it has counted and
/// finishes.
pub fn worker_step(count: u128, spacing: u128, wrote: bool) -> (r: (u128, WorkerAction))
    requires
        wrote ==> count < u128::MAX,
    ensures
        !wrote ==> r == (count, WorkerAction::Finish { count }),
        wrote && count + 1 == spacing ==> r == (0u128, WorkerAction::Report { count: spacing }),
        wrote && count + 1 != spacing ==> r == ((count + 1) as u128, WorkerAction::Continue),
{
    if !wrote {
        return (count, WorkerAction::Finish { count });
    }
    let next = count + 1;
    if next == spacing {
        (0, WorkerAction::Report { count: next })
    } else {
        (next, WorkerAction::Continue)
    }
}

} // verus!
