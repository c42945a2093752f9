//! How far a process has come that takes its steps one after the other, and ends with the first that
//! fails.

use vstd::prelude::*;

verus! {

/// How far a process has come.
#[derive(Debug, Clone, Copy, PartialEq, Eq)]
pub enum Progress<S> {
    /// The step to take next.
    Next(S),
    /// Every step has succeeded.
    Succeeded,
    /// A step has failed.
    Failed,
}

/// How far a process of the given steps has come after steps with the given results.
pub open spec fn progress_of<S>(steps: Seq<S>, results: Seq<bool>) -> Progress<S> {
    if results.contains(false) {
        Progress::Failed
    } else if results.len() < steps.len() {
        Progress::Next(steps[results.len() as int])
    } else {
        Progress::Succeeded
    }
}

/// How far a process of the given steps has come after a step that gave `ok`: on to the step after
/// it, or to the end.
pub open spec fn stepped<S>(steps: Seq<S>, step: S, ok: bool) -> Progress<S> {
    let at = steps.index_of(step);
    if !ok {
        Progress::Failed
    } else if at + 1 < steps.len() {
        Progress::Next(steps[at + 1])
    } else {
        Progress::Succeeded
    }
}

/// Taking one step after the other leads through all steps in their order: a process succeeds exactly
/// if each of them does, and no step is taken after one that failed.
pub proof fn steps_are_taken_in_order<S>(steps: Seq<S>, results: Seq<bool>, ok: bool)
    requires
        steps.no_duplicates(),
        progress_of(steps, results) is Next,
    ensures
        stepped(steps, progress_of(steps, results)->Next_0, ok) == progress_of(steps, results.push(ok)),
{
    let step = steps[results.len() as int];
    let at = steps.index_of(step);
    assert(steps.contains(step));
    assert(at == results.len());
    let after = results.push(ok);
    assert(after.last() == ok);
    if after.contains(false) && ok {
        let i = choose|i: int| 0 <= i < after.len() && after[i] == false;
        assert(results[i] == false);
    }
}

} // verus!
