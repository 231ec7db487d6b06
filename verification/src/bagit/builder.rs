//! The run of a bag's creation: which step comes next, and where a run has failed.
//!
//! The steps themselves read and write files and are not performed here. Whoever performs
//! them asks `pending` for the step to take, takes it, and hands its outcome to `advance`.

use vstd::prelude::*;

verus! {

/// Where a run of bag creation stands.
#[derive(Debug, Clone, Copy, PartialEq, Eq, Structural)]
pub enum BuildState {
    Start,
    /// The payload is taken to be in place already: nothing is written.
    WritePayload,
    ComputeManifests,
    WriteBagDeclaration,
    /// Bag info is computed, with the payload's size and the bagging date, and written.
    ComputeAndWriteBagInfo,
    /// The manifests of `bagit.txt`, `bag-info.txt` and the payload manifests are written.
    WriteTagManifests,
    Done,
    /// The step of the state `at` has failed, and the run with it.
    Failed { at: Step },
}

/// A state in which something is left to do.
#[derive(Debug, Clone, Copy, PartialEq, Eq, Structural)]
pub enum Step {
    Start,
    WritePayload,
    ComputeManifests,
    WriteBagDeclaration,
    ComputeAndWriteBagInfo,
    WriteTagManifests,
}

/// How a step ended.
#[derive(Debug, Clone, Copy, PartialEq, Eq, Structural)]
pub enum Outcome {
    Completed,
    Failed,
}

/// The step to take in `state`, unless the run has ended.
pub open spec fn pending_step(state: BuildState) -> Option<Step> {
    match state {
        BuildState::Start => Some(Step::Start),
        BuildState::WritePayload => Some(Step::WritePayload),
        BuildState::ComputeManifests => Some(Step::ComputeManifests),
        BuildState::WriteBagDeclaration => Some(Step::WriteBagDeclaration),
        BuildState::ComputeAndWriteBagInfo => Some(Step::ComputeAndWriteBagInfo),
        BuildState::WriteTagManifests => Some(Step::WriteTagManifests),
        BuildState::Done => None,
        BuildState::Failed { at } => None,
    }
}

/// The state that follows once `step` has been completed.
pub open spec fn state_after(step: Step) -> BuildState {
    match step {
        Step::Start => BuildState::WritePayload,
        Step::WritePayload => BuildState::ComputeManifests,
        Step::ComputeManifests => BuildState::WriteBagDeclaration,
        Step::WriteBagDeclaration => BuildState::ComputeAndWriteBagInfo,
        Step::ComputeAndWriteBagInfo => BuildState::WriteTagManifests,
        Step::WriteTagManifests => BuildState::Done,
    }
}

/// The state that follows `state` when its step ended with `outcome`. A run that has ended
/// stays where it is.
pub open spec fn next_state(state: BuildState, outcome: Outcome) -> BuildState {
    match pending_step(state) {
        None => state,
        Some(step) => match outcome {
            Outcome::Completed => state_after(step),
            Outcome::Failed => BuildState::Failed { at: step },
        },
    }
}

/// The state of a run that began in `state` and whose steps ended with `outcomes`.
pub open spec fn state_after_all(state: BuildState, outcomes: Seq<Outcome>) -> BuildState
    decreases outcomes.len(),
{
    if outcomes.len() == 0 {
        state
    } else {
        next_state(state_after_all(state, outcomes.drop_last()), outcomes.last())
    }
}

/// The state of a run from the start of which `n` steps have been completed.
pub open spec fn state_at(n: int) -> BuildState {
    if n <= 0 {
        BuildState::Start
    } else if n == 1 {
        BuildState::WritePayload
    } else if n == 2 {
        BuildState::ComputeManifests
    } else if n == 3 {
        BuildState::WriteBagDeclaration
    } else if n == 4 {
        BuildState::ComputeAndWriteBagInfo
    } else if n == 5 {
        BuildState::WriteTagManifests
    } else {
        BuildState::Done
    }
}

/// True when `k` is the position of the first failed outcome.
pub open spec fn is_first_failure(outcomes: Seq<Outcome>, k: int) -> bool {
    &&& 0 <= k < outcomes.len()
    &&& outcomes[k] == Outcome::Failed
    &&& forall|j: int| 0 <= j < k ==> outcomes[j] == Outcome::Completed
}

/// While every step is completed, a run from the start passes through the states in their
/// order, and rests in `Done` after the sixth.
pub proof fn lemma_completed_steps(outcomes: Seq<Outcome>)
    requires
        forall|j: int| 0 <= j < outcomes.len() ==> outcomes[j] == Outcome::Completed,
    ensures
        state_after_all(BuildState::Start, outcomes) == state_at(outcomes.len() as int),
    decreases outcomes.len(),
{
    if outcomes.len() > 0 {
        lemma_completed_steps(outcomes.drop_last());
    }
}

/// A run that has ended stays where it is, whatever is reported to it.
pub proof fn lemma_ended_run_stays(state: BuildState, outcomes: Seq<Outcome>)
    requires
        pending_step(state) is None,
    ensures
        state_after_all(state, outcomes) == state,
    decreases outcomes.len(),
{
    if outcomes.len() > 0 {
        lemma_ended_run_stays(state, outcomes.drop_last());
    }
}

/// A run from the start whose first failure comes at its step `k` ends in `Failed` at the
/// state in which that step was pending, and what is reported behind the failure changes
/// nothing. A failure reported behind the sixth step comes too late to count.
pub proof fn lemma_run_fails(outcomes: Seq<Outcome>, k: int)
    requires
        is_first_failure(outcomes, k),
    ensures
        state_after_all(BuildState::Start, outcomes) == match pending_step(state_at(k)) {
            Some(step) => BuildState::Failed { at: step },
            None => BuildState::Done,
        },
    decreases outcomes.len(),
{
    if outcomes.len() == k + 1 {
        lemma_completed_steps(outcomes.drop_last());
    } else {
        lemma_run_fails(outcomes.drop_last(), k);
    }
}

impl BuildState {
    /// The state in which every run begins.
    pub fn new() -> (state: BuildState)
        ensures
            state == BuildState::Start,
    {
        BuildState::Start
    }

    /// The step to take now, unless the run has ended.
    pub fn pending(&self) -> (step: Option<Step>)
        ensures
            step == pending_step(*self),
    {
        match self {
            BuildState::Start => Some(Step::Start),
            BuildState::WritePayload => Some(Step::WritePayload),
            BuildState::ComputeManifests => Some(Step::ComputeManifests),
            BuildState::WriteBagDeclaration => Some(Step::WriteBagDeclaration),
            BuildState::ComputeAndWriteBagInfo => Some(Step::ComputeAndWriteBagInfo),
            BuildState::WriteTagManifests => Some(Step::WriteTagManifests),
            BuildState::Done => None,
            BuildState::Failed { at: _ } => None,
        }
    }

    /// The state that follows when the pending step ended with `outcome`.
    pub fn advance(self, outcome: Outcome) -> (next: BuildState)
        ensures
            next == next_state(self, outcome),
    {
        match self.pending() {
            None => self,
            Some(step) => match outcome {
                Outcome::Completed => match step {
                    Step::Start => BuildState::WritePayload,
                    Step::WritePayload => BuildState::ComputeManifests,
                    Step::ComputeManifests => BuildState::WriteBagDeclaration,
                    Step::WriteBagDeclaration => BuildState::ComputeAndWriteBagInfo,
                    Step::ComputeAndWriteBagInfo => BuildState::WriteTagManifests,
                    Step::WriteTagManifests => BuildState::Done,
                },
                Outcome::Failed => BuildState::Failed { at: step },
            },
        }
    }

    /// Tells whether the run has ended, in `Done` or in `Failed`.
    pub fn is_terminal(&self) -> (ended: bool)
        ensures
            ended == (pending_step(*self) is None),
    {
        self.pending().is_none()
    }
}

} // verus!
