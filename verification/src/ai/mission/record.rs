use vstd::prelude::*;

use crate::collections::SortedMap;
use crate::domain::{MissionId, MissionSpec, OwnerPath, same_contract};
use crate::fsm::MissionState;

use super::goal::GoalEvidence;
use super::progress::{EconomyProgress, copy_evidence};

verus! {

#[derive(Clone, Copy, Debug, PartialEq, Eq, Structural)]
pub enum MissionFailureReason {
    RetryExhausted,
}

/// Why and when a mission failed, and after how many rejected attempts.
#[derive(Clone, Copy, Debug, PartialEq, Eq, Structural)]
pub struct MissionFailure {
    pub reason: MissionFailureReason,
    pub observed_round: i32,
    pub attempts: u8,
}

impl MissionFailure {
    pub fn retry_exhausted(observed_round: i32, attempts: u8) -> (r: Self)
        ensures
            r == (MissionFailure { reason: MissionFailureReason::RetryExhausted, observed_round, attempts }),
    {
        MissionFailure { reason: MissionFailureReason::RetryExhausted, observed_round, attempts }
    }

    pub fn reason(self) -> (r: MissionFailureReason)
        ensures
            r == self.reason,
    {
        self.reason
    }

    pub fn observed_round(self) -> (r: i32)
        ensures
            r == self.observed_round,
    {
        self.observed_round
    }

    pub fn attempts(self) -> (r: u8)
        ensures
            r == self.attempts,
    {
        self.attempts
    }
}

/// A mission that was cancelled, with the unit and owners it ran under.
#[derive(Clone, Copy, Debug, PartialEq, Eq, Structural)]
pub struct MissionCancellation {
    pub assignee: i64,
    pub owner: OwnerPath,
}

impl MissionCancellation {
    pub fn assignee(self) -> (r: i64)
        ensures
            r == self.assignee,
    {
        self.assignee
    }

    pub fn owner(self) -> (r: OwnerPath)
        ensures
            r == self.owner,
    {
        self.owner
    }
}

/// A mission that succeeded, and the missions its success made ready.
#[derive(Clone, Debug, PartialEq, Eq)]
pub struct MissionCompletion {
    pub owner: OwnerPath,
    pub ready: Vec<MissionId>,
}

impl MissionCompletion {
    pub fn owner(&self) -> (r: OwnerPath)
        ensures
            r == self.owner,
    {
        self.owner
    }

    pub fn ready(&self) -> (r: &[MissionId])
        ensures
            r@ == self.ready@,
    {
        self.ready.as_slice()
    }
}

/// Everything the registry keeps of one mission.
#[derive(Clone, Debug)]
pub struct MissionRecord {
    pub spec: MissionSpec,
    pub owner: OwnerPath,
    pub assignee: i64,
    pub state: MissionState,
    pub completion_evidence: Vec<GoalEvidence>,
    pub goal_submission_round: Option<i32>,
    pub economy_progress: EconomyProgress,
    pub retry_count: u8,
    pub failure: Option<MissionFailure>,
}

/// A read-only copy of a mission's record.
#[derive(Debug)]
pub struct MissionView {
    pub spec: MissionSpec,
    pub owner: OwnerPath,
    pub assignee: i64,
    pub state: MissionState,
    pub completion_evidence: Vec<GoalEvidence>,
    pub goal_submission_round: Option<i32>,
    pub progress_evidence: Vec<GoalEvidence>,
    pub retry_count: u8,
    pub failure: Option<MissionFailure>,
}

/// The view shows the record as it is.
pub open spec fn view_of(v: MissionView, r: MissionRecord) -> bool {
    &&& same_contract(v.spec, r.spec)
    &&& v.owner == r.owner
    &&& v.assignee == r.assignee
    &&& v.state == r.state
    &&& v.completion_evidence@ == r.completion_evidence@
    &&& v.goal_submission_round == r.goal_submission_round
    &&& v.progress_evidence@ == r.economy_progress.evidence@
    &&& v.retry_count == r.retry_count
    &&& v.failure == r.failure
}

impl MissionRecord {
    pub fn view(&self) -> (r: MissionView)
        ensures
            view_of(r, *self),
    {
        MissionView {
            spec: self.spec.duplicate(),
            owner: self.owner,
            assignee: self.assignee,
            state: self.state,
            completion_evidence: copy_evidence(&self.completion_evidence),
            goal_submission_round: self.goal_submission_round,
            progress_evidence: copy_evidence(&self.economy_progress.evidence),
            retry_count: self.retry_count,
            failure: self.failure,
        }
    }
}

impl MissionView {
    pub fn spec(&self) -> (r: &MissionSpec)
        ensures
            *r == self.spec,
    {
        &self.spec
    }

    pub fn owner(&self) -> (r: OwnerPath)
        ensures
            r == self.owner,
    {
        self.owner
    }

    pub fn assignee(&self) -> (r: i64)
        ensures
            r == self.assignee,
    {
        self.assignee
    }

    pub fn state(&self) -> (r: MissionState)
        ensures
            r == self.state,
    {
        self.state
    }

    pub fn completion_evidence(&self) -> (r: &[GoalEvidence])
        ensures
            r@ == self.completion_evidence@,
    {
        self.completion_evidence.as_slice()
    }

    pub fn goal_submission_round(&self) -> (r: Option<i32>)
        ensures
            r == self.goal_submission_round,
    {
        self.goal_submission_round
    }

    pub fn progress_evidence(&self) -> (r: &[GoalEvidence])
        ensures
            r@ == self.progress_evidence@,
    {
        self.progress_evidence.as_slice()
    }

    pub fn dependencies(&self) -> (r: &SortedMap<MissionId, ()>)
        ensures
            r.view().dom() == self.spec.spec_dependencies(),
    {
        self.spec.dependencies()
    }

    pub fn retry_count(&self) -> (r: u8)
        ensures
            r == self.retry_count,
    {
        self.retry_count
    }

    pub fn failure(&self) -> (r: Option<MissionFailure>)
        ensures
            r == self.failure,
    {
        self.failure
    }
}

/// A mission that reached an end, with its unit, owners and final state.
#[derive(Clone, Copy, Debug, PartialEq, Eq, Structural)]
pub struct MissionResolution {
    pub assignee: i64,
    pub owner: OwnerPath,
    pub state: MissionState,
}

pub open spec fn resolution_of(r: MissionRecord) -> MissionResolution {
    MissionResolution { assignee: r.assignee, owner: r.owner, state: r.state }
}

impl MissionResolution {
    pub fn from_record(record: &MissionRecord) -> (r: Self)
        ensures
            r == resolution_of(*record),
    {
        MissionResolution { assignee: record.assignee, owner: record.owner, state: record.state }
    }

    pub fn assignee(self) -> (r: i64)
        ensures
            r == self.assignee,
    {
        self.assignee
    }

    pub fn owner(self) -> (r: OwnerPath)
        ensures
            r == self.owner,
    {
        self.owner
    }

    pub fn state(self) -> (r: MissionState)
        ensures
            r == self.state,
    {
        self.state
    }
}

/// What one reconciliation resolved, and which missions it made ready.
#[derive(Clone, Debug, PartialEq, Eq)]
pub struct MissionReconciliation {
    pub resolved: Vec<MissionResolution>,
    pub ready: Vec<MissionId>,
}

impl MissionReconciliation {
    pub fn new(resolved: Vec<MissionResolution>, ready: Vec<MissionId>) -> (r: Self)
        ensures
            r.resolved@ == resolved@,
            r.ready@ == ready@,
    {
        MissionReconciliation { resolved, ready }
    }

    pub fn resolved(&self) -> (r: &[MissionResolution])
        ensures
            r@ == self.resolved@,
    {
        self.resolved.as_slice()
    }

    pub fn ready(&self) -> (r: &[MissionId])
        ensures
            r@ == self.ready@,
    {
        self.ready.as_slice()
    }
}

} // verus!
