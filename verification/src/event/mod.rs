mod log;

pub use log::{
    AcknowledgeError, DeliveryBatch, DeliveryReceipt, EventCursor, EventInbox, EventLog, EventRecord,
    ReaderId, appended_records, law_log_ids_increase, lemma_cursor_equality, spec_trim,
};

use vstd::prelude::*;

use crate::domain::Pos;
use crate::rules::time::Phase;

verus! {

/// A change observed between two world frames.
#[derive(Clone, Copy, Debug, PartialEq, Eq, Structural)]
pub enum WorldEvent {
    WorldReady,
    WorldDegraded(WorldIssue),
    WorldRecovered,
    RoundStarted(i32),
    PhaseChanged(Phase),
    UnitDied(i64),
    UnitRevived(i64),
    UnitMoved { id: i64, from: Pos, to: Pos },
    EnemyUnobserved(i64),
    EnemyRemoved(i64),
    MineAppeared(Pos),
    MineDisappeared(Pos),
    GoldChanged { previous: i32, current: i32 },
    InventoryChanged(i64),
    BuildingChanged(i64),
    WeaponReady(i64),
    ChallengeStarted,
    ChallengeEnded,
    NewsChanged,
}

#[derive(Clone, Copy, Debug, PartialEq, Eq, Structural)]
pub enum WorldIssue {
    MapDimensionsChanged,
    FactionChanged,
}

#[derive(Clone, Copy, Debug, PartialEq, Eq, Structural)]
pub enum ReportScope {
    Step,
    Plan,
    Mission,
    Strategy,
}

#[derive(Clone, Copy, Debug, PartialEq, Eq, Structural)]
pub enum ReportStatus {
    Progress,
    Completed,
    Blocked,
    Failed,
    AtRisk,
    ResourceNeeded,
}

#[derive(Clone, Copy, Debug, PartialEq, Eq, Structural)]
pub enum ReportReason {
    OwnerDied,
    ActionLegal,
    ActionRejected,
    ActionResultUnknown,
}

/// What became of an action: reported for the unit that answers for it.
#[derive(Clone, Copy, Debug, PartialEq, Eq, Structural)]
pub struct ExecutionReport {
    pub scope: ReportScope,
    pub status: ReportStatus,
    pub owner: i64,
    pub reason: ReportReason,
    pub observed_round: i32,
}

} // verus!
