use vstd::prelude::*;

use crate::domain::{MissionId, OwnerPath};
use crate::fsm::MissionState;
use crate::rules::constants::COUNTER_INCREMENT;

use super::record::{MissionFailure, MissionFailureReason, MissionRecord, MissionResolution};
use super::registry::{
    MissionRegistry, deps_succeeded, history_kept, in_tree, is_blockable, pruned_active,
    registry_invariant, resolutions, spec_is_active, spec_is_blockable, spec_released, tree_ended,
};

verus! {

/// What counting a rejected action against an owner's mission does to the
/// registry, and the missions it ends.
pub open spec fn rejection_recorded(before: MissionRegistry, after: MissionRegistry, owner: OwnerPath, observed_round: i32,
    resolved: Seq<MissionResolution>) -> bool
{
    let m = owner.spec_mission().id;
    let old_records = before.records();
    if !(old_records.contains_key(m) && old_records[m].owner == owner.spec_assignment()
        && spec_is_blockable(old_records[m].state)) {
        &&& after == before
        &&& resolved.len() == 0
    } else {
        let count = next_count(old_records[m].retry_count);
        let raised = old_records.insert(m, counted(old_records[m]));
        if count < old_records[m].spec.spec_retry_policy().max_replans {
            &&& after.records() == old_records.insert(m, MissionRecord { state: MissionState::Blocked, ..counted(old_records[m]) })
            &&& after.active() == before.active()
            &&& resolved.len() == 0
        } else {
            &&& after.records() == tree_ended(raised, m, MissionState::Failed, Some(exhaustion(observed_round, count)))
            &&& resolved == resolutions(raised, before.order().filter(|x: MissionId| in_tree(raised, m, x)), m,
                MissionState::Failed, Some(exhaustion(observed_round, count)))
            &&& after.active() == pruned_active(before.active(), after.records())
        }
    }
}

/// The rejection count after one more rejection, saturating.
pub open spec fn next_count(count: u8) -> u8 {
    if count == u8::MAX { u8::MAX } else { (count + 1) as u8 }
}

/// The record with its rejection count raised.
pub open spec fn counted(r: MissionRecord) -> MissionRecord {
    MissionRecord { retry_count: next_count(r.retry_count), ..r }
}

pub open spec fn exhaustion(round: i32, attempts: u8) -> MissionFailure {
    MissionFailure { reason: MissionFailureReason::RetryExhausted, observed_round: round, attempts }
}

impl MissionRegistry {
    /// Counts a rejected action against the mission of an assignment owner.
    /// Below the mission's retry limit the mission is blocked; at the limit
    /// it fails (with the round and the attempts recorded) and every mission
    /// waiting for it is cancelled.
    pub fn record_action_rejection(&mut self, owner: &OwnerPath, observed_round: i32) -> (r: Vec<MissionResolution>)
        requires
            old(self).well_formed(),
        ensures
            final(self).well_formed(),
            history_kept(old(self).records(), final(self).records()),
            ({
                let m = owner.spec_mission().id;
                let old_records = old(self).records();
                if !(old_records.contains_key(m) && old_records[m].owner == owner.spec_assignment()
                    && spec_is_blockable(old_records[m].state)) {
                    &&& *final(self) == *old(self)
                    &&& r@.len() == 0
                } else {
                    let count = next_count(old_records[m].retry_count);
                    let raised = old_records.insert(m, counted(old_records[m]));
                    if count < old_records[m].spec.spec_retry_policy().max_replans {
                        &&& final(self).records() == old_records.insert(m, MissionRecord { state: MissionState::Blocked, ..counted(old_records[m]) })
                        &&& final(self).active() == old(self).active()
                        &&& r@.len() == 0
                    } else {
                        &&& final(self).records() == tree_ended(raised, m, MissionState::Failed, Some(exhaustion(observed_round, count)))
                        &&& r@ == resolutions(raised, old(self).order().filter(|x: MissionId| in_tree(raised, m, x)), m,
                            MissionState::Failed, Some(exhaustion(observed_round, count)))
                        &&& final(self).active() == pruned_active(old(self).active(), final(self).records())
                    }
                }
            }),
    {
        let mission = owner.mission().id;
        proof { self.lemma_well_formed(); }
        let ok = match self.record_of(mission) {
            Some(record) => record.owner == owner.assignment() && is_blockable(record.state),
            None => false,
        };
        if !ok {
            return Vec::new();
        }
        let ghost records = self.records();
        let ghost active = self.active();
        let mut record = self.take_record(mission);
        record.retry_count = record.retry_count.saturating_add(COUNTER_INCREMENT);
        let count = record.retry_count;
        let limit = record.spec.retry_policy().max_replans();
        let blocked = count < limit;
        if blocked {
            record.state = MissionState::Blocked;
        }
        self.put_record(mission, record);
        proof {
            let nr = self.records();
            assert(nr.dom() =~= records.dom());
            assert forall|m: MissionId| #[trigger] nr.contains_key(m) && spec_released(nr[m].state)
                implies deps_succeeded(nr, nr[m].spec.spec_dependencies()) by {
                assert(nr[m].spec == records[m].spec);
                assert(spec_released(records[m].state));
                assert forall|d: MissionId| #[trigger] nr[m].spec.spec_dependencies().contains(d)
                    implies nr.contains_key(d) && nr[d].state == MissionState::Succeeded by {
                    assert(records[d].state == MissionState::Succeeded);
                }
            }
            assert forall|a: i64| #[trigger] active.contains_key(a) implies nr.contains_key(active[a])
                && nr[active[a]].assignee == a && spec_is_active(nr[active[a]].state) by {
            }
            assert(registry_invariant(nr, active));
            self.lemma_well_formed();
            self.lemma_order_determined(old(self));
            if !blocked {
                assert(nr =~= records.insert(mission, counted(records[mission])));
            }
        }
        if blocked {
            return Vec::new();
        }
        self.end_tree(mission, MissionState::Failed, Some(MissionFailure::retry_exhausted(observed_round, count)))
    }
}

} // verus!
