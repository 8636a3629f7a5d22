use vstd::prelude::*;

use crate::ai::cognition::ChallengeMemory;
use crate::ai::individual::PendingAction;
use crate::ai::mission::{
    BuildPlan, MissionCancellation, MissionRegistry, MissionRegistryError, MissionResolution,
    MissionReconciliation, MissionView, assignment_rejection, cancellations, check_assignment, committed, deps_succeeded,
    in_tree, pruned_active, reconciled, registration_error, rejection_recorded, spec_is_active, spec_is_blockable,
    tree_cancelled, view_of, with_state,
};
use crate::collections::SortedMap;
use crate::command::Arbiter;
use crate::domain::{
    Action, ActionProposal, ActiveOwners, MissionId, MissionSpec, Observation, OwnerAllocator,
    OwnerError, OwnerPath, Pos, action_reporter, allocator_within, ids_below, owner_room, same_contract, spec_is_expired, spec_reporter,
};
use crate::event::{EventInbox, EventRecord, ExecutionReport};
use crate::fsm::{IndividualState, MissionState, StrategyState, TacticalState};
use crate::rules::constants::ZERO_COUNTER;

verus! {

/// Why a decision could not be carried out.
#[derive(Clone, Copy, Debug, PartialEq, Eq, Structural)]
pub enum DecisionError {
    Owner(OwnerError),
    Mission(MissionRegistryError),
}

/// What the decision layers keep from one round to the next.
#[derive(Clone, Debug)]
pub struct DecisionState {
    pub strategy: StrategyState,
    pub missions: SortedMap<i64, MissionState>,
    pub tactics: SortedMap<i64, TacticalState>,
    pub individuals: SortedMap<i64, IndividualState>,
    pub pending_actions: SortedMap<i64, PendingAction>,
    pub reports: Vec<ExecutionReport>,
    pub challenge: ChallengeMemory,
    pub emergency_clear: u8,
    pub build_plans: SortedMap<i64, BuildPlan>,
    pub bad_build_sites: Vec<Pos>,
    pub event_inbox: EventInbox,
    pub active_owners: ActiveOwners,
    pub owner_allocator: OwnerAllocator,
    pub role_owners: SortedMap<i64, OwnerPath>,
    pub mission_registry: MissionRegistry,
}

/// A proposal with the owners it was drafted under.
pub struct PreparedAction {
    pub proposal: ActionProposal,
    pub spec: MissionSpec,
    pub assignment: OwnerPath,
    pub replaces_assignment: bool,
}

impl Default for DecisionState {
    fn default() -> (r: Self)
        ensures
            r.well_formed(),
            r.role_owners.view() == Map::<i64, OwnerPath>::empty(),
            r.pending_actions.view() == Map::<i64, PendingAction>::empty(),
            r.individuals.view() == Map::<i64, IndividualState>::empty(),
            r.missions.view() == Map::<i64, MissionState>::empty(),
            r.registry().records() == Map::<MissionId, crate::ai::mission::MissionRecord>::empty(),
            r.strategy == StrategyState::Bootstrap,
            r.emergency_clear == ZERO_COUNTER,
    {
        DecisionState {
            strategy: StrategyState::Bootstrap,
            missions: SortedMap::new(),
            tactics: SortedMap::new(),
            individuals: SortedMap::new(),
            pending_actions: SortedMap::new(),
            reports: Vec::new(),
            challenge: ChallengeMemory::default(),
            emergency_clear: ZERO_COUNTER,
            build_plans: SortedMap::new(),
            bad_build_sites: Vec::new(),
            event_inbox: EventInbox::default(),
            active_owners: ActiveOwners::default(),
            owner_allocator: OwnerAllocator::default(),
            role_owners: SortedMap::new(),
            mission_registry: MissionRegistry::default(),
        }
    }
}

/// The units' missions after each resolution, in order, records how its
/// unit's mission ended.
pub open spec fn missions_after(missions: Map<i64, MissionState>, resolved: Seq<MissionResolution>) -> Map<i64, MissionState>
    decreases resolved.len(),
{
    if resolved.len() == 0 {
        missions
    } else {
        missions_after(missions, resolved.drop_last()).insert(resolved.last().assignee, resolved.last().state)
    }
}

/// The contract is new for the unit: it does not run a live mission under
/// the same contract, no known mission has the id a new assignment gets,
/// and every prerequisite has succeeded.
pub open spec fn fresh_contract(registry: MissionRegistry, reporter: i64, spec: MissionSpec, next_mission: u64) -> bool {
    &&& !(registry.active().contains_key(reporter) && same_contract(registry.records()[registry.active()[reporter]].spec, spec))
    &&& forall|m: MissionId| #[trigger] registry.records().contains_key(m) ==> m.spec_value() != next_mission
    &&& deps_succeeded(registry.records(), spec.spec_dependencies())
}

/// A fresh owner (mission, plan and step) can be drafted: the allocator's
/// next ids are below the limit and none of them is live.
pub open spec fn owners_available(s: DecisionState) -> bool {
    let a = s.owner_allocator;
    let o = s.active_owners;
    &&& a.spec_next_mission() < u64::MAX
    &&& a.spec_next_plan() < u64::MAX
    &&& a.spec_next_intent() < u64::MAX
    &&& !o.mission_map().contains_key(a.spec_next_mission())
    &&& !o.plan_map().contains_key(a.spec_next_plan())
    &&& !o.intent_map().contains_key(a.spec_next_intent())
}

/// Owner identities for a draft ran out or were already taken.
pub open spec fn owner_failure(e: DecisionError) -> bool {
    e matches DecisionError::Owner(o) && (o == OwnerError::IdentitiesExhausted || o == OwnerError::IdentityInUse)
}

/// How a proposal can fail: its owners could not be drafted, or the
/// arbiter accepted it and its mission could not be committed.
pub open spec fn proposal_failed(e: DecisionError, accepted: bool) -> bool {
    owner_failure(e) || (e is Mission && accepted)
}

/// The decision state with its mission registry replaced and nothing else.
pub open spec fn with_registry(s: DecisionState, registry: MissionRegistry) -> DecisionState {
    DecisionState { mission_registry: registry, ..s }
}

/// The units' missions once the unit of each cancellation, in order, is
/// marked cancelled.
pub open spec fn missions_cancelled(missions: Map<i64, MissionState>, cancelled: Seq<MissionCancellation>) -> Map<i64, MissionState>
    decreases cancelled.len(),
{
    if cancelled.len() == 0 {
        missions
    } else {
        missions_cancelled(missions, cancelled.drop_last()).insert(cancelled.last().assignee, MissionState::Cancelled)
    }
}

/// The decision state once resolved missions are retired: no resolved
/// mission's owner is live, each unit's mission records how its mission
/// ended, and a unit keeps its current owner unless that owner ran one of
/// its resolved missions; nothing else changes.
pub open spec fn resolutions_applied(before: DecisionState, after: DecisionState, resolved: Seq<MissionResolution>) -> bool {
    &&& after.missions.view() == missions_after(before.missions.view(), resolved)
    &&& forall|j: int| 0 <= j < resolved.len() ==> !after.active_owners.mission_current((#[trigger] resolved[j]).owner.spec_mission())
    &&& forall|k: u64| #[trigger] after.active_owners.mission_map().contains_key(k)
        ==> before.active_owners.mission_map().contains_key(k)
            && after.active_owners.mission_map()[k] == before.active_owners.mission_map()[k]
    &&& forall|a: i64| #[trigger] after.role_owners.view().contains_key(a) ==> before.role_owners.view().contains_key(a)
        && after.role_owners.view()[a] == before.role_owners.view()[a]
    &&& forall|a: i64| #[trigger] before.role_owners.view().contains_key(a)
        && !(exists|j: int| 0 <= j < resolved.len() && (#[trigger] resolved[j]).assignee == a
            && resolved[j].owner.spec_mission() == before.role_owners.view()[a].spec_mission())
        ==> after.role_owners.view().contains_key(a)
    &&& after.strategy == before.strategy
    &&& after.emergency_clear == before.emergency_clear
    &&& after.pending_actions == before.pending_actions
    &&& after.individuals == before.individuals
    &&& after.tactics == before.tactics
    &&& after.registry() == before.registry()
    &&& after.owner_allocator == before.owner_allocator
}

impl DecisionState {
    pub open spec fn registry(&self) -> MissionRegistry {
        self.mission_registry
    }

    pub open spec fn well_formed(&self) -> bool {
        &&& self.registry().well_formed()
        &&& self.active_owners.well_formed()
        &&& ids_below(self.active_owners, self.owner_allocator)
        &&& forall|m: MissionId| #[trigger] self.registry().records().contains_key(m)
            ==> m.spec_value() < self.owner_allocator.spec_next_mission()
        &&& self.missions.well_formed()
        &&& self.tactics.well_formed()
        &&& self.individuals.well_formed()
        &&& self.pending_actions.well_formed()
        &&& self.build_plans.well_formed()
        &&& self.role_owners.well_formed()
    }

    /// A copy of a mission's record.
    pub fn mission_view(&self, mission: MissionId) -> (r: Option<MissionView>)
        requires
            self.well_formed(),
        ensures
            r is Some <==> self.registry().records().contains_key(mission),
            r matches Some(v) ==> view_of(v, self.registry().records()[mission]),
    {
        self.mission_registry.view(mission)
    }

    /// Retires the owners of cancelled missions: their assignments stop
    /// being live, their units lose them as current owners, and the units'
    /// missions are marked cancelled.
    pub fn apply_cancellations(&mut self, cancelled: Vec<MissionCancellation>)
        requires
            old(self).well_formed(),
        ensures
            final(self).build_plans == old(self).build_plans,
            final(self).strategy == old(self).strategy,
            final(self).emergency_clear == old(self).emergency_clear,
            final(self).pending_actions == old(self).pending_actions,
            final(self).individuals == old(self).individuals,
            final(self).tactics == old(self).tactics,
            final(self).well_formed(),
            final(self).registry() == old(self).registry(),
            final(self).owner_allocator == old(self).owner_allocator,
            forall|i: int| 0 <= i < cancelled@.len() ==> !final(self).active_owners.mission_current((#[trigger] cancelled@[i]).owner.spec_mission()),
            forall|i: int| 0 <= i < cancelled@.len() ==> final(self).missions.view().contains_key((#[trigger] cancelled@[i]).assignee)
                && final(self).missions.view()[cancelled@[i].assignee] == MissionState::Cancelled,
            forall|a: i64| #[trigger] final(self).role_owners.view().contains_key(a) ==> old(self).role_owners.view().contains_key(a)
                && final(self).role_owners.view()[a] == old(self).role_owners.view()[a],
            forall|a: i64| #[trigger] old(self).role_owners.view().contains_key(a)
                && !(exists|i: int| 0 <= i < cancelled@.len() && (#[trigger] cancelled@[i]).assignee == a
                    && cancelled@[i].owner.spec_mission() == old(self).role_owners.view()[a].spec_mission())
                ==> final(self).role_owners.view().contains_key(a),
            final(self).missions.view() == missions_cancelled(old(self).missions.view(), cancelled@),
            forall|k: u64| #[trigger] final(self).active_owners.mission_map().contains_key(k)
                ==> old(self).active_owners.mission_map().contains_key(k)
                    && final(self).active_owners.mission_map()[k] == old(self).active_owners.mission_map()[k],
            cancelled@.len() == 0 ==> *final(self) == *old(self),
    {
        let mut i: usize = 0;
        while i < cancelled.len()
            invariant
                self.build_plans == old(self).build_plans,
                i == 0 ==> *self == *old(self),
                self.missions.view() == missions_cancelled(old(self).missions.view(), cancelled@.subrange(0, i as int)),
                forall|k: u64| #[trigger] self.active_owners.mission_map().contains_key(k)
                    ==> old(self).active_owners.mission_map().contains_key(k)
                        && self.active_owners.mission_map()[k] == old(self).active_owners.mission_map()[k],
                self.strategy == old(self).strategy,
                self.emergency_clear == old(self).emergency_clear,
                self.well_formed(),
                self.registry() == old(self).registry(),
                self.owner_allocator == old(self).owner_allocator,
                self.pending_actions == old(self).pending_actions,
                self.individuals == old(self).individuals,
                self.tactics == old(self).tactics,
                i <= cancelled@.len(),
                forall|k: int| 0 <= k < i ==> !self.active_owners.mission_current((#[trigger] cancelled@[k]).owner.spec_mission()),
                forall|k: int| 0 <= k < i ==> self.missions.view().contains_key((#[trigger] cancelled@[k]).assignee)
                    && self.missions.view()[cancelled@[k].assignee] == MissionState::Cancelled,
                forall|a: i64| #[trigger] self.role_owners.view().contains_key(a) ==> old(self).role_owners.view().contains_key(a)
                    && self.role_owners.view()[a] == old(self).role_owners.view()[a],
                forall|a: i64| #[trigger] old(self).role_owners.view().contains_key(a)
                    && !(exists|k: int| 0 <= k < i && (#[trigger] cancelled@[k]).assignee == a
                        && cancelled@[k].owner.spec_mission() == old(self).role_owners.view()[a].spec_mission())
                    ==> self.role_owners.view().contains_key(a),
            decreases cancelled@.len() - i,
        {
            let c = cancelled[i];
            let assignee = c.assignee();
            let owner = c.owner();
            let ghost before = self.active_owners;
            self.active_owners.deactivate_assignment(&owner);
            let same = match self.role_owners.get(&assignee) {
                Some(current) => current.mission() == owner.mission(),
                None => false,
            };
            if same {
                self.role_owners.remove(&assignee);
            }
            self.missions.insert(assignee, MissionState::Cancelled);
            proof {
                assert(cancelled@.subrange(0, i + 1).drop_last() =~= cancelled@.subrange(0, i as int));
                assert forall|k: int| 0 <= k < i + 1 implies !self.active_owners.mission_current((#[trigger] cancelled@[k]).owner.spec_mission()) by {
                    if k < i {
                        let m = cancelled@[k].owner.spec_mission();
                        assert(!before.mission_current(m));
                        if self.active_owners.mission_map().contains_key(m.id.spec_value()) {
                            if before.mission_current(owner.spec_mission()) {
                                assert(self.active_owners.mission_map() == before.mission_map().remove(owner.spec_mission().id.spec_value()));
                            }
                        }
                    }
                }
                assert forall|a: i64| #[trigger] old(self).role_owners.view().contains_key(a)
                    && !(exists|k: int| 0 <= k < i + 1 && (#[trigger] cancelled@[k]).assignee == a
                        && cancelled@[k].owner.spec_mission() == old(self).role_owners.view()[a].spec_mission())
                    implies self.role_owners.view().contains_key(a) by {
                    if a == assignee && same {
                        assert(cancelled@[i as int].assignee == a);
                    }
                }
            }
            i = i + 1;
        }
        proof {
            assert(cancelled@.subrange(0, cancelled@.len() as int) =~= cancelled@);
        }
    }

    /// Retires the owners of a mission that reached an end and records the
    /// end for its unit.
    pub fn apply_resolution(&mut self, resolution: MissionResolution)
        requires
            old(self).well_formed(),
        ensures
            final(self).strategy == old(self).strategy,
            final(self).emergency_clear == old(self).emergency_clear,
            final(self).pending_actions == old(self).pending_actions,
            final(self).individuals == old(self).individuals,
            final(self).tactics == old(self).tactics,
            final(self).well_formed(),
            final(self).registry() == old(self).registry(),
            final(self).owner_allocator == old(self).owner_allocator,
            !final(self).active_owners.mission_current(resolution.owner.spec_mission()),
            !final(self).active_owners.spec_is_current(resolution.owner),
            final(self).missions.view() == old(self).missions.view().insert(resolution.assignee, resolution.state),
            forall|k: u64| #[trigger] final(self).active_owners.mission_map().contains_key(k)
                ==> old(self).active_owners.mission_map().contains_key(k)
                    && final(self).active_owners.mission_map()[k] == old(self).active_owners.mission_map()[k],
            final(self).role_owners.view() == (if old(self).role_owners.view().contains_key(resolution.assignee)
                && old(self).role_owners.view()[resolution.assignee].spec_mission() == resolution.owner.spec_mission() {
                old(self).role_owners.view().remove(resolution.assignee)
            } else {
                old(self).role_owners.view()
            }),
    {
        let assignee = resolution.assignee();
        let owner = resolution.owner();
        self.active_owners.deactivate_assignment(&owner);
        let same = match self.role_owners.get(&assignee) {
            Some(current) => current.mission() == owner.mission(),
            None => false,
        };
        if same {
            self.role_owners.remove(&assignee);
        }
        self.missions.insert(assignee, resolution.state());
    }

    /// Retires the owners of resolved missions, in order.
    fn apply_resolutions(&mut self, resolved: &[MissionResolution])
        requires
            old(self).well_formed(),
        ensures
            final(self).well_formed(),
            resolutions_applied(*old(self), *final(self), resolved@),
    {
        let mut i: usize = 0;
        while i < resolved.len()
            invariant
                self.well_formed(),
                i <= resolved@.len(),
                resolutions_applied(*old(self), *self, resolved@.subrange(0, i as int)),
            decreases resolved@.len() - i,
        {
            let ghost before = *self;
            let ghost done = resolved@.subrange(0, i as int);
            let ghost next = resolved@.subrange(0, i + 1);
            self.apply_resolution(resolved[i]);
            proof {
                assert(next.drop_last() =~= done);
                assert(next.last() == resolved@[i as int]);
                assert forall|j: int| 0 <= j < next.len() implies !self.active_owners.mission_current((#[trigger] next[j]).owner.spec_mission()) by {
                    if j < i {
                        assert(next[j] == done[j]);
                    }
                }
                assert forall|a: i64| #[trigger] old(self).role_owners.view().contains_key(a)
                    && !(exists|j: int| 0 <= j < next.len() && (#[trigger] next[j]).assignee == a
                        && next[j].owner.spec_mission() == old(self).role_owners.view()[a].spec_mission())
                    implies self.role_owners.view().contains_key(a) by {
                    assert forall|j: int| 0 <= j < done.len() implies !((#[trigger] done[j]).assignee == a
                        && done[j].owner.spec_mission() == old(self).role_owners.view()[a].spec_mission()) by {
                        assert(next[j] == done[j]);
                    }
                    assert(before.role_owners.view().contains_key(a));
                    if resolved@[i as int].assignee == a {
                        assert(next[i as int] == resolved@[i as int]);
                    }
                }
            }
            i = i + 1;
        }
        proof {
            assert(resolved@.subrange(0, resolved@.len() as int) =~= resolved@);
        }
    }

    /// Brings the missions up to date with a frame and its events, and
    /// retires the owners of every mission that ended.
    pub fn reconcile_missions(&mut self, observation: &Observation, events: &[EventRecord])
        requires
            old(self).well_formed(),
        ensures
            final(self).strategy == old(self).strategy,
            final(self).emergency_clear == old(self).emergency_clear,
            final(self).well_formed(),
            crate::ai::mission::history_kept(old(self).registry().records(), final(self).registry().records()),
            exists|r: MissionReconciliation| #[trigger] reconciled(old(self).registry(), final(self).registry(), *observation, events@, r)
                && resolutions_applied(with_registry(*old(self), final(self).registry()), *final(self), r.resolved@),
    {
        let reconciliation = self.mission_registry.reconcile(observation, events);
        proof {
            assert(reconciled(old(self).registry(), self.registry(), *observation, events@, reconciliation));
            assert(*self == with_registry(*old(self), self.registry()));
        }
        self.apply_resolutions(reconciliation.resolved());
    }

    /// The unit's current assignment owner for this contract, while it is
    /// live.
    fn current_assignment(&self, reporter: i64, spec: &MissionSpec) -> (r: Option<OwnerPath>)
        requires
            self.well_formed(),
            spec.well_formed(),
        ensures
            r matches Some(owner) ==> self.active_owners.spec_is_current(owner)
                && self.registry().active().contains_key(reporter)
                && owner == self.registry().records()[self.registry().active()[reporter]].owner
                && same_contract(self.registry().records()[self.registry().active()[reporter]].spec, *spec)
                && crate::ai::mission::spec_is_active(self.registry().records()[self.registry().active()[reporter]].state),
            r is None ==> !(self.registry().active().contains_key(reporter)
                && same_contract(self.registry().records()[self.registry().active()[reporter]].spec, *spec)
                && crate::ai::mission::spec_is_active(self.registry().records()[self.registry().active()[reporter]].state)
                && self.active_owners.spec_is_current(self.registry().records()[self.registry().active()[reporter]].owner)),
    {
        match self.mission_registry.current_assignment(reporter, spec) {
            Some(owner) => if self.active_owners.is_current(&owner) { Some(owner) } else { None },
            None => None,
        }
    }

    /// Records a new owner as the unit's current one, retiring the previous
    /// one's assignment.
    fn commit_owner(&mut self, reporter: i64, owner: OwnerPath)
        requires
            old(self).well_formed(),
        ensures
            final(self).strategy == old(self).strategy,
            final(self).emergency_clear == old(self).emergency_clear,
            final(self).pending_actions == old(self).pending_actions,
            final(self).individuals == old(self).individuals,
            final(self).tactics == old(self).tactics,
            final(self).well_formed(),
            final(self).registry() == old(self).registry(),
            final(self).owner_allocator == old(self).owner_allocator,
            final(self).role_owners.view() == old(self).role_owners.view().insert(reporter, owner),
            final(self).missions == old(self).missions,
    {
        match self.role_owners.insert(reporter, owner) {
            Some(previous) => self.active_owners.deactivate_assignment(&previous),
            None => {},
        }
    }

    /// Starts work that no mission owns: a fresh owner for the unit,
    /// replacing its current mission and owner.
    pub fn start_work(&mut self, reporter: i64) -> (r: Result<OwnerPath, OwnerError>)
        requires
            old(self).well_formed(),
        ensures
            final(self).strategy == old(self).strategy,
            final(self).emergency_clear == old(self).emergency_clear,
            final(self).pending_actions == old(self).pending_actions,
            final(self).individuals == old(self).individuals,
            final(self).tactics == old(self).tactics,
            final(self).well_formed(),
            crate::ai::mission::history_kept(old(self).registry().records(), final(self).registry().records()),
            r matches Ok(owner) ==> final(self).role_owners.view().contains_key(reporter)
                && final(self).role_owners.view()[reporter] == owner,
            r is Err ==> final(self).registry() == old(self).registry() && final(self).role_owners == old(self).role_owners
                && final(self).missions == old(self).missions,
            owners_available(*old(self)) ==> r is Ok,
            r matches Err(e) ==> e == OwnerError::IdentitiesExhausted || e == OwnerError::IdentityInUse,
            r matches Ok(owner) ==> final(self).owner_allocator.spec_next_mission() == old(self).owner_allocator.spec_next_mission() + 1,
            r matches Ok(owner) ==> {
                let records = old(self).registry().records();
                &&& owner.spec_mission().id.spec_value() == old(self).owner_allocator.spec_next_mission()
                &&& if old(self).registry().active().contains_key(reporter) {
                    let m = old(self).registry().active()[reporter];
                    let cancelled = cancellations(records, old(self).registry().order().filter(|x: MissionId| in_tree(records, m, x)));
                    &&& final(self).registry().records() == tree_cancelled(records, m)
                    &&& final(self).registry().active() == pruned_active(old(self).registry().active(), final(self).registry().records())
                    &&& final(self).missions.view() == missions_cancelled(old(self).missions.view(), cancelled)
                } else {
                    &&& final(self).registry() == old(self).registry()
                    &&& final(self).missions == old(self).missions
                }
            },
    {
        let owner = self.active_owners.create_path(&mut self.owner_allocator)?;
        let cancelled = self.mission_registry.cancel_current(reporter);
        self.apply_cancellations(cancelled);
        self.commit_owner(reporter, owner);
        Ok(owner)
    }

    /// Blocks the mission an owner runs, while it can be blocked; nothing
    /// but the registry changes.
    pub fn block_mission(&mut self, owner: &OwnerPath)
        requires
            old(self).well_formed(),
        ensures
            final(self).owner_allocator == old(self).owner_allocator,
            final(self).pending_actions == old(self).pending_actions,
            final(self).individuals == old(self).individuals,
            final(self).tactics == old(self).tactics,
            final(self).well_formed(),
            crate::ai::mission::history_kept(old(self).registry().records(), final(self).registry().records()),
            *final(self) == with_registry(*old(self), final(self).registry()),
            final(self).registry().active() == old(self).registry().active(),
            ({
                let m = owner.spec_mission().id;
                let records = old(self).registry().records();
                if records.contains_key(m) && records[m].owner == owner.spec_assignment() && spec_is_blockable(records[m].state) {
                    final(self).registry().records() == records.insert(m, with_state(records[m], MissionState::Blocked))
                } else {
                    final(self).registry() == old(self).registry()
                }
            }),
    {
        self.mission_registry.mark_blocked(owner);
    }

    /// Records a committed action against the mission its owner runs.
    pub fn record_mission_action(&mut self, owner: &OwnerPath, actor: i64, action: &Action, observation: &Observation)
        requires
            old(self).well_formed(),
        ensures
            final(self).strategy == old(self).strategy,
            final(self).emergency_clear == old(self).emergency_clear,
            final(self).pending_actions == old(self).pending_actions,
            final(self).individuals == old(self).individuals,
            final(self).tactics == old(self).tactics,
            final(self).well_formed(),
            crate::ai::mission::history_kept(old(self).registry().records(), final(self).registry().records()),
            *final(self) == with_registry(*old(self), final(self).registry()),
            final(self).registry().active() == old(self).registry().active(),
            ({
                let m = owner.spec_mission().id;
                let records = old(self).registry().records();
                if records.contains_key(m) && records[m].owner == owner.spec_assignment() && spec_is_active(records[m].state) {
                    &&& final(self).registry().records().dom() == records.dom()
                    &&& forall|other: MissionId| #[trigger] records.contains_key(other) && other != m
                        ==> final(self).registry().records()[other] == records[other]
                    &&& committed(records[m], final(self).registry().records()[m], actor, action@, *observation)
                } else {
                    final(self).registry() == old(self).registry()
                }
            }),
    {
        self.mission_registry.record_action_commit(owner, actor, action, observation);
    }

    /// Counts a rejected action against the mission its owner runs, and
    /// retires the owners of every mission that failed with it.
    pub fn record_rejection(&mut self, owner: &OwnerPath, observed_round: i32) -> (r: Vec<MissionResolution>)
        requires
            old(self).well_formed(),
        ensures
            final(self).owner_allocator == old(self).owner_allocator,
            final(self).pending_actions == old(self).pending_actions,
            final(self).individuals == old(self).individuals,
            final(self).tactics == old(self).tactics,
            final(self).well_formed(),
            crate::ai::mission::history_kept(old(self).registry().records(), final(self).registry().records()),
            rejection_recorded(old(self).registry(), final(self).registry(), *owner, observed_round, r@),
            resolutions_applied(with_registry(*old(self), final(self).registry()), *final(self), r@),
    {
        let resolved = self.mission_registry.record_action_rejection(owner, observed_round);
        proof {
            assert(rejection_recorded(old(self).registry(), self.registry(), *owner, observed_round, resolved@));
            assert(*self == with_registry(*old(self), self.registry()));
        }
        self.apply_resolutions(resolved.as_slice());
        resolved
    }

    /// Cancels the mission an owner runs, with its tree.
    pub fn cancel_mission(&mut self, owner: &OwnerPath)
        requires
            old(self).well_formed(),
        ensures
            final(self).owner_allocator == old(self).owner_allocator,
            final(self).pending_actions == old(self).pending_actions,
            final(self).individuals == old(self).individuals,
            final(self).tactics == old(self).tactics,
            final(self).well_formed(),
            crate::ai::mission::history_kept(old(self).registry().records(), final(self).registry().records()),
            ({
                let m = owner.spec_mission().id;
                let records = old(self).registry().records();
                if records.contains_key(m) && records[m].owner == owner.spec_assignment() {
                    let cancelled = cancellations(records, old(self).registry().order().filter(|x: MissionId| in_tree(records, m, x)));
                    &&& final(self).registry().records() == tree_cancelled(records, m)
                    &&& final(self).registry().active() == pruned_active(old(self).registry().active(), final(self).registry().records())
                    &&& final(self).missions.view() == missions_cancelled(old(self).missions.view(), cancelled)
                    &&& forall|i: int| 0 <= i < cancelled.len()
                        ==> !final(self).active_owners.mission_current((#[trigger] cancelled[i]).owner.spec_mission())
                } else {
                    *final(self) == *old(self)
                }
            }),
    {
        let cancelled = self.mission_registry.cancel_owner(owner);
        self.apply_cancellations(cancelled);
    }

    /// Retires the step of a path, if it has one.
    fn deactivate_intent(&mut self, owner: &OwnerPath)
        requires
            old(self).well_formed(),
        ensures
            final(self).build_plans == old(self).build_plans,
            final(self).strategy == old(self).strategy,
            final(self).emergency_clear == old(self).emergency_clear,
            final(self).pending_actions == old(self).pending_actions,
            final(self).individuals == old(self).individuals,
            final(self).tactics == old(self).tactics,
            final(self).well_formed(),
            final(self).registry() == old(self).registry(),
            final(self).role_owners == old(self).role_owners,
            final(self).active_owners.mission_map() == old(self).active_owners.mission_map(),
            final(self).active_owners.plan_map() == old(self).active_owners.plan_map(),
            owner.spec_intent() matches Some(intent) ==> final(self).active_owners.intent_map()
                == old(self).active_owners.intent_map().remove(intent.id.spec_value()),
            owner.spec_intent() is None ==> *final(self) == *old(self),
            final(self).missions == old(self).missions,
            final(self).owner_allocator == old(self).owner_allocator,
    {
        match owner.intent() {
            Some(intent) => self.active_owners.deactivate_intent(intent.id),
            None => {},
        }
    }

    /// Drafts owners for a proposal: a fresh step under the unit's live
    /// assignment for the same contract, or else a fresh assignment.
    fn prepare_action(&mut self, actor: i64, action: Action, spec: MissionSpec) -> (r: Result<PreparedAction, DecisionError>)
        requires
            old(self).well_formed(),
            spec.well_formed(),
        ensures
            final(self).build_plans == old(self).build_plans,
            final(self).strategy == old(self).strategy,
            final(self).emergency_clear == old(self).emergency_clear,
            final(self).well_formed(),
            final(self).registry() == old(self).registry(),
            final(self).role_owners == old(self).role_owners,
            r matches Ok(p) ==> {
                &&& p.proposal.spec_actor() == actor
                &&& p.proposal.spec_action() == action@
                &&& p.spec == spec
                &&& final(self).active_owners.spec_is_current(p.proposal.spec_owner())
                &&& p.assignment == p.proposal.spec_owner().spec_assignment()
                &&& p.replaces_assignment ==> final(self).active_owners.spec_is_current(p.assignment)
                &&& !p.replaces_assignment ==> old(self).registry().active().contains_key(spec_reporter(actor, action@))
                    && p.assignment == old(self).registry().records()[old(self).registry().active()[spec_reporter(actor, action@)]].owner
                    && same_contract(old(self).registry().records()[old(self).registry().active()[spec_reporter(actor, action@)]].spec, spec)
                    && spec_is_active(old(self).registry().records()[old(self).registry().active()[spec_reporter(actor, action@)]].state)
                &&& p.replaces_assignment ==> p.assignment.spec_mission().id.spec_value() == old(self).owner_allocator.spec_next_mission()
                    && p.assignment.spec_plan() is Some && p.assignment.spec_intent() is None
            },
            owners_available(*old(self)) ==> r is Ok,
            r matches Err(e) ==> owner_failure(e),
            r matches Err(e) ==> e == DecisionError::Owner(OwnerError::IdentitiesExhausted) && !owner_room(old(self).owner_allocator, 1),
            allocator_within(old(self).owner_allocator, final(self).owner_allocator, 1),
            ({
                let reporter = spec_reporter(actor, action@);
                let registry = old(self).registry();
                registry.active().contains_key(reporter)
                    && same_contract(registry.records()[registry.active()[reporter]].spec, spec)
                    && old(self).active_owners.spec_is_current(registry.records()[registry.active()[reporter]].owner)
            }) ==> (r matches Ok(p) ==> !p.replaces_assignment),
    {
        let reporter = action_reporter(actor, &action);
        proof { self.mission_registry.lemma_well_formed(); }
        match self.current_assignment(reporter, &spec) {
            Some(assignment) => self.prepare_for_assignment(actor, action, spec, assignment),
            None => self.prepare_new_assignment(actor, action, spec),
        }
    }

    fn prepare_for_assignment(&mut self, actor: i64, action: Action, spec: MissionSpec, assignment: OwnerPath) -> (r: Result<PreparedAction, DecisionError>)
        requires
            old(self).well_formed(),
            old(self).active_owners.spec_is_current(assignment),
            assignment.spec_plan() is Some,
            assignment.spec_intent() is None,
        ensures
            final(self).build_plans == old(self).build_plans,
            final(self).strategy == old(self).strategy,
            final(self).emergency_clear == old(self).emergency_clear,
            final(self).well_formed(),
            final(self).registry() == old(self).registry(),
            final(self).role_owners == old(self).role_owners,
            r matches Ok(p) ==> {
                &&& p.proposal.spec_actor() == actor
                &&& p.proposal.spec_action() == action@
                &&& p.spec == spec
                &&& final(self).active_owners.spec_is_current(p.proposal.spec_owner())
                &&& p.assignment == assignment
                &&& p.proposal.spec_owner().spec_assignment() == assignment
                &&& !p.replaces_assignment
                &&& p.proposal.spec_owner().spec_intent() matches Some(intent)
                    && intent.id.spec_value() == old(self).owner_allocator.spec_next_intent()
            },
            old(self).owner_allocator.spec_next_intent() < u64::MAX
                && !old(self).active_owners.intent_map().contains_key(old(self).owner_allocator.spec_next_intent()) ==> r is Ok,
            r matches Err(e) ==> owner_failure(e) && *final(self) == *old(self),
            r matches Err(e) ==> e == DecisionError::Owner(OwnerError::IdentitiesExhausted) && !owner_room(old(self).owner_allocator, 1),
            allocator_within(old(self).owner_allocator, final(self).owner_allocator, 1),
    {
        proof { crate::domain::lemma_assignment_links(assignment); crate::domain::lemma_paths_by_links(assignment, assignment.spec_assignment()); }
        let owner = match self.active_owners.create_intent(&mut self.owner_allocator, &assignment) {
            Ok(owner) => owner,
            Err(e) => return Err(DecisionError::Owner(e)),
        };
        proof {
            crate::domain::lemma_assignment_links(owner);
            crate::domain::lemma_assignment_links(assignment);
            crate::domain::lemma_paths_by_links(owner.spec_assignment(), assignment);
        }
        Ok(PreparedAction {
            proposal: ActionProposal::new(actor, owner, action),
            spec,
            assignment,
            replaces_assignment: false,
        })
    }

    fn prepare_new_assignment(&mut self, actor: i64, action: Action, spec: MissionSpec) -> (r: Result<PreparedAction, DecisionError>)
        requires
            old(self).well_formed(),
        ensures
            final(self).build_plans == old(self).build_plans,
            final(self).strategy == old(self).strategy,
            final(self).emergency_clear == old(self).emergency_clear,
            final(self).well_formed(),
            final(self).registry() == old(self).registry(),
            final(self).role_owners == old(self).role_owners,
            r matches Ok(p) ==> {
                &&& p.proposal.spec_actor() == actor
                &&& p.proposal.spec_action() == action@
                &&& p.spec == spec
                &&& final(self).active_owners.spec_is_current(p.proposal.spec_owner())
                &&& final(self).active_owners.spec_is_current(p.assignment)
                &&& p.assignment == p.proposal.spec_owner().spec_assignment()
                &&& p.replaces_assignment
                &&& p.assignment.spec_mission().id.spec_value() == old(self).owner_allocator.spec_next_mission()
                &&& p.assignment.spec_plan() is Some
                &&& p.assignment.spec_intent() is None
            },
            owners_available(*old(self)) ==> r is Ok,
            r matches Err(e) ==> owner_failure(e),
            r matches Err(e) ==> e == DecisionError::Owner(OwnerError::IdentitiesExhausted) && !owner_room(old(self).owner_allocator, 1),
            allocator_within(old(self).owner_allocator, final(self).owner_allocator, 1),
    {
        let owner = match self.active_owners.create_path(&mut self.owner_allocator) {
            Ok(owner) => owner,
            Err(e) => return Err(DecisionError::Owner(e)),
        };
        proof { crate::domain::lemma_assignment_links(owner); }
        Ok(PreparedAction {
            proposal: ActionProposal::new(actor, owner, action),
            spec,
            assignment: owner.assignment(),
            replaces_assignment: true,
        })
    }
}

/// The unit may be offered the contract in this frame: it can take it,
/// its deadline has not passed, and it has not already failed under it.
pub open spec fn proposal_gate(o: Observation, registry: MissionRegistry, reporter: i64, spec: MissionSpec) -> bool {
    &&& assignment_rejection(o, reporter, spec) is None
    &&& !(spec.spec_deadline() matches Some(d) && spec_is_expired(d, o.round_no as int))
    &&& !(exists|m: MissionId| #[trigger] registry.records().contains_key(m) && registry.records()[m].assignee == reporter
        && registry.records()[m].state == MissionState::Failed && same_contract(registry.records()[m].spec, spec))
}

impl DecisionState {
    /// Commits the owners of an accepted proposal: its mission is
    /// registered and started (cancelling what the unit ran before) or
    /// resumed, and the proposal's owner becomes the unit's current one.
    fn commit_proposal(&mut self, prepared: &PreparedAction) -> (r: Result<(), DecisionError>)
        requires
            old(self).well_formed(),
            prepared.spec.well_formed(),
            prepared.replaces_assignment
                ==> prepared.assignment.spec_mission().id.spec_value() < old(self).owner_allocator.spec_next_mission(),
        ensures
            final(self).build_plans == old(self).build_plans,
            final(self).strategy == old(self).strategy,
            final(self).emergency_clear == old(self).emergency_clear,
            final(self).well_formed(),
            final(self).owner_allocator == old(self).owner_allocator,
            crate::ai::mission::history_kept(old(self).registry().records(), final(self).registry().records()),
            r is Ok ==> {
                let reporter = spec_reporter(prepared.proposal.spec_actor(), prepared.proposal.spec_action());
                let m = prepared.assignment.spec_mission().id;
                &&& final(self).role_owners.view().contains_key(reporter)
                &&& final(self).role_owners.view()[reporter] == prepared.proposal.spec_owner()
                &&& final(self).missions.view().contains_key(reporter)
                &&& final(self).missions.view()[reporter] == MissionState::Executing
                &&& final(self).registry().records().contains_key(m)
                &&& final(self).registry().records()[m].state == MissionState::Executing
            },
            r is Ok <==> ({
                let records = old(self).registry().records();
                let m = prepared.assignment.spec_mission().id;
                if prepared.replaces_assignment {
                    registration_error(records, prepared.spec, prepared.assignment) is None
                        && deps_succeeded(records, prepared.spec.spec_dependencies())
                } else {
                    records.contains_key(m) && records[m].owner == prepared.assignment.spec_assignment()
                        && spec_is_active(records[m].state)
                }
            }),
            r matches Err(e) ==> e is Mission,
            ({
                let reporter = spec_reporter(prepared.proposal.spec_actor(), prepared.proposal.spec_action());
                prepared.replaces_assignment && r is Ok && old(self).registry().active().contains_key(reporter)
            }) ==> final(self).registry().records()[old(self).registry().active()[spec_reporter(prepared.proposal.spec_actor(),
                prepared.proposal.spec_action())]].state == MissionState::Cancelled,
            !prepared.replaces_assignment && r is Ok ==> final(self).registry().records() == old(self).registry().records().insert(
                prepared.assignment.spec_mission().id,
                with_state(old(self).registry().records()[prepared.assignment.spec_mission().id], MissionState::Executing)),
    {
        let reporter = prepared.proposal.reporter();
        if prepared.replaces_assignment {
            let spec = prepared.spec.duplicate();
            let cancelled = match self.mission_registry.activate_for_action(reporter, spec, prepared.assignment) {
                Ok(cancelled) => cancelled,
                Err(e) => {
                    assert(forall|m: MissionId| #[trigger] self.registry().records().contains_key(m)
                        ==> m.spec_value() < self.owner_allocator.spec_next_mission());
                    return Err(DecisionError::Mission(e));
                },
            };
            assert(forall|m: MissionId| #[trigger] self.registry().records().contains_key(m)
                ==> m.spec_value() < self.owner_allocator.spec_next_mission());
            let ghost registry = self.mission_registry;
            self.apply_cancellations(cancelled);
            assert(self.registry() == registry);
        } else {
            match self.mission_registry.resume_for_action(&prepared.assignment) {
                Ok(()) => {},
                Err(e) => return Err(DecisionError::Mission(e)),
            }
            proof { crate::domain::lemma_assignment_links(prepared.assignment); }
            let previous = match self.role_owners.get(&reporter) {
                Some(owner) => Some(*owner),
                None => None,
            };
            match previous {
                Some(previous) => self.deactivate_intent(&previous),
                None => {},
            }
        }
        self.role_owners.insert(reporter, *prepared.proposal.owner());
        self.missions.insert(reporter, MissionState::Executing);
        Ok(())
    }

    /// Retires the owners drafted for a rejected proposal.
    fn discard_proposal(&mut self, prepared: &PreparedAction)
        requires
            old(self).well_formed(),
        ensures
            final(self).build_plans == old(self).build_plans,
            final(self).strategy == old(self).strategy,
            final(self).emergency_clear == old(self).emergency_clear,
            final(self).well_formed(),
            final(self).registry() == old(self).registry(),
            final(self).role_owners == old(self).role_owners,
            final(self).missions == old(self).missions,
            final(self).pending_actions == old(self).pending_actions,
            final(self).individuals == old(self).individuals,
            final(self).owner_allocator == old(self).owner_allocator,
            prepared.replaces_assignment ==> {
                &&& !final(self).active_owners.spec_is_current(prepared.assignment)
                &&& !final(self).active_owners.mission_current(prepared.assignment.spec_mission())
                &&& final(self).active_owners.mission_map() == (if old(self).active_owners.mission_current(prepared.assignment.spec_mission()) {
                    old(self).active_owners.mission_map().remove(prepared.assignment.spec_mission().id.spec_value())
                } else {
                    old(self).active_owners.mission_map()
                })
            },
            !prepared.replaces_assignment ==> {
                &&& final(self).active_owners.mission_map() == old(self).active_owners.mission_map()
                &&& final(self).active_owners.plan_map() == old(self).active_owners.plan_map()
                &&& prepared.proposal.spec_owner().spec_intent() matches Some(intent) ==> final(self).active_owners.intent_map()
                    == old(self).active_owners.intent_map().remove(intent.id.spec_value())
            },
    {
        if prepared.replaces_assignment {
            self.active_owners.deactivate_assignment(&prepared.assignment);
        } else {
            self.deactivate_intent(prepared.proposal.owner());
        }
    }
}

/// Offers an action to the arbiter on behalf of a mission. Nothing is
/// drafted unless the unit that answers for the action (the controller of
/// an attack, the actor otherwise) can take the contract, its deadline has
/// not passed, and the unit has not already failed under it. The action
/// runs under the unit's live assignment for the same contract when there
/// is one, and under a new assignment otherwise; when the arbiter accepts,
/// the mission is started or resumed and the new owner becomes the unit's,
/// and when it refuses, the drafted owners are retired. It fails only
/// when the allocator has no identity left for the draft, or when a new
/// mission's prerequisites have not all succeeded.
pub fn propose_owned(
    observation: &Observation,
    state: &mut DecisionState,
    arbiter: &mut Arbiter,
    actor: i64,
    action: Action,
    spec: MissionSpec,
) -> (r: Result<bool, DecisionError>)
    requires
        old(state).well_formed(),
        old(arbiter).well_formed(),
        old(arbiter).spec_reserved_weapons() < usize::MAX,
        spec.well_formed(),
    ensures
        final(state).build_plans == old(state).build_plans,
        final(state).strategy == old(state).strategy,
        final(state).emergency_clear == old(state).emergency_clear,
        final(state).well_formed(),
        final(arbiter).well_formed(),
        final(arbiter).spec_observation() == old(arbiter).spec_observation(),
        crate::ai::mission::history_kept(old(state).registry().records(), final(state).registry().records()),
        !proposal_gate(*observation, old(state).registry(), spec_reporter(actor, action@), spec)
            ==> r == Ok::<bool, DecisionError>(false) && *final(state) == *old(state) && *final(arbiter) == *old(arbiter),
        r == Ok::<bool, DecisionError>(false) ==> *final(arbiter) == *old(arbiter),
        *final(arbiter) == *old(arbiter) || ({
            &&& old(arbiter).spec_valid(actor, action@)
            &&& old(arbiter).reserved_after(&*final(arbiter), actor, action@)
            &&& final(arbiter).spec_accepted().drop_last() == old(arbiter).spec_accepted()
            &&& final(arbiter).spec_accepted().len() == old(arbiter).spec_accepted().len() + 1
            &&& final(arbiter).spec_accepted().last().actor == actor
            &&& final(arbiter).spec_accepted().last().action@ == action@
        }),
        r == Ok::<bool, DecisionError>(false) && proposal_gate(*observation, old(state).registry(), spec_reporter(actor, action@), spec)
            ==> !old(arbiter).spec_valid(actor, action@) && final(state).role_owners == old(state).role_owners
                && final(state).registry() == old(state).registry(),
        r == Ok::<bool, DecisionError>(true) ==> {
            let reporter = spec_reporter(actor, action@);
            let owner = final(state).role_owners.view()[reporter];
            &&& proposal_gate(*observation, old(state).registry(), reporter, spec)
            &&& old(arbiter).spec_valid(actor, action@)
            &&& old(arbiter).reserved_after(&*final(arbiter), actor, action@)
            &&& final(arbiter).spec_accepted().drop_last() == old(arbiter).spec_accepted()
            &&& final(arbiter).spec_accepted().len() == old(arbiter).spec_accepted().len() + 1
            &&& final(arbiter).spec_accepted().last().actor == actor
            &&& final(arbiter).spec_accepted().last().action@ == action@
            &&& final(arbiter).spec_accepted().last().owner == Some(owner)
            &&& final(state).role_owners.view().contains_key(reporter)
            &&& final(state).registry().records().contains_key(owner.spec_mission().id)
            &&& final(state).registry().records()[owner.spec_mission().id].state == MissionState::Executing
        },
        r is Err ==> proposal_gate(*observation, old(state).registry(), spec_reporter(actor, action@), spec)
            && (!owners_available(*old(state)) || final(arbiter).spec_accepted().len() == old(arbiter).spec_accepted().len() + 1),
        r matches Err(e) ==> proposal_failed(e, final(arbiter).spec_accepted().len() == old(arbiter).spec_accepted().len() + 1),
        r matches Err(e) ==> (e == DecisionError::Owner(OwnerError::IdentitiesExhausted) && !owner_room(old(state).owner_allocator, 1))
            || (e is Mission && !deps_succeeded(old(state).registry().records(), spec.spec_dependencies())),
        allocator_within(old(state).owner_allocator, final(state).owner_allocator, 1),
        *final(arbiter) == *old(arbiter) || final(arbiter).spec_accepted().last().owner is Some,
        proposal_gate(*observation, old(state).registry(), spec_reporter(actor, action@), spec)
            && old(arbiter).spec_valid(actor, action@) && owners_available(*old(state))
            && fresh_contract(old(state).registry(), spec_reporter(actor, action@), spec, old(state).owner_allocator.spec_next_mission())
            ==> r == Ok::<bool, DecisionError>(true),
        ({
            let reporter = spec_reporter(actor, action@);
            let registry = old(state).registry();
            r == Ok::<bool, DecisionError>(true) && registry.active().contains_key(reporter)
                && !same_contract(registry.records()[registry.active()[reporter]].spec, spec)
        }) ==> final(state).registry().records()[old(state).registry().active()[spec_reporter(actor, action@)]].state
            == MissionState::Cancelled,
        ({
            let reporter = spec_reporter(actor, action@);
            let registry = old(state).registry();
            let m = registry.active()[reporter];
            r == Ok::<bool, DecisionError>(true) && registry.active().contains_key(reporter)
                && same_contract(registry.records()[m].spec, spec)
                && old(state).active_owners.spec_is_current(registry.records()[m].owner)
        }) ==> ({
            let reporter = spec_reporter(actor, action@);
            let registry = old(state).registry();
            let m = registry.active()[reporter];
            &&& final(state).role_owners.view()[reporter].spec_mission() == registry.records()[m].owner.spec_mission()
            &&& final(state).registry().records()[m].spec == registry.records()[m].spec
        }),
{
    let reporter = action_reporter(actor, &action);
    match check_assignment(observation, reporter, &spec) {
        Ok(()) => {},
        Err(_) => return Ok(false),
    }
    match spec.deadline() {
        Some(deadline) => if deadline.is_expired(observation.round_no) {
            return Ok(false);
        },
        None => {},
    }
    if !state.mission_registry.proposal_allowed(reporter, &spec) {
        return Ok(false);
    }
    let ghost before_state = *state;
    let prepared = state.prepare_action(actor, action, spec)?;
    proof {
        if prepared.replaces_assignment && deps_succeeded(before_state.registry().records(), spec.spec_dependencies()) {
            assert(!before_state.registry().records().contains_key(prepared.assignment.spec_mission().id));
            crate::ai::mission::lemma_registration_ok(before_state.registry().records(), spec, prepared.assignment);
        }
        if !prepared.replaces_assignment {
            before_state.mission_registry.lemma_well_formed();
            crate::domain::lemma_assignment_links(prepared.assignment);
            crate::domain::lemma_paths_by_links(prepared.assignment, prepared.assignment.spec_assignment());
        }
    }
    if arbiter.propose_for(&prepared.proposal, &state.active_owners) {
        state.commit_proposal(&prepared)?;
        proof {
            crate::domain::lemma_assignment_links(prepared.proposal.spec_owner());
        }
        return Ok(true);
    }
    state.discard_proposal(&prepared);
    Ok(false)
}

} // verus!
