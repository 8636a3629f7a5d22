use vstd::prelude::*;

use crate::ai::state::{DecisionError, DecisionState};
use crate::ai::mission::{rejection_recorded, spec_is_blockable, with_state};
use crate::collections::SortedMap;
use crate::command::{AcceptedAction, reporters_apart};
use crate::domain::{Action, Observation, OwnerPath, Role, action_reporter, spec_reporter};
use crate::event::{ExecutionReport, ReportReason, ReportScope, ReportStatus};
use crate::fsm::{IndividualState, MissionState, TacticalState};
use crate::rules::constants::{MIN_ACTION_ROUNDS, NO_HEALTH};

verus! {

/// An action sent to the judge and waiting for its result.
#[derive(Clone, Debug)]
pub struct PendingAction {
    pub actor: i64,
    pub reporter: i64,
    pub owner: OwnerPath,
    pub action: Action,
    pub sent_round: i32,
}

/// An action that ran for no mission waits under an owner drafted for it
/// in this round: its mission id is not below the allocator's next id
/// before the round.
pub open spec fn drafted_from(p: PendingAction, a: AcceptedAction, next_mission: u64) -> bool {
    a.owner is None ==> p.owner.spec_mission().id.spec_value() >= next_mission
}

/// The pending entry an accepted action leaves.
pub open spec fn pending_for(p: PendingAction, a: AcceptedAction, round: i32) -> bool {
    &&& p.actor == a.actor
    &&& p.reporter == spec_reporter(a.actor, a.action@)
    &&& p.action@ == a.action@
    &&& p.sent_round == round
    &&& a.owner matches Some(o) ==> p.owner == o
}

/// The units answering for the accepted actions, in order.
pub open spec fn reporters(accepted: Seq<AcceptedAction>) -> Seq<i64> {
    accepted.map_values(|a: AcceptedAction| spec_reporter(a.actor, a.action@))
}

/// Only the units answering for accepted actions gain or change a pending
/// action or a stage; every other unit keeps what it had.
#[verifier::opaque]
pub open spec fn only_reporters_touched(before: DecisionState, after: DecisionState, accepted: Seq<AcceptedAction>) -> bool {
    &&& forall|k: i64| #[trigger] after.pending_actions.view().contains_key(k) ==> before.pending_actions.view().contains_key(k)
        || reporters(accepted).contains(k)
    &&& forall|k: i64| #[trigger] after.individuals.view().contains_key(k) ==> before.individuals.view().contains_key(k)
        || reporters(accepted).contains(k)
    &&& forall|k: i64| #[trigger] before.pending_actions.view().contains_key(k) && !reporters(accepted).contains(k)
        ==> after.pending_actions.view().contains_key(k) && after.pending_actions.view()[k] == before.pending_actions.view()[k]
    &&& forall|k: i64| #[trigger] before.individuals.view().contains_key(k) && !reporters(accepted).contains(k)
        ==> after.individuals.view().contains_key(k) && after.individuals.view()[k] == before.individuals.view()[k]
}

/// Records the actions the arbiter accepted as sent: each waits for its
/// result under the unit that answers for it (the controller of an attack,
/// the actor otherwise). An action that runs for a mission keeps its owner
/// and is recorded against the mission; any other starts fresh work for
/// its unit.
#[verifier::rlimit(40)]
pub fn record_committed(observation: &Observation, accepted: &[AcceptedAction], state: &mut DecisionState) -> (r: Result<(), DecisionError>)
    requires
        old(state).well_formed(),
    ensures
        final(state).strategy == old(state).strategy,
        final(state).emergency_clear == old(state).emergency_clear,
        final(state).well_formed(),
        crate::ai::mission::history_kept(old(state).registry().records(), final(state).registry().records()),
        r is Ok ==> forall|i: int| 0 <= i < accepted@.len() ==> {
            let reporter = #[trigger] spec_reporter(accepted@[i].actor, accepted@[i].action@);
            &&& final(state).individuals.view().contains_key(reporter)
            &&& final(state).individuals.view()[reporter] == IndividualState::WaitingResult
            &&& final(state).pending_actions.view().contains_key(reporter)
            &&& exists|j: int| i <= j < accepted@.len() && #[trigger] pending_for(final(state).pending_actions.view()[reporter], accepted@[j], observation.round_no)
                && drafted_from(final(state).pending_actions.view()[reporter], accepted@[j], old(state).owner_allocator.spec_next_mission())
        },
        r is Ok && reporters_apart(accepted@) ==> forall|i: int| 0 <= i < accepted@.len() ==> #[trigger] pending_for(
            final(state).pending_actions.view()[spec_reporter(accepted@[i].actor, accepted@[i].action@)], accepted@[i], observation.round_no),
        r matches Err(e) ==> crate::ai::state::owner_failure(e) && exists|i: int| 0 <= i < accepted@.len() && (#[trigger] accepted@[i]).owner is None,
        (forall|i: int| 0 <= i < accepted@.len() ==> (#[trigger] accepted@[i]).owner is Some) ==> r is Ok,
        accepted@.len() == 0 ==> *final(state) == *old(state) && r is Ok,
        only_reporters_touched(*old(state), *final(state), accepted@),
{
    proof { lemma_touched_none(*old(state), accepted@.subrange(0, 0)); }
    let mut i: usize = 0;
    while i < accepted.len()
        invariant
            i == 0 ==> *state == *old(state),
            only_reporters_touched(*old(state), *state, accepted@.subrange(0, i as int)),
            state.well_formed(),
            state.strategy == old(state).strategy,
            state.emergency_clear == old(state).emergency_clear,
            crate::ai::mission::history_kept(old(state).registry().records(), state.registry().records()),
            i <= accepted@.len(),
            forall|k: int| 0 <= k < i ==> {
                let reporter = #[trigger] spec_reporter(accepted@[k].actor, accepted@[k].action@);
                &&& state.individuals.view().contains_key(reporter)
                &&& state.individuals.view()[reporter] == IndividualState::WaitingResult
                &&& state.pending_actions.view().contains_key(reporter)
                &&& exists|j: int| k <= j < i && #[trigger] pending_for(state.pending_actions.view()[reporter], accepted@[j], observation.round_no)
                    && drafted_from(state.pending_actions.view()[reporter], accepted@[j], old(state).owner_allocator.spec_next_mission())
            },
            state.owner_allocator.spec_next_mission() >= old(state).owner_allocator.spec_next_mission(),
            forall|k: int| 0 <= k < i ==> state.pending_actions.view()[#[trigger] spec_reporter(accepted@[k].actor, accepted@[k].action@)].reporter
                == spec_reporter(accepted@[k].actor, accepted@[k].action@),
        decreases accepted@.len() - i,
    {
        let ghost before = *state;
        let item = &accepted[i];
        let reporter = action_reporter(item.actor, &item.action);
        let owner = match item.owner {
            Some(owner) => {
                state.record_mission_action(&owner, item.actor, &item.action, observation);
                owner
            },
            None => match state.start_work(reporter) {
                Ok(owner) => owner,
                Err(e) => {
                    assert(accepted@[i as int].owner is None);
                    proof {
                        lemma_touched_same(*old(state), before, *state, accepted@.subrange(0, i as int));
                        lemma_touched_grow(*old(state), *state, accepted@, i as int);
                    }
                    return Err(DecisionError::Owner(e));
                },
            },
        };
        let pending = PendingAction {
            actor: item.actor,
            reporter,
            owner,
            action: item.action.clone(),
            sent_round: observation.round_no,
        };
        assert(pending_for(pending, accepted@[i as int], observation.round_no));
        assert(drafted_from(pending, accepted@[i as int], old(state).owner_allocator.spec_next_mission()));
        state.pending_actions.insert(reporter, pending);
        state.individuals.insert(reporter, IndividualState::WaitingResult);
        proof {
            assert(state.pending_actions.view().remove(reporter) =~= before.pending_actions.view().remove(reporter));
            assert(state.individuals.view().remove(reporter) =~= before.individuals.view().remove(reporter));
            lemma_touched_step(*old(state), before, *state, accepted@, i as int);
            assert forall|k: int| 0 <= k < i + 1 implies {
                let rep = #[trigger] spec_reporter(accepted@[k].actor, accepted@[k].action@);
                &&& state.individuals.view().contains_key(rep)
                &&& state.individuals.view()[rep] == IndividualState::WaitingResult
                &&& state.pending_actions.view().contains_key(rep)
                &&& exists|j: int| k <= j < i + 1 && #[trigger] pending_for(state.pending_actions.view()[rep], accepted@[j], observation.round_no)
                    && drafted_from(state.pending_actions.view()[rep], accepted@[j], old(state).owner_allocator.spec_next_mission())
            } by {
                let rep = spec_reporter(accepted@[k].actor, accepted@[k].action@);
                if rep == reporter {
                    assert(pending_for(state.pending_actions.view()[rep], accepted@[i as int], observation.round_no));
                } else if k < i {
                    let j = choose|j: int| k <= j < i && #[trigger] pending_for(before.pending_actions.view()[rep], accepted@[j], observation.round_no)
                        && drafted_from(before.pending_actions.view()[rep], accepted@[j], old(state).owner_allocator.spec_next_mission());
                    assert(pending_for(state.pending_actions.view()[rep], accepted@[j], observation.round_no));
                }
            }
        }
        i = i + 1;
    }
    proof {
        lemma_touched_grow(*old(state), *state, accepted@, i as int);
        if reporters_apart(accepted@) {
            assert forall|k: int| 0 <= k < accepted@.len() implies #[trigger] pending_for(
                state.pending_actions.view()[spec_reporter(accepted@[k].actor, accepted@[k].action@)], accepted@[k], observation.round_no) by {
                let rep = spec_reporter(accepted@[k].actor, accepted@[k].action@);
                let j = choose|j: int| k <= j < i && #[trigger] pending_for(state.pending_actions.view()[rep], accepted@[j], observation.round_no)
                    && drafted_from(state.pending_actions.view()[rep], accepted@[j], old(state).owner_allocator.spec_next_mission());
                if j != k {
                    assert(spec_reporter(accepted@[j].actor, accepted@[j].action@) == rep);
                    assert(false);
                }
            }
        }
    }
    Ok(())
}

proof fn lemma_touched_same(start: DecisionState, a: DecisionState, b: DecisionState, accepted: Seq<AcceptedAction>)
    requires
        only_reporters_touched(start, a, accepted),
        a.pending_actions == b.pending_actions,
        a.individuals == b.individuals,
    ensures
        only_reporters_touched(start, b, accepted),
{
    reveal(only_reporters_touched);
}

proof fn lemma_touched_none(s: DecisionState, accepted: Seq<AcceptedAction>)
    ensures
        only_reporters_touched(s, s, accepted),
{
    reveal(only_reporters_touched);
}

proof fn lemma_touched_step(start: DecisionState, before: DecisionState, after: DecisionState, accepted: Seq<AcceptedAction>, i: int)
    requires
        0 <= i < accepted.len(),
        only_reporters_touched(start, before, accepted.subrange(0, i)),
        after.pending_actions.view().remove(spec_reporter(accepted[i].actor, accepted[i].action@))
            == before.pending_actions.view().remove(spec_reporter(accepted[i].actor, accepted[i].action@)),
        after.individuals.view().remove(spec_reporter(accepted[i].actor, accepted[i].action@))
            == before.individuals.view().remove(spec_reporter(accepted[i].actor, accepted[i].action@)),
    ensures
        only_reporters_touched(start, after, accepted.subrange(0, i + 1)),
{
    reveal(only_reporters_touched);
    let reporter = spec_reporter(accepted[i].actor, accepted[i].action@);
    let done = accepted.subrange(0, i);
    let next = accepted.subrange(0, i + 1);
    assert(next =~= done.push(accepted[i]));
    assert(reporters(next) =~= reporters(done).push(reporter));
    assert forall|k: i64| reporters(done).contains(k) implies reporters(next).contains(k) by {
        let j = choose|j: int| 0 <= j < reporters(done).len() && reporters(done)[j] == k;
        assert(reporters(next)[j] == k);
    }
    assert(reporters(next)[i] == reporter);
    assert forall|k: i64| reporters(next).contains(k) && k != reporter implies reporters(done).contains(k) by {
        let j = choose|j: int| 0 <= j < reporters(next).len() && reporters(next)[j] == k;
        assert(reporters(done)[j] == k);
    }
    assert forall|k: i64| k != reporter implies after.pending_actions.view().contains_key(k) == before.pending_actions.view().contains_key(k)
        && (before.pending_actions.view().contains_key(k) ==> after.pending_actions.view()[k] == before.pending_actions.view()[k])
        && after.individuals.view().contains_key(k) == before.individuals.view().contains_key(k)
        && (before.individuals.view().contains_key(k) ==> after.individuals.view()[k] == before.individuals.view()[k]) by {
        assert(after.pending_actions.view().remove(reporter).contains_key(k) == after.pending_actions.view().contains_key(k));
        assert(before.pending_actions.view().remove(reporter).contains_key(k) == before.pending_actions.view().contains_key(k));
        assert(after.individuals.view().remove(reporter).contains_key(k) == after.individuals.view().contains_key(k));
        assert(before.individuals.view().remove(reporter).contains_key(k) == before.individuals.view().contains_key(k));
        if before.pending_actions.view().contains_key(k) {
            assert(after.pending_actions.view().remove(reporter)[k] == after.pending_actions.view()[k]);
        }
        if before.individuals.view().contains_key(k) {
            assert(after.individuals.view().remove(reporter)[k] == after.individuals.view()[k]);
        }
    }
    assert(reporters(next).contains(reporter));
    assert forall|k: i64| #[trigger] after.pending_actions.view().contains_key(k) implies start.pending_actions.view().contains_key(k)
        || reporters(next).contains(k) by {
        if k != reporter {
            assert(after.pending_actions.view().remove(reporter).contains_key(k));
            assert(before.pending_actions.view().remove(reporter).contains_key(k));
        }
    }
    assert forall|k: i64| #[trigger] after.individuals.view().contains_key(k) implies start.individuals.view().contains_key(k)
        || reporters(next).contains(k) by {
        if k != reporter {
            assert(after.individuals.view().remove(reporter).contains_key(k));
            assert(before.individuals.view().remove(reporter).contains_key(k));
        }
    }
    assert forall|k: i64| #[trigger] start.pending_actions.view().contains_key(k) && !reporters(next).contains(k)
        implies after.pending_actions.view().contains_key(k) && after.pending_actions.view()[k] == start.pending_actions.view()[k] by {
        assert(!reporters(done).contains(k));
    }
    assert forall|k: i64| #[trigger] start.individuals.view().contains_key(k) && !reporters(next).contains(k)
        implies after.individuals.view().contains_key(k) && after.individuals.view()[k] == start.individuals.view()[k] by {
        assert(!reporters(done).contains(k));
    }
}

proof fn lemma_touched_grow(before: DecisionState, after: DecisionState, accepted: Seq<AcceptedAction>, n: int)
    requires
        0 <= n <= accepted.len(),
        only_reporters_touched(before, after, accepted.subrange(0, n)),
    ensures
        only_reporters_touched(before, after, accepted),
{
    reveal(only_reporters_touched);
    let prefix = accepted.subrange(0, n);
    assert forall|k: i64| reporters(prefix).contains(k) implies reporters(accepted).contains(k) by {
        let j = choose|j: int| 0 <= j < reporters(prefix).len() && reporters(prefix)[j] == k;
        assert(reporters(accepted)[j] == k);
    }
}

/// Whether the reporting unit is known to be dead in this frame.
pub open spec fn reporter_dead(o: Observation, reporter: i64) -> bool {
    exists|i: int| 0 <= i < o.team_our.roles@.len() && (#[trigger] o.team_our.roles@[i]).id == reporter
        && (o.team_our.roles@[i].health matches Some(hp) && hp <= NO_HEALTH)
}

/// The judge's verdict on the actor's action of the previous round, when
/// this frame is the round right after the action was sent.
pub open spec fn spec_action_result(o: Observation, pending: PendingAction) -> Option<bool> {
    if pending.sent_round + MIN_ACTION_ROUNDS != o.round_no {
        None
    } else {
        match crate::collections::first_where(o.last_round_role_action_results@, |e: (i64, bool)| e.0 == pending.actor) {
            Some(e) => Some(e.1),
            None => None,
        }
    }
}

/// A dead reporter fails its action; otherwise a legal verdict is
/// progress, a rejected one a failure, and no verdict leaves it at risk.
pub open spec fn spec_outcome(dead: bool, result: Option<bool>) -> (ReportStatus, ReportReason) {
    if dead {
        (ReportStatus::Failed, ReportReason::OwnerDied)
    } else {
        match result {
            Some(true) => (ReportStatus::Progress, ReportReason::ActionLegal),
            Some(false) => (ReportStatus::Failed, ReportReason::ActionRejected),
            None => (ReportStatus::AtRisk, ReportReason::ActionResultUnknown),
        }
    }
}

/// The narrowest owner an action ran under.
pub open spec fn spec_scope(owner: OwnerPath) -> ReportScope {
    if owner.spec_intent() is Some {
        ReportScope::Step
    } else if owner.spec_plan() is Some {
        ReportScope::Plan
    } else {
        ReportScope::Mission
    }
}

pub open spec fn report_of(o: Observation, pending: PendingAction) -> ExecutionReport {
    let outcome = spec_outcome(reporter_dead(o, pending.reporter), spec_action_result(o, pending));
    ExecutionReport {
        scope: spec_scope(pending.owner),
        status: outcome.0,
        owner: pending.reporter,
        reason: outcome.1,
        observed_round: o.round_no,
    }
}

/// How a settled action is reported: to the unit that answers for it; a
/// failure when that unit is dead; otherwise, in the round right after the
/// action was sent, progress when the judge found it legal and a failure
/// when it rejected it; and at risk when no verdict is known.
pub proof fn law_report_cases(o: Observation, pending: PendingAction)
    ensures
        report_of(o, pending).owner == pending.reporter,
        report_of(o, pending).observed_round == o.round_no,
        reporter_dead(o, pending.reporter) ==> report_of(o, pending).status == ReportStatus::Failed
            && report_of(o, pending).reason == ReportReason::OwnerDied,
        !reporter_dead(o, pending.reporter) && o.round_no == pending.sent_round + MIN_ACTION_ROUNDS
            && spec_action_result(o, pending) == Some(true) ==> report_of(o, pending).status == ReportStatus::Progress
                && report_of(o, pending).reason == ReportReason::ActionLegal,
        !reporter_dead(o, pending.reporter) && o.round_no == pending.sent_round + MIN_ACTION_ROUNDS
            && spec_action_result(o, pending) == Some(false) ==> report_of(o, pending).status == ReportStatus::Failed
                && report_of(o, pending).reason == ReportReason::ActionRejected,
        !reporter_dead(o, pending.reporter) && spec_action_result(o, pending) is None
            ==> report_of(o, pending).status == ReportStatus::AtRisk
                && report_of(o, pending).reason == ReportReason::ActionResultUnknown,
        o.round_no != pending.sent_round + MIN_ACTION_ROUNDS ==> spec_action_result(o, pending) is None,
{
}

fn is_dead(roles: &Vec<Role>, reporter: i64) -> (r: bool)
    ensures
        r == exists|i: int| 0 <= i < roles@.len() && (#[trigger] roles@[i]).id == reporter
            && (roles@[i].health matches Some(hp) && hp <= NO_HEALTH),
{
    let mut i: usize = 0;
    while i < roles.len()
        invariant
            i <= roles@.len(),
            forall|j: int| 0 <= j < i ==> !((#[trigger] roles@[j]).id == reporter && (roles@[j].health matches Some(hp) && hp <= NO_HEALTH)),
        decreases roles@.len() - i,
    {
        let dead = match roles[i].health {
            Some(hp) => hp <= NO_HEALTH,
            None => false,
        };
        if roles[i].id == reporter && dead {
            return true;
        }
        i = i + 1;
    }
    false
}

fn action_result(observation: &Observation, pending: &PendingAction) -> (r: Option<bool>)
    ensures
        r == spec_action_result(*observation, *pending),
{
    let expected = match pending.sent_round.checked_add(MIN_ACTION_ROUNDS) {
        Some(round) => round,
        None => return None,
    };
    if expected != observation.round_no {
        return None;
    }
    let results = &observation.last_round_role_action_results;
    let ghost p = |e: (i64, bool)| e.0 == pending.actor;
    let mut i: usize = 0;
    while i < results.len()
        invariant
            i <= results@.len(),
            results@ == observation.last_round_role_action_results@,
            pending.sent_round + MIN_ACTION_ROUNDS == observation.round_no,
            p == (|e: (i64, bool)| e.0 == pending.actor),
            forall|j: int| 0 <= j < i ==> !p(#[trigger] results@[j]),
        decreases results@.len() - i,
    {
        let (actor, legal) = results[i];
        if actor == pending.actor {
            proof {
                assert(crate::collections::is_first(results@, p, i as int));
                crate::collections::lemma_first_where_at(results@, p, i as int);
            }
            return Some(legal);
        }
        i = i + 1;
    }
    proof { crate::collections::lemma_first_where_none(results@, p); }
    None
}

fn report_outcome(dead: bool, result: Option<bool>) -> (r: (ReportStatus, ReportReason))
    ensures
        r == spec_outcome(dead, result),
{
    if dead {
        return (ReportStatus::Failed, ReportReason::OwnerDied);
    }
    match result {
        Some(true) => (ReportStatus::Progress, ReportReason::ActionLegal),
        Some(false) => (ReportStatus::Failed, ReportReason::ActionRejected),
        None => (ReportStatus::AtRisk, ReportReason::ActionResultUnknown),
    }
}

fn report_scope(owner: &OwnerPath) -> (r: ReportScope)
    ensures
        r == spec_scope(*owner),
{
    if owner.intent().is_some() {
        return ReportScope::Step;
    }
    if owner.plan().is_some() {
        return ReportScope::Plan;
    }
    ReportScope::Mission
}

/// What became of a pending action, as seen in this frame.
pub fn action_report(observation: &Observation, pending: &PendingAction) -> (r: ExecutionReport)
    ensures
        r == report_of(*observation, *pending),
{
    let dead = is_dead(&observation.team_our.roles, pending.reporter);
    let result = action_result(observation, pending);
    let (status, reason) = report_outcome(dead, result);
    ExecutionReport {
        scope: report_scope(&pending.owner),
        status,
        owner: pending.reporter,
        reason,
        observed_round: observation.round_no,
    }
}

fn update_dead_states(state: &mut DecisionState, reporter: i64)
    requires
        old(state).well_formed(),
    ensures
        final(state).owner_allocator == old(state).owner_allocator,
        final(state).pending_actions == old(state).pending_actions,
        final(state).well_formed(),
        final(state).registry() == old(state).registry(),
        final(state).individuals.view() == old(state).individuals.view().insert(reporter, IndividualState::Dead),
        final(state).missions.view() == old(state).missions.view().insert(reporter, MissionState::Cancelled),
        final(state).tactics.view() == old(state).tactics.view().insert(reporter, TacticalState::Cancelled),
{
    state.individuals.insert(reporter, IndividualState::Dead);
    state.missions.insert(reporter, MissionState::Cancelled);
    state.tactics.insert(reporter, TacticalState::Cancelled);
}

fn update_recovery_states(state: &mut DecisionState, reporter: i64)
    requires
        old(state).well_formed(),
    ensures
        final(state).owner_allocator == old(state).owner_allocator,
        final(state).pending_actions == old(state).pending_actions,
        final(state).well_formed(),
        final(state).registry() == old(state).registry(),
        final(state).role_owners == old(state).role_owners,
        final(state).active_owners == old(state).active_owners,
        final(state).individuals.view() == old(state).individuals.view().insert(reporter, IndividualState::Recovering),
        final(state).missions.view() == old(state).missions.view().insert(reporter, MissionState::Blocked),
        final(state).tactics.view() == old(state).tactics.view().insert(reporter, TacticalState::Replan),
{
    state.individuals.insert(reporter, IndividualState::Recovering);
    state.missions.insert(reporter, MissionState::Blocked);
    state.tactics.insert(reporter, TacticalState::Replan);
}

/// Whether one of the resolutions is a failure of the unit's mission.
fn failed_for(resolved: &Vec<crate::ai::mission::MissionResolution>, reporter: i64) -> (r: bool)
    ensures
        r == exists|i: int| 0 <= i < resolved@.len() && (#[trigger] resolved@[i]).assignee == reporter
            && resolved@[i].state == MissionState::Failed,
{
    let mut i: usize = 0;
    while i < resolved.len()
        invariant
            i <= resolved@.len(),
            forall|j: int| 0 <= j < i ==> !((#[trigger] resolved@[j]).assignee == reporter && resolved@[j].state == MissionState::Failed),
        decreases resolved@.len() - i,
    {
        if resolved[i].assignee == reporter && resolved[i].state == MissionState::Failed {
            return true;
        }
        i = i + 1;
    }
    false
}

/// What applying a report does, while the owner it ran under is live: a
/// death ends the unit's work; progress makes it idle; otherwise the unit
/// recovers (its mission blocked, its tactics replanning) and either the
/// rejection is counted against its mission (`rejection_recorded`; the unit
/// goes idle with its step failed once the mission fails for it) or, for
/// an unknown outcome, the mission is blocked. A report under a retired
/// owner changes nothing.
pub open spec fn report_applied(before: DecisionState, after: DecisionState, report: ExecutionReport, owner: OwnerPath) -> bool {
    let u = report.owner;
    if !before.active_owners.spec_is_current(owner) {
        after == before
    } else if report.reason == ReportReason::OwnerDied {
        &&& after.registry() == before.registry()
        &&& after.individuals.view() == before.individuals.view().insert(u, IndividualState::Dead)
        &&& after.missions.view() == before.missions.view().insert(u, MissionState::Cancelled)
        &&& after.tactics.view() == before.tactics.view().insert(u, TacticalState::Cancelled)
    } else if report.status == ReportStatus::Progress {
        &&& after == DecisionState { individuals: after.individuals, ..before }
        &&& after.individuals.view() == before.individuals.view().insert(u, IndividualState::Idle)
    } else if report.reason == ReportReason::ActionRejected {
        exists|resolved: Seq<crate::ai::mission::MissionResolution>| #[trigger] rejection_recorded(before.registry(), after.registry(),
            owner, report.observed_round, resolved) && {
            let failed = exists|i: int| 0 <= i < resolved.len() && (#[trigger] resolved[i]).assignee == u
                && resolved[i].state == MissionState::Failed;
            &&& after.individuals.view()[u] == (if failed { IndividualState::Idle } else { IndividualState::Recovering })
            &&& after.tactics.view()[u] == (if failed { TacticalState::Failed } else { TacticalState::Replan })
            &&& after.individuals.view().contains_key(u)
            &&& after.tactics.view().contains_key(u)
        }
    } else {
        let m = owner.spec_mission().id;
        let records = before.registry().records();
        &&& after.individuals.view() == before.individuals.view().insert(u, IndividualState::Recovering)
        &&& after.tactics.view() == before.tactics.view().insert(u, TacticalState::Replan)
        &&& after.missions.view() == before.missions.view().insert(u, MissionState::Blocked)
        &&& if records.contains_key(m) && records[m].owner == owner.spec_assignment() && spec_is_blockable(records[m].state) {
            after.registry().records() == records.insert(m, with_state(records[m], MissionState::Blocked))
        } else {
            after.registry() == before.registry()
        }
    }
}

/// Applies a report to the unit that answers for it, while the owner it ran
/// under is still live: a death ends the unit's work; progress makes it
/// idle; a failure or an unknown outcome sends it to recovery, a rejection
/// counting against its mission (idle, with the step failed, once the
/// mission fails for it), an unknown outcome blocking the mission.
pub fn update_states(state: &mut DecisionState, report: &ExecutionReport, owner: &OwnerPath)
    requires
        old(state).well_formed(),
    ensures
        final(state).owner_allocator == old(state).owner_allocator,
        final(state).well_formed(),
        crate::ai::mission::history_kept(old(state).registry().records(), final(state).registry().records()),
        final(state).pending_actions == old(state).pending_actions,
        !old(state).active_owners.spec_is_current(*owner) ==> *final(state) == *old(state),
        old(state).active_owners.spec_is_current(*owner) && report.reason == ReportReason::OwnerDied
            ==> final(state).individuals.view()[report.owner] == IndividualState::Dead,
        old(state).active_owners.spec_is_current(*owner) && report.reason != ReportReason::OwnerDied && report.status == ReportStatus::Progress
            ==> final(state).individuals.view() == old(state).individuals.view().insert(report.owner, IndividualState::Idle),
        report_applied(*old(state), *final(state), *report, *owner),
{
    if !state.active_owners.is_current(owner) {
        return;
    }
    let reporter = report.owner;
    if report.reason == ReportReason::OwnerDied {
        update_dead_states(state, reporter);
        return;
    }
    if report.status == ReportStatus::Progress {
        state.individuals.insert(reporter, IndividualState::Idle);
        return;
    }
    update_recovery_states(state, reporter);
    if report.reason == ReportReason::ActionRejected {
        let ghost recovering = *state;
        let resolved = state.record_rejection(owner, report.observed_round);
        proof {
            assert(state.individuals == recovering.individuals);
            assert(state.tactics == recovering.tactics);
        }
        if failed_for(&resolved, reporter) {
            state.individuals.insert(reporter, IndividualState::Idle);
            state.tactics.insert(reporter, TacticalState::Failed);
        }
        proof {
            assert(rejection_recorded(old(state).registry(), state.registry(), *owner, report.observed_round, resolved@));
        }
    } else {
        state.block_mission(owner);
    }
}

/// The pending actions whose result round has come, in unit order.
pub open spec fn settled_entries(o: Observation, entries: Seq<(i64, PendingAction)>) -> Seq<(i64, PendingAction)> {
    entries.filter(|e: (i64, PendingAction)| o.round_no > e.1.sent_round)
}

/// The two states differ at most in their pending actions.
pub open spec fn same_but_pending(a: DecisionState, b: DecisionState) -> bool {
    a == (DecisionState { pending_actions: a.pending_actions, ..b })
}

/// The settled actions' reports were applied in order, as `report_applied`
/// says, with nothing but pending actions changing between them.
pub open spec fn reports_applied(before: DecisionState, after: DecisionState, o: Observation, settled: Seq<(i64, PendingAction)>,
    states: Seq<DecisionState>, applied: Seq<DecisionState>) -> bool
{
    &&& states.len() == settled.len()
    &&& applied.len() == settled.len()
    &&& forall|k: int| 0 <= k < settled.len()
        ==> report_applied(#[trigger] states[k], applied[k], report_of(o, settled[k].1), settled[k].1.owner)
    &&& settled.len() == 0 ==> same_but_pending(before, after)
    &&& settled.len() > 0 ==> same_but_pending(before, states[0]) && same_but_pending(applied.last(), after)
    &&& forall|k: int| 0 <= k < settled.len() - 1 ==> same_but_pending(#[trigger] applied[k], states[k + 1])
}

proof fn lemma_reports_pending(before: DecisionState, cur: DecisionState, next: DecisionState, o: Observation,
    settled: Seq<(i64, PendingAction)>, states: Seq<DecisionState>, applied: Seq<DecisionState>)
    requires
        reports_applied(before, cur, o, settled, states, applied),
        same_but_pending(cur, next),
    ensures
        reports_applied(before, next, o, settled, states, applied),
{
}

proof fn lemma_reports_step(before: DecisionState, cur: DecisionState, next: DecisionState, o: Observation,
    settled: Seq<(i64, PendingAction)>, states: Seq<DecisionState>, applied: Seq<DecisionState>, e: (i64, PendingAction))
    requires
        reports_applied(before, cur, o, settled, states, applied),
        report_applied(cur, next, report_of(o, e.1), e.1.owner),
    ensures
        reports_applied(before, next, o, settled.push(e), states.push(cur), applied.push(next)),
{
    let s2 = settled.push(e);
    let st2 = states.push(cur);
    let ap2 = applied.push(next);
    assert forall|k: int| 0 <= k < s2.len()
        implies report_applied(#[trigger] st2[k], ap2[k], report_of(o, s2[k].1), s2[k].1.owner) by {
        if k < settled.len() {
            assert(st2[k] == states[k]);
            assert(ap2[k] == applied[k]);
            assert(s2[k] == settled[k]);
        }
    }
    assert forall|k: int| 0 <= k < s2.len() - 1 implies same_but_pending(#[trigger] ap2[k], st2[k + 1]) by {
        if k < settled.len() - 1 {
            assert(ap2[k] == applied[k]);
            assert(st2[k + 1] == states[k + 1]);
        } else {
            assert(ap2[k] == applied.last());
        }
    }
}

/// Settles every pending action whose result round has come: each is
/// reported and applied to its unit, in unit order; the others keep
/// waiting.
pub fn reconcile(observation: &Observation, state: &mut DecisionState) -> (r: Vec<ExecutionReport>)
    requires
        old(state).well_formed(),
    ensures
        final(state).owner_allocator == old(state).owner_allocator,
        final(state).well_formed(),
        crate::ai::mission::history_kept(old(state).registry().records(), final(state).registry().records()),
        r@ == old(state).pending_actions.entries()
            .filter(|e: (i64, PendingAction)| observation.round_no > e.1.sent_round)
            .map_values(|e: (i64, PendingAction)| report_of(*observation, e.1)),
        forall|k: i64| #[trigger] final(state).pending_actions.view().contains_key(k) <==>
            (old(state).pending_actions.view().contains_key(k) && observation.round_no <= old(state).pending_actions.view()[k].sent_round),
        exists|states: Seq<DecisionState>, applied: Seq<DecisionState>| #[trigger] reports_applied(*old(state), *final(state), *observation,
            settled_entries(*observation, old(state).pending_actions.entries()), states, applied),
{
    let mut pending: SortedMap<i64, PendingAction> = SortedMap::new();
    core::mem::swap(&mut pending, &mut state.pending_actions);
    let ghost entries = pending.entries();
    let ghost settled = |e: (i64, PendingAction)| observation.round_no > e.1.sent_round;
    proof { pending.lemma_view(); }
    let mut reports: Vec<ExecutionReport> = Vec::new();
    let n: usize = pending.len();
    let ghost mut states: Seq<DecisionState> = Seq::empty();
    let ghost mut applied: Seq<DecisionState> = Seq::empty();
    proof {
        assert(entries.subrange(0, 0).filter(settled) =~= Seq::<(i64, PendingAction)>::empty());
        assert(same_but_pending(*old(state), *state));
    }
    let mut i: usize = 0;
    while i < n
        invariant
            reports_applied(*old(state), *state, *observation, entries.subrange(0, i as int).filter(settled), states, applied),
            state.well_formed(),
            state.owner_allocator == old(state).owner_allocator,
            crate::ai::mission::history_kept(old(state).registry().records(), state.registry().records()),
            pending.well_formed(),
            pending.entries() == entries,
            entries == old(state).pending_actions.entries(),
            pending.view() == old(state).pending_actions.view(),
            n == entries.len(),
            i <= n,
            settled == (|e: (i64, PendingAction)| observation.round_no > e.1.sent_round),
            reports@ == entries.subrange(0, i as int).filter(settled)
                .map_values(|e: (i64, PendingAction)| report_of(*observation, e.1)),
            forall|k: i64| #[trigger] state.pending_actions.view().contains_key(k) <==>
                (exists|j: int| 0 <= j < i && entries[j].0 == k && observation.round_no <= entries[j].1.sent_round),
        decreases n - i,
    {
        let (reporter, action) = pending.entry_at(i);
        let reporter = *reporter;
        proof {
            assert(entries.subrange(0, i + 1) =~= entries.subrange(0, i as int).push(entries[i as int]));
            entries.subrange(0, i as int).lemma_filter_push(entries[i as int], settled);
        }
        assert(entries[i as int].0 == reporter);
        if observation.round_no <= action.sent_round {
            let ghost before = state.pending_actions.view();
            let ghost before_state = *state;
            state.pending_actions.insert(reporter, action.clone());
            proof {
                assert(entries.subrange(0, i + 1).filter(settled) =~= entries.subrange(0, i as int).filter(settled));
                assert(same_but_pending(before_state, *state));
                lemma_reports_pending(*old(state), before_state, *state, *observation, entries.subrange(0, i as int).filter(settled), states, applied);

                assert forall|k: i64| #[trigger] state.pending_actions.view().contains_key(k) <==>
                    (exists|j: int| 0 <= j < i + 1 && entries[j].0 == k && observation.round_no <= entries[j].1.sent_round) by {
                    if k != reporter && before.contains_key(k) {
                        let j = choose|j: int| 0 <= j < i && entries[j].0 == k && observation.round_no <= entries[j].1.sent_round;
                        assert(0 <= j < i + 1);
                    }
                    if exists|j: int| 0 <= j < i + 1 && entries[j].0 == k && observation.round_no <= entries[j].1.sent_round {
                        let j = choose|j: int| 0 <= j < i + 1 && entries[j].0 == k && observation.round_no <= entries[j].1.sent_round;
                        if j < i {
                            assert(before.contains_key(k));
                        }
                    }
                }
            }
        } else {
            let report = action_report(observation, action);
            let ghost before_state = *state;
            update_states(state, &report, &action.owner);
            reports.push(report);
            proof {
                assert(entries.subrange(0, i + 1).filter(settled) =~= entries.subrange(0, i as int).filter(settled).push(entries[i as int]));
                lemma_reports_step(*old(state), before_state, *state, *observation, entries.subrange(0, i as int).filter(settled),
                    states, applied, entries[i as int]);
                states = states.push(before_state);
                applied = applied.push(*state);

                assert forall|k: i64| #[trigger] state.pending_actions.view().contains_key(k) <==>
                    (exists|j: int| 0 <= j < i + 1 && entries[j].0 == k && observation.round_no <= entries[j].1.sent_round) by {
                    if exists|j: int| 0 <= j < i + 1 && entries[j].0 == k && observation.round_no <= entries[j].1.sent_round {
                        let j = choose|j: int| 0 <= j < i + 1 && entries[j].0 == k && observation.round_no <= entries[j].1.sent_round;
                        assert(j != i);
                    }
                }
            }
            proof {
                let f = |e: (i64, PendingAction)| report_of(*observation, e.1);
                assert(reports@ =~= entries.subrange(0, i + 1).filter(settled).map_values(f));
            }
        }
        i = i + 1;
    }
    proof {
        assert(entries.subrange(0, n as int) =~= entries);
        assert(settled_entries(*observation, entries) == entries.filter(settled));
        pending.lemma_view();
        assert forall|k: i64| #[trigger] state.pending_actions.view().contains_key(k) <==>
            (old(state).pending_actions.view().contains_key(k) && observation.round_no <= old(state).pending_actions.view()[k].sent_round) by {
            if old(state).pending_actions.view().contains_key(k) {
                let j = choose|j: int| 0 <= j < entries.len() && entries[j].0 == k;
                assert(pending.view()[entries[j].0] == entries[j].1);
            }
            if state.pending_actions.view().contains_key(k) {
                let j = choose|j: int| 0 <= j < n && entries[j].0 == k && observation.round_no <= entries[j].1.sent_round;
                assert(pending.view()[entries[j].0] == entries[j].1);
            }
        }
    }
    reports
}

} // verus!
