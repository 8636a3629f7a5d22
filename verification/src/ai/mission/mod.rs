mod goal;
mod progress;

pub use goal::{
    GoalEvaluation, GoalEvidence, add_evidence, all_evidence, building_at, evaluate_goal,
    evaluation_matches, event_evidence_of, evidence_lt, evidence_sorted, goal_evidence,
    is_challenge_end, is_day_start, lemma_evidence_order, lemma_single_evidence,
};
pub use progress::{
    EconomyAction, EconomyCheckpoint, EconomyProgress, carried, checkpoint_opt_view,
    checkpoint_view, copy_evidence, gold_record, inventory_record, is_gold_rise,
    is_inventory_change, measured, spec_checkpoint, zone_on,
};
mod record;

pub use record::{
    MissionCancellation, MissionCompletion, MissionFailure, MissionFailureReason,
    MissionReconciliation, MissionRecord, MissionResolution, MissionView, resolution_of, view_of,
};
mod registry;

pub use registry::{
    MissionRegistry, MissionRegistryError, lemma_history_kept_refl, lemma_history_kept_trans, dependency_error, fresh_record, pruned_active,
    registration_error, lemma_registration_ok, wakeable, woken, completed_record, ended_record, prefix_ended, resolutions,
    tree_ended, action_submits_goal, committed, submits_goal, cancellation_of, cancellations,
    dependency_unavailable, depends_on, deps_succeeded, history_kept, in_tree, is_active,
    is_blockable, is_chain, is_terminal, registry_invariant, spec_dependency_unavailable,
    spec_goal_can_complete, spec_is_active, spec_is_blockable, spec_is_terminal, spec_released,
    tree_cancelled, with_state,
};
mod lifecycle;

pub use lifecycle::{
    completed_all, completes, expire_fold, expire_resolutions, expire_step, is_due, observed,
    observed_all, progress_seen, record_goal_evidence, spec_deadline_missed, spec_submitted_on_time,
    spec_timely, success_of, reconciled,
};
mod retry;

pub use retry::{counted, exhaustion, next_count, rejection_recorded};
mod capability;
mod deadline;

pub use capability::{
    CapabilityRejection, assignment_rejection, check_assignment, role_capabilities, spec_capabilities,
};
pub use deadline::{
    challenge_spec, construction_spec, day_submission_round, defense_spec, economy_spec,
    submission_deadline, with_optional_deadline,
};
mod construction;
mod economy;
mod pioneer;

pub use construction::BuildPlan;

pub use construction::{
    contains_site, feedback, fresh_plan, kept_plans, mark_sent, next_kind, plan_allowed, plan_finished,
    plan_outcome, plan_step, refresh, rejected_sites, site_beats_all, site_candidate, site_chosen, site_distance,
    site_first, site_reachable, site_walk_fails,
};
pub use crate::ai::tactics::stand_at;
pub use economy::{
    batch_quantity, beside_distance, beside_walk_fails, best_sale, first_price, fits_return, loaded, market_fails,
    market_route_to, mine_at_least, mine_best, mine_step, mine_trip, mine_trip_fails, mine_trip_value, mine_usable,
    move_toward, nearer_first, ore, pioneer_max_hp, sell_fails, sell_step, should_heal, spec_best_sale,
    spec_fits_return, spec_should_heal, trip_rounds, zone_kind, zone_nearest, zone_step,
};
pub use pioneer::{
    pioneer_choice, pioneer_turn,
    choose_task, no_task_in_time, spec_pioneer, steps_in_time, task_distance, task_in_time, task_nearest, task_open,
    task_step, task_walk_fails,
};

use vstd::prelude::*;

use std::time::Instant;

use crate::ai::state::{DecisionError, DecisionState, owners_available, proposal_failed, proposal_gate, propose_owned};
use crate::ai::tactics::{defence_order, defence_run, defend};
use crate::clock::{current_instant, instant_reached};
use crate::command::{AcceptedAction, Arbiter, valid_after};
use crate::domain::{Action, ActionView, MissionSpec, Observation, OwnerError, Role, allocator_within, owner_room, spec_reporter, construction_terms, economy_terms, is_alive};
use crate::rules::constants::{NEIGHBOR_RANGE, WEAPON_BUILD_GOLD, WORKER_MAX_HP};
use crate::rules::geometry::spec_distance;
use crate::fsm::{IndividualState, MissionState, StrategyState, TacticalState};
use crate::rules::time::{Phase, phase, spec_phase};
use crate::text::str_eq;

verus! {

/// The stage a unit enters with an action: a move approaches, anything
/// else waits for its effect; either way the unit waits for the result.
pub open spec fn spec_state_for_action(a: ActionView) -> (TacticalState, IndividualState) {
    match a {
        ActionView::Move(_) => (TacticalState::Approach, IndividualState::WaitingResult),
        _ => (TacticalState::Evaluate, IndividualState::WaitingResult),
    }
}

pub fn state_for_action(action: &Action) -> (r: (TacticalState, IndividualState))
    ensures
        r == spec_state_for_action(action@),
{
    match action {
        Action::Move(_) => (TacticalState::Approach, IndividualState::WaitingResult),
        _ => (TacticalState::Evaluate, IndividualState::WaitingResult),
    }
}

/// What a worker's selection may give, with the plans as they stand after
/// it: nothing for a dead worker; otherwise a step of its unsent plan under
/// the construction contract, or an economy step (healing when it should,
/// selling when loaded, mining otherwise) under the economy contract, each
/// with the day's submission deadline; a worker that should heal, or that
/// stands beside its unsent plan's site with the gold to build, always gets
/// one.
pub open spec fn worker_choice(o: Observation, worker: Role, plans: Map<i64, BuildPlan>, choice: Option<(MissionSpec, ActionView)>) -> bool {
    &&& !is_alive(worker) ==> choice is None
    &&& choice is Some ==> {
        let spec = (choice->0).0;
        let a = (choice->0).1;
        &&& spec.well_formed()
        &&& spec.spec_deadline() == match deadline::day_submission_round(o.round_no as int) {
            Some(round) => Some(deadline::submission_deadline(round)),
            None => None,
        }
        &&& {
            ||| plans.contains_key(worker.id) && plans[worker.id].sent_round is None
                && construction::plan_step(o, worker, plans[worker.id], a)
                && construction_terms(spec, plans[worker.id].site, plans[worker.id].kind@)
            ||| economy_terms(spec) && spec_should_heal(worker, WORKER_MAX_HP as int)
                && a == (ActionView::Use { name: "Medicine"@, pos: None })
            ||| economy_terms(spec) && !spec_should_heal(worker, WORKER_MAX_HP as int) && loaded(worker)
                && economy::sell_step(o, worker, a)
            ||| economy_terms(spec) && !spec_should_heal(worker, WORKER_MAX_HP as int) && !loaded(worker)
                && economy::mine_step(o, worker, a)
        }
    }
    &&& is_alive(worker) && spec_should_heal(worker, WORKER_MAX_HP as int) ==> choice is Some
    &&& (is_alive(worker) && plans.contains_key(worker.id) && plans[worker.id].sent_round is None
        && construction::gold_held(o) >= WEAPON_BUILD_GOLD
        && spec_distance(worker.pos, plans[worker.id].site) == NEIGHBOR_RANGE) ==> choice is Some
}

pub open spec fn choice_view(r: Option<(MissionSpec, Action)>) -> Option<(MissionSpec, ActionView)> {
    match r {
        Some(c) => Some((c.0, c.1@)),
        None => None,
    }
}

/// Only the plan of `worker` may differ.
pub open spec fn plans_only_at(before: Map<i64, BuildPlan>, after: Map<i64, BuildPlan>, worker: i64) -> bool {
    forall|k: i64| k != worker ==> (#[trigger] after.contains_key(k) == before.contains_key(k))
        && (before.contains_key(k) ==> after[k] == before[k])
}

/// What offering a choice does to the accepted actions: nothing without a
/// choice; otherwise, when offering did not fail, the action is accepted
/// exactly when the arbiter admits it after the actions accepted before and
/// the unit may take the contract.
pub open spec fn offer_outcome(o: Observation, registry: MissionRegistry, judged: &Observation, actor: i64,
    choice: Option<(MissionSpec, ActionView)>, before: Seq<AcceptedAction>, after: Seq<AcceptedAction>, ok: bool) -> bool
{
    match choice {
        None => after == before && ok,
        Some(c) => ok ==> {
            let taken = valid_after(judged, before, actor, c.1) && proposal_gate(o, registry, spec_reporter(actor, c.1), c.0);
            &&& taken ==> after.len() == before.len() + 1 && after.drop_last() == before
                && after.last().actor == actor && after.last().action@ == c.1
            &&& !taken ==> after == before
        },
    }
}

/// The worker's action and the contract it runs under: construction when
/// a plan calls for a step now, otherwise economy.
fn worker_selection(observation: &Observation, worker: &Role, state: &mut DecisionState) -> (r: Option<(MissionSpec, Action)>)
    requires
        old(state).well_formed(),
    ensures
        final(state).strategy == old(state).strategy,
        final(state).emergency_clear == old(state).emergency_clear,
        final(state).well_formed(),
        final(state).registry() == old(state).registry(),
        final(state).role_owners == old(state).role_owners,
        final(state).active_owners == old(state).active_owners,
        final(state).owner_allocator == old(state).owner_allocator,
        final(state).missions == old(state).missions,
        final(state).tactics == old(state).tactics,
        final(state).individuals == old(state).individuals,
        worker_choice(*observation, *worker, final(state).build_plans.view(), choice_view(r)),
        plans_only_at(old(state).build_plans.view(), final(state).build_plans.view(), worker.id),
        r matches Some((spec, _)) ==> spec.well_formed(),
        !is_alive(*worker) ==> r is None,
        r matches Some((spec, _)) ==> spec.spec_deadline() == match deadline::day_submission_round(observation.round_no as int) {
            Some(round) => Some(deadline::submission_deadline(round)),
            None => None,
        },
        r matches Some((spec, a)) ==> ({
            let plans = final(state).build_plans.view();
            ||| plans.contains_key(worker.id) && plans[worker.id].sent_round is None
                && construction::plan_step(*observation, *worker, plans[worker.id], a@)
                && construction_terms(spec, plans[worker.id].site, plans[worker.id].kind@)
            ||| economy_terms(spec) && spec_should_heal(*worker, WORKER_MAX_HP as int)
                && a@ == (ActionView::Use { name: "Medicine"@, pos: None })
            ||| economy_terms(spec) && !spec_should_heal(*worker, WORKER_MAX_HP as int) && loaded(*worker)
                && economy::sell_step(*observation, *worker, a@)
            ||| economy_terms(spec) && !spec_should_heal(*worker, WORKER_MAX_HP as int) && !loaded(*worker)
                && economy::mine_step(*observation, *worker, a@)
        }),
        is_alive(*worker) && spec_should_heal(*worker, WORKER_MAX_HP as int) ==> r is Some,
        ({
            let plans = final(state).build_plans.view();
            is_alive(*worker) && plans.contains_key(worker.id) && plans[worker.id].sent_round is None
                && construction::gold_held(*observation) >= WEAPON_BUILD_GOLD
                && spec_distance(worker.pos, plans[worker.id].site) == NEIGHBOR_RANGE
        }) ==> r is Some,
{
    let ghost before = *state;
    match construction::worker_action(observation, worker, &mut state.build_plans, &state.bad_build_sites) {
        Some(action) => {
            let spec = match state.build_plans.get(&worker.id) {
                Some(plan) => deadline::construction_spec(observation, plan.site, plan.kind.as_str()),
                None => return None,
            };
            return Some((spec, action));
        },
        None => {},
    }
    match economy::worker_action(observation, worker) {
        Some(action) => Some((deadline::economy_spec(observation), action)),
        None => None,
    }
}

/// Offers a worker's action; when it is accepted, a build is marked as
/// sent and the worker's stages are set.
fn assign_worker(observation: &Observation, worker: &Role, state: &mut DecisionState, arbiter: &mut Arbiter) -> (r: Result<(), DecisionError>)
    requires
        old(state).well_formed(),
        old(arbiter).well_formed(),
        old(arbiter).spec_reserved_weapons() < usize::MAX,
    ensures
        final(state).strategy == old(state).strategy,
        final(state).emergency_clear == old(state).emergency_clear,
        final(state).well_formed(),
        final(arbiter).well_formed(),
        final(arbiter).spec_observation() == old(arbiter).spec_observation(),
        final(arbiter).spec_reserved_weapons() < usize::MAX,
        crate::ai::mission::history_kept(old(state).registry().records(), final(state).registry().records()),
        *final(arbiter) == *old(arbiter) || (final(arbiter).spec_accepted().drop_last() == old(arbiter).spec_accepted()
            && final(arbiter).spec_accepted().len() == old(arbiter).spec_accepted().len() + 1
            && final(arbiter).spec_accepted().last().actor == worker.id
            && final(arbiter).spec_accepted().last().owner is Some),
        allocator_within(old(state).owner_allocator, final(state).owner_allocator, 1),
        r matches Err(e) ==> e == DecisionError::Owner(OwnerError::IdentitiesExhausted) && !owner_room(old(state).owner_allocator, 1),
        !is_alive(*worker) ==> r is Ok && *final(arbiter) == *old(arbiter),
        r is Err ==> !owners_available(*old(state)) || final(arbiter).spec_accepted().len() == old(arbiter).spec_accepted().len() + 1,
        r matches Err(e) ==> proposal_failed(e, final(arbiter).spec_accepted().len() == old(arbiter).spec_accepted().len() + 1),
        plans_only_at(old(state).build_plans.view(), final(state).build_plans.view(), worker.id),
        exists|plans: Map<i64, BuildPlan>, choice: Option<(MissionSpec, ActionView)>|
            #[trigger] worker_choice(*observation, *worker, plans, choice)
            && plans_only_at(old(state).build_plans.view(), plans, worker.id)
            && offer_outcome(*observation, old(state).registry(), old(arbiter).spec_observation(), worker.id, choice,
                old(arbiter).spec_accepted(), final(arbiter).spec_accepted(), r is Ok),
        r is Ok && final(arbiter).spec_accepted().len() == old(arbiter).spec_accepted().len() + 1 ==> {
            let accepted = final(arbiter).spec_accepted().last();
            &&& final(state).missions.view().contains_key(worker.id)
            &&& final(state).missions.view()[worker.id] == MissionState::Executing
            &&& final(state).tactics.view().contains_key(worker.id)
            &&& final(state).tactics.view()[worker.id] == spec_state_for_action(accepted.action@).0
            &&& final(state).individuals.view().contains_key(worker.id)
            &&& final(state).individuals.view()[worker.id] == IndividualState::WaitingResult
        },
{
    let ghost before_state = *state;
    let selected = worker_selection(observation, worker, state);
    let ghost chosen = state.build_plans.view();
    let ghost choice = choice_view(selected);
    let (spec, action) = match selected {
        Some(choice) => choice,
        None => {
            assert(offer_outcome(*observation, old(state).registry(), old(arbiter).spec_observation(), worker.id, choice,
                old(arbiter).spec_accepted(), arbiter.spec_accepted(), true));
            return Ok(());
        },
    };
    proof { crate::command::lemma_valid_after(*arbiter, worker.id, action@); }
    let stages = state_for_action(&action);
    let building = match &action {
        Action::Build { .. } => true,
        _ => false,
    };
    let accepted = propose_owned(observation, state, arbiter, worker.id, action, spec)?;
    if !accepted {
        return Ok(());
    }
    if building {
        construction::mark_sent(&mut state.build_plans, worker.id, observation.round_no);
    }
    state.missions.insert(worker.id, MissionState::Executing);
    state.tactics.insert(worker.id, stages.0);
    state.individuals.insert(worker.id, stages.1);
    Ok(())
}

/// Whether the worker's plan has its build command out.
fn plan_sent(state: &DecisionState, worker: i64) -> (r: bool)
    requires
        state.well_formed(),
    ensures
        r == (state.build_plans.view().contains_key(worker) && state.build_plans.view()[worker].sent_round is Some),
{
    match state.build_plans.get(&worker) {
        Some(plan) => plan.sent_round.is_some(),
        None => false,
    }
}

/// The team's workers, by increasing id: their indices.
#[verifier::rlimit(100)]
fn workers_by_id(observation: &Observation) -> (r: Vec<usize>)
    ensures
        forall|k: int| 0 <= k < r@.len() ==> #[trigger] r@[k] < observation.team_our.roles@.len()
            && observation.team_our.roles@[r@[k] as int].role_type@ == "worker"@,
        forall|a: int, b: int| 0 <= a < b < r@.len() ==> observation.team_our.roles@[#[trigger] r@[a] as int].id
            <= observation.team_our.roles@[#[trigger] r@[b] as int].id,
        forall|j: int| 0 <= j < observation.team_our.roles@.len()
            && (#[trigger] observation.team_our.roles@[j]).role_type@ == "worker"@ ==> r@.contains(j as usize),
        r@.no_duplicates(),
        r@.len() <= observation.team_our.roles@.len(),
{
    let roles = &observation.team_our.roles;
    let mut workers: Vec<usize> = Vec::new();
    let mut i: usize = 0;
    while i < roles.len()
        invariant
            roles == &observation.team_our.roles,
            i <= roles@.len(),
            forall|k: int| 0 <= k < workers@.len() ==> #[trigger] workers@[k] < roles@.len()
                && roles@[workers@[k] as int].role_type@ == "worker"@,
            forall|a: int, b: int| 0 <= a < b < workers@.len() ==> roles@[#[trigger] workers@[a] as int].id
                <= roles@[#[trigger] workers@[b] as int].id,
            forall|j: int| 0 <= j < i && (#[trigger] roles@[j]).role_type@ == "worker"@ ==> workers@.contains(j as usize),
            forall|k: int| 0 <= k < workers@.len() ==> #[trigger] workers@[k] < i,
            workers@.no_duplicates(),
            workers@.len() <= i,
        decreases roles@.len() - i,
    {
        if str_eq(roles[i].role_type.as_str(), "worker") {
            let id = roles[i].id;
            let mut at: usize = workers.len();
            while at > 0 && roles[workers[at - 1]].id > id
                invariant
                    roles == &observation.team_our.roles,
                    at <= workers@.len(),
                    forall|k: int| 0 <= k < workers@.len() ==> #[trigger] workers@[k] < roles@.len(),
                    forall|k: int| at <= k < workers@.len() ==> roles@[#[trigger] workers@[k] as int].id > id,
                decreases at,
            {
                at = at - 1;
            }
            let ghost before = workers@;
            workers.insert(at, i);
            proof {
                assert(workers@ == before.insert(at as int, i));
                assert(workers@[at as int] == i);
                assert forall|j: int| 0 <= j < i + 1 && (#[trigger] roles@[j]).role_type@ == "worker"@
                    implies workers@.contains(j as usize) by {
                    if j < i {
                        let k = choose|k: int| 0 <= k < before.len() && before[k] == j as usize;
                        if k < at {
                            assert(workers@[k] == before[k]);
                        } else {
                            assert(workers@[k + 1] == before[k]);
                        }
                    }
                }
                assert forall|k: int| 0 <= k < workers@.len() implies #[trigger] workers@[k] < i + 1 by {
                    if k < at {
                        assert(workers@[k] == before[k]);
                    } else if k > at {
                        assert(workers@[k] == before[k - 1]);
                    }
                }
                assert forall|a: int, b: int| 0 <= a < b < workers@.len() implies workers@[a] != workers@[b] by {
                    if a < at {
                        assert(workers@[a] == before[a]);
                    } else if a > at {
                        assert(workers@[a] == before[a - 1]);
                    }
                    if b < at {
                        assert(workers@[b] == before[b]);
                    } else if b > at {
                        assert(workers@[b] == before[b - 1]);
                    }
                }
                assert forall|k: int| 0 <= k < workers@.len() implies #[trigger] workers@[k] < roles@.len()
                    && roles@[workers@[k] as int].role_type@ == "worker"@ by {
                    if k < at {
                        assert(workers@[k] == before[k]);
                    } else if k > at {
                        assert(workers@[k] == before[k - 1]);
                    }
                }
                assert forall|a: int, b: int| 0 <= a < b < workers@.len() implies roles@[#[trigger] workers@[a] as int].id
                    <= roles@[#[trigger] workers@[b] as int].id by {
                    let wa = workers@[a];
                    let wb = workers@[b];
                    if a < at {
                        assert(wa == before[a]);
                        if b < at {
                            assert(wb == before[b]);
                        } else if b == at {
                            if at > 0 {
                                assert(before[at - 1] == workers@[at - 1]);
                            }
                            assert(roles@[before[a] as int].id <= roles@[before[at - 1] as int].id || a == at - 1);
                        } else {
                            assert(wb == before[b - 1]);
                        }
                    } else if a == at {
                        assert(wb == before[b - 1]);
                        assert(roles@[before[b - 1] as int].id > id);
                    } else {
                        assert(wa == before[a - 1]);
                        assert(wb == before[b - 1]);
                    }
                }
            }
        }
        i = i + 1;
    }
    workers
}

/// The team's workers, each once, by increasing id: their indices.
pub open spec fn worker_order(o: &Observation, ws: Seq<int>) -> bool {
    &&& forall|k: int| 0 <= k < ws.len() ==> 0 <= #[trigger] ws[k] < o.team_our.roles@.len()
        && o.team_our.roles@[ws[k]].role_type@ == "worker"@
    &&& forall|j: int| 0 <= j < o.team_our.roles@.len() && (#[trigger] o.team_our.roles@[j]).role_type@ == "worker"@ ==> ws.contains(j)
    &&& ws.no_duplicates()
    &&& forall|a: int, b: int| 0 <= a < b < ws.len() ==> o.team_our.roles@[#[trigger] ws[a]].id <= o.team_our.roles@[#[trigger] ws[b]].id
}

/// The first `n` workers of the order have had their turn: a worker whose
/// build is out is passed over; any other is offered what its selection
/// gives, with the plans it leaves, as `offer_outcome` says.
pub open spec fn day_steps(o: &Observation, judged: &Observation, ws: Seq<int>, n: int, sent: Seq<bool>,
    plans_at: Seq<Map<i64, BuildPlan>>, chosen: Seq<Map<i64, BuildPlan>>, choices: Seq<Option<(MissionSpec, ActionView)>>,
    registries: Seq<MissionRegistry>, accepted: Seq<Seq<AcceptedAction>>) -> bool
{
    let roles = o.team_our.roles@;
    &&& 0 <= n <= ws.len()
    &&& sent.len() == n
    &&& chosen.len() == n
    &&& choices.len() == n
    &&& plans_at.len() == n + 1
    &&& registries.len() == n + 1
    &&& accepted.len() == n + 1
    &&& forall|k: int| 0 <= k < n ==> #[trigger] sent[k] == (plans_at[k].contains_key(roles[ws[k]].id)
        && plans_at[k][roles[ws[k]].id].sent_round is Some)
    &&& forall|k: int| 0 <= k < n && #[trigger] sent[k] ==> choices[k] is None && accepted[k + 1] == accepted[k]
        && plans_at[k + 1] == plans_at[k]
    &&& forall|k: int| 0 <= k < n && !(#[trigger] sent[k]) ==> {
        &&& worker_choice(*o, roles[ws[k]], chosen[k], choices[k])
        &&& plans_only_at(plans_at[k], chosen[k], roles[ws[k]].id)
        &&& plans_only_at(plans_at[k], plans_at[k + 1], roles[ws[k]].id)
        &&& offer_outcome(*o, registries[k], judged, roles[ws[k]].id, choices[k], accepted[k], accepted[k + 1], true)
    }
    &&& forall|k: int| 0 <= k < n ==> history_kept((#[trigger] registries[k]).records(), registries[k + 1].records())
}

proof fn lemma_day_step(o: &Observation, judged: &Observation, ws: Seq<int>, n: int, sent: Seq<bool>,
    plans_at: Seq<Map<i64, BuildPlan>>, chosen: Seq<Map<i64, BuildPlan>>, choices: Seq<Option<(MissionSpec, ActionView)>>,
    registries: Seq<MissionRegistry>, accepted: Seq<Seq<AcceptedAction>>,
    s: bool, plans_next: Map<i64, BuildPlan>, picked: Map<i64, BuildPlan>, choice: Option<(MissionSpec, ActionView)>,
    registry: MissionRegistry, acc: Seq<AcceptedAction>)
    requires
        day_steps(o, judged, ws, n, sent, plans_at, chosen, choices, registries, accepted),
        n < ws.len(),
        s == (plans_at[n].contains_key(o.team_our.roles@[ws[n]].id) && plans_at[n][o.team_our.roles@[ws[n]].id].sent_round is Some),
        s ==> choice is None && acc == accepted[n] && plans_next == plans_at[n],
        !s ==> {
            &&& worker_choice(*o, o.team_our.roles@[ws[n]], picked, choice)
            &&& plans_only_at(plans_at[n], picked, o.team_our.roles@[ws[n]].id)
            &&& plans_only_at(plans_at[n], plans_next, o.team_our.roles@[ws[n]].id)
            &&& offer_outcome(*o, registries[n], judged, o.team_our.roles@[ws[n]].id, choice, accepted[n], acc, true)
        },
        history_kept(registries[n].records(), registry.records()),
    ensures
        day_steps(o, judged, ws, n + 1, sent.push(s), plans_at.push(plans_next), chosen.push(picked), choices.push(choice),
            registries.push(registry), accepted.push(acc)),
{
    let sent2 = sent.push(s);
    let plans2 = plans_at.push(plans_next);
    let chosen2 = chosen.push(picked);
    let choices2 = choices.push(choice);
    let regs2 = registries.push(registry);
    let acc2 = accepted.push(acc);
    assert forall|k: int| 0 <= k < n + 1 implies #[trigger] sent2[k] == (plans2[k].contains_key(o.team_our.roles@[ws[k]].id)
        && plans2[k][o.team_our.roles@[ws[k]].id].sent_round is Some) by {
        if k < n { assert(sent2[k] == sent[k]); assert(plans2[k] == plans_at[k]); }
    }
    assert forall|k: int| 0 <= k < n + 1 && #[trigger] sent2[k] implies choices2[k] is None && acc2[k + 1] == acc2[k]
        && plans2[k + 1] == plans2[k] by {
        if k < n { assert(sent2[k] == sent[k]); }
    }
    assert forall|k: int| 0 <= k < n + 1 && !(#[trigger] sent2[k]) implies {
        &&& worker_choice(*o, o.team_our.roles@[ws[k]], chosen2[k], choices2[k])
        &&& plans_only_at(plans2[k], chosen2[k], o.team_our.roles@[ws[k]].id)
        &&& plans_only_at(plans2[k], plans2[k + 1], o.team_our.roles@[ws[k]].id)
        &&& offer_outcome(*o, regs2[k], judged, o.team_our.roles@[ws[k]].id, choices2[k], acc2[k], acc2[k + 1], true)
    } by {
        if k < n { assert(sent2[k] == sent[k]); }
    }
    assert forall|k: int| 0 <= k < n + 1 implies history_kept((#[trigger] regs2[k]).records(), regs2[k + 1].records()) by {
        if k < n { assert(regs2[k] == registries[k]); assert(regs2[k + 1] == registries[k + 1]); }
    }
}

/// Day work: every worker without a sent build gets its construction or
/// economy step, by increasing id while the time budget lasts; then the
/// pioneer.
fn assign_day(observation: &Observation, state: &mut DecisionState, arbiter: &mut Arbiter, deadline: &Instant) -> (r: Result<(), DecisionError>)
    requires
        old(state).well_formed(),
        old(arbiter).well_formed(),
        old(arbiter).spec_reserved_weapons() < usize::MAX,
    ensures
        final(state).strategy == old(state).strategy,
        final(state).emergency_clear == old(state).emergency_clear,
        final(state).well_formed(),
        final(arbiter).well_formed(),
        final(arbiter).spec_observation() == old(arbiter).spec_observation(),
        crate::ai::mission::history_kept(old(state).registry().records(), final(state).registry().records()),
        old(arbiter).spec_accepted().len() <= final(arbiter).spec_accepted().len(),
        forall|i: int| 0 <= i < old(arbiter).spec_accepted().len() ==> #[trigger] final(arbiter).spec_accepted()[i] == old(arbiter).spec_accepted()[i],
        forall|i: int| #![trigger final(arbiter).spec_accepted()[i]] old(arbiter).spec_accepted().len() <= i < final(arbiter).spec_accepted().len()
            ==> exists|k: int| 0 <= k < observation.team_our.roles@.len()
                && (#[trigger] observation.team_our.roles@[k]).id == final(arbiter).spec_accepted()[i].actor
                && (observation.team_our.roles@[k].role_type@ == "worker"@ || observation.team_our.roles@[k].role_type@ == "pioneer"@),
        r matches Err(e) ==> proposal_failed(e, final(arbiter).spec_accepted().len() > old(arbiter).spec_accepted().len()),
        forall|i: int| old(arbiter).spec_accepted().len() <= i < final(arbiter).spec_accepted().len()
            ==> (#[trigger] final(arbiter).spec_accepted()[i]).owner is Some,
        allocator_within(old(state).owner_allocator, final(state).owner_allocator, observation.team_our.roles@.len() as int + 1),
        r matches Err(e) ==> e == DecisionError::Owner(OwnerError::IdentitiesExhausted)
            && !owner_room(old(state).owner_allocator, observation.team_our.roles@.len() as int + 1),
        r is Ok ==> exists|ws: Seq<int>, n: int, sent: Seq<bool>, plans_at: Seq<Map<i64, BuildPlan>>, chosen: Seq<Map<i64, BuildPlan>>,
            choices: Seq<Option<(MissionSpec, ActionView)>>, registries: Seq<MissionRegistry>, accepted: Seq<Seq<AcceptedAction>>|
            #[trigger] day_steps(observation, old(arbiter).spec_observation(), ws, n, sent, plans_at, chosen, choices, registries, accepted)
            && worker_order(observation, ws)
            && accepted[0] == old(arbiter).spec_accepted()
            && registries[0] == old(state).registry()
            && plans_at[0] == old(state).build_plans.view()
            && pioneer::pioneer_turn(*observation, registries[n], old(arbiter).spec_observation(), accepted[n],
                final(arbiter).spec_accepted(), true),
{
    let workers = workers_by_id(observation);
    let ghost start = old(arbiter).spec_accepted();
    let ghost start_records = old(state).registry().records();
    let ghost ws = workers@.map_values(|i: usize| i as int);
    let ghost judged = old(arbiter).spec_observation();
    let ghost mut sent: Seq<bool> = Seq::empty();
    let ghost mut plans_at: Seq<Map<i64, BuildPlan>> = seq![old(state).build_plans.view()];
    let ghost mut chosen: Seq<Map<i64, BuildPlan>> = Seq::empty();
    let ghost mut choices: Seq<Option<(MissionSpec, ActionView)>> = Seq::empty();
    let ghost mut registries: Seq<MissionRegistry> = seq![old(state).registry()];
    let ghost mut accepted: Seq<Seq<AcceptedAction>> = seq![old(arbiter).spec_accepted()];
    let team_size: usize = observation.team_our.roles.len();
    proof {
        assert forall|j: int| 0 <= j < observation.team_our.roles@.len() && (#[trigger] observation.team_our.roles@[j]).role_type@ == "worker"@
            implies ws.contains(j) by {
            let k = choose|k: int| 0 <= k < workers@.len() && workers@[k] == j as usize;
            assert(j < team_size);
            assert(j as usize as int == j);
            assert(ws[k] == workers@[k] as int);
        }
        assert(worker_order(observation, ws));
    }
    let mut i: usize = 0;
    while i < workers.len()
        invariant
            ws == workers@.map_values(|i: usize| i as int),
            worker_order(observation, ws),
            judged == old(arbiter).spec_observation(),
            day_steps(observation, judged, ws, i as int, sent, plans_at, chosen, choices, registries, accepted),
            accepted[0] == old(arbiter).spec_accepted(),
            registries[0] == old(state).registry(),
            plans_at[0] == old(state).build_plans.view(),
            accepted.last() == arbiter.spec_accepted(),
            registries.last() == state.registry(),
            plans_at.last() == state.build_plans.view(),
            state.well_formed(),
            state.strategy == old(state).strategy,
            state.emergency_clear == old(state).emergency_clear,
            arbiter.well_formed(),
            arbiter.spec_observation() == old(arbiter).spec_observation(),
            arbiter.spec_reserved_weapons() < usize::MAX,
            crate::ai::mission::history_kept(start_records, state.registry().records()),
            start == old(arbiter).spec_accepted(),
            start_records == old(state).registry().records(),
            forall|k: int| 0 <= k < workers@.len() ==> #[trigger] workers@[k] < observation.team_our.roles@.len()
                && observation.team_our.roles@[workers@[k] as int].role_type@ == "worker"@,
            start.len() <= arbiter.spec_accepted().len(),
            forall|j: int| 0 <= j < start.len() ==> #[trigger] arbiter.spec_accepted()[j] == start[j],
            forall|j: int| #![trigger arbiter.spec_accepted()[j]] start.len() <= j < arbiter.spec_accepted().len()
                ==> exists|k: int| 0 <= k < observation.team_our.roles@.len()
                    && (#[trigger] observation.team_our.roles@[k]).id == arbiter.spec_accepted()[j].actor
                    && (observation.team_our.roles@[k].role_type@ == "worker"@ || observation.team_our.roles@[k].role_type@ == "pioneer"@),
            forall|j: int| start.len() <= j < arbiter.spec_accepted().len() ==> (#[trigger] arbiter.spec_accepted()[j]).owner is Some,
            allocator_within(old(state).owner_allocator, state.owner_allocator, i as int),
            workers@.len() <= observation.team_our.roles@.len(),
            i <= workers@.len(),
        decreases workers@.len() - i,
    {
        let now = current_instant();
        if instant_reached(&now, deadline) {
            break;
        }
        let worker = &observation.team_our.roles[workers[i]];
        proof { assert(ws[i as int] == workers@[i as int] as int); }
        let ghost start_state = *state;
        let ghost start_accepted = arbiter.spec_accepted();
        if plan_sent(state, worker.id) {
            proof {
                lemma_history_kept_refl(state.registry().records());
                lemma_day_step(observation, judged, ws, i as int, sent, plans_at, chosen, choices, registries, accepted,
                    true, state.build_plans.view(), state.build_plans.view(), None, state.registry(), arbiter.spec_accepted());
                sent = sent.push(true);
                plans_at = plans_at.push(state.build_plans.view());
                chosen = chosen.push(state.build_plans.view());
                choices = choices.push(None);
                registries = registries.push(state.registry());
                accepted = accepted.push(arbiter.spec_accepted());
            }
        } else {
            let ghost before = arbiter.spec_accepted();
            let ghost before_records = state.registry().records();
            let result = assign_worker(observation, worker, state, arbiter);
            proof {
                crate::ai::mission::lemma_history_kept_trans(start_records, before_records, state.registry().records());
                if arbiter.spec_accepted() != before {
                    let k = workers@[i as int] as int;
                    assert(observation.team_our.roles@[k].id == arbiter.spec_accepted().last().actor);
                    assert forall|j: int| #![trigger arbiter.spec_accepted()[j]] start.len() <= j < arbiter.spec_accepted().len()
                        implies exists|k2: int| 0 <= k2 < observation.team_our.roles@.len()
                            && (#[trigger] observation.team_our.roles@[k2]).id == arbiter.spec_accepted()[j].actor
                            && (observation.team_our.roles@[k2].role_type@ == "worker"@ || observation.team_our.roles@[k2].role_type@ == "pioneer"@) by {
                        if j < before.len() {
                            assert(arbiter.spec_accepted()[j] == before[j]);
                        } else {
                            assert(observation.team_our.roles@[k].id == arbiter.spec_accepted()[j].actor);
                        }
                    }
                    assert forall|j: int| 0 <= j < start.len() implies #[trigger] arbiter.spec_accepted()[j] == start[j] by {
                        assert(arbiter.spec_accepted()[j] == before[j]);
                    }
                    assert forall|j: int| start.len() <= j < arbiter.spec_accepted().len()
                        implies (#[trigger] arbiter.spec_accepted()[j]).owner is Some by {
                        if j < before.len() {
                            assert(arbiter.spec_accepted()[j] == before[j]);
                        }
                    }
                }
            }
            match result {
                Ok(()) => {},
                Err(e) => return Err(e),
            }
            proof {
                let (picked, choice) = choose|plans: Map<i64, BuildPlan>, choice: Option<(MissionSpec, ActionView)>|
                    #[trigger] worker_choice(*observation, *worker, plans, choice)
                    && plans_only_at(start_state.build_plans.view(), plans, worker.id)
                    && offer_outcome(*observation, start_state.registry(), judged, worker.id, choice,
                        start_accepted, arbiter.spec_accepted(), true);
                lemma_day_step(observation, judged, ws, i as int, sent, plans_at, chosen, choices, registries, accepted,
                    false, state.build_plans.view(), picked, choice, state.registry(), arbiter.spec_accepted());
                sent = sent.push(false);
                plans_at = plans_at.push(state.build_plans.view());
                chosen = chosen.push(picked);
                choices = choices.push(choice);
                registries = registries.push(state.registry());
                accepted = accepted.push(arbiter.spec_accepted());
            }
        }
        i = i + 1;
    }
    let ghost before = arbiter.spec_accepted();
    let ghost before_records = state.registry().records();
    let result = pioneer::assign(observation, state, arbiter);
    proof {
        crate::ai::mission::lemma_history_kept_trans(start_records, before_records, state.registry().records());
        if arbiter.spec_accepted() != before {
            let p = spec_pioneer(*observation)->0;
            pioneer::lemma_pioneer_on_team(*observation);
            let k = choose|k: int| 0 <= k < observation.team_our.roles@.len() && observation.team_our.roles@[k] == p
                && (#[trigger] observation.team_our.roles@[k]).role_type@ == "pioneer"@;
            assert forall|j: int| #![trigger arbiter.spec_accepted()[j]] start.len() <= j < arbiter.spec_accepted().len()
                implies exists|k2: int| 0 <= k2 < observation.team_our.roles@.len()
                    && (#[trigger] observation.team_our.roles@[k2]).id == arbiter.spec_accepted()[j].actor
                    && (observation.team_our.roles@[k2].role_type@ == "worker"@ || observation.team_our.roles@[k2].role_type@ == "pioneer"@) by {
                if j < before.len() {
                    assert(arbiter.spec_accepted()[j] == before[j]);
                } else {
                    assert(observation.team_our.roles@[k].id == arbiter.spec_accepted()[j].actor);
                }
            }
            assert forall|j: int| 0 <= j < start.len() implies #[trigger] arbiter.spec_accepted()[j] == start[j] by {
                assert(arbiter.spec_accepted()[j] == before[j]);
            }
            assert forall|j: int| start.len() <= j < arbiter.spec_accepted().len()
                implies (#[trigger] arbiter.spec_accepted()[j]).owner is Some by {
                if j < before.len() {
                    assert(arbiter.spec_accepted()[j] == before[j]);
                }
            }
        }
    }
    result
}

/// The actions a round's assignment accepted from scratch: when defending,
/// those of a defence round; otherwise those of the workers' turns, in id
/// order, and then the pioneer's turn.
pub open spec fn round_assigned(o: &Observation, defending: bool, accepted: Seq<AcceptedAction>) -> bool {
    if defending {
        exists|ws: Seq<int>, steps: Seq<(Option<(i64, ActionView)>, bool)>, specs: Seq<MissionSpec>, registries: Seq<MissionRegistry>|
            #[trigger] defence_run(o, o, ws, steps, specs, registries, Seq::empty(), accepted)
    } else {
        exists|ws: Seq<int>, n: int, sent: Seq<bool>, plans_at: Seq<Map<i64, BuildPlan>>, chosen: Seq<Map<i64, BuildPlan>>,
            choices: Seq<Option<(MissionSpec, ActionView)>>, registries: Seq<MissionRegistry>, steps: Seq<Seq<AcceptedAction>>|
            #[trigger] day_steps(o, o, ws, n, sent, plans_at, chosen, choices, registries, steps)
            && worker_order(o, ws)
            && steps[0] == Seq::<AcceptedAction>::empty()
            && pioneer::pioneer_turn(*o, registries[n], o, steps[n], accepted, true)
    }
}

/// The round's missions: plans that are over are dropped first; at night,
/// or while the strategy calls the units back, the base is defended;
/// otherwise the day's work is handed out.
pub fn assign(observation: &Observation, state: &mut DecisionState, arbiter: &mut Arbiter, deadline: &Instant) -> (r: Result<(), DecisionError>)
    requires
        old(state).well_formed(),
        old(arbiter).well_formed(),
        old(arbiter).spec_reserved_weapons() < usize::MAX,
    ensures
        final(state).strategy == old(state).strategy,
        final(state).emergency_clear == old(state).emergency_clear,
        final(state).well_formed(),
        final(arbiter).well_formed(),
        final(arbiter).spec_observation() == old(arbiter).spec_observation(),
        crate::ai::mission::history_kept(old(state).registry().records(), final(state).registry().records()),
        old(arbiter).spec_accepted().len() <= final(arbiter).spec_accepted().len(),
        forall|i: int| 0 <= i < old(arbiter).spec_accepted().len() ==> #[trigger] final(arbiter).spec_accepted()[i] == old(arbiter).spec_accepted()[i],
        spec_phase(observation.round_no as int) == Some(Phase::Night) || old(state).strategy == StrategyState::PrepareNight
            || old(state).strategy == StrategyState::Emergency
            ==> forall|i: int| old(arbiter).spec_accepted().len() <= i < final(arbiter).spec_accepted().len()
                ==> defence_order(observation, (#[trigger] final(arbiter).spec_accepted()[i]).actor, final(arbiter).spec_accepted()[i].action@),
        !(spec_phase(observation.round_no as int) == Some(Phase::Night) || old(state).strategy == StrategyState::PrepareNight
            || old(state).strategy == StrategyState::Emergency)
            ==> forall|i: int| #![trigger final(arbiter).spec_accepted()[i]] old(arbiter).spec_accepted().len() <= i < final(arbiter).spec_accepted().len()
                ==> exists|k: int| 0 <= k < observation.team_our.roles@.len()
                    && (#[trigger] observation.team_our.roles@[k]).id == final(arbiter).spec_accepted()[i].actor
                    && (observation.team_our.roles@[k].role_type@ == "worker"@ || observation.team_our.roles@[k].role_type@ == "pioneer"@),
        r matches Err(e) ==> proposal_failed(e, final(arbiter).spec_accepted().len() > old(arbiter).spec_accepted().len()),
        forall|i: int| old(arbiter).spec_accepted().len() <= i < final(arbiter).spec_accepted().len()
            ==> (#[trigger] final(arbiter).spec_accepted()[i]).owner is Some,
        allocator_within(old(state).owner_allocator, final(state).owner_allocator, observation.team_our.roles@.len() as int + 1),
        r matches Err(e) ==> e == DecisionError::Owner(OwnerError::IdentitiesExhausted)
            && !owner_room(old(state).owner_allocator, observation.team_our.roles@.len() as int + 1),
        owner_room(old(state).owner_allocator, observation.team_our.roles@.len() as int + 1) ==> r is Ok,
        (spec_phase(observation.round_no as int) == Some(Phase::Night) || old(state).strategy == StrategyState::PrepareNight
            || old(state).strategy == StrategyState::Emergency) && r is Ok
            ==> exists|ws: Seq<int>, steps: Seq<(Option<(i64, ActionView)>, bool)>, specs: Seq<MissionSpec>, registries: Seq<MissionRegistry>|
                #[trigger] defence_run(observation, old(arbiter).spec_observation(), ws, steps, specs, registries,
                    old(arbiter).spec_accepted(), final(arbiter).spec_accepted())
                && registries[0] == old(state).registry(),
        !(spec_phase(observation.round_no as int) == Some(Phase::Night) || old(state).strategy == StrategyState::PrepareNight
            || old(state).strategy == StrategyState::Emergency) && r is Ok
            ==> exists|ws: Seq<int>, n: int, sent: Seq<bool>, plans_at: Seq<Map<i64, BuildPlan>>, chosen: Seq<Map<i64, BuildPlan>>,
                choices: Seq<Option<(MissionSpec, ActionView)>>, registries: Seq<MissionRegistry>, accepted: Seq<Seq<AcceptedAction>>|
                #[trigger] day_steps(observation, old(arbiter).spec_observation(), ws, n, sent, plans_at, chosen, choices, registries, accepted)
                && worker_order(observation, ws)
                && accepted[0] == old(arbiter).spec_accepted()
                && registries[0] == old(state).registry()
                && plans_at[0] == construction::kept_plans(*observation, old(state).build_plans.view())
                && pioneer::pioneer_turn(*observation, registries[n], old(arbiter).spec_observation(), accepted[n],
                    final(arbiter).spec_accepted(), true),
        old(arbiter).spec_accepted().len() == 0 && old(arbiter).spec_observation() == observation && r is Ok
            ==> round_assigned(observation, spec_phase(observation.round_no as int) == Some(Phase::Night)
                || old(state).strategy == StrategyState::PrepareNight || old(state).strategy == StrategyState::Emergency,
                final(arbiter).spec_accepted()),
{
    construction::refresh(observation, &mut state.build_plans, &mut state.bad_build_sites);
    let is_night = match phase(observation.round_no) {
        Some(Phase::Night) => true,
        _ => false,
    };
    let returning = state.strategy == StrategyState::PrepareNight || state.strategy == StrategyState::Emergency;
    if is_night || returning {
        let r = defend(observation, state, arbiter);
        proof {
            if r is Ok && old(arbiter).spec_accepted().len() == 0 && old(arbiter).spec_observation() == observation {
                let (ws, steps, specs, registries) = choose|ws: Seq<int>, steps: Seq<(Option<(i64, ActionView)>, bool)>, specs: Seq<MissionSpec>,
                    registries: Seq<MissionRegistry>| #[trigger] defence_run(observation, old(arbiter).spec_observation(), ws, steps, specs,
                        registries, old(arbiter).spec_accepted(), arbiter.spec_accepted()) && registries[0] == old(state).registry();
                assert(old(arbiter).spec_accepted() =~= Seq::<AcceptedAction>::empty());
                assert(defence_run(observation, observation, ws, steps, specs, registries, Seq::empty(), arbiter.spec_accepted()));
            }
        }
        return r;
    }
    let r = assign_day(observation, state, arbiter, deadline);
    proof {
        if r is Ok && old(arbiter).spec_accepted().len() == 0 && old(arbiter).spec_observation() == observation {
            let (ws, n, sent, plans_at, chosen, choices, registries, accepted) = choose|ws: Seq<int>, n: int, sent: Seq<bool>,
                plans_at: Seq<Map<i64, BuildPlan>>, chosen: Seq<Map<i64, BuildPlan>>, choices: Seq<Option<(MissionSpec, ActionView)>>,
                registries: Seq<MissionRegistry>, accepted: Seq<Seq<AcceptedAction>>|
                #[trigger] day_steps(observation, old(arbiter).spec_observation(), ws, n, sent, plans_at, chosen, choices, registries, accepted)
                && worker_order(observation, ws)
                && accepted[0] == old(arbiter).spec_accepted()
                && registries[0] == old(state).registry()
                && plans_at[0] == construction::kept_plans(*observation, old(state).build_plans.view())
                && pioneer::pioneer_turn(*observation, registries[n], old(arbiter).spec_observation(), accepted[n],
                    arbiter.spec_accepted(), true);
            assert(old(arbiter).spec_accepted() =~= Seq::<AcceptedAction>::empty());
            assert(day_steps(observation, observation, ws, n, sent, plans_at, chosen, choices, registries, accepted));
        }
    }
    r
}

} // verus!
