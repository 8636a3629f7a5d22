use std::time::{Duration, Instant};

use technetium_battle_bot::ai::cognition::{ChallengeMemory, answer_action, prepare_prompt};
use technetium_battle_bot::ai::individual::{reconcile, record_committed};
use technetium_battle_bot::ai::mission::{
    CapabilityRejection, GoalEvaluation, GoalEvidence, MissionFailureReason, MissionRegistry, assign,
    challenge_spec, check_assignment, construction_spec, defense_spec, economy_spec, evaluate_goal,
    role_capabilities,
};
use technetium_battle_bot::ai::strategy;
use technetium_battle_bot::ai::tactics::next_step;
use technetium_battle_bot::ai::{DecisionState, propose_owned};
use technetium_battle_bot::command::{AcceptedAction, Arbiter};
use technetium_battle_bot::domain::{
    Action, ActionProposal, ActiveOwners, DeadlineKind, GoalPredicate, MapInfo, MissionCapability,
    MissionDeadline, MissionId, MissionSpec, Observation, OwnerAllocator, OwnerPath, PlayerTask, Pos,
    PriorityClass, RetryPolicy, Robot, Role, ShopItem, Team, WorldNews, Zone,
};
use technetium_battle_bot::event::{EventRecord, ReaderId, ReportReason, ReportStatus, WorldEvent};
use technetium_battle_bot::fsm::{IndividualState, MissionState, StrategyState, TacticalState, WorldState};
use technetium_battle_bot::protocol::{DecodedRequest, validate};
use technetium_battle_bot::rules::build::{BuildArea, area, wall_sites, weapon_sites};
use technetium_battle_bot::rules::constants::{
    ANSWER_MARGIN_ROUNDS, COUNTER_INCREMENT, DAY_ROUNDS, DEFAULT_LEVEL, EMERGENCY_CLEAR_ROUNDS, EMPTY_COUNT,
    FIRST_ROUND, HTTP_DECISION_TIMEOUT_MS, MATCH_ROUNDS, MAX_WEAPONS, MIN_ACTION_ROUNDS, MIN_COORDINATE,
    NEIGHBOR_RANGE, NEXT_LEVEL, NIGHT_ROUNDS, NO_HEALTH, SINGLE_ITEM, VERSION_INCREMENT, WEAPON_BUILD_GOLD,
    ZERO_COUNTER, ZERO_ROUNDS, ZERO_VERSION,
};
use technetium_battle_bot::rules::geometry::{distance, station_distance};
use technetium_battle_bot::rules::time::{Phase, next_night, phase};
use technetium_battle_bot::runtime::{Session, SessionReply};
use technetium_battle_bot::world::{EnemyStatus, World, WorldView};

const WORKER_ID: i64 = 10;
const PIONEER_ID: i64 = 11;
const SECOND_WORKER_ID: i64 = 12;
const STATION_ID: i64 = 1;
const WEAPON_ID: i64 = 20;
const ROBOT_ID: i64 = 50;
const START_GOLD: i32 = 75;
const MOVE_X: i32 = 4;
const MOVE_Y: i32 = 4;
const OTHER_SITE_X: i32 = 5;
const OTHER_SITE_Y: i32 = 4;
const BUILDING_KIND: &str = "gatling";
const TASK_TIMEOUT_ROUNDS: i32 = 30;
const ORE: &str = "iron";
const ORE_PRICE: i32 = 3;

fn role(id: i64, x: i32, y: i32, kind: &str, health: i32) -> Role {
    Role {
        id,
        pos: Pos { x, y },
        role_type: kind.to_owned(),
        health: Some(health),
        attack_power: None,
        attack_range: None,
        back_pack_capability: None,
        backpack: Vec::new(),
        level: None,
        cooldown: None,
    }
}

fn unit(id: i64, x: i32, y: i32, kind: &str) -> Role {
    let mut r = role(id, x, y, kind, 100);
    r.back_pack_capability = Some(10);
    r
}

fn weapon(id: i64, x: i32, y: i32) -> Role {
    let mut r = role(id, x, y, "gatling", 500);
    r.attack_power = Some(10);
    r.attack_range = Some(3);
    r.level = Some(DEFAULT_LEVEL);
    r.cooldown = Some(0);
    r
}

fn zone(x: i32, y: i32, kind: &str) -> Zone {
    Zone { pos: Pos { x, y }, neutral_type: kind.to_owned() }
}

/// The first day frame: two workers, a pioneer and the base; a vendor, an
/// iron mine and a challenge point; one open task.
fn day_observation() -> Observation {
    Observation {
        round_no: FIRST_ROUND,
        map_info: MapInfo {
            width: 12,
            height: 12,
            zones: vec![zone(8, 8, "vendor"), zone(5, 5, ORE), zone(6, 2, "challengerTaskPoint")],
        },
        team_our: Team {
            faction: "ice".to_owned(),
            team_id: "team-ice".to_owned(),
            gold_num: Some(START_GOLD),
            player_tasks: vec![PlayerTask {
                task_type: "challenge".to_owned(),
                task_position: Pos { x: 6, y: 2 },
                cold_down_rounds: Some(0),
                score_reward: Some(10),
                gold_reward: Some(10),
                is_valid: Some(true),
                timeout_rounds: Some(TASK_TIMEOUT_ROUNDS),
            }],
            roles: vec![
                unit(WORKER_ID, 3, 4, "worker"),
                unit(PIONEER_ID, 4, 3, "pioneer"),
                unit(SECOND_WORKER_ID, 1, 5, "worker"),
                role(STATION_ID, 2, 6, "station", 1000),
            ],
        },
        team_enemy: Some(Robot { roles: Vec::new() }),
        robot: Some(Robot { roles: Vec::new() }),
        phase_task: String::new(),
        last_round_role_action_results: Vec::new(),
        last_summon_treasure_result: None,
        llm_resp: String::new(),
        last_cmd_result: String::new(),
        world_news: WorldNews { official_news: String::new(), folk_legends: String::new() },
        vendor_shop_list: vec![ShopItem { name: ORE.to_owned(), price: ORE_PRICE }],
        weapon_shop_list: Vec::new(),
    }
}

/// The first night frame: a worker beside a ready gatling, the base, and
/// a small robot in range.
fn night_observation() -> Observation {
    let mut o = day_observation();
    o.round_no = DAY_ROUNDS + FIRST_ROUND;
    o.team_our.player_tasks = Vec::new();
    o.team_our.roles = vec![unit(WORKER_ID, 3, 4, "worker"), weapon(WEAPON_ID, 4, 4), role(STATION_ID, 2, 6, "station", 1000)];
    o.robot = Some(Robot { roles: vec![role(ROBOT_ID, 6, 4, "smallRobot", 50)] });
    o
}

fn role_mut(observation: &mut Observation, id: i64) -> &mut Role {
    observation.team_our.roles.iter_mut().find(|role| role.id == id).expect("role")
}

fn request(observation: &Observation) -> DecodedRequest {
    DecodedRequest { observation: observation.clone(), canonical_key: format!("{:?}", observation) }
}

fn deadline() -> Instant {
    Instant::now() + Duration::from_millis(HTTP_DECISION_TIMEOUT_MS)
}

fn answer(reply: SessionReply) -> technetium_battle_bot::domain::Response {
    match reply {
        SessionReply::Answer(Some(response)) => response,
        _ => panic!("expected an answer"),
    }
}

fn site() -> Pos {
    Pos { x: MOVE_X, y: MOVE_Y }
}

fn accept_move(observation: &Observation, state: &mut DecisionState, spec: MissionSpec) -> OwnerPath {
    let mut arbiter = Arbiter::new(observation);
    assert!(propose_owned(observation, state, &mut arbiter, WORKER_ID, Action::Move(site()), spec).expect("proposal"));
    let (response, _) = arbiter.finish();
    assert!(response.role_command_map.contains_key(&WORKER_ID));
    *state.role_owners.get(&WORKER_ID).expect("role owner")
}

fn mission_state(state: &DecisionState, owner: &OwnerPath) -> MissionState {
    state.mission_view(owner.mission().id).expect("mission record").state()
}

fn assert_deadline(spec: &MissionSpec, round: i32, kind: DeadlineKind) {
    let deadline = spec.deadline().expect("generated deadline");
    assert_eq!(deadline.at_round(), round);
    assert!(deadline.inclusive());
    assert_eq!(deadline.kind(), kind);
}

fn assign_once(observation: &Observation, state: &mut DecisionState) {
    let mut arbiter = Arbiter::new(observation);
    assign(observation, state, &mut arbiter, &deadline()).expect("mission assignment");
}

// Deadlines.

const CHALLENGE_DEADLINE_ROUND: i32 = FIRST_ROUND + TASK_TIMEOUT_ROUNDS - ANSWER_MARGIN_ROUNDS;
const SECOND_DAY_FIRST_ROUND: i32 = DAY_ROUNDS + NIGHT_ROUNDS + FIRST_ROUND;

#[test]
fn generated_deadlines_follow_day_task_and_defense_windows() {
    let day = day_observation();
    assert_deadline(&economy_spec(&day), DAY_ROUNDS, DeadlineKind::ActionSubmission);
    assert_deadline(&construction_spec(&day, site(), BUILDING_KIND), DAY_ROUNDS, DeadlineKind::ActionSubmission);
    assert_deadline(&challenge_spec(&day, Some(TASK_TIMEOUT_ROUNDS)), CHALLENGE_DEADLINE_ROUND, DeadlineKind::ActionSubmission);
    assert_deadline(&defense_spec(&day, WEAPON_ID), SECOND_DAY_FIRST_ROUND, DeadlineKind::EffectObservation);
    assert_deadline(&defense_spec(&night_observation(), WEAPON_ID), SECOND_DAY_FIRST_ROUND, DeadlineKind::EffectObservation);
}

#[test]
fn explicit_deadline_change_replaces_the_assignment() {
    let observation = day_observation();
    let mut state = DecisionState::default();
    let first_spec = MissionSpec::economy().with_deadline(MissionDeadline::new(DAY_ROUNDS, true, DeadlineKind::ActionSubmission));
    let second_spec = MissionSpec::economy().with_deadline(MissionDeadline::new(DAY_ROUNDS - FIRST_ROUND, true, DeadlineKind::ActionSubmission));
    let first = accept_move(&observation, &mut state, first_spec);
    let second = accept_move(&observation, &mut state, second_spec);
    assert_ne!(first.mission(), second.mission());
    assert_eq!(mission_state(&state, &first), MissionState::Cancelled);
    assert_eq!(mission_state(&state, &second), MissionState::Executing);
}

#[test]
fn live_strategy_freezes_a_relative_challenge_deadline() {
    let mut observation = day_observation();
    let mut state = DecisionState::default();
    assign_once(&observation, &mut state);
    let first = *state.role_owners.get(&PIONEER_ID).expect("pioneer owner");
    assert_deadline(state.mission_view(first.mission().id).expect("mission").spec(), CHALLENGE_DEADLINE_ROUND, DeadlineKind::ActionSubmission);
    observation.round_no = FIRST_ROUND + FIRST_ROUND;
    assign_once(&observation, &mut state);
    let second = *state.role_owners.get(&PIONEER_ID).expect("pioneer owner");
    assert_eq!(first.mission(), second.mission());
    assert_deadline(state.mission_view(second.mission().id).expect("mission").spec(), CHALLENGE_DEADLINE_ROUND, DeadlineKind::ActionSubmission);
}

#[test]
fn expired_contract_is_rejected_before_owner_allocation() {
    let mut observation = day_observation();
    observation.round_no = FIRST_ROUND + FIRST_ROUND;
    let spec = MissionSpec::economy().with_deadline(MissionDeadline::new(FIRST_ROUND, true, DeadlineKind::ActionSubmission));
    let mut state = DecisionState::default();
    let mut arbiter = Arbiter::new(&observation);
    let accepted = propose_owned(&observation, &mut state, &mut arbiter, WORKER_ID, Action::Move(site()), spec).expect("proposal");
    assert!(!accepted);
    assert!(state.role_owners.is_empty());
}

// Economy progress.

const COLLECT_EVENT_ID: u64 = 70;
const SELL_EVENT_ID: u64 = 71;
const GOLD_EVENT_ID: u64 = 72;
const SELL_ROUND: i32 = 2;
const COMPLETE_ROUND: i32 = 3;
const END_GOLD: i32 = 78;

fn active_economy() -> (MissionRegistry, OwnerPath, MissionId) {
    let mut registry = MissionRegistry::default();
    let mut owners = ActiveOwners::default();
    let mut allocator = OwnerAllocator::default();
    let owner = owners.create_assignment(&mut allocator).expect("owner");
    let mission = registry.register(WORKER_ID, MissionSpec::economy(), owner).expect("mission");
    registry.assign(mission).expect("ready");
    registry.activate(mission).expect("assigned");
    (registry, owner, mission)
}

fn after_collect(initial: &Observation) -> Observation {
    let mut collected = initial.clone();
    collected.round_no = SELL_ROUND;
    role_mut(&mut collected, WORKER_ID).backpack.push(ORE.to_owned());
    collected
}

fn after_sale(collected: &Observation) -> Observation {
    let mut sold = collected.clone();
    sold.round_no = COMPLETE_ROUND;
    role_mut(&mut sold, WORKER_ID).backpack.clear();
    sold.team_our.gold_num = Some(END_GOLD);
    sold
}

fn record_collection(registry: &mut MissionRegistry, owner: &OwnerPath) -> Observation {
    let initial = day_observation();
    let mine = initial.map_info.zones.iter().find(|zone| zone.neutral_type == ORE).expect("mine").pos;
    assert!(registry.record_action_commit(owner, WORKER_ID, &Action::Collect(mine), &initial));
    let collected = after_collect(&initial);
    registry.reconcile(&collected, &[inventory_event(COLLECT_EVENT_ID, SELL_ROUND)]);
    collected
}

fn sale_action() -> Action {
    Action::Sell { name: ORE.to_owned(), quantity: 1 }
}

fn inventory_event(id: u64, round: i32) -> EventRecord {
    EventRecord { id, observed_round: round, event: WorldEvent::InventoryChanged(WORKER_ID) }
}

fn sale_events() -> Vec<EventRecord> {
    vec![
        inventory_event(SELL_EVENT_ID, COMPLETE_ROUND),
        EventRecord { id: GOLD_EVENT_ID, observed_round: COMPLETE_ROUND, event: WorldEvent::GoldChanged { previous: START_GOLD, current: END_GOLD } },
    ]
}

fn event_evidence(event: u64, observed_round: i32) -> GoalEvidence {
    GoalEvidence::EventObserved { event, observed_round }
}

#[test]
fn observed_collect_then_sell_completes_the_economy_cycle() {
    let (mut registry, owner, mission) = active_economy();
    let collected = record_collection(&mut registry, &owner);
    assert_eq!(registry.view(mission).expect("mission").progress_evidence(), &[event_evidence(COLLECT_EVENT_ID, SELL_ROUND)]);
    assert!(registry.record_action_commit(&owner, WORKER_ID, &sale_action(), &collected));
    let sold = after_sale(&collected);
    let result = registry.reconcile(&sold, &sale_events());
    assert_eq!(result.resolved().first().map(|item| item.state()), Some(MissionState::Succeeded));
    let view = registry.view(mission).expect("mission");
    assert_eq!(view.state(), MissionState::Succeeded);
    assert_eq!(view.completion_evidence().len(), sale_events().len() + SINGLE_ITEM);
}

#[test]
fn sale_without_positive_gold_evidence_keeps_economy_pending() {
    let (mut registry, owner, mission) = active_economy();
    let collected = record_collection(&mut registry, &owner);
    assert!(registry.record_action_commit(&owner, WORKER_ID, &sale_action(), &collected));
    let mut sold = after_sale(&collected);
    sold.team_our.gold_num = Some(START_GOLD);
    let events = [inventory_event(SELL_EVENT_ID, COMPLETE_ROUND)];
    assert!(registry.reconcile(&sold, &events).resolved().is_empty());
    let view = registry.view(mission).expect("mission");
    assert_eq!(view.state(), MissionState::Executing);
    assert_eq!(view.progress_evidence(), &[event_evidence(COLLECT_EVENT_ID, SELL_ROUND)]);
}

#[test]
fn selling_preexisting_inventory_does_not_complete_a_cycle() {
    let (mut registry, owner, mission) = active_economy();
    let mut initial = day_observation();
    role_mut(&mut initial, WORKER_ID).backpack.push(ORE.to_owned());
    assert!(registry.record_action_commit(&owner, WORKER_ID, &sale_action(), &initial));
    let sold = after_sale(&initial);
    assert!(registry.reconcile(&sold, &sale_events()).resolved().is_empty());
    let view = registry.view(mission).expect("mission");
    assert_eq!(view.state(), MissionState::Executing);
    assert!(view.progress_evidence().is_empty());
}

// Retries.

const RETRY_LIMIT: u8 = 2;
const SINGLE_RETRY_LIMIT: u8 = 1;
const PROGRESS_EVENT_ID: u64 = 90;

fn retry_spec(limit: u8) -> MissionSpec {
    MissionSpec::economy().with_retry_policy(RetryPolicy::bounded(limit))
}

fn try_move(observation: &Observation, state: &mut DecisionState, spec: MissionSpec) -> bool {
    let mut arbiter = Arbiter::new(observation);
    let accepted = propose_owned(observation, state, &mut arbiter, WORKER_ID, Action::Move(site()), spec).expect("proposal");
    let (_, committed) = arbiter.finish();
    record_committed(observation, &committed, state).expect("committed");
    accepted
}

fn submit_move(observation: &Observation, state: &mut DecisionState, spec: MissionSpec) -> OwnerPath {
    assert!(try_move(observation, state, spec));
    *state.role_owners.get(&WORKER_ID).expect("worker owner")
}

fn reject_pending(observation: &mut Observation, state: &mut DecisionState) {
    observation.round_no += MIN_ACTION_ROUNDS;
    observation.last_round_role_action_results.push((WORKER_ID, false));
    let reports = reconcile(observation, state);
    assert_eq!(reports.first().map(|report| report.reason), Some(ReportReason::ActionRejected));
}

fn movement_event(round: i32) -> EventRecord {
    EventRecord { id: PROGRESS_EVENT_ID, observed_round: round, event: WorldEvent::UnitMoved { id: WORKER_ID, from: Pos { x: 3, y: MOVE_Y }, to: site() } }
}

fn active_registry(spec: MissionSpec) -> (MissionRegistry, OwnerPath, MissionId, OwnerPath) {
    let mut registry = MissionRegistry::default();
    let mut owners = ActiveOwners::default();
    let mut allocator = OwnerAllocator::default();
    let owner = owners.create_assignment(&mut allocator).expect("owner");
    let spare = owners.create_assignment(&mut allocator).expect("spare owner");
    let mission = registry.register(WORKER_ID, spec, owner).expect("mission");
    registry.assign(mission).expect("ready");
    registry.activate(mission).expect("assigned");
    (registry, owner, mission, spare)
}

#[test]
fn repeated_rejections_exhaust_the_mission_retry_policy() {
    let mut observation = day_observation();
    let mut state = DecisionState::default();
    let spec = retry_spec(RETRY_LIMIT);
    let first = submit_move(&observation, &mut state, spec.clone());
    reject_pending(&mut observation, &mut state);
    let blocked = state.mission_view(first.mission().id).expect("mission");
    assert_eq!(blocked.state(), MissionState::Blocked);
    assert_eq!(blocked.retry_count(), COUNTER_INCREMENT);
    let second = submit_move(&observation, &mut state, spec);
    reject_pending(&mut observation, &mut state);
    let failed = state.mission_view(second.mission().id).expect("mission");
    assert_eq!(failed.state(), MissionState::Failed);
    assert_eq!(failed.retry_count(), RETRY_LIMIT);
    let failure = failed.failure().expect("failure metadata");
    assert_eq!(failure.attempts(), RETRY_LIMIT);
    assert_eq!(failure.observed_round(), observation.round_no);
    assert_eq!(failure.reason(), MissionFailureReason::RetryExhausted);
    assert!(!state.active_owners.is_current(&second));
    assert!(!state.role_owners.contains_key(&WORKER_ID));
    assert_eq!(state.individuals.get(&WORKER_ID), Some(&IndividualState::Idle));
    assert_eq!(state.tactics.get(&WORKER_ID), Some(&TacticalState::Failed));
    observation.round_no += MIN_ACTION_ROUNDS;
    state.reconcile_missions(&observation, &[movement_event(observation.round_no)]);
    assert_eq!(state.mission_view(second.mission().id).expect("terminal mission").retry_count(), RETRY_LIMIT);
}

#[test]
fn observed_progress_resets_the_rejection_counter() {
    let (mut registry, owner, mission, _) = active_registry(retry_spec(RETRY_LIMIT));
    assert!(registry.record_action_rejection(&owner, day_observation().round_no).is_empty());
    assert_eq!(registry.view(mission).expect("mission").retry_count(), COUNTER_INCREMENT);
    let mut input = day_observation();
    input.round_no += MIN_ACTION_ROUNDS;
    let event = movement_event(input.round_no);
    registry.reconcile(&input, &[event]);
    let view = registry.view(mission).expect("mission");
    assert_eq!(view.retry_count(), ZERO_COUNTER);
    assert_eq!(view.state(), MissionState::Blocked);
}

#[test]
fn failed_contract_is_suppressed_but_changed_policy_can_run() {
    let mut observation = day_observation();
    let mut state = DecisionState::default();
    let failed_spec = retry_spec(SINGLE_RETRY_LIMIT);
    let failed_owner = submit_move(&observation, &mut state, failed_spec.clone());
    reject_pending(&mut observation, &mut state);
    assert_eq!(state.mission_view(failed_owner.mission().id).expect("mission").state(), MissionState::Failed);
    assert!(!try_move(&observation, &mut state, failed_spec));
    let changed = retry_spec(SINGLE_RETRY_LIMIT).with_priority(PriorityClass::Q2Deadline);
    assert!(try_move(&observation, &mut state, changed));
}

#[test]
fn retry_exhaustion_cancels_dependent_missions() {
    let (mut registry, owner, root, child_owner) = active_registry(retry_spec(SINGLE_RETRY_LIMIT));
    let child = registry.register(PIONEER_ID, MissionSpec::economy().with_dependencies(&[root]), child_owner).expect("child mission");
    let resolved = registry.record_action_rejection(&owner, day_observation().round_no);
    assert_eq!(resolved.len(), 2);
    assert_eq!(registry.view(root).expect("root").state(), MissionState::Failed);
    assert_eq!(registry.view(child).expect("child").state(), MissionState::Cancelled);
}

// Owned proposals.

#[test]
fn rejected_owned_proposal_preserves_existing_work() {
    let observation = day_observation();
    let worker_pos = observation.team_our.roles[0].pos;
    let mut arbiter = Arbiter::new(&observation);
    let mut state = DecisionState::default();
    let previous = accept_move(&observation, &mut state, MissionSpec::economy());
    let accepted = propose_owned(&observation, &mut state, &mut arbiter, WORKER_ID, Action::Move(worker_pos),
        MissionSpec::construction(Pos { x: OTHER_SITE_X, y: OTHER_SITE_Y }, BUILDING_KIND)).expect("proposal");
    assert!(!accepted);
    assert!(state.active_owners.is_current(&previous));
    assert_eq!(state.role_owners.get(&WORKER_ID), Some(&previous));
    assert_eq!(mission_state(&state, &previous), MissionState::Executing);
    assert!(arbiter.finish().0.role_command_map.is_empty());
}

#[test]
fn attack_owner_is_committed_to_the_controller() {
    let observation = night_observation();
    let target = observation.robot.as_ref().expect("robots").roles.first().expect("robot").pos;
    let mut arbiter = Arbiter::new(&observation);
    let mut state = DecisionState::default();
    assert!(propose_owned(&observation, &mut state, &mut arbiter, WEAPON_ID,
        Action::Attack { controller: WORKER_ID, targets: vec![target] }, MissionSpec::defense(WEAPON_ID)).expect("proposal"));
    let owner = state.role_owners.get(&WORKER_ID).expect("controller owner");
    assert!(state.active_owners.is_current(owner));
    assert!(!state.role_owners.contains_key(&WEAPON_ID));
}

#[test]
fn successive_steps_reuse_assignment_and_replace_intent() {
    let observation = day_observation();
    let mut state = DecisionState::default();
    let first = accept_move(&observation, &mut state, MissionSpec::economy());
    let second = accept_move(&observation, &mut state, MissionSpec::economy());
    assert_eq!(first.mission(), second.mission());
    assert_eq!(first.plan(), second.plan());
    assert_ne!(first.intent(), second.intent());
    assert!(!state.active_owners.is_current(&first));
    assert!(state.active_owners.is_current(&second));
}

#[test]
fn blocked_assignment_resumes_when_the_next_action_is_accepted() {
    let observation = day_observation();
    let mut state = DecisionState::default();
    let first = accept_move(&observation, &mut state, MissionSpec::economy());
    state.block_mission(&first);
    assert_eq!(mission_state(&state, &first), MissionState::Blocked);
    let second = accept_move(&observation, &mut state, MissionSpec::economy());
    assert_eq!(first.mission(), second.mission());
    assert_eq!(mission_state(&state, &second), MissionState::Executing);
}

#[test]
fn changing_mission_spec_replaces_the_assignment() {
    let observation = day_observation();
    let mut state = DecisionState::default();
    let economy = accept_move(&observation, &mut state, MissionSpec::economy());
    let construction = accept_move(&observation, &mut state, MissionSpec::construction(site(), BUILDING_KIND));
    assert_ne!(economy.mission(), construction.mission());
    assert_ne!(economy.plan(), construction.plan());
    assert!(!state.active_owners.is_current(&economy));
    assert!(state.active_owners.is_current(&construction));
    assert_eq!(mission_state(&state, &economy), MissionState::Cancelled);
    assert_eq!(mission_state(&state, &construction), MissionState::Executing);
}

#[test]
fn changing_objective_replaces_assignment_within_the_same_kind() {
    let observation = day_observation();
    let mut state = DecisionState::default();
    let first = accept_move(&observation, &mut state, MissionSpec::construction(site(), BUILDING_KIND));
    let second = accept_move(&observation, &mut state, MissionSpec::construction(Pos { x: OTHER_SITE_X, y: OTHER_SITE_Y }, BUILDING_KIND));
    assert_ne!(first.mission(), second.mission());
    assert_ne!(first.plan(), second.plan());
    assert!(!state.active_owners.is_current(&first));
    assert!(state.active_owners.is_current(&second));
    assert_eq!(mission_state(&state, &first), MissionState::Cancelled);
    assert_eq!(mission_state(&state, &second), MissionState::Executing);
}

#[test]
fn discarded_draft_does_not_advance_persistent_owner_ids() {
    let observation = day_observation();
    let mut discarded = DecisionState::default();
    let discarded_owner = accept_move(&observation, &mut discarded, MissionSpec::economy());
    let mut committed = DecisionState::default();
    let committed_owner = accept_move(&observation, &mut committed, MissionSpec::economy());
    assert_eq!(discarded_owner, committed_owner);
}

#[test]
fn mission_reconciliation_deactivates_a_completed_assignment() {
    let mut observation = day_observation();
    let mut state = DecisionState::default();
    let owner = accept_move(&observation, &mut state, MissionSpec::construction(site(), BUILDING_KIND));
    observation.team_our.roles.push(role(90, MOVE_X, MOVE_Y, BUILDING_KIND, 1000));
    state.reconcile_missions(&observation, &[]);
    assert_eq!(mission_state(&state, &owner), MissionState::Succeeded);
    assert!(!state.active_owners.is_current(&owner));
    assert!(!state.role_owners.contains_key(&WORKER_ID));
}

#[test]
fn timely_action_submission_keeps_the_mission_open_for_effects() {
    let mut observation = day_observation();
    let mut state = DecisionState::default();
    let deadline = MissionDeadline::new(observation.round_no, true, DeadlineKind::ActionSubmission);
    let action = Action::Build { name: BUILDING_KIND.to_owned(), pos: site() };
    let mut arbiter = Arbiter::new(&observation);
    assert!(propose_owned(&observation, &mut state, &mut arbiter, WORKER_ID, action,
        MissionSpec::construction(site(), BUILDING_KIND).with_deadline(deadline)).expect("proposal"));
    let (_, committed) = arbiter.finish();
    record_committed(&observation, &committed, &mut state).expect("committed");
    let owner = *state.role_owners.get(&WORKER_ID).expect("role owner");
    observation.round_no = FIRST_ROUND + FIRST_ROUND;
    let late_action = Action::Build { name: BUILDING_KIND.to_owned(), pos: site() };
    state.record_mission_action(&owner, WORKER_ID, &late_action, &observation);
    state.reconcile_missions(&observation, &[]);
    assert_eq!(mission_state(&state, &owner), MissionState::Executing);
    assert!(state.active_owners.is_current(&owner));
    assert_eq!(state.mission_view(owner.mission().id).expect("mission view").goal_submission_round(), Some(deadline.at_round()));
}

#[test]
fn capability_filter_rejects_before_allocating_an_assignment() {
    let observation = day_observation();
    let mut state = DecisionState::default();
    let mut arbiter = Arbiter::new(&observation);
    let action = Action::Move(Pos { x: 4, y: 2 });
    assert!(!propose_owned(&observation, &mut state, &mut arbiter, PIONEER_ID, action.clone(), MissionSpec::economy()).expect("capability filter"));
    assert!(state.role_owners.is_empty());
    assert!(propose_owned(&observation, &mut state, &mut arbiter, PIONEER_ID, action, MissionSpec::challenge()).expect("challenge proposal"));
    assert!(state.mission_view(MissionId::new(ZERO_VERSION)).is_some());
}

// Unit reports.

#[test]
fn rejected_action_does_not_enter_waiting_state() {
    let observation = day_observation();
    let worker_pos = observation.team_our.roles[0].pos;
    let mut arbiter = Arbiter::new(&observation);
    assert!(!arbiter.propose(WORKER_ID, Action::Move(worker_pos)));
    let mut state = DecisionState::default();
    record_committed(&observation, arbiter.accepted().as_slice(), &mut state).expect("committed");
    assert!(state.pending_actions.is_empty());
    assert!(!state.individuals.contains_key(&WORKER_ID));
}

#[test]
fn rejected_by_judger_action_reports_failure_to_parent_states() {
    let mut observation = day_observation();
    let mut arbiter = Arbiter::new(&observation);
    assert!(arbiter.propose(WORKER_ID, Action::Move(site())));
    let mut state = DecisionState::default();
    record_committed(&observation, arbiter.accepted().as_slice(), &mut state).expect("committed");
    assert_eq!(state.individuals.get(&WORKER_ID), Some(&IndividualState::WaitingResult));
    observation.round_no += MIN_ACTION_ROUNDS;
    observation.last_round_role_action_results.push((WORKER_ID, false));
    let reports = reconcile(&observation, &mut state);
    assert_eq!(reports.len(), SINGLE_ITEM);
    assert_eq!(reports.first().expect("report").status, ReportStatus::Failed);
    assert_eq!(reports.first().expect("report").reason, ReportReason::ActionRejected);
    assert_eq!(state.individuals.get(&WORKER_ID), Some(&IndividualState::Recovering));
    assert_eq!(state.missions.get(&WORKER_ID), Some(&MissionState::Blocked));
    assert_eq!(state.tactics.get(&WORKER_ID), Some(&TacticalState::Replan));
}

#[test]
fn weapon_feedback_is_attributed_to_its_controller() {
    let mut observation = night_observation();
    let target = observation.robot.as_ref().expect("robots").roles.first().expect("robot").pos;
    let mut arbiter = Arbiter::new(&observation);
    assert!(arbiter.propose(WEAPON_ID, Action::Attack { controller: WORKER_ID, targets: vec![target] }));
    let mut state = DecisionState::default();
    record_committed(&observation, arbiter.accepted().as_slice(), &mut state).expect("committed");
    observation.round_no += MIN_ACTION_ROUNDS;
    observation.last_round_role_action_results.push((WEAPON_ID, true));
    let reports = reconcile(&observation, &mut state);
    assert_eq!(reports.first().expect("report").owner, WORKER_ID);
    assert_eq!(reports.first().expect("report").status, ReportStatus::Progress);
    assert_eq!(reports.first().expect("report").reason, ReportReason::ActionLegal);
    assert_eq!(state.individuals.get(&WORKER_ID), Some(&IndividualState::Idle));
}

#[test]
fn skipped_round_feedback_is_not_attributed_to_old_action() {
    let mut observation = day_observation();
    let mut state = DecisionState::default();
    let committed = vec![AcceptedAction { actor: WORKER_ID, action: Action::Move(site()), owner: None }];
    record_committed(&observation, &committed, &mut state).expect("committed");
    observation.round_no += MIN_ACTION_ROUNDS + MIN_ACTION_ROUNDS;
    observation.last_round_role_action_results.push((WORKER_ID, true));
    let reports = reconcile(&observation, &mut state);
    assert_eq!(reports.first().expect("report").status, ReportStatus::AtRisk);
    assert_eq!(reports.first().expect("report").reason, ReportReason::ActionResultUnknown);
}

// Arbitration.

#[test]
fn attack_reserves_its_controller_action_slot() {
    let observation = night_observation();
    let mut arbiter = Arbiter::new(&observation);
    assert!(arbiter.propose(WEAPON_ID, Action::Attack { controller: WORKER_ID, targets: vec![Pos { x: 6, y: 4 }] }));
    assert!(!arbiter.propose(WORKER_ID, Action::Move(Pos { x: 3, y: 3 })));
}

#[test]
fn same_destination_is_reserved_once() {
    let observation = day_observation();
    let mut arbiter = Arbiter::new(&observation);
    let target = Pos { x: 3, y: 3 };
    assert!(arbiter.propose(WORKER_ID, Action::Move(target)));
    assert!(!arbiter.propose(SECOND_WORKER_ID, Action::Move(target)));
}

#[test]
fn a_reserved_destination_refuses_a_neighbour_that_could_reach_it() {
    let target = Pos { x: 2, y: 4 };
    let mut second = day_observation();
    role_mut(&mut second, SECOND_WORKER_ID).pos = Pos { x: 1, y: 4 };
    let mut other = Arbiter::new(&second);
    assert!(other.propose(WORKER_ID, Action::Move(target)));
    assert!(!other.propose(SECOND_WORKER_ID, Action::Move(target)));
}

#[test]
fn upgraded_gatling_rejects_opposite_target_directions() {
    let mut observation = night_observation();
    role_mut(&mut observation, WEAPON_ID).level = Some(DEFAULT_LEVEL + NEXT_LEVEL);
    let right = Pos { x: 6, y: 4 };
    let left = Pos { x: 4 - NEIGHBOR_RANGE, y: 4 };
    let mut arbiter = Arbiter::new(&observation);
    assert!(!arbiter.propose(WEAPON_ID, Action::Attack { controller: WORKER_ID, targets: vec![right, left] }));
}

#[test]
fn wall_build_requires_wall_ring_and_worker_stone() {
    let mut observation = day_observation();
    let worker = role_mut(&mut observation, WORKER_ID);
    worker.pos = Pos { x: 0, y: 5 };
    worker.backpack = vec!["stone".to_owned()];
    let mut owners = ActiveOwners::default();
    let mut allocator = OwnerAllocator::default();
    let mut arbiter = Arbiter::new(&observation);
    let weapon_owner = owners.create_path(&mut allocator).expect("owner path");
    let weapon = ActionProposal::new(WORKER_ID, weapon_owner, Action::Build { name: "gatling".into(), pos: Pos { x: 0, y: 6 } });
    assert!(!arbiter.propose_for(&weapon, &owners));
    let wall_owner = owners.create_path(&mut allocator).expect("owner path");
    let wall = ActionProposal::new(WORKER_ID, wall_owner, Action::Build { name: "wall".into(), pos: Pos { x: 0, y: 6 } });
    assert!(arbiter.propose_for(&wall, &owners));
}

// Rules.

#[test]
fn phase_boundaries_follow_one_based_rounds() {
    assert_eq!(phase(FIRST_ROUND), Some(Phase::Day));
    assert_eq!(phase(DAY_ROUNDS), Some(Phase::Day));
    assert_eq!(phase(DAY_ROUNDS + FIRST_ROUND), Some(Phase::Night));
    assert_eq!(phase(DAY_ROUNDS + NIGHT_ROUNDS), Some(Phase::Night));
    assert_eq!(phase(DAY_ROUNDS + NIGHT_ROUNDS + FIRST_ROUND), Some(Phase::Day));
    assert_eq!(phase(MATCH_ROUNDS), Some(Phase::Night));
    assert_eq!(next_night(FIRST_ROUND), Some(DAY_ROUNDS + FIRST_ROUND));
}

#[test]
fn path_finds_legal_adjacent_mine_stand() {
    let observation = day_observation();
    let view = WorldView::new(&observation);
    let start = Pos { x: 3, y: 4 };
    let stands = view.interact_positions(Pos { x: 5, y: 5 }, WORKER_ID);
    let path = next_step(&view, WORKER_ID, start, &stands).expect("reachable mine stand");
    assert!(view.can_enter(path.next, WORKER_ID));
    assert_eq!(distance(start, path.next), NEIGHBOR_RANGE);
}

#[test]
fn station_distance_uses_all_occupied_cells() {
    assert_eq!(station_distance(Pos { x: 2, y: 6 }, Pos { x: 3, y: 5 }), ZERO_ROUNDS);
}

#[test]
fn build_rings_follow_two_four_six_geometry() {
    let station = Pos { x: 10, y: 10 };
    let weapons = weapon_sites(station, 41, 32);
    let walls = wall_sites(station, 41, 32);
    assert_eq!(weapons.len(), 12);
    assert_eq!(walls.len(), 20);
    assert!(weapons.iter().all(|pos| area(station, *pos) == BuildArea::Weapon));
    assert!(walls.iter().all(|pos| area(station, *pos) == BuildArea::Wall));
}

#[test]
fn build_rings_are_clipped_at_map_boundary() {
    let station = Pos { x: 0, y: 1 };
    let weapons = weapon_sites(station, 4, 4);
    let walls = wall_sites(station, 4, 4);
    assert_eq!(weapons.len(), 5);
    assert_eq!(walls.len(), 7);
    assert!(weapons.iter().chain(&walls).all(|pos| pos.x >= MIN_COORDINATE && pos.y >= MIN_COORDINATE && pos.x < 4 && pos.y < 4));
}

// Capabilities and goals.

#[test]
fn worker_profile_supports_economy_construction_and_defense() {
    let observation = day_observation();
    let available = role_capabilities(&observation.team_our.roles[0]);
    assert!(available.contains(&MissionCapability::Gather));
    assert!(available.contains(&MissionCapability::Sell));
    assert!(available.contains(&MissionCapability::Build));
    assert!(available.contains(&MissionCapability::OperateWeapon));
    assert!(check_assignment(&observation, WORKER_ID, &MissionSpec::economy()).is_ok());
    assert!(check_assignment(&observation, WORKER_ID, &MissionSpec::construction(site(), BUILDING_KIND)).is_ok());
    assert!(check_assignment(&observation, WORKER_ID, &MissionSpec::defense(WEAPON_ID)).is_ok());
}

#[test]
fn pioneer_profile_is_limited_to_challenges_and_weapon_control() {
    let observation = day_observation();
    let available = role_capabilities(&observation.team_our.roles[1]);
    assert!(available.contains(&MissionCapability::SolveChallenge));
    assert!(available.contains(&MissionCapability::OperateWeapon));
    assert_eq!(check_assignment(&observation, PIONEER_ID, &MissionSpec::economy()),
        Err(CapabilityRejection::MissingCapability(MissionCapability::Gather)));
    assert!(check_assignment(&observation, PIONEER_ID, &MissionSpec::challenge()).is_ok());
}

#[test]
fn unavailable_assignees_are_rejected_before_capability_matching() {
    let mut dead = day_observation();
    role_mut(&mut dead, PIONEER_ID).health = Some(NO_HEALTH);
    let mut unknown_health = day_observation();
    role_mut(&mut unknown_health, PIONEER_ID).health = None;
    assert_eq!(check_assignment(&dead, PIONEER_ID, &MissionSpec::challenge()), Err(CapabilityRejection::AssigneeDead));
    assert_eq!(check_assignment(&unknown_health, PIONEER_ID, &MissionSpec::challenge()), Err(CapabilityRejection::HealthUnknown));
    assert_eq!(check_assignment(&dead, 999, &MissionSpec::challenge()), Err(CapabilityRejection::AssigneeMissing));
}

fn recorded(id: u64, event: WorldEvent) -> EventRecord {
    EventRecord { id, observed_round: 131, event }
}

#[test]
fn challenge_and_defense_goals_require_matching_world_events() {
    let observation = day_observation();
    let events = vec![recorded(7, WorldEvent::ChallengeEnded), recorded(8, WorldEvent::PhaseChanged(Phase::Day))];
    assert_eq!(evaluate_goal(&GoalPredicate::ChallengeResolved, &observation, &events),
        GoalEvaluation::Satisfied(vec![GoalEvidence::EventObserved { event: 7, observed_round: 131 }]));
    assert_eq!(evaluate_goal(&GoalPredicate::DefenseWindowCompleted { weapon: WEAPON_ID }, &observation, &events),
        GoalEvaluation::Satisfied(vec![GoalEvidence::EventObserved { event: 8, observed_round: 131 }]));
}

#[test]
fn all_of_remains_pending_until_every_goal_has_evidence() {
    let observation = day_observation();
    let events = vec![recorded(7, WorldEvent::ChallengeEnded)];
    let goal = GoalPredicate::AllOf(vec![
        GoalPredicate::ChallengeResolved,
        GoalPredicate::BuildingPresent { kind: "rocket".to_owned(), site: Pos { x: 1, y: 1 } },
    ]);
    assert_eq!(evaluate_goal(&goal, &observation, &events), GoalEvaluation::Pending);
}

// Mission lifecycle on observed frames.

fn activate(registry: &mut MissionRegistry, assignee: i64, spec: MissionSpec, owner: OwnerPath) -> MissionId {
    let mission = registry.register(assignee, spec, owner).expect("mission");
    registry.assign(mission).expect("ready mission");
    registry.activate(mission).expect("assigned mission");
    mission
}

fn building() -> Role {
    role(90, MOVE_X, MOVE_Y, BUILDING_KIND, 1000)
}

#[test]
fn observed_building_completes_mission_with_evidence() {
    let mut observation = day_observation();
    observation.team_our.roles.push(building());
    let mut registry = MissionRegistry::default();
    let mut owners = ActiveOwners::default();
    let mut allocator = OwnerAllocator::default();
    let owner = owners.create_assignment(&mut allocator).expect("owner");
    let mission = activate(&mut registry, WORKER_ID, MissionSpec::construction(site(), BUILDING_KIND), owner);
    let result = registry.reconcile(&observation, &[]);
    assert_eq!(result.resolved().len(), SINGLE_ITEM);
    assert_eq!(result.resolved().first().map(|item| item.state()), Some(MissionState::Succeeded));
    let view = registry.view(mission).expect("mission view");
    assert_eq!(view.state(), MissionState::Succeeded);
    assert_eq!(view.completion_evidence(), &[GoalEvidence::EntityObserved { entity: 90, observed_round: observation.round_no }]);
}

#[test]
fn completed_goal_releases_a_dependent_mission() {
    let mut observation = day_observation();
    observation.team_our.roles.push(building());
    let mut registry = MissionRegistry::default();
    let mut owners = ActiveOwners::default();
    let mut allocator = OwnerAllocator::default();
    let root_owner = owners.create_assignment(&mut allocator).expect("owner");
    let root = activate(&mut registry, WORKER_ID, MissionSpec::construction(site(), BUILDING_KIND), root_owner);
    let child_owner = owners.create_assignment(&mut allocator).expect("owner");
    let child = registry.register(PIONEER_ID, MissionSpec::defense(WEAPON_ID).with_dependencies(&[root]), child_owner).expect("dependent mission");
    let result = registry.reconcile(&observation, &[]);
    assert_eq!(result.ready(), &[child]);
    assert_eq!(registry.view(root).expect("root").state(), MissionState::Succeeded);
    assert_eq!(registry.view(child).expect("child").state(), MissionState::Ready);
}

#[test]
fn expired_prerequisite_cancels_its_dependency_tree() {
    let mut observation = day_observation();
    observation.round_no = DAY_ROUNDS;
    let mut registry = MissionRegistry::default();
    let mut owners = ActiveOwners::default();
    let mut allocator = OwnerAllocator::default();
    let root_owner = owners.create_assignment(&mut allocator).expect("owner");
    let root = activate(&mut registry, WORKER_ID, MissionSpec::construction(site(), BUILDING_KIND)
        .with_deadline(MissionDeadline::new(DAY_ROUNDS, false, DeadlineKind::ActionSubmission)), root_owner);
    let child_owner = owners.create_assignment(&mut allocator).expect("owner");
    let child = registry.register(PIONEER_ID, MissionSpec::defense(WEAPON_ID).with_dependencies(&[root]), child_owner).expect("dependent mission");
    let result = registry.reconcile(&observation, &[]);
    assert_eq!(result.resolved().len(), 2);
    assert_eq!(registry.view(root).expect("root").state(), MissionState::Expired);
    assert_eq!(registry.view(child).expect("child").state(), MissionState::Cancelled);
    assert!(result.ready().is_empty());
}

#[test]
fn late_effect_evidence_does_not_revive_an_expired_mission() {
    let mut observation = day_observation();
    observation.round_no = DAY_ROUNDS + FIRST_ROUND;
    observation.team_our.roles.push(building());
    let mut registry = MissionRegistry::default();
    let mut owners = ActiveOwners::default();
    let mut allocator = OwnerAllocator::default();
    let owner = owners.create_assignment(&mut allocator).expect("owner");
    let mission = activate(&mut registry, WORKER_ID, MissionSpec::construction(site(), BUILDING_KIND)
        .with_deadline(MissionDeadline::new(DAY_ROUNDS, true, DeadlineKind::EffectObservation)), owner);
    registry.reconcile(&observation, &[]);
    let view = registry.view(mission).expect("mission view");
    assert_eq!(view.state(), MissionState::Expired);
    assert!(view.completion_evidence().is_empty());
}

// Strategy.

#[test]
fn continuous_phase_frames_drive_strategy_cycle() {
    let mut observation = night_observation();
    let mut clear = ZERO_COUNTER;
    observation.round_no = DAY_ROUNDS - FIRST_ROUND;
    let prepare = strategy::advance(&observation, &[], StrategyState::DayDevelop, &mut clear);
    assert_eq!(prepare, StrategyState::PrepareNight);
    observation.round_no = DAY_ROUNDS + FIRST_ROUND;
    let night = strategy::advance(&observation, &[], prepare, &mut clear);
    assert_eq!(night, StrategyState::NightDefend);
    observation.round_no = DAY_ROUNDS + NIGHT_ROUNDS + FIRST_ROUND;
    let day = strategy::advance(&observation, &[], night, &mut clear);
    assert_eq!(day, StrategyState::DayDevelop);
}

#[test]
fn emergency_exit_requires_configured_clear_observations() {
    let mut observation = night_observation();
    observation.robot = None;
    let mut clear = ZERO_COUNTER;
    let mut state = StrategyState::Emergency;
    for _ in ZERO_COUNTER..EMERGENCY_CLEAR_ROUNDS - COUNTER_INCREMENT {
        state = strategy::advance(&observation, &[], state, &mut clear);
        assert_eq!(state, StrategyState::Emergency);
        observation.round_no += FIRST_ROUND;
    }
    state = strategy::advance(&observation, &[], state, &mut clear);
    assert_ne!(state, StrategyState::Emergency);
}

// Validation of frames.

#[test]
fn decodes_optional_fields_and_rejects_duplicate_keys() {
    let observation = day_observation();
    assert!(validate(&observation).is_ok());
    assert_eq!(observation.team_our.roles.len(), MAX_WEAPONS + SINGLE_ITEM);
    let mut duplicated = day_observation();
    duplicated.team_our.roles[2].id = WORKER_ID;
    assert!(validate(&duplicated).is_err());
}

#[test]
fn rejects_robot_outside_map() {
    let mut observation = day_observation();
    let width = observation.map_info.width;
    observation.robot = Some(Robot { roles: vec![role(900, width, MIN_COORDINATE, "smallRobot", 1)] });
    assert!(validate(&observation).is_err());
}

#[test]
fn rejects_task_position_outside_map() {
    let mut observation = day_observation();
    observation.team_our.player_tasks[0].task_position.y = observation.map_info.height;
    assert!(validate(&observation).is_err());
}

#[test]
fn rejects_station_whose_footprint_leaves_map() {
    let mut observation = day_observation();
    let station_index = observation.team_our.roles.len() - SINGLE_ITEM;
    observation.team_our.roles[station_index].pos.y = MIN_COORDINATE;
    assert!(validate(&observation).is_err());
}

#[test]
fn accepts_optional_enemy_and_robot_collections_when_absent() {
    let mut observation = day_observation();
    observation.team_enemy = None;
    observation.robot = None;
    assert!(validate(&observation).is_ok());
}

// Sessions and the world.

#[test]
fn identical_round_reuses_bytes_without_advancing_decision() {
    let mut session = Session::default();
    let observation = day_observation();
    let first = answer(session.handle(Some(request(&observation)), &deadline()));
    assert!(first.prompt.is_empty());
    assert!(first.execute_cmd.is_empty());
    let cursor = session.event_cursor(ReaderId::Strategy);
    assert!(matches!(session.handle(Some(request(&observation)), &deadline()), SessionReply::Repeat));
    assert_eq!(session.event_cursor(ReaderId::Strategy), cursor);
}

#[test]
fn conflicting_same_round_returns_empty_response() {
    let mut session = Session::default();
    session.handle(Some(request(&day_observation())), &deadline());
    let mut changed = day_observation();
    changed.team_our.gold_num = Some(74);
    assert!(matches!(session.handle(Some(request(&changed)), &deadline()), SessionReply::Refused));
}

#[test]
fn actual_death_is_recorded_before_next_decision() {
    let initial = day_observation();
    let mut current = initial.clone();
    current.round_no += MIN_ACTION_ROUNDS;
    current.team_our.roles[0].health = Some(NO_HEALTH);
    let mut world = World::default();
    world.apply(initial);
    world.apply(current);
    assert!(world.events.contains(&WorldEvent::UnitDied(world.observation.as_ref().expect("world").team_our.roles[0].id)));
}

#[test]
fn nighttime_attack_uses_weapon_key_and_controller_string() {
    let mut session = Session::default();
    let response = answer(session.handle(Some(request(&night_observation())), &deadline()));
    let attack = response.role_command_map.get(&WEAPON_ID).expect("weapon command");
    assert_eq!(attack.action, "attack");
    assert_eq!(attack.controller_id, Some(WORKER_ID));
    assert!(response.role_command_map.get(&WORKER_ID).is_none());
}

#[test]
fn hidden_enemy_becomes_unobserved_without_death_claim() {
    let mut first = night_observation();
    let mut enemy = first.team_our.roles[0].clone();
    enemy.id = 31;
    first.team_enemy = Some(Robot { roles: vec![enemy] });
    let mut second = first.clone();
    second.round_no += MIN_ACTION_ROUNDS;
    second.team_enemy = Some(Robot { roles: Vec::new() });
    let mut world = World::default();
    world.apply(first);
    world.apply(second);
    assert_eq!(world.memory.enemies.get(&31).expect("remembered").status, EnemyStatus::Unobserved);
    assert!(world.events.contains(&WorldEvent::EnemyUnobserved(31)));
    assert!(!world.events.contains(&WorldEvent::UnitDied(31)));
}

#[test]
fn delayed_model_result_cannot_answer_expired_prompt() {
    let mut observation = day_observation();
    observation.phase_task = "Return the code".into();
    let mut memory = ChallengeMemory::default();
    assert!(!prepare_prompt(&observation, &mut memory).is_empty());
    observation.round_no += MIN_ACTION_ROUNDS;
    observation.llm_resp = "code".into();
    assert!(answer_action(&observation, &memory).is_some());
    observation.round_no += MIN_ACTION_ROUNDS;
    assert!(answer_action(&observation, &memory).is_none());
}

fn build_commands(response: &technetium_battle_bot::domain::Response) -> Vec<(i64, String, Pos)> {
    let mut builds = Vec::new();
    for id in [WORKER_ID, PIONEER_ID, SECOND_WORKER_ID] {
        if let Some(command) = response.role_command_map.get(&id) {
            if command.action == "build" {
                let name = command.name.clone().expect("name");
                let pos = command.target_pos.as_ref().expect("target")[0];
                builds.push((id, name, pos));
            }
        }
    }
    builds
}

#[test]
fn observed_base_enables_two_affordable_distinct_weapon_builds() {
    let mut session = Session::new();
    let response = answer(session.handle(Some(request(&day_observation())), &deadline()));
    let builds = build_commands(&response);
    assert_eq!(builds.len(), 2);
    assert_eq!(builds[0].0, WORKER_ID);
    assert_eq!(builds[1].0, SECOND_WORKER_ID);
    assert_ne!(builds[0].1, builds[1].1);
    assert_ne!(builds[0].2, builds[1].2);
}

#[test]
fn build_areas_concurrent_builds_do_not_exceed_observed_gold() {
    let mut observation = day_observation();
    observation.team_our.gold_num = Some(WEAPON_BUILD_GOLD);
    let mut session = Session::new();
    let response = answer(session.handle(Some(request(&observation)), &deadline()));
    assert_eq!(build_commands(&response).len(), SINGLE_ITEM);
}

#[test]
fn configured_mask_allows_two_affordable_distinct_builds() {
    let mut session = Session::new();
    let response = answer(session.handle(Some(request(&day_observation())), &deadline()));
    let builds = build_commands(&response);
    assert_eq!(builds.len(), 2);
    assert_ne!(builds[0].1, builds[1].1);
    assert_ne!(builds[0].2, builds[1].2);
    let station = Pos { x: 2, y: 6 };
    assert!(builds.iter().all(|(_, _, pos)| area(station, *pos) == BuildArea::Weapon));
}

#[test]
fn build_mask_concurrent_builds_do_not_exceed_observed_gold() {
    let mut observation = day_observation();
    observation.team_our.gold_num = Some(WEAPON_BUILD_GOLD);
    let mut session = Session::new();
    let response = answer(session.handle(Some(request(&observation)), &deadline()));
    let builds = build_commands(&response);
    assert_eq!(builds.len(), SINGLE_ITEM);
    assert_eq!(builds[0].1, "gatling");
}

#[test]
fn pioneer_can_accept_two_cell_task_from_second_cell() {
    let mut observation = day_observation();
    observation.map_info.zones[2].neutral_type = "challengerTaskPoint2".to_owned();
    observation.map_info.zones.push(zone(6, 3, "challengerTaskPoint2"));
    role_mut(&mut observation, PIONEER_ID).pos = Pos { x: 5, y: 4 };
    let view = WorldView::new(&observation);
    let task = observation.team_our.player_tasks.first().expect("task");
    assert!(view.adjacent_task(Pos { x: 5, y: 4 }, task.task_position));
    assert!(view.task_cells(task.task_position).contains(&Pos { x: 6, y: 3 }));
    let mut session = Session::default();
    let response = answer(session.handle(Some(request(&observation)), &deadline()));
    assert_eq!(response.role_command_map.get(&PIONEER_ID).expect("pioneer command").action, "acceptTask");
}

#[test]
fn world_degrades_without_replacing_last_valid_snapshot_and_recovers() {
    let first = day_observation();
    let mut world = World::default();
    assert!(world.apply(first.clone()));
    assert_eq!(world.state, WorldState::Ready);
    assert!(world.events.contains(&WorldEvent::WorldReady));
    let version = world.version;
    let mut invalid = first.clone();
    invalid.round_no += MIN_ACTION_ROUNDS;
    invalid.map_info.width += 1;
    assert!(!world.apply(invalid));
    assert_eq!(world.state, WorldState::Degraded);
    assert_eq!(world.version, version);
    assert_eq!(world.observation.as_ref().expect("snapshot").round_no, first.round_no);
    assert_eq!(world.events, vec![WorldEvent::WorldDegraded(technetium_battle_bot::event::WorldIssue::MapDimensionsChanged)]);
    let mut recovered = first;
    recovered.round_no += MIN_ACTION_ROUNDS;
    assert!(world.apply(recovered));
    assert_eq!(world.state, WorldState::Ready);
    assert!(world.events.contains(&WorldEvent::WorldRecovered));
    assert_eq!(world.version, version + VERSION_INCREMENT);
}

#[test]
fn lifecycle_events_are_kept_in_stable_cursor_order() {
    let mut observation = day_observation();
    let mut world = World::default();
    assert!(world.apply(observation.clone()));
    observation.round_no += MIN_ACTION_ROUNDS;
    observation.map_info.width += 1;
    assert!(!world.apply(observation));
    let records = world.event_log.records();
    assert!(records.len() > SINGLE_ITEM);
    assert!(records.windows(2).all(|pair| pair[0].id < pair[1].id));
    let first_id = records.first().expect("first event").id;
    assert_eq!(world.event_log.after(Some(first_id)).len(), records.len() - SINGLE_ITEM);
}

#[test]
fn degraded_session_returns_empty_until_corrected_new_frame() {
    let mut session = Session::new();
    let first = answer(session.handle(Some(request(&day_observation())), &deadline()));
    assert!(!first.role_command_map.is_empty());
    let mut invalid = day_observation();
    invalid.round_no = MIN_ACTION_ROUNDS + MIN_ACTION_ROUNDS;
    invalid.map_info.width += 1;
    assert!(matches!(session.handle(Some(request(&invalid)), &deadline()), SessionReply::Answer(None)));
    assert_eq!(session.world_state(), WorldState::Degraded);
    let event_count = session.event_count();
    assert!(matches!(session.handle(Some(request(&invalid)), &deadline()), SessionReply::Repeat));
    assert_eq!(session.event_count(), event_count);
    assert!(matches!(session.handle(Some(request(&day_observation())), &deadline()), SessionReply::Refused));
    let mut corrected = day_observation();
    corrected.round_no = MIN_ACTION_ROUNDS + MIN_ACTION_ROUNDS;
    assert!(matches!(session.handle(Some(request(&corrected)), &deadline()), SessionReply::Answer(_)));
    assert_eq!(session.world_state(), WorldState::Ready);
}

#[test]
fn committed_strategy_turn_advances_its_cursor_once() {
    let mut session = Session::new();
    assert_eq!(session.event_cursor(ReaderId::Strategy).next_id(), ZERO_VERSION);
    let observation = day_observation();
    assert!(matches!(session.handle(Some(request(&observation)), &deadline()), SessionReply::Answer(Some(_))));
    let after_first = session.event_cursor(ReaderId::Strategy);
    assert!(after_first.next_id() > ZERO_VERSION);
    assert!(matches!(session.handle(Some(request(&observation)), &deadline()), SessionReply::Repeat));
    assert_eq!(session.event_cursor(ReaderId::Strategy), after_first);
}

#[test]
fn unreadable_request_is_refused() {
    let mut session = Session::new();
    assert!(matches!(session.handle(None, &deadline()), SessionReply::Refused));
    assert_eq!(session.world_state(), WorldState::ColdStart);
}

#[test]
fn earlier_round_and_other_team_are_refused() {
    let mut session = Session::new();
    let mut later = day_observation();
    later.round_no = 5;
    session.handle(Some(request(&later)), &deadline());
    assert!(matches!(session.handle(Some(request(&day_observation())), &deadline()), SessionReply::Refused));
    let mut other = day_observation();
    other.round_no = 6;
    other.team_our.team_id = "team-fire".to_owned();
    assert!(matches!(session.handle(Some(request(&other)), &deadline()), SessionReply::Refused));
}

#[test]
fn decided_reply_keeps_moves_and_builds_on_distinct_cells() {
    let mut session = Session::new();
    let response = answer(session.handle(Some(request(&day_observation())), &deadline()));
    let mut cells: Vec<Pos> = Vec::new();
    for i in 0..response.role_command_map.len() {
        let (_, command) = response.role_command_map.entry_at(i);
        if command.action == "move" || command.action == "build" {
            let pos = command.target_pos.as_ref().expect("target")[0];
            assert!(!cells.contains(&pos), "two commands share {:?}", pos);
            cells.push(pos);
        }
    }
    assert!(!cells.is_empty());
}

#[test]
fn fresh_work_gives_each_unit_its_own_owner() {
    let mut state = DecisionState::default();
    let first = state.start_work(WORKER_ID).expect("fresh owner");
    assert_eq!(state.role_owners.get(&WORKER_ID), Some(&first));
    let second = state.start_work(SECOND_WORKER_ID).expect("fresh owner");
    assert_eq!(state.role_owners.get(&SECOND_WORKER_ID), Some(&second));
    assert_ne!(first.mission(), second.mission());
    let again = state.start_work(WORKER_ID).expect("fresh owner");
    assert_ne!(again.mission(), first.mission());
    assert_eq!(state.role_owners.get(&WORKER_ID), Some(&again));
}

#[test]
fn committing_nothing_succeeds() {
    let observation = day_observation();
    let mut state = DecisionState::default();
    assert!(record_committed(&observation, &[], &mut state).is_ok());
    assert!(state.pending_actions.get(&WORKER_ID).is_none());
}

#[test]
fn defence_hands_each_weapon_to_the_nearest_free_unit() {
    let mut observation = night_observation();
    observation.team_our.roles.push(unit(SECOND_WORKER_ID, 1, 5, "worker"));
    let mut state = DecisionState::default();
    let mut arbiter = Arbiter::new(&observation);
    technetium_battle_bot::ai::tactics::defend(&observation, &mut state, &mut arbiter).expect("defence");
    let accepted = arbiter.accepted();
    assert_eq!(accepted.len(), 1);
    assert_eq!(accepted[0].actor, WEAPON_ID);
    match &accepted[0].action {
        Action::Attack { controller, targets } => {
            assert_eq!(*controller, WORKER_ID);
            assert!(!targets.is_empty());
        },
        other => panic!("expected an attack, got {:?}", other),
    }
}

#[test]
fn reply_holds_exactly_the_accepted_commands() {
    let observation = day_observation();
    let mut arbiter = Arbiter::new(&observation);
    assert!(arbiter.propose(WORKER_ID, Action::Move(site())));
    assert!(!arbiter.propose(WORKER_ID, Action::Move(Pos { x: 2, y: 4 })));
    assert!(!arbiter.propose(SECOND_WORKER_ID, Action::Move(site())));
    let (response, accepted) = arbiter.finish();
    assert_eq!(accepted.len(), 1);
    assert!(response.role_command_map.contains_key(&WORKER_ID));
    assert!(!response.role_command_map.contains_key(&SECOND_WORKER_ID));
    assert!(response.prompt.is_empty());
    assert!(response.execute_cmd.is_empty());
}

#[test]
fn base_risk_does_not_fall_when_a_robot_joins() {
    let observation = night_observation();
    let before = strategy::base_risk(&observation);
    let mut crowded = observation.clone();
    crowded.robot.as_mut().expect("robots").roles.push(role(ROBOT_ID + 1, 3, 6, "largeRobot", 200));
    assert!(strategy::base_risk(&crowded) >= before);
    let mut distant = observation.clone();
    distant.robot.as_mut().expect("robots").roles.push(role(ROBOT_ID + 2, 11, 0, "smallRobot", 50));
    assert!(strategy::base_risk(&distant) >= before);
}
