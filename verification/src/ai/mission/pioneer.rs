use vstd::prelude::*;

use crate::ai::cognition::{answer_action, answer_for, record_submission};
use crate::ai::mission::deadline::challenge_spec;
use crate::ai::mission::economy::{pioneer_max_hp, should_heal, spec_should_heal};
use crate::ai::state::{DecisionError, DecisionState, owners_available, proposal_failed, propose_owned};
use crate::ai::mission::economy::nearer_first;
use crate::ai::tactics::{
    PathResult, lemma_found_distance, lemma_reached_fails, lemma_walk_distance_unique, lemma_walk_fails,
    next_step, too_many_reachable, walk_distance, walk_fails, walk_toward,
};
use crate::collections::{first_where, lemma_first_where_at, lemma_first_where_none};
use crate::ai::cognition::ChallengeMemory;
use crate::ai::mission::{MissionRegistry, offer_outcome};
use crate::command::{AcceptedAction, Arbiter};
use crate::domain::{Action, ActionView, GoalPredicate, MissionSpec, Observation, OwnerError, Pos, Role, alive, allocator_within, owner_room, challenge_terms, goal_eq, is_alive, same_contract, same_except_deadline};
use crate::ai::mission::spec_is_active;
use crate::rules::constants::{ANSWER_MARGIN_ROUNDS, CHALLENGE_SETUP_ROUNDS, NEIGHBOR_RANGE, NO_COOLDOWN, PIONEER_MAX_HP};
use crate::rules::geometry::spec_distance;
use crate::text::str_eq;
use crate::world::view::{WorldView, spec_is_stand, spec_is_task_cell};

verus! {

/// The cells from which `actor` can act on some cell of the task at `task`.
pub open spec fn task_stand_at(o: Observation, task: Pos, actor: i64) -> spec_fn(Pos) -> bool {
    |p: Pos| exists|c: Pos| spec_is_task_cell(&o, task, c) && spec_is_stand(&o, c, actor, p)
}

/// A task that can be taken: valid and off cooldown.
pub open spec fn task_open(o: Observation, i: int) -> bool {
    &&& o.team_our.player_tasks@[i].is_valid == Some(true)
    &&& o.team_our.player_tasks@[i].cold_down_rounds == Some(NO_COOLDOWN)
}

/// The pioneer's walking distance to a cell beside task `i` is `steps`.
pub open spec fn task_distance(o: Observation, pioneer: Role, i: int, steps: int) -> bool {
    walk_distance(&o, pioneer.id, pioneer.pos, task_stand_at(o, o.team_our.player_tasks@[i].task_position, pioneer.id), steps)
}

/// No walk to a cell beside task `i` was found for the pioneer.
pub open spec fn task_walk_fails(o: Observation, pioneer: Role, i: int) -> bool {
    walk_fails(&o, pioneer.id, pioneer.pos, task_stand_at(o, o.team_our.player_tasks@[i].task_position, pioneer.id))
}

/// A walk of `steps` moves leaves time to set up and answer task `i`
/// within its limit.
pub open spec fn steps_in_time(o: Observation, i: int, steps: int) -> bool {
    o.team_our.player_tasks@[i].timeout_rounds matches Some(limit)
        && limit >= CHALLENGE_SETUP_ROUNDS + ANSWER_MARGIN_ROUNDS + steps
}

/// The pioneer can walk to the task and still answer within its time
/// limit.
pub open spec fn task_in_time(o: Observation, pioneer: Role, i: int) -> bool {
    exists|n: int| #[trigger] task_distance(o, pioneer, i, n) && steps_in_time(o, i, n)
}

/// Task `k` can be reached in time and comes no later, by walking steps
/// and then by row and column, than every open task reached in time that
/// a walk was found to.
pub open spec fn task_nearest(o: Observation, pioneer: Role, k: int) -> bool {
    let tasks = o.team_our.player_tasks@;
    exists|nk: int| #[trigger] task_distance(o, pioneer, k, nk) && steps_in_time(o, k, nk)
        && forall|j: int| 0 <= j < tasks.len() && #[trigger] task_open(o, j) ==> task_walk_fails(o, pioneer, j)
            || forall|nj: int| #[trigger] task_distance(o, pioneer, j, nj) && steps_in_time(o, j, nj)
                ==> nearer_first(tasks[k].task_position, nk, tasks[j].task_position, nj)
}

/// No open task can be reached in time.
pub open spec fn no_task_in_time(o: Observation, pioneer: Role) -> bool {
    forall|j: int| 0 <= j < o.team_our.player_tasks@.len() && #[trigger] task_open(o, j)
        ==> task_walk_fails(o, pioneer, j) || forall|nj: int| #[trigger] task_distance(o, pioneer, j, nj) ==> !steps_in_time(o, j, nj)
}

/// The cells beside a task from which `actor` can act on it.
fn stands_beside_task(view: &WorldView, task: Pos, actor: i64) -> (r: Vec<Pos>)
    ensures
        forall|p: Pos| #[trigger] task_stand_at(*view.observation, task, actor)(p) <==> r@.contains(p),
{
    let stands = view.task_stands(task, actor);
    proof {
        let o = view.observation;
        assert forall|p: Pos| #[trigger] task_stand_at(*o, task, actor)(p) <==> stands@.contains(p) by {
            if stands@.contains(p) {
                let i = choose|i: int| 0 <= i < stands@.len() && stands@[i] == p;
                let x = stands@[i];
                assert(exists|c: Pos| spec_is_task_cell(o, task, c) && spec_is_stand(o, c, actor, x));
            }
            if task_stand_at(*o, task, actor)(p) {
                let c = choose|c: Pos| spec_is_task_cell(o, task, c) && spec_is_stand(o, c, actor, p);
                assert(spec_is_task_cell(o, task, c) && spec_is_stand(o, c, actor, p));
            }
        }
    }
    stands
}

/// The task nearest by walking (then by row and column) among the open
/// tasks the pioneer can reach in time: its index.
pub fn choose_task(observation: &Observation, pioneer: &Role) -> (r: Option<usize>)
    ensures
        r matches Some(i) ==> i < observation.team_our.player_tasks@.len() && task_open(*observation, i as int)
            && task_in_time(*observation, *pioneer, i as int) && task_nearest(*observation, *pioneer, i as int),
        r is None ==> no_task_in_time(*observation, *pioneer),
        (forall|i: int| 0 <= i < observation.team_our.player_tasks@.len() ==> !task_open(*observation, i)) ==> r is None,
{
    let ghost o = *observation;
    let ghost w = *pioneer;
    let view = WorldView::new(observation);
    let tasks = &observation.team_our.player_tasks;
    let mut best: Option<(usize, i32)> = None;
    let mut i: usize = 0;
    while i < tasks.len()
        invariant
            view.observation == observation,
            o == *observation,
            w == *pioneer,
            tasks == &observation.team_our.player_tasks,
            i <= tasks@.len(),
            best matches Some((k, ks)) ==> k < tasks@.len() && task_open(o, k as int)
                && task_distance(o, w, k as int, ks as int) && steps_in_time(o, k as int, ks as int)
                && forall|j: int| 0 <= j < i && #[trigger] task_open(o, j) ==> task_walk_fails(o, w, j)
                    || forall|nj: int| #[trigger] task_distance(o, w, j, nj) && steps_in_time(o, j, nj)
                        ==> nearer_first(tasks@[k as int].task_position, ks as int, tasks@[j].task_position, nj),
            best is None ==> forall|j: int| 0 <= j < i && #[trigger] task_open(o, j) ==> task_walk_fails(o, w, j)
                || forall|nj: int| #[trigger] task_distance(o, w, j, nj) ==> !steps_in_time(o, j, nj),
        decreases tasks@.len() - i,
    {
        let task = &tasks[i];
        proof {
            assert(tasks@[i as int] == *task);
        }
        if task.is_valid == Some(true) && task.cold_down_rounds == Some(NO_COOLDOWN) {
            let stands = stands_beside_task(&view, task.task_position, pioneer.id);
            let ghost stand = task_stand_at(o, task.task_position, pioneer.id);
            match next_step(&view, pioneer.id, pioneer.pos, stands.as_slice()) {
                Some(path) => {
                    proof {
                        lemma_found_distance(observation, pioneer.id, pioneer.pos, stands@, stand, path);
                        assert(task_distance(o, w, i as int, path.steps as int));
                        assert forall|nj: int| #[trigger] task_distance(o, w, i as int, nj) implies nj == path.steps by {
                            lemma_walk_distance_unique(observation, pioneer.id, pioneer.pos, stand, nj, path.steps as int);
                        }
                    }
                    let needed: i64 = CHALLENGE_SETUP_ROUNDS as i64 + ANSWER_MARGIN_ROUNDS as i64 + path.steps as i64;
                    let in_time = match task.timeout_rounds {
                        Some(limit) => limit as i64 >= needed,
                        None => false,
                    };
                    if in_time {
                        let better = match best {
                            None => true,
                            Some((k, steps)) => path.steps < steps || (path.steps == steps
                                && (task.task_position.y < tasks[k].task_position.y
                                    || (task.task_position.y == tasks[k].task_position.y
                                        && task.task_position.x < tasks[k].task_position.x))),
                        };
                        proof {
                            if let Some((k, ks)) = best {
                                if !better {
                                    assert(nearer_first(tasks@[k as int].task_position, ks as int, task.task_position, path.steps as int));
                                }
                            }
                        }
                        if better {
                            best = Some((i, path.steps));
                        }
                    }
                },
                None => {
                    proof {
                        lemma_walk_fails(observation, pioneer.id, pioneer.pos, stands@, stand);
                    }
                },
            }
        }
        i = i + 1;
    }
    match best {
        Some((k, ks)) => {
            proof {
                assert(task_in_time(o, w, k as int));
                assert(task_nearest(o, w, k as int));
            }
            Some(k)
        },
        None => None,
    }
}

/// The pioneer's step for a task: accepting it from beside one of its
/// cells, or a move along a shortest walk to such a cell.
pub open spec fn task_step(o: Observation, pioneer: Role, i: int, a: ActionView) -> bool {
    let task = o.team_our.player_tasks@[i].task_position;
    if exists|c: Pos| spec_is_task_cell(&o, task, c) && spec_distance(pioneer.pos, c) <= NEIGHBOR_RANGE {
        a == ActionView::AcceptTask
    } else {
        a matches ActionView::Move(p) && exists|r: PathResult| #[trigger] walk_toward(&o, pioneer.id, pioneer.pos,
            task_stand_at(o, task, pioneer.id), r) && r.next == p && task_distance(o, pioneer, i, r.steps as int)
    }
}

/// What the pioneer does, and the time limit of the task it works for:
/// medicine when it needs healing; during a challenge, the model's answer
/// when one is due; otherwise the best task is accepted or approached.
pub fn choose_action(observation: &Observation, pioneer: &Role, memory: &crate::ai::cognition::ChallengeMemory) -> (r: Option<(Action, Option<i32>)>)
    ensures
        spec_should_heal(*pioneer, PIONEER_MAX_HP as int) ==> (r matches Some((a, t))
            && a@ == (ActionView::Use { name: "Medicine"@, pos: None }) && t is None),
        !spec_should_heal(*pioneer, PIONEER_MAX_HP as int) && observation.phase_task@.len() > 0 ==> ({
            &&& r matches Some((a, t)) ==> t is None && (a@ matches ActionView::SubmitAnswer(answer)
                && answer_for(*observation, *memory, answer))
            &&& r is None ==> forall|answer: Seq<char>| !answer_for(*observation, *memory, answer)
        }),
        !spec_should_heal(*pioneer, PIONEER_MAX_HP as int) && observation.phase_task@.len() == 0 ==> (r matches Some((a, t))
            ==> exists|i: int| 0 <= i < observation.team_our.player_tasks@.len() && task_open(*observation, i)
                && task_in_time(*observation, *pioneer, i)
                && t == (#[trigger] observation.team_our.player_tasks@[i]).timeout_rounds
                && task_nearest(*observation, *pioneer, i)
                && task_step(*observation, *pioneer, i, a@)),
        !spec_should_heal(*pioneer, PIONEER_MAX_HP as int) && observation.phase_task@.len() == 0 && r is None
            ==> no_task_in_time(*observation, *pioneer) || too_many_reachable(observation, pioneer.id, pioneer.pos),
{
    if should_heal(pioneer, pioneer_max_hp()) {
        return Some((Action::Use { name: "Medicine".to_string(), pos: None }, None));
    }
    if observation.phase_task.as_str().unicode_len() > 0 {
        return match answer_action(observation, memory) {
            Some(a) => Some((a, None)),
            None => None,
        };
    }
    let view = WorldView::new(observation);
    let k = match choose_task(observation, pioneer) {
        Some(k) => k,
        None => return None,
    };
    let task = &observation.team_our.player_tasks[k];
    if view.adjacent_task(pioneer.pos, task.task_position) {
        return Some((Action::AcceptTask, task.timeout_rounds));
    }
    let stands = stands_beside_task(&view, task.task_position, pioneer.id);
    let ghost stand = task_stand_at(*observation, task.task_position, pioneer.id);
    match next_step(&view, pioneer.id, pioneer.pos, stands.as_slice()) {
        Some(path) => {
            proof {
                lemma_found_distance(observation, pioneer.id, pioneer.pos, stands@, stand, path);
            }
            Some((Action::Move(path.next), task.timeout_rounds))
        },
        None => {
            proof {
                lemma_walk_fails(observation, pioneer.id, pioneer.pos, stands@, stand);
                let n = choose|n: int| #[trigger] task_distance(*observation, *pioneer, k as int, n)
                    && steps_in_time(*observation, k as int, n);
                lemma_reached_fails(observation, pioneer.id, pioneer.pos, stand, n);
            }
            None
        },
    }
}

/// Whether a role is the pioneer.
pub open spec fn is_pioneer(r: Role) -> bool {
    r.role_type@ == "pioneer"@
}

pub open spec fn pioneer_pred() -> spec_fn(Role) -> bool {
    |r: Role| is_pioneer(r)
}

/// The team's first pioneer.
pub open spec fn spec_pioneer(o: Observation) -> Option<Role> {
    first_where(o.team_our.roles@, pioneer_pred())
}

/// The first pioneer is a pioneer of the team.
pub proof fn lemma_pioneer_on_team(o: Observation)
    requires
        spec_pioneer(o) is Some,
    ensures
        exists|k: int| 0 <= k < o.team_our.roles@.len() && o.team_our.roles@[k] == spec_pioneer(o)->0
            && (#[trigger] o.team_our.roles@[k]).role_type@ == "pioneer"@,
{
    let k = choose|k: int| crate::collections::is_first(o.team_our.roles@, pioneer_pred(), k);
    lemma_first_where_at(o.team_our.roles@, pioneer_pred(), k);
}

fn find_pioneer(observation: &Observation) -> (r: Option<usize>)
    ensures
        match spec_pioneer(*observation) {
            Some(p) => r matches Some(i) && i < observation.team_our.roles@.len() && observation.team_our.roles@[i as int] == p,
            None => r is None,
        },
{
    let roles = &observation.team_our.roles;
    let ghost p = pioneer_pred();
    let mut i: usize = 0;
    while i < roles.len()
        invariant
            roles == &observation.team_our.roles,
            i <= roles@.len(),
            p == pioneer_pred(),
            forall|j: int| 0 <= j < i ==> !p(#[trigger] roles@[j]),
        decreases roles@.len() - i,
    {
        if str_eq(roles[i].role_type.as_str(), "pioneer") {
            proof { lemma_first_where_at(roles@, p, i as int); }
            return Some(i);
        }
        i = i + 1;
    }
    proof { lemma_first_where_none(roles@, p); }
    None
}

/// What the pioneer's choice may be: healing when it should; with a
/// challenge open, an answer to it (nothing when it has none); otherwise
/// the step toward the nearest open task it can reach in time, with that
/// task's timeout (nothing when no task can be reached in time).
pub open spec fn pioneer_choice(o: Observation, pioneer: Role, memory: ChallengeMemory, choice: Option<(ActionView, Option<i32>)>) -> bool {
    &&& spec_should_heal(pioneer, PIONEER_MAX_HP as int) ==> (choice matches Some(c)
        && c.0 == (ActionView::Use { name: "Medicine"@, pos: None }) && c.1 is None)
    &&& !spec_should_heal(pioneer, PIONEER_MAX_HP as int) && o.phase_task@.len() > 0 ==> ({
        &&& choice matches Some(c) ==> c.1 is None && (c.0 matches ActionView::SubmitAnswer(answer) && answer_for(o, memory, answer))
        &&& choice is None ==> forall|answer: Seq<char>| !answer_for(o, memory, answer)
    })
    &&& !spec_should_heal(pioneer, PIONEER_MAX_HP as int) && o.phase_task@.len() == 0 ==> (choice matches Some(c)
        ==> exists|i: int| 0 <= i < o.team_our.player_tasks@.len() && task_open(o, i)
            && task_in_time(o, pioneer, i)
            && c.1 == (#[trigger] o.team_our.player_tasks@[i]).timeout_rounds
            && task_nearest(o, pioneer, i)
            && task_step(o, pioneer, i, c.0))
    &&& !spec_should_heal(pioneer, PIONEER_MAX_HP as int) && o.phase_task@.len() == 0 && choice is None
        ==> no_task_in_time(o, pioneer) || too_many_reachable(&o, pioneer.id, pioneer.pos)
}

/// The pioneer's turn: a live pioneer's choice is offered under a challenge
/// contract as `offer_outcome` says; otherwise nothing happens.
pub open spec fn pioneer_turn(o: Observation, registry: MissionRegistry, judged: &Observation, before: Seq<AcceptedAction>,
    after: Seq<AcceptedAction>, ok: bool) -> bool
{
    if spec_pioneer(o) is Some && is_alive(spec_pioneer(o)->0) {
        let p = spec_pioneer(o)->0;
        exists|memory: ChallengeMemory, choice: Option<(ActionView, Option<i32>)>| #[trigger] pioneer_choice(o, p, memory, choice) && {
            ||| choice is None && offer_outcome(o, registry, judged, p.id, None, before, after, ok)
            ||| choice is Some && exists|spec: MissionSpec| #[trigger] challenge_terms(spec)
                && offer_outcome(o, registry, judged, p.id, Some((spec, (choice->0).0)), before, after, ok)
        }
    } else {
        after == before && ok
    }
}

/// The pioneer's work this round: its chosen action is offered under a
/// challenge contract, which keeps the deadline of the challenge it already
/// runs; an accepted answer is remembered as submitted.
pub fn assign(observation: &Observation, state: &mut DecisionState, arbiter: &mut Arbiter) -> (r: Result<(), DecisionError>)
    requires
        old(state).well_formed(),
        old(arbiter).well_formed(),
        old(arbiter).spec_reserved_weapons() < usize::MAX,
    ensures
        final(state).strategy == old(state).strategy,
        final(state).emergency_clear == old(state).emergency_clear,
        final(state).well_formed(),
        final(arbiter).well_formed(),
        final(arbiter).spec_observation() == old(arbiter).spec_observation(),
        crate::ai::mission::history_kept(old(state).registry().records(), final(state).registry().records()),
        !(spec_pioneer(*observation) matches Some(p) && is_alive(p)) ==> *final(state) == *old(state) && *final(arbiter) == *old(arbiter) && r is Ok,
        pioneer_turn(*observation, old(state).registry(), old(arbiter).spec_observation(), old(arbiter).spec_accepted(),
            final(arbiter).spec_accepted(), r is Ok),
        r is Err ==> !owners_available(*old(state)) || final(arbiter).spec_accepted().len() == old(arbiter).spec_accepted().len() + 1,
        r matches Err(e) ==> proposal_failed(e, final(arbiter).spec_accepted().len() == old(arbiter).spec_accepted().len() + 1),
        (spec_pioneer(*observation) matches Some(p) && {
            let registry = old(state).registry();
            let m = registry.active()[p.id];
            &&& r is Ok
            &&& final(arbiter).spec_accepted().len() == old(arbiter).spec_accepted().len() + 1
            &&& registry.active().contains_key(p.id)
            &&& challenge_terms(registry.records()[m].spec)
            &&& old(state).active_owners.spec_is_current(registry.records()[m].owner)
        }) ==> ({
            let p = spec_pioneer(*observation)->0;
            let registry = old(state).registry();
            let m = registry.active()[p.id];
            &&& final(state).role_owners.view()[p.id].spec_mission() == registry.records()[m].owner.spec_mission()
            &&& final(state).registry().records()[m].spec == registry.records()[m].spec
        }),
        *final(arbiter) == *old(arbiter) || (spec_pioneer(*observation) matches Some(p) && {
            &&& final(arbiter).spec_accepted().drop_last() == old(arbiter).spec_accepted()
            &&& final(arbiter).spec_accepted().len() == old(arbiter).spec_accepted().len() + 1
            &&& final(arbiter).spec_accepted().last().actor == p.id
            &&& final(arbiter).spec_accepted().last().owner is Some
        }),
        allocator_within(old(state).owner_allocator, final(state).owner_allocator, 1),
        r matches Err(e) ==> e == DecisionError::Owner(OwnerError::IdentitiesExhausted) && !owner_room(old(state).owner_allocator, 1),
{
    let k = match find_pioneer(observation) {
        Some(k) => k,
        None => return Ok(()),
    };
    let pioneer = &observation.team_our.roles[k];
    if !alive(pioneer) {
        return Ok(());
    }
    let chosen = choose_action(observation, pioneer, &state.challenge);
    let ghost lifted: Option<(ActionView, Option<i32>)> = if chosen is Some { Some(((chosen->0).0@, (chosen->0).1)) } else { None };
    proof {
        assert(observation.team_our.roles@[k as int] == spec_pioneer(*observation)->0);
        assert(pioneer_choice(*observation, *pioneer, state.challenge, lifted));
    }
    let (action, timeout) = match chosen {
        Some(choice) => choice,
        None => {
            proof {
                assert(lifted is None);
                assert(spec_pioneer(*observation)->0 == *pioneer);
                assert(pioneer_choice(*observation, spec_pioneer(*observation)->0, state.challenge, lifted));
                assert(spec_pioneer(*observation) is Some && is_alive(spec_pioneer(*observation)->0));
                assert(offer_outcome(*observation, old(state).registry(), old(arbiter).spec_observation(), pioneer.id, None,
                    old(arbiter).spec_accepted(), arbiter.spec_accepted(), true));
                assert(pioneer_turn(*observation, old(state).registry(), old(arbiter).spec_observation(), old(arbiter).spec_accepted(),
                    arbiter.spec_accepted(), true));
            }
            return Ok(());
        },
    };
    proof { crate::command::lemma_valid_after(*arbiter, pioneer.id, action@); }
    let submitted = match &action {
        Action::SubmitAnswer(_) => true,
        _ => false,
    };
    let fresh = challenge_spec(observation, timeout);
    let spec = match state.mission_registry.live_spec(pioneer.id, &fresh) {
        Some(live) => live,
        None => fresh,
    };
    proof {
        let registry = state.registry();
        if registry.active().contains_key(pioneer.id) && challenge_terms(registry.records()[registry.active()[pioneer.id]].spec) {
            let rec = registry.records()[registry.active()[pioneer.id]].spec;
            registry.lemma_well_formed();
            assert(spec_is_active(registry.records()[registry.active()[pioneer.id]].state));
            assert(same_except_deadline(rec, fresh));
            assert(same_contract(spec, rec));
            assert(goal_eq(spec.spec_goal(), GoalPredicate::ChallengeResolved));
            assert(spec.spec_goal() == GoalPredicate::ChallengeResolved);
            assert(same_contract(rec, spec));
        }
        if spec != fresh {
            let rec = registry.records()[registry.active()[pioneer.id]].spec;
            assert(same_except_deadline(rec, fresh));
            assert(rec.spec_goal() == GoalPredicate::ChallengeResolved);
            assert(spec.spec_goal() == GoalPredicate::ChallengeResolved);
        }
        assert(challenge_terms(spec));
    }
    let ghost the_spec = spec;
    let ghost judged_before = arbiter.spec_accepted();
    let accepted = propose_owned(observation, state, arbiter, pioneer.id, action, spec)?;
    proof {
        assert(offer_outcome(*observation, old(state).registry(), old(arbiter).spec_observation(), pioneer.id, Some((the_spec, action@)),
            old(arbiter).spec_accepted(), arbiter.spec_accepted(), true));
        assert(pioneer_turn(*observation, old(state).registry(), old(arbiter).spec_observation(), old(arbiter).spec_accepted(),
            arbiter.spec_accepted(), true));
    }
    if accepted && submitted {
        let ghost before = *state;
        record_submission(observation, &mut state.challenge);
        proof {
            assert(state.registry() == before.registry());
        }
    }
    Ok(())
}

} // verus!
