pub mod cognition;
pub mod individual;
pub mod mission;
mod state;
pub mod strategy;
pub mod tactics;

pub use state::{DecisionError, DecisionState, PreparedAction, owner_failure, proposal_failed, proposal_gate, propose_owned};

use vstd::prelude::*;

use std::time::Instant;

use crate::ai::cognition::PROMPT_PREFIX;
use crate::ai::tactics::defence_order;
use crate::command::{AcceptedAction, Arbiter, commands_apart, legal_command, reporters_apart};
use crate::domain::{ActionView, Command, OwnerError, owner_room, spec_command, spec_reporter};
use crate::fsm::{IndividualState, StrategyState};
use crate::rules::time::{Phase, spec_phase};
use crate::domain::{Observation, Response};
use crate::event::EventRecord;

verus! {

/// The round is spent defending: it is night, or the strategy has called
/// the units back.
pub open spec fn defending(o: Observation, strategy: StrategyState) -> bool {
    spec_phase(o.round_no as int) == Some(Phase::Night) || strategy == StrategyState::PrepareNight
        || strategy == StrategyState::Emergency
}

/// `command` is the one a defence order of `actor` gives.
pub open spec fn defence_command(o: &Observation, actor: i64, command: Command) -> bool {
    exists|action: ActionView| #[trigger] defence_order(o, actor, action) && command.spec_view() == spec_command(action)
}

/// `id` is one of the team's workers or pioneers.
pub open spec fn field_unit(o: &Observation, id: i64) -> bool {
    exists|k: int| 0 <= k < o.team_our.roles@.len() && (#[trigger] o.team_our.roles@[k]).id == id
        && (o.team_our.roles@[k].role_type@ == "worker"@ || o.team_our.roles@[k].role_type@ == "pioneer"@)
}

/// The reply holds exactly the commands of the accepted actions: one for
/// each accepted actor, that of its action, and none for anyone else.
pub open spec fn reply_of(response: Response, accepted: Seq<AcceptedAction>) -> bool {
    &&& forall|k: i64| response.role_command_map.view().contains_key(k)
        <==> exists|i: int| 0 <= i < accepted.len() && #[trigger] accepted[i].actor == k
    &&& forall|i: int| 0 <= i < accepted.len()
        ==> response.role_command_map.view()[#[trigger] accepted[i].actor].spec_view() == spec_command(accepted[i].action@)
}

/// Every accepted action is recorded as sent: its answering unit waits for
/// the result with the action pending.
pub open spec fn awaiting_results(state: DecisionState, accepted: Seq<AcceptedAction>, round: i32) -> bool {
    forall|i: int| 0 <= i < accepted.len() ==> {
        let reporter = #[trigger] spec_reporter(accepted[i].actor, accepted[i].action@);
        &&& state.individuals.view().contains_key(reporter)
        &&& state.individuals.view()[reporter] == IndividualState::WaitingResult
        &&& state.pending_actions.view().contains_key(reporter)
        &&& individual::pending_for(state.pending_actions.view()[reporter], accepted[i], round)
    }
}

/// One round's decision: missions are reconciled with what was observed,
/// the strategy advances, the round's work is handed out and arbitrated,
/// the accepted commands are recorded as pending, and the prompt for the
/// current challenge is attached. Deciding fails only when the owner
/// allocator runs out of identities: with room for one owner per unit of
/// the team and one besides, it always succeeds.
#[verifier::spinoff_prover]
#[verifier::rlimit(30)]
pub fn decide(observation: &Observation, events: &[EventRecord], state: &mut DecisionState, deadline: &Instant) -> (r: Result<Response, DecisionError>)
    requires
        old(state).well_formed(),
    ensures
        final(state).well_formed(),
        crate::ai::mission::history_kept(old(state).registry().records(), final(state).registry().records()),
        (final(state).strategy, final(state).emergency_clear) == strategy::spec_advance(*observation, events@,
            old(state).strategy, old(state).emergency_clear),
        r matches Ok(response) ==> {
            &&& response.role_command_map.well_formed()
            &&& forall|k: i64| #[trigger] response.role_command_map.view().contains_key(k)
                ==> legal_command(observation, k, response.role_command_map.view()[k])
            &&& commands_apart(response.role_command_map.view())
            &&& defending(*observation, final(state).strategy) ==> forall|k: i64|
                #[trigger] response.role_command_map.view().contains_key(k)
                ==> defence_command(observation, k, response.role_command_map.view()[k])
            &&& !defending(*observation, final(state).strategy) ==> forall|k: i64|
                #[trigger] response.role_command_map.view().contains_key(k) ==> field_unit(observation, k)
            &&& observation.phase_task@.len() == 0 ==> response.prompt@.len() == 0
            &&& response.prompt@.len() > 0 ==> response.prompt@ == PROMPT_PREFIX@ + observation.phase_task@
        },
        r matches Ok(response) ==> exists|accepted: Seq<AcceptedAction>| #[trigger] reply_of(response, accepted)
            && awaiting_results(*final(state), accepted, observation.round_no)
            && mission::round_assigned(observation, defending(*observation, final(state).strategy), accepted)
            && reporters_apart(accepted),
        r matches Err(e) ==> e == DecisionError::Owner(OwnerError::IdentitiesExhausted)
            && !owner_room(old(state).owner_allocator, observation.team_our.roles@.len() as int + 1),
        owner_room(old(state).owner_allocator, observation.team_our.roles@.len() as int + 1) ==> r is Ok,
{
    let ghost start = state.registry().records();
    state.reconcile_missions(observation, events);
    let ghost reconciled = state.registry().records();
    state.strategy = strategy::advance(observation, events, state.strategy, &mut state.emergency_clear);
    let mut arbiter = Arbiter::new(observation);
    let assigned = mission::assign(observation, state, &mut arbiter, deadline);
    proof { mission::lemma_history_kept_trans(start, reconciled, state.registry().records()); }
    match assigned {
        Ok(()) => {},
        Err(e) => return Err(e),
    }
    let ghost after_assign = state.registry().records();
    let ghost accepted_actions = arbiter.spec_accepted();
    let (mut response, accepted) = arbiter.finish();
    proof {
        let commands = response.role_command_map.view();
        if defending(*observation, state.strategy) {
            assert forall|k: i64| #[trigger] commands.contains_key(k) implies defence_command(observation, k, commands[k]) by {
                let i = choose|i: int| 0 <= i < accepted_actions.len() && (#[trigger] accepted_actions[i]).actor == k
                    && commands[k].spec_view() == spec_command(accepted_actions[i].action@);
                assert(defence_order(observation, accepted_actions[i].actor, accepted_actions[i].action@));
            }
        } else {
            assert forall|k: i64| #[trigger] commands.contains_key(k) implies field_unit(observation, k) by {
                let i = choose|i: int| 0 <= i < accepted_actions.len() && (#[trigger] accepted_actions[i]).actor == k
                    && commands[k].spec_view() == spec_command(accepted_actions[i].action@);
                assert(accepted_actions[i] == accepted_actions[i]);
            }
        }
    }
    let committed = individual::record_committed(observation, accepted.as_slice(), state);
    proof { mission::lemma_history_kept_trans(start, after_assign, state.registry().records()); }
    match committed {
        Ok(()) => {},
        Err(e) => return Err(e),
    }
    let ghost before_prompt = *state;
    response.prompt = cognition::prepare_prompt(observation, &mut state.challenge);
    proof {
        assert(state.pending_actions == before_prompt.pending_actions);
        assert(state.individuals == before_prompt.individuals);
        assert(reply_of(response, accepted@));
        assert(awaiting_results(*state, accepted@, observation.round_no));
        assert(exists|acc: Seq<AcceptedAction>| #[trigger] reply_of(response, acc) && awaiting_results(*state, acc, observation.round_no));
    }
    let reply: Result<Response, DecisionError> = Ok(response);
    assert(reply is Ok);
    assert(reply->Ok_0 == response);
    assert(reply_of(reply->Ok_0, accepted@));
    assert(mission::round_assigned(observation, defending(*observation, state.strategy), accepted@));
    reply
}

} // verus!
