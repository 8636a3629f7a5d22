use vstd::prelude::*;

use std::time::Instant;

use crate::ai::{DecisionError, DecisionState, awaiting_results, decide, defending, individual, reply_of};
use crate::ai::mission::round_assigned;
use crate::clock::{current_instant, instant_passed};
use crate::command::{AcceptedAction, commands_apart, legal_command, reporters_apart};
use crate::domain::{Observation, OwnerAllocator, OwnerError, Response, owner_room};
use crate::event::{EventCursor, EventInbox, EventLog, EventRecord, ReaderId};
use crate::fsm::WorldState;
use crate::protocol::DecodedRequest;
use crate::text::str_eq;
use crate::world::{World, frame_applied};

verus! {

/// What to send back for a request.
pub enum SessionReply {
    /// Not an answer to the frame: the empty response, not remembered.
    Refused,
    /// The same frame again: the reply sent for it before.
    Repeat,
    /// The answer to a new frame, to be remembered as its reply; `None`
    /// answers with the empty response.
    Answer(Option<Response>),
}

/// One match as the judge plays it: the world, the decisions, and what was
/// last answered.
pub struct Session {
    world: World,
    decision: DecisionState,
    last_round: Option<i32>,
    last_team: Option<String>,
    last_key: Option<String>,
}

impl Default for Session {
    fn default() -> (r: Self)
        ensures
            r.well_formed(),
            r.spec_last_round() is None,
            r.spec_world().state == WorldState::ColdStart,
    {
        Session::new()
    }
}

/// The reply the session owes a request, before the world is touched:
/// refused, repeated, or to be decided.
pub enum Triage {
    Refuse,
    Repeat,
    Decide,
}

/// A frame of the round last answered: the same text gets the same reply;
/// another text is refused, unless the world is degraded and waits for a
/// corrected frame. A frame of an earlier round, or of another team, is
/// refused; any other is decided.
pub open spec fn spec_triage(last_round: Option<i32>, last_key: Option<Seq<char>>, last_team: Option<Seq<char>>,
    degraded: bool, round: i32, key: Seq<char>, team: Seq<char>) -> Triage {
    if last_round == Some(round) {
        if last_key == Some(key) {
            Triage::Repeat
        } else if degraded {
            Triage::Decide
        } else {
            Triage::Refuse
        }
    } else if last_round matches Some(last) && round <= last {
        Triage::Refuse
    } else if last_team matches Some(t) && t != team {
        Triage::Refuse
    } else {
        Triage::Decide
    }
}

pub open spec fn opt_view(s: Option<String>) -> Option<Seq<char>> {
    match s {
        Some(v) => Some(v@),
        None => None,
    }
}

/// The answer to a decided round: empty when the decision failed or came
/// after the deadline, the decision otherwise.
pub open spec fn concluded(planned: Result<Response, DecisionError>, late: bool) -> SessionReply {
    match planned {
        Ok(response) => if late { SessionReply::Answer(None) } else { SessionReply::Answer(Some(response)) },
        Err(_) => SessionReply::Answer(None),
    }
}

/// What a round's decision gives, as deciding promises it: a reply made of
/// exactly the commands of the actions the round's assignment accepted,
/// no unit answering for two of them, each legal in the frame, no two
/// clashing, each accepted action pending in the decision state; or, only when `allocator` (the owner allocator
/// the round was decided from) cannot hand out one more owner per unit of
/// the team and one besides, the failure to draft owners.
pub open spec fn decision_outcome(state: DecisionState, o: Observation, planned: Result<Response, DecisionError>,
    allocator: OwnerAllocator) -> bool
{
    match planned {
        Ok(response) => {
            &&& exists|accepted: Seq<AcceptedAction>| #[trigger] reply_of(response, accepted)
                && awaiting_results(state, accepted, o.round_no)
                && round_assigned(&o, defending(o, state.strategy), accepted)
                && reporters_apart(accepted)
            &&& forall|k: i64| #[trigger] response.role_command_map.view().contains_key(k)
                ==> legal_command(&o, k, response.role_command_map.view()[k])
            &&& commands_apart(response.role_command_map.view())
        },
        Err(e) => e == DecisionError::Owner(OwnerError::IdentitiesExhausted)
            && !owner_room(allocator, o.team_our.roles@.len() as int + 1),
    }
}

/// The strategy reader has taken the events logged so far: its cursor
/// stands after the last of those it had not yet taken, and no other
/// reader moved.
pub open spec fn strategy_caught_up(before: EventInbox, after: EventInbox, log: EventLog) -> bool {
    let fresh = log.spec_records().filter(|rec: EventRecord| rec.id >= before.spec_cursor(ReaderId::Strategy).spec_next_id());
    &&& after.spec_cursor(ReaderId::Strategy).spec_next_id() == (if fresh.len() > 0 {
        fresh.last().id + 1
    } else {
        before.spec_cursor(ReaderId::Strategy).spec_next_id() as int
    })
    &&& forall|other: ReaderId| other != ReaderId::Strategy ==> after.spec_cursor(other) == before.spec_cursor(other)
}

impl Session {
    pub closed spec fn well_formed(&self) -> bool {
        &&& self.world.well_formed()
        &&& self.decision.well_formed()
    }

    pub closed spec fn spec_world(&self) -> World {
        self.world
    }

    pub closed spec fn spec_decision(&self) -> DecisionState {
        self.decision
    }

    pub closed spec fn spec_last_round(&self) -> Option<i32> {
        self.last_round
    }

    pub closed spec fn spec_last_key(&self) -> Option<Seq<char>> {
        opt_view(self.last_key)
    }

    pub closed spec fn spec_last_team(&self) -> Option<Seq<char>> {
        opt_view(self.last_team)
    }

    pub fn new() -> (r: Self)
        ensures
            r.well_formed(),
            r.spec_last_round() is None,
            r.spec_world().state == WorldState::ColdStart,
    {
        Session {
            world: World::default(),
            decision: DecisionState::default(),
            last_round: None,
            last_team: None,
            last_key: None,
        }
    }

    /// The world's lifecycle state.
    pub fn world_state(&self) -> (r: WorldState)
        ensures
            r == self.spec_world().state,
    {
        self.world.state
    }

    /// Where a reader of the world's events stands.
    pub fn event_cursor(&self, reader: ReaderId) -> (r: EventCursor)
        ensures
            r == self.spec_decision().event_inbox.spec_cursor(reader),
    {
        self.decision.event_inbox.cursor(reader)
    }

    /// How many events the world's log holds.
    pub fn event_count(&self) -> (r: usize)
        ensures
            r == self.spec_world().event_log.spec_records().len(),
    {
        self.world.event_log.records().len()
    }

    fn same_text(a: &Option<String>, b: &str) -> (r: bool)
        ensures
            r == (opt_view(*a) == Some(b@)),
    {
        match a {
            Some(s) => str_eq(s.as_str(), b),
            None => false,
        }
    }

    fn triage(&self, request: &DecodedRequest) -> (r: Triage)
        ensures
            r == spec_triage(self.spec_last_round(), self.spec_last_key(), self.spec_last_team(),
                self.spec_world().state == WorldState::Degraded, request.observation.round_no,
                request.canonical_key@, request.observation.team_our.team_id@),
    {
        let round = request.observation.round_no;
        if self.last_round == Some(round) {
            if Self::same_text(&self.last_key, request.canonical_key.as_str()) {
                return Triage::Repeat;
            }
            if self.world.state == WorldState::Degraded {
                return Triage::Decide;
            }
            return Triage::Refuse;
        }
        match self.last_round {
            Some(last) => if round <= last {
                return Triage::Refuse;
            },
            None => {},
        }
        match &self.last_team {
            Some(team) => if !str_eq(team.as_str(), request.observation.team_our.team_id.as_str()) {
                return Triage::Refuse;
            },
            None => {},
        }
        Triage::Decide
    }

    /// Sends the answer to a decided round: nothing when the decision failed
    /// or the answer is late; otherwise the decision, after the strategy
    /// reader has taken the events logged so far.
    pub fn conclude(&mut self, planned: Result<Response, DecisionError>, late: bool) -> (r: SessionReply)
        requires
            old(self).well_formed(),
        ensures
            final(self).well_formed(),
            r == concluded(planned, late),
            final(self).spec_world() == old(self).spec_world(),
            final(self).spec_last_round() == old(self).spec_last_round(),
            final(self).spec_last_key() == old(self).spec_last_key(),
            final(self).spec_last_team() == old(self).spec_last_team(),
            final(self).spec_decision() == (DecisionState { event_inbox: final(self).spec_decision().event_inbox, ..old(self).spec_decision() }),
            late || (planned is Err) ==> *final(self) == *old(self),
            !late && (planned is Ok) ==> strategy_caught_up(old(self).spec_decision().event_inbox,
                final(self).spec_decision().event_inbox, old(self).spec_world().event_log),
    {
        match planned {
            Ok(response) => if late {
                SessionReply::Answer(None)
            } else {
                let batch = self.decision.event_inbox.poll(ReaderId::Strategy, &self.world.event_log);
                let _ = self.decision.event_inbox.acknowledge(batch.receipt());
                SessionReply::Answer(Some(response))
            },
            Err(_) => SessionReply::Answer(None),
        }
    }

    /// Answers one request. An unreadable request is refused; a request is
    /// refused, repeated or decided as `spec_triage` says. Deciding takes
    /// the frame into the world and remembers its round and text; a frame
    /// the world cannot take is answered empty; otherwise the results of
    /// the last actions are reconciled, the round is decided, and the
    /// decision is the answer unless it failed or came after the deadline.
    /// The round is decided on the session's own decision state, so what
    /// deciding changed stays there even when the answer is dropped.
    pub fn handle(&mut self, request: Option<DecodedRequest>, deadline: &Instant) -> (r: SessionReply)
        requires
            old(self).well_formed(),
        ensures
            final(self).well_formed(),
            request is None ==> r is Refused && *final(self) == *old(self),
            request matches Some(q) ==> match spec_triage(old(self).spec_last_round(), old(self).spec_last_key(),
                old(self).spec_last_team(), old(self).spec_world().state == WorldState::Degraded, q.observation.round_no,
                q.canonical_key@, q.observation.team_our.team_id@) {
                Triage::Refuse => r is Refused && *final(self) == *old(self),
                Triage::Repeat => r is Repeat && *final(self) == *old(self),
                Triage::Decide => {
                    &&& r is Answer
                    &&& final(self).spec_last_round() == Some(q.observation.round_no)
                    &&& final(self).spec_last_key() == Some(q.canonical_key@)
                    &&& frame_applied(old(self).spec_world(), final(self).spec_world(), q.observation)
                    &&& (final(self).spec_world().state == WorldState::Degraded ==> r == SessionReply::Answer(None)
                        && final(self).spec_decision() == old(self).spec_decision())
                    &&& (final(self).spec_world().state != WorldState::Degraded ==> exists|planned: Result<Response, DecisionError>, late: bool|
                        #[trigger] concluded(planned, late) == r && decision_outcome(final(self).spec_decision(), q.observation, planned,
                            old(self).spec_decision().owner_allocator))
                    &&& r matches SessionReply::Answer(Some(response)) ==> commands_apart(response.role_command_map.view())
                        && forall|k: i64| #[trigger] response.role_command_map.view().contains_key(k)
                            ==> legal_command(&q.observation, k, response.role_command_map.view()[k])
                },
            },
    {
        let request = match request {
            Some(q) => q,
            None => return SessionReply::Refused,
        };
        match self.triage(&request) {
            Triage::Refuse => return SessionReply::Refused,
            Triage::Repeat => return SessionReply::Repeat,
            Triage::Decide => {},
        }
        let round = request.observation.round_no;
        let first_new = self.world.event_log.next_record_id();
        let ghost frame = request.observation;
        let applied = self.world.apply(request.observation);
        self.last_round = Some(round);
        self.last_key = Some(request.canonical_key);
        if !applied {
            return SessionReply::Answer(None);
        }
        let observation = match &self.world.observation {
            Some(o) => o,
            None => return SessionReply::Answer(None),
        };
        let records = if first_new == 0 {
            self.world.event_log.after(None)
        } else {
            self.world.event_log.after(Some(first_new - 1))
        };
        let reports = individual::reconcile(observation, &mut self.decision);
        self.decision.reports = reports;
        let planned = decide(observation, records.as_slice(), &mut self.decision, deadline);
        self.last_team = Some(observation.team_our.team_id.clone());
        let ghost decided = self.decision;
        let now = current_instant();
        let late = instant_passed(&now, deadline);
        let reply = self.conclude(planned, late);
        proof {
            assert(self.decision.pending_actions == decided.pending_actions);
            assert(self.decision.individuals == decided.individuals);
            assert(decision_outcome(decided, frame, planned, old(self).spec_decision().owner_allocator));
            assert(decision_outcome(self.decision, frame, planned, old(self).spec_decision().owner_allocator));
        }
        reply
    }
}

} // verus!
