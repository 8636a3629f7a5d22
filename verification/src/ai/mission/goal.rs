use vstd::prelude::*;

use crate::collections::{first_where, is_first, lemma_first_exists, lemma_first_where_at, lemma_first_where_none};
use crate::domain::{GoalPredicate, Observation, Pos, Role};
use crate::event::{EventRecord, WorldEvent};
use crate::rules::constants::NO_HEALTH;
use crate::rules::time::Phase;
use crate::text::str_eq;

verus! {

/// What shows that a goal was reached: an entity seen in a frame, or a
/// logged event, each with the round it was observed in.
#[derive(Clone, Copy, Debug, PartialEq, Eq, Structural, PartialOrd, Ord)]
pub enum GoalEvidence {
    EntityObserved { entity: i64, observed_round: i32 },
    EventObserved { event: u64, observed_round: i32 },
}

impl GoalEvidence {
    pub open spec fn spec_observed_round(self) -> i32 {
        match self {
            GoalEvidence::EntityObserved { observed_round, .. } => observed_round,
            GoalEvidence::EventObserved { observed_round, .. } => observed_round,
        }
    }

    /// The round the evidence was observed in.
    pub fn observed_round(self) -> (r: i32)
        ensures
            r == self.spec_observed_round(),
    {
        match self {
            GoalEvidence::EntityObserved { observed_round, .. } => observed_round,
            GoalEvidence::EventObserved { observed_round, .. } => observed_round,
        }
    }
}

/// The order evidence is kept in: entities before events, then by id, then
/// by round.
pub open spec fn evidence_lt(a: GoalEvidence, b: GoalEvidence) -> bool {
    match (a, b) {
        (GoalEvidence::EntityObserved { entity: e1, observed_round: r1 }, GoalEvidence::EntityObserved { entity: e2, observed_round: r2 }) =>
            e1 < e2 || (e1 == e2 && r1 < r2),
        (GoalEvidence::EntityObserved { .. }, GoalEvidence::EventObserved { .. }) => true,
        (GoalEvidence::EventObserved { .. }, GoalEvidence::EntityObserved { .. }) => false,
        (GoalEvidence::EventObserved { event: v1, observed_round: r1 }, GoalEvidence::EventObserved { event: v2, observed_round: r2 }) =>
            v1 < v2 || (v1 == v2 && r1 < r2),
    }
}

/// Strictly increasing in the evidence order, hence free of repeats.
pub open spec fn evidence_sorted(s: Seq<GoalEvidence>) -> bool {
    forall|i: int, j: int| 0 <= i < j < s.len() ==> evidence_lt(#[trigger] s[i], #[trigger] s[j])
}

fn evidence_less(a: GoalEvidence, b: GoalEvidence) -> (r: bool)
    ensures
        r == evidence_lt(a, b),
{
    match (a, b) {
        (GoalEvidence::EntityObserved { entity: e1, observed_round: r1 }, GoalEvidence::EntityObserved { entity: e2, observed_round: r2 }) =>
            e1 < e2 || (e1 == e2 && r1 < r2),
        (GoalEvidence::EntityObserved { .. }, GoalEvidence::EventObserved { .. }) => true,
        (GoalEvidence::EventObserved { .. }, GoalEvidence::EntityObserved { .. }) => false,
        (GoalEvidence::EventObserved { event: v1, observed_round: r1 }, GoalEvidence::EventObserved { event: v2, observed_round: r2 }) =>
            v1 < v2 || (v1 == v2 && r1 < r2),
    }
}

pub proof fn lemma_evidence_order(a: GoalEvidence, b: GoalEvidence, c: GoalEvidence)
    ensures
        !evidence_lt(a, a),
        evidence_lt(a, b) && evidence_lt(b, c) ==> evidence_lt(a, c),
        !evidence_lt(a, b) && !evidence_lt(b, a) ==> a == b,
        evidence_lt(a, b) ==> !evidence_lt(b, a),
{
}

/// A one-element list holds exactly that element.
pub proof fn lemma_single_evidence(e: GoalEvidence)
    ensures
        seq![e].to_set() == set![e],
        evidence_sorted(seq![e]),
{
    assert forall|x: GoalEvidence| seq![e].to_set().contains(x) <==> set![e].contains(x) by {
        if x == e {
            assert(seq![e][0] == e);
        }
    }
    assert(seq![e].to_set() =~= set![e]);
}

/// Adds an item to a sorted evidence list unless it is already there.
pub fn add_evidence(evidence: &mut Vec<GoalEvidence>, item: GoalEvidence)
    requires
        evidence_sorted(old(evidence)@),
    ensures
        evidence_sorted(final(evidence)@),
        final(evidence)@.to_set() == old(evidence)@.to_set().insert(item),
        old(evidence)@.contains(item) ==> final(evidence)@ == old(evidence)@,
{
    let ghost before = evidence@;
    let mut i: usize = 0;
    let mut place = false;
    while i < evidence.len() && !place
        invariant
            evidence@ == before,
            i <= before.len(),
            evidence_sorted(before),
            forall|j: int| 0 <= j < i ==> evidence_lt(#[trigger] before[j], item),
            place ==> i < before.len() && evidence_lt(item, before[i as int]),
            !place ==> forall|j: int| 0 <= j < i ==> evidence_lt(#[trigger] before[j], item),
        decreases before.len() - i + (if place { 0int } else { 1int }),
    {
        if evidence[i] == item {
            assert(before[i as int] == item);
            assert(before.to_set().insert(item) =~= before.to_set());
            return;
        }
        if evidence_less(item, evidence[i]) {
            place = true;
        } else {
            proof { lemma_evidence_order(item, before[i as int], item); }
            i = i + 1;
        }
    }
    proof {
        if before.contains(item) {
            let k = choose|k: int| 0 <= k < before.len() && before[k] == item;
            lemma_evidence_order(item, item, item);
            if k < i {
                assert(evidence_lt(before[k], item));
            } else {
                assert(place);
                if k > i {
                    lemma_evidence_order(item, before[i as int], before[k]);
                }
            }
        }
    }
    evidence.insert(i, item);
    proof {
        let after = evidence@;
        assert(after =~= before.insert(i as int, item));
        assert forall|a: int, b: int| 0 <= a < b < after.len() implies evidence_lt(#[trigger] after[a], #[trigger] after[b]) by {
            if b < i {
                assert(after[a] == before[a] && after[b] == before[b]);
            } else if a > i {
                assert(after[a] == before[a - 1] && after[b] == before[b - 1]);
            } else if a == i {
                assert(after[b] == before[b - 1]);
                if b - 1 > i {
                    lemma_evidence_order(item, before[i as int], before[b - 1]);
                }
            } else {
                assert(after[a] == before[a]);
                assert(evidence_lt(before[a], item));
                if b > i {
                    assert(after[b] == before[b - 1]);
                    if b - 1 == i {
                        lemma_evidence_order(before[a], item, before[i as int]);
                    } else {
                        lemma_evidence_order(before[a], before[i as int], before[b - 1]);
                        lemma_evidence_order(before[a], item, before[i as int]);
                    }
                }
            }
        }
        assert forall|x: GoalEvidence| after.to_set().contains(x) <==> before.to_set().insert(item).contains(x) by {
            if after.to_set().contains(x) {
                let k = choose|k: int| 0 <= k < after.len() && after[k] == x;
                if k < i {
                    assert(before[k] == x);
                } else if k > i {
                    assert(before[k - 1] == x);
                }
            }
            if before.to_set().contains(x) && x != item {
                let k = choose|k: int| 0 <= k < before.len() && before[k] == x;
                if k < i {
                    assert(after[k] == x);
                } else {
                    assert(after[k + 1] == x);
                }
            }
            if x == item {
                assert(after[i as int] == item);
            }
        }
        assert(after.to_set() =~= before.to_set().insert(item));
    }
}

/// What a goal evaluates to in a frame.
#[derive(Clone, Debug, PartialEq, Eq)]
pub enum GoalEvaluation {
    Satisfied(Vec<GoalEvidence>),
    Pending,
    Impossible,
    Unknown,
}

/// A live building of the given kind on the given site.
pub open spec fn building_at(kind: Seq<char>, site: Pos) -> spec_fn(Role) -> bool {
    |role: Role| role.role_type@ == kind && role.pos == site && (role.health matches Some(hp) && hp > NO_HEALTH)
}

pub open spec fn is_challenge_end(record: EventRecord) -> bool {
    record.event == WorldEvent::ChallengeEnded
}

pub open spec fn is_day_start(record: EventRecord) -> bool {
    record.event == WorldEvent::PhaseChanged(Phase::Day)
}

pub open spec fn event_evidence_of(record: EventRecord) -> GoalEvidence {
    GoalEvidence::EventObserved { event: record.id, observed_round: record.observed_round }
}

/// The evidence that reaches a goal in a frame, or `None` while it is
/// pending. An economy cycle is never reached by a frame alone; a building
/// by the first live building of its kind on its site; a challenge by the
/// first challenge-end event; a defence window by the first day-start
/// event; a conjunction when all its goals are reached, by all their
/// evidence together.
pub open spec fn goal_evidence(goal: GoalPredicate, o: Observation, events: Seq<EventRecord>) -> Option<Set<GoalEvidence>>
    decreases goal, 0nat,
{
    match goal {
        GoalPredicate::EconomyCycleCompleted => None,
        GoalPredicate::BuildingPresent { kind, site } => match first_where(o.team_our.roles@, building_at(kind@, site)) {
            Some(role) => Some(set![GoalEvidence::EntityObserved { entity: role.id, observed_round: o.round_no }]),
            None => None,
        },
        GoalPredicate::ChallengeResolved => match first_where(events, |r: EventRecord| is_challenge_end(r)) {
            Some(record) => Some(set![event_evidence_of(record)]),
            None => None,
        },
        GoalPredicate::DefenseWindowCompleted { .. } => match first_where(events, |r: EventRecord| is_day_start(r)) {
            Some(record) => Some(set![event_evidence_of(record)]),
            None => None,
        },
        GoalPredicate::AllOf(goals) => {
            proof {
                assert(decreases_to!(goal => goals));
                assert(decreases_to!(goals => goals@));
            }
            all_evidence(goals@, goals@.len() as nat, o, events)
        },
    }
}

/// The evidence of the first `n` goals together, or `None` while one of
/// them is pending.
pub open spec fn all_evidence(goals: Seq<GoalPredicate>, n: nat, o: Observation, events: Seq<EventRecord>) -> Option<Set<GoalEvidence>>
    decreases goals, n,
{
    if n == 0 || n > goals.len() {
        if n == 0 { Some(Set::empty()) } else { None }
    } else {
        match (all_evidence(goals, (n - 1) as nat, o, events), goal_evidence(goals[n - 1], o, events)) {
            (Some(a), Some(b)) => Some(a.union(b)),
            _ => None,
        }
    }
}

/// A defence window is over exactly when a day has begun: its goal is
/// reached when and only when the events hold a change of phase to day,
/// and then by the first such event alone; a change to night never
/// reaches it.
pub proof fn law_defence_window_ends_at_day(weapon: i64, o: Observation, events: Seq<EventRecord>)
    ensures
        goal_evidence(GoalPredicate::DefenseWindowCompleted { weapon }, o, events) is Some
            <==> exists|i: int| 0 <= i < events.len() && (#[trigger] events[i]).event == WorldEvent::PhaseChanged(Phase::Day),
        goal_evidence(GoalPredicate::DefenseWindowCompleted { weapon }, o, events) matches Some(evidence)
            ==> exists|i: int| 0 <= i < events.len() && (#[trigger] events[i]).event == WorldEvent::PhaseChanged(Phase::Day)
                && evidence == set![GoalEvidence::EventObserved { event: events[i].id, observed_round: events[i].observed_round }]
                && forall|j: int| 0 <= j < i ==> (#[trigger] events[j]).event != WorldEvent::PhaseChanged(Phase::Day),
{
    let p = |r: EventRecord| is_day_start(r);
    if exists|i: int| 0 <= i < events.len() && (#[trigger] events[i]).event == WorldEvent::PhaseChanged(Phase::Day) {
        let i = choose|i: int| 0 <= i < events.len() && (#[trigger] events[i]).event == WorldEvent::PhaseChanged(Phase::Day);
        lemma_first_exists(events, p, i);
        let k = choose|k: int| is_first(events, p, k);
        lemma_first_where_at(events, p, k);
        assert(events[k].event == WorldEvent::PhaseChanged(Phase::Day));
        assert forall|j: int| 0 <= j < k implies (#[trigger] events[j]).event != WorldEvent::PhaseChanged(Phase::Day) by {
            assert(!p(events[j]));
        }
    } else {
        assert forall|j: int| 0 <= j < events.len() implies !p(#[trigger] events[j]) by {
            assert(events[j].event != WorldEvent::PhaseChanged(Phase::Day));
        }
        lemma_first_where_none(events, p);
    }
}

/// A challenge is resolved exactly when its end has been logged: its goal
/// is reached when and only when the events hold a challenge end, and then
/// by the first one alone.
pub proof fn law_challenge_resolved_at_its_end(o: Observation, events: Seq<EventRecord>)
    ensures
        goal_evidence(GoalPredicate::ChallengeResolved, o, events) is Some
            <==> exists|i: int| 0 <= i < events.len() && (#[trigger] events[i]).event == WorldEvent::ChallengeEnded,
        goal_evidence(GoalPredicate::ChallengeResolved, o, events) matches Some(evidence)
            ==> exists|i: int| 0 <= i < events.len() && (#[trigger] events[i]).event == WorldEvent::ChallengeEnded
                && evidence == set![GoalEvidence::EventObserved { event: events[i].id, observed_round: events[i].observed_round }]
                && forall|j: int| 0 <= j < i ==> (#[trigger] events[j]).event != WorldEvent::ChallengeEnded,
{
    let p = |r: EventRecord| is_challenge_end(r);
    if exists|i: int| 0 <= i < events.len() && (#[trigger] events[i]).event == WorldEvent::ChallengeEnded {
        let i = choose|i: int| 0 <= i < events.len() && (#[trigger] events[i]).event == WorldEvent::ChallengeEnded;
        lemma_first_exists(events, p, i);
        let k = choose|k: int| is_first(events, p, k);
        lemma_first_where_at(events, p, k);
        assert(events[k].event == WorldEvent::ChallengeEnded);
        assert forall|j: int| 0 <= j < k implies (#[trigger] events[j]).event != WorldEvent::ChallengeEnded by {
            assert(!p(events[j]));
        }
    } else {
        assert forall|j: int| 0 <= j < events.len() implies !p(#[trigger] events[j]) by {
            assert(events[j].event != WorldEvent::ChallengeEnded);
        }
        lemma_first_where_none(events, p);
    }
}

/// A building goal is reached exactly when the frame shows a live
/// building of that kind on that site, and then by the first such one of
/// the team as seen in this round.
pub proof fn law_building_present_when_seen(kind: String, site: Pos, o: Observation, events: Seq<EventRecord>)
    ensures
        goal_evidence(GoalPredicate::BuildingPresent { kind, site }, o, events) is Some
            <==> exists|i: int| 0 <= i < o.team_our.roles@.len() && (#[trigger] o.team_our.roles@[i]).role_type@ == kind@
                && o.team_our.roles@[i].pos == site && (o.team_our.roles@[i].health matches Some(hp) && hp > NO_HEALTH),
        goal_evidence(GoalPredicate::BuildingPresent { kind, site }, o, events) matches Some(evidence)
            ==> exists|i: int| 0 <= i < o.team_our.roles@.len() && (#[trigger] o.team_our.roles@[i]).role_type@ == kind@
                && o.team_our.roles@[i].pos == site && (o.team_our.roles@[i].health matches Some(hp) && hp > NO_HEALTH)
                && evidence == set![GoalEvidence::EntityObserved { entity: o.team_our.roles@[i].id, observed_round: o.round_no }],
{
    let roles = o.team_our.roles@;
    let p = building_at(kind@, site);
    if exists|i: int| 0 <= i < roles.len() && (#[trigger] roles[i]).role_type@ == kind@
        && roles[i].pos == site && (roles[i].health matches Some(hp) && hp > NO_HEALTH) {
        let i = choose|i: int| 0 <= i < roles.len() && (#[trigger] roles[i]).role_type@ == kind@
            && roles[i].pos == site && (roles[i].health matches Some(hp) && hp > NO_HEALTH);
        assert(p(roles[i]));
        lemma_first_exists(roles, p, i);
        let k = choose|k: int| is_first(roles, p, k);
        lemma_first_where_at(roles, p, k);
        assert(p(roles[k]));
    } else {
        assert forall|j: int| 0 <= j < roles.len() implies !p(#[trigger] roles[j]) by {
            if p(roles[j]) {
                assert(roles[j].role_type@ == kind@);
            }
        }
        lemma_first_where_none(roles, p);
    }
}

/// Whether a goal is reached in a frame; when it is, with its evidence in
/// the evidence order.
pub open spec fn evaluation_matches(r: GoalEvaluation, goal: GoalPredicate, o: Observation, events: Seq<EventRecord>) -> bool {
    match goal_evidence(goal, o, events) {
        Some(s) => r matches GoalEvaluation::Satisfied(v) && evidence_sorted(v@) && v@.to_set() == s,
        None => r is Pending,
    }
}

/// Evaluates a goal against a frame and the events logged with it.
pub fn evaluate_goal(goal: &GoalPredicate, observation: &Observation, events: &[EventRecord]) -> (r: GoalEvaluation)
    ensures
        evaluation_matches(r, *goal, *observation, events@),
    decreases goal,
{
    match goal {
        GoalPredicate::EconomyCycleCompleted => GoalEvaluation::Pending,
        GoalPredicate::BuildingPresent { kind, site } => evaluate_building(kind.as_str(), *site, observation),
        GoalPredicate::ChallengeResolved => {
            match find_challenge_end(events) {
                Some(i) => {
                    let e = GoalEvidence::EventObserved { event: events[i].id, observed_round: events[i].observed_round };
                    let mut v: Vec<GoalEvidence> = Vec::new();
                    v.push(e);
                    proof {
                        lemma_first_where_at(events@, |r: EventRecord| is_challenge_end(r), i as int);
                        lemma_single_evidence(e);
                        assert(v@ =~= seq![e]);
                    }
                    GoalEvaluation::Satisfied(v)
                },
                None => {
                    proof { lemma_first_where_none(events@, |r: EventRecord| is_challenge_end(r)); }
                    GoalEvaluation::Pending
                },
            }
        },
        GoalPredicate::DefenseWindowCompleted { .. } => {
            match find_day_start(events) {
                Some(i) => {
                    let e = GoalEvidence::EventObserved { event: events[i].id, observed_round: events[i].observed_round };
                    let mut v: Vec<GoalEvidence> = Vec::new();
                    v.push(e);
                    proof {
                        lemma_first_where_at(events@, |r: EventRecord| is_day_start(r), i as int);
                        lemma_single_evidence(e);
                        assert(v@ =~= seq![e]);
                    }
                    GoalEvaluation::Satisfied(v)
                },
                None => {
                    proof { lemma_first_where_none(events@, |r: EventRecord| is_day_start(r)); }
                    GoalEvaluation::Pending
                },
            }
        },
        GoalPredicate::AllOf(goals) => evaluate_all(goal, goals, observation, events),
    }
}

#[verifier::loop_isolation(false)]
fn evaluate_all(parent: &GoalPredicate, goals: &Vec<GoalPredicate>, observation: &Observation, events: &[EventRecord]) -> (r: GoalEvaluation)
    requires
        *parent == GoalPredicate::AllOf(*goals),
    ensures
        evaluation_matches(r, *parent, *observation, events@),
    decreases parent, 0nat,
{
    let mut evidence: Vec<GoalEvidence> = Vec::new();
    let mut pending = false;
    let mut i: usize = 0;
    assert(evidence@.to_set() =~= Set::<GoalEvidence>::empty());
    while i < goals.len()
        invariant
            i <= goals@.len(),
            evidence_sorted(evidence@),
            pending == (all_evidence(goals@, i as nat, *observation, events@) is None),
            !pending ==> all_evidence(goals@, i as nat, *observation, events@) == Some(evidence@.to_set()),
        decreases goals@.len() - i,
    {
        proof {
            assert(decreases_to!(*parent => *goals));
            assert(decreases_to!(*goals => goals@));
            assert(decreases_to!(goals@ => goals@[i as int]));
        }
        let found = evaluate_goal(&goals[i], observation, events);
        match found {
            GoalEvaluation::Satisfied(items) => {
                let ghost before = evidence@;
                let mut k: usize = 0;
                while k < items.len()
                    invariant
                        k <= items@.len(),
                        evidence_sorted(evidence@),
                        evidence@.to_set() == before.to_set().union(items@.subrange(0, k as int).to_set()),
                    decreases items@.len() - k,
                {
                    let ghost mid = evidence@;
                    add_evidence(&mut evidence, items[k]);
                    proof {
                        assert(items@.subrange(0, k + 1) =~= items@.subrange(0, k as int).push(items@[k as int]));
                        items@.subrange(0, k as int).lemma_push_to_set_commute(items@[k as int]);
                        assert(evidence@.to_set() =~= before.to_set().union(items@.subrange(0, k + 1).to_set()));
                    }
                    k = k + 1;
                }
                assert(items@.subrange(0, items@.len() as int) =~= items@);
            },
            _ => {
                pending = true;
            },
        }
        i = i + 1;
    }
    assert(goals@.len() as nat == goals@.len());
    if pending {
        GoalEvaluation::Pending
    } else {
        GoalEvaluation::Satisfied(evidence)
    }
}

fn evaluate_building(kind: &str, site: Pos, observation: &Observation) -> (r: GoalEvaluation)
    ensures
        match first_where(observation.team_our.roles@, building_at(kind@, site)) {
            Some(role) => r matches GoalEvaluation::Satisfied(v) && evidence_sorted(v@)
                && v@.to_set() == set![GoalEvidence::EntityObserved { entity: role.id, observed_round: observation.round_no }],
            None => r is Pending,
        },
{
    let roles = &observation.team_our.roles;
    let ghost p = building_at(kind@, site);
    let mut i: usize = 0;
    while i < roles.len()
        invariant
            i <= roles@.len(),
            p == building_at(kind@, site),
            roles@ == observation.team_our.roles@,
            forall|j: int| 0 <= j < i ==> !p(#[trigger] roles@[j]),
        decreases roles@.len() - i,
    {
        let role = &roles[i];
        let live = match role.health {
            Some(hp) => hp > NO_HEALTH,
            None => false,
        };
        if str_eq(role.role_type.as_str(), kind) && role.pos == site && live {
            let e = GoalEvidence::EntityObserved { entity: role.id, observed_round: observation.round_no };
            let mut v: Vec<GoalEvidence> = Vec::new();
            v.push(e);
            proof {
                assert(is_first(roles@, p, i as int));
                lemma_first_where_at(roles@, p, i as int);
                lemma_single_evidence(e);
                assert(v@ =~= seq![e]);
            }
            return GoalEvaluation::Satisfied(v);
        }
        i = i + 1;
    }
    proof { lemma_first_where_none(roles@, p); }
    GoalEvaluation::Pending
}

fn find_challenge_end(events: &[EventRecord]) -> (r: Option<usize>)
    ensures
        r matches Some(i) ==> is_first(events@, |e: EventRecord| is_challenge_end(e), i as int),
        r is None ==> forall|j: int| 0 <= j < events@.len() ==> !is_challenge_end(#[trigger] events@[j]),
{
    let mut i: usize = 0;
    while i < events.len()
        invariant
            i <= events@.len(),
            forall|j: int| 0 <= j < i ==> !is_challenge_end(#[trigger] events@[j]),
        decreases events@.len() - i,
    {
        if events[i].event == WorldEvent::ChallengeEnded {
            return Some(i);
        }
        i = i + 1;
    }
    None
}

fn find_day_start(events: &[EventRecord]) -> (r: Option<usize>)
    ensures
        r matches Some(i) ==> is_first(events@, |e: EventRecord| is_day_start(e), i as int),
        r is None ==> forall|j: int| 0 <= j < events@.len() ==> !is_day_start(#[trigger] events@[j]),
{
    let mut i: usize = 0;
    while i < events.len()
        invariant
            i <= events@.len(),
            forall|j: int| 0 <= j < i ==> !is_day_start(#[trigger] events@[j]),
        decreases events@.len() - i,
    {
        if events[i].event == WorldEvent::PhaseChanged(Phase::Day) {
            return Some(i);
        }
        i = i + 1;
    }
    None
}

} // verus!
