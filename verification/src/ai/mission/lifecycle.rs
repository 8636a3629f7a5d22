use vstd::prelude::*;

use crate::collections::{lemma_filter_member, lemma_filter_no_duplicates};
use crate::domain::{DeadlineKind, GoalPredicate, MissionDeadline, MissionId, Observation, spec_is_expired};
use crate::event::{EventRecord, WorldEvent};
use crate::fsm::MissionState;
use crate::rules::constants::ZERO_COUNTER;

use super::goal::{GoalEvaluation, GoalEvidence, evaluate_goal, evidence_sorted, goal_evidence};
use super::progress::measured;
use super::record::{MissionReconciliation, MissionRecord, MissionResolution};
use super::registry::{
    MissionRegistry, completed_record, history_kept, in_tree, is_terminal, pruned_active,
    registry_invariant, resolutions, spec_goal_can_complete, spec_is_terminal, tree_ended, wakeable,
    woken,
};

verus! {

/// The unit moved or its inventory changed in the given round.
pub open spec fn progress_seen(events: Seq<EventRecord>, actor: i64, round: i32) -> bool {
    exists|i: int| 0 <= i < events.len() && #[trigger] events[i].observed_round == round && ({
        ||| events[i].event matches WorldEvent::UnitMoved { id, .. } && id == actor
        ||| events[i].event == WorldEvent::InventoryChanged(actor)
    })
}

/// What a frame does to an unfinished record: its economy checkpoint is
/// measured, and observed progress of its unit clears its rejections.
pub open spec fn observed(old: MissionRecord, new: MissionRecord, o: Observation, events: Seq<EventRecord>) -> bool {
    &&& new.spec == old.spec
    &&& new.owner == old.owner
    &&& new.assignee == old.assignee
    &&& new.state == old.state
    &&& new.completion_evidence == old.completion_evidence
    &&& new.goal_submission_round == old.goal_submission_round
    &&& new.failure == old.failure
    &&& new.economy_progress.checkpoint is None
    &&& evidence_sorted(new.economy_progress.evidence@)
    &&& (new.economy_progress.evidence@.to_set(), new.economy_progress.sale_observed) == measured(old.economy_progress, old.assignee, o, events)
    &&& new.retry_count == (if progress_seen(events, old.assignee, o.round_no) { ZERO_COUNTER } else { old.retry_count })
}

/// Every unfinished record observed the frame; finished ones are as they
/// were.
pub open spec fn observed_all(old: Map<MissionId, MissionRecord>, new: Map<MissionId, MissionRecord>, o: Observation, events: Seq<EventRecord>) -> bool {
    &&& new.dom() == old.dom()
    &&& forall|m: MissionId| #[trigger] old.contains_key(m) ==> if spec_is_terminal(old[m].state) {
        new[m] == old[m]
    } else {
        observed(old[m], new[m], o, events)
    }
}

/// The evidence by which a mission's goal is reached in a frame: for an
/// economy cycle, what its progress gathered once a sale was observed; for
/// other goals, what the frame and its events show.
pub open spec fn record_goal_evidence(r: MissionRecord, o: Observation, events: Seq<EventRecord>) -> Option<Set<GoalEvidence>> {
    if r.spec.spec_goal() is EconomyCycleCompleted {
        if r.economy_progress.sale_observed {
            Some(r.economy_progress.evidence@.to_set())
        } else {
            None
        }
    } else {
        goal_evidence(r.spec.spec_goal(), o, events)
    }
}

/// The goal was submitted by an action before an action-submission
/// deadline passed.
pub open spec fn spec_submitted_on_time(r: MissionRecord, d: MissionDeadline) -> bool {
    d.kind == DeadlineKind::ActionSubmission && (r.goal_submission_round matches Some(round) && !spec_is_expired(d, round as int))
}

/// Evidence counts for a mission without a deadline; with one, when all of
/// it was observed before the deadline passed or the goal was submitted in
/// time.
pub open spec fn spec_timely(r: MissionRecord, evidence: Set<GoalEvidence>) -> bool {
    match r.spec.spec_deadline() {
        None => true,
        Some(d) => (forall|e: GoalEvidence| #[trigger] evidence.contains(e) ==> !spec_is_expired(d, e.spec_observed_round() as int))
            || spec_submitted_on_time(r, d),
    }
}

/// A mission that can complete, whose goal is reached in time.
pub open spec fn completes(r: MissionRecord, o: Observation, events: Seq<EventRecord>) -> bool {
    &&& spec_goal_can_complete(r.state)
    &&& record_goal_evidence(r, o, events) matches Some(s)
    &&& spec_timely(r, s)
}

/// Every mission that completes succeeded with its evidence; the others
/// are as they were.
pub open spec fn completed_all(old: Map<MissionId, MissionRecord>, new: Map<MissionId, MissionRecord>, o: Observation, events: Seq<EventRecord>) -> bool {
    &&& new.dom() == old.dom()
    &&& forall|m: MissionId| #[trigger] old.contains_key(m) ==> if completes(old[m], o, events) {
        completed_record(old[m], new[m], new[m].completion_evidence@)
            && evidence_sorted(new[m].completion_evidence@)
            && new[m].completion_evidence@.to_set() == record_goal_evidence(old[m], o, events)->0
    } else {
        new[m] == old[m]
    }
}

pub open spec fn success_of(r: MissionRecord) -> MissionResolution {
    MissionResolution { assignee: r.assignee, owner: r.owner, state: MissionState::Succeeded }
}

/// The deadline passed and the goal was not submitted in time.
pub open spec fn spec_deadline_missed(r: MissionRecord, d: MissionDeadline, round: i32) -> bool {
    spec_is_expired(d, round as int) && !spec_submitted_on_time(r, d)
}

pub open spec fn is_due(r: MissionRecord, round: i32) -> bool {
    !spec_is_terminal(r.state) && (r.spec.spec_deadline() matches Some(d) && spec_deadline_missed(r, d, round))
}

/// Expiring one due mission: its tree ends, itself expired, unless an
/// earlier expiry already ended it.
pub open spec fn expire_step(records: Map<MissionId, MissionRecord>, m: MissionId) -> Map<MissionId, MissionRecord> {
    if records.contains_key(m) && !spec_is_terminal(records[m].state) {
        tree_ended(records, m, MissionState::Expired, None)
    } else {
        records
    }
}

/// Expiring the due missions one after the other.
pub open spec fn expire_fold(records: Map<MissionId, MissionRecord>, due: Seq<MissionId>) -> Map<MissionId, MissionRecord>
    decreases due.len(),
{
    if due.len() == 0 {
        records
    } else {
        expire_step(expire_fold(records, due.drop_last()), due.last())
    }
}

/// The resolutions of expiring the due missions one after the other, each
/// tree in id order.
pub open spec fn expire_resolutions(records: Map<MissionId, MissionRecord>, order: Seq<MissionId>, due: Seq<MissionId>) -> Seq<MissionResolution>
    decreases due.len(),
{
    if due.len() == 0 {
        Seq::empty()
    } else {
        let before = expire_fold(records, due.drop_last());
        let m = due.last();
        expire_resolutions(records, order, due.drop_last()) + if before.contains_key(m) && !spec_is_terminal(before[m].state) {
            resolutions(before, order.filter(|x: MissionId| in_tree(before, m, x)), m, MissionState::Expired, None)
        } else {
            Seq::empty()
        }
    }
}

fn progress_observed(events: &[EventRecord], actor: i64, round: i32) -> (r: bool)
    ensures
        r == progress_seen(events@, actor, round),
{
    let mut i: usize = 0;
    while i < events.len()
        invariant
            i <= events@.len(),
            forall|j: int| 0 <= j < i ==> !(#[trigger] events@[j].observed_round == round && ({
                ||| events@[j].event matches WorldEvent::UnitMoved { id, .. } && id == actor
                ||| events@[j].event == WorldEvent::InventoryChanged(actor)
            })),
        decreases events@.len() - i,
    {
        let e = events[i];
        let hit = match e.event {
            WorldEvent::UnitMoved { id, .. } => id == actor,
            WorldEvent::InventoryChanged(id) => id == actor,
            _ => false,
        };
        if e.observed_round == round && hit {
            return true;
        }
        i = i + 1;
    }
    false
}

fn submitted_on_time(record: &MissionRecord, deadline: MissionDeadline) -> (r: bool)
    ensures
        r == spec_submitted_on_time(*record, deadline),
{
    deadline.kind() == DeadlineKind::ActionSubmission && match record.goal_submission_round {
        Some(round) => !deadline.is_expired(round),
        None => false,
    }
}

fn deadline_missed(record: &MissionRecord, deadline: MissionDeadline, round: i32) -> (r: bool)
    ensures
        r == spec_deadline_missed(*record, deadline, round),
{
    deadline.is_expired(round) && !submitted_on_time(record, deadline)
}

fn completion_is_timely(record: &MissionRecord, evidence: &Vec<GoalEvidence>) -> (r: bool)
    ensures
        r == spec_timely(*record, evidence@.to_set()),
{
    let deadline = match record.spec.deadline() {
        Some(d) => d,
        None => return true,
    };
    let mut all = true;
    let mut i: usize = 0;
    while i < evidence.len()
        invariant
            i <= evidence@.len(),
            all == forall|j: int| 0 <= j < i ==> !spec_is_expired(deadline, (#[trigger] evidence@[j]).spec_observed_round() as int),
        decreases evidence@.len() - i,
    {
        if deadline.is_expired(evidence[i].observed_round()) {
            all = false;
        }
        i = i + 1;
    }
    proof {
        assert(all <==> forall|e: GoalEvidence| #[trigger] evidence@.to_set().contains(e) ==> !spec_is_expired(deadline, e.spec_observed_round() as int)) by {
            if all {
                assert forall|e: GoalEvidence| #[trigger] evidence@.to_set().contains(e) implies !spec_is_expired(deadline, e.spec_observed_round() as int) by {
                    let j = choose|j: int| 0 <= j < evidence@.len() && evidence@[j] == e;
                }
            } else {
                let j = choose|j: int| 0 <= j < evidence@.len() && spec_is_expired(deadline, (#[trigger] evidence@[j]).spec_observed_round() as int);
                assert(evidence@.to_set().contains(evidence@[j]));
            }
        }
    }
    all || submitted_on_time(record, deadline)
}

fn goal_can_complete(state: MissionState) -> (r: bool)
    ensures
        r == spec_goal_can_complete(state),
{
    match state {
        MissionState::Ready | MissionState::Assigned | MissionState::Executing | MissionState::Blocked | MissionState::Suspended => true,
        _ => false,
    }
}

/// The evidence that reaches a record's goal, in evidence order, or `None`
/// while it is pending.
fn record_evaluation(record: &MissionRecord, observation: &Observation, events: &[EventRecord]) -> (r: Option<Vec<GoalEvidence>>)
    requires
        evidence_sorted(record.economy_progress.evidence@),
    ensures
        match record_goal_evidence(*record, *observation, events@) {
            Some(s) => r matches Some(v) && evidence_sorted(v@) && v@.to_set() == s,
            None => r is None,
        },
{
    let economy = match record.spec.goal() {
        GoalPredicate::EconomyCycleCompleted => true,
        _ => false,
    };
    let evaluation = if economy {
        record.economy_progress.evaluation()
    } else {
        evaluate_goal(record.spec.goal(), observation, events)
    };
    match evaluation {
        GoalEvaluation::Satisfied(v) => Some(v),
        _ => None,
    }
}

/// What bringing the missions up to date with a frame and its events does
/// to the registry: progress is measured, reached goals succeed, missions
/// past their deadlines expire, ready missions wake, and the missions that
/// ended are reported in registration order.
pub open spec fn reconciled(before: MissionRegistry, after: MissionRegistry, observation: Observation,
    events: Seq<EventRecord>, r: MissionReconciliation) -> bool
{
    exists|observed: Map<MissionId, MissionRecord>, done: Map<MissionId, MissionRecord>|
        #![trigger observed_all(before.records(), observed, observation, events), completed_all(observed, done, observation, events)]
    {
        let order = before.order();
        let due = order.filter(|m: MissionId| done.contains_key(m) && is_due(done[m], observation.round_no));
        let expired = expire_fold(done, due);
        &&& observed_all(before.records(), observed, observation, events)
        &&& completed_all(observed, done, observation, events)
        &&& after.records() == woken(expired)
        &&& r.resolved@ == order.filter(|m: MissionId| observed.contains_key(m) && completes(observed[m], observation, events))
                .map_values(|m: MissionId| success_of(observed[m]))
            + expire_resolutions(done, order, due)
        &&& r.ready@ == order.filter(|m: MissionId| wakeable(expired, m))
    }
}

/// Expiring missions never adds or drops a record.
proof fn lemma_expire_fold_dom(records: Map<MissionId, MissionRecord>, due: Seq<MissionId>)
    ensures
        expire_fold(records, due).dom() == records.dom(),
    decreases due.len(),
{
    if due.len() > 0 {
        lemma_expire_fold_dom(records, due.drop_last());
        let before = expire_fold(records, due.drop_last());
        if before.contains_key(due.last()) && !spec_is_terminal(before[due.last()].state) {
            assert(tree_ended(before, due.last(), MissionState::Expired, None).dom() =~= before.dom());
        }
    }
}

impl MissionRegistry {
    /// Brings the missions up to date with a frame and the events logged
    /// with it: progress is measured, missions whose goals are reached in
    /// time succeed, missions past their deadlines expire with their trees,
    /// and missions whose prerequisites all succeeded become ready.
    pub fn reconcile(&mut self, observation: &Observation, events: &[EventRecord]) -> (r: MissionReconciliation)
        requires
            old(self).well_formed(),
        ensures
            final(self).well_formed(),
            history_kept(old(self).records(), final(self).records()),
            final(self).records().dom() == old(self).records().dom(),
            exists|observed: Map<MissionId, MissionRecord>, done: Map<MissionId, MissionRecord>|
                #![trigger observed_all(old(self).records(), observed, *observation, events@), completed_all(observed, done, *observation, events@)]
            {
                let order = old(self).order();
                let due = order.filter(|m: MissionId| done.contains_key(m) && is_due(done[m], observation.round_no));
                let expired = expire_fold(done, due);
                &&& observed_all(old(self).records(), observed, *observation, events@)
                &&& completed_all(observed, done, *observation, events@)
                &&& final(self).records() == woken(expired)
                &&& r.resolved@ == order.filter(|m: MissionId| observed.contains_key(m) && completes(observed[m], *observation, events@))
                        .map_values(|m: MissionId| success_of(observed[m]))
                    + expire_resolutions(done, order, due)
                &&& r.ready@ == order.filter(|m: MissionId| wakeable(expired, m))
            },
    {
        let ghost start = self.records();
        self.observe_progress(observation, events);
        let ghost observed = self.records();
        let resolved = self.complete_satisfied(observation, events);
        let ghost done = self.records();
        let ghost done_registry = *self;
        let expired = self.expire_due(observation.round_no);
        let ghost after_expiry = self.records();
        proof {
            lemma_expire_fold_dom(done, done_registry.order().filter(|m: MissionId| done.contains_key(m) && is_due(done[m], observation.round_no)));
        }
        let ready = self.wake_ready();
        let mut all = resolved;
        let mut more = expired;
        all.append(&mut more);
        proof {
            assert(observed_all(start, observed, *observation, events@));
            assert(completed_all(observed, done, *observation, events@));
            assert(woken(after_expiry).dom() =~= after_expiry.dom());
            assert(self.records().dom() =~= start.dom());
            assert(history_kept(start, self.records())) by {
                assert forall|m: MissionId| #[trigger] start.contains_key(m) && spec_is_terminal(start[m].state)
                    implies self.records()[m] == start[m] by {
                    assert(observed[m] == start[m]);
                    assert(done[m] == observed[m]);
                    assert(after_expiry[m] == done[m]);
                }
            }
        }
        MissionReconciliation::new(all, ready)
    }

    /// Measures every unfinished mission's progress against the frame.
    fn observe_progress(&mut self, observation: &Observation, events: &[EventRecord])
        requires
            old(self).well_formed(),
        ensures
            final(self).well_formed(),
            history_kept(old(self).records(), final(self).records()),
            observed_all(old(self).records(), final(self).records(), *observation, events@),
            final(self).active() == old(self).active(),
            final(self).order() == old(self).order(),
    {
        let ghost records = self.records();
        let ghost active = self.active();
        proof {
            self.lemma_well_formed();
            self.lemma_order();
        }
        let ids = self.mission_ids();
        let mut i: usize = 0;
        while i < ids.len()
            invariant
                self.storage_ok(),
                registry_invariant(records, active),
                ids@ == old(self).order(),
                ids@.no_duplicates(),
                forall|m: MissionId| #[trigger] ids@.contains(m) <==> records.contains_key(m),
                i <= ids@.len(),
                self.active() == active,
                self.records().dom() == records.dom(),
                forall|m: MissionId| #[trigger] records.contains_key(m) ==> if ids@.subrange(0, i as int).contains(m) && !spec_is_terminal(records[m].state) {
                    observed(records[m], self.records()[m], *observation, events@)
                } else {
                    self.records()[m] == records[m]
                },
            decreases ids@.len() - i,
        {
            let m = ids[i];
            let ghost prefix = ids@.subrange(0, i as int);
            assert(!prefix.contains(m)) by {
                if prefix.contains(m) {
                    let k = choose|k: int| 0 <= k < prefix.len() && prefix[k] == m;
                    assert(ids@[k] == ids@[i as int]);
                }
            }
            assert(ids@.contains(m));
            let ghost before = self.records();
            let mut record = self.take_record(m);
            if !is_terminal(record.state) {
                super::progress::reconcile(&mut record.economy_progress, record.assignee, observation, events);
                if progress_observed(events, record.assignee, observation.round_no) {
                    record.retry_count = ZERO_COUNTER;
                }
            }
            self.put_record(m, record);
            proof {
                assert(self.records().dom() =~= records.dom());
                assert forall|x: MissionId| #[trigger] ids@.subrange(0, i + 1).contains(x) <==> (prefix.contains(x) || x == m) by {
                    if ids@.subrange(0, i + 1).contains(x) {
                        let j = choose|j: int| 0 <= j < i + 1 && #[trigger] ids@.subrange(0, i + 1)[j] == x;
                        if j < i {
                            assert(prefix[j] == x);
                        }
                    }
                    if prefix.contains(x) {
                        let j = choose|j: int| 0 <= j < prefix.len() && prefix[j] == x;
                        assert(ids@.subrange(0, i + 1)[j] == x);
                    }
                    if x == m {
                        assert(ids@.subrange(0, i + 1)[i as int] == x);
                    }
                }
            }
            i = i + 1;
        }
        proof {
            assert(ids@.subrange(0, ids@.len() as int) =~= ids@);
            let nr = self.records();
            assert forall|m: MissionId| #[trigger] nr.contains_key(m) implies nr[m].spec.well_formed()
                && evidence_sorted(nr[m].economy_progress.evidence@) by {
                assert(nr[m].spec == records[m].spec);
            }
            assert forall|m: MissionId| #[trigger] nr.contains_key(m) && super::registry::spec_released(nr[m].state)
                implies super::registry::deps_succeeded(nr, nr[m].spec.spec_dependencies()) by {
                assert(nr[m].spec == records[m].spec);
                assert(nr[m].state == records[m].state);
                assert forall|d: MissionId| #[trigger] nr[m].spec.spec_dependencies().contains(d)
                    implies nr.contains_key(d) && nr[d].state == MissionState::Succeeded by {
                    assert(records[d].state == MissionState::Succeeded);
                }
            }
            assert forall|a: i64| #[trigger] active.contains_key(a) implies nr.contains_key(active[a])
                && nr[active[a]].assignee == a && super::registry::spec_is_active(nr[active[a]].state) by {
                assert(nr[active[a]].state == records[active[a]].state);
            }
            assert(registry_invariant(nr, active));
            self.lemma_well_formed();
            self.lemma_order_determined(old(self));
        }
    }

    /// Completes, in id order, every mission whose goal is reached in time.
    fn complete_satisfied(&mut self, observation: &Observation, events: &[EventRecord]) -> (r: Vec<MissionResolution>)
        requires
            old(self).well_formed(),
        ensures
            final(self).well_formed(),
            history_kept(old(self).records(), final(self).records()),
            completed_all(old(self).records(), final(self).records(), *observation, events@),
            r@ == old(self).order().filter(|m: MissionId| old(self).records().contains_key(m) && completes(old(self).records()[m], *observation, events@))
                .map_values(|m: MissionId| success_of(old(self).records()[m])),
            final(self).active() == pruned_active(old(self).active(), final(self).records()),
            final(self).order() == old(self).order(),
    {
        let ghost records = self.records();
        let ghost active = self.active();
        let ghost p = |m: MissionId| records.contains_key(m) && completes(records[m], *observation, events@);
        proof {
            self.lemma_well_formed();
            self.lemma_order();
        }
        let ids = self.mission_ids();
        let mut due: Vec<MissionId> = Vec::new();
        let mut found: Vec<Vec<GoalEvidence>> = Vec::new();
        let mut i: usize = 0;
        while i < ids.len()
            invariant
                self.well_formed(),
                self.records() == records,
                ids@ == self.order(),
                i <= ids@.len(),
                forall|m: MissionId| #[trigger] ids@.contains(m) <==> records.contains_key(m),
                p == (|m: MissionId| records.contains_key(m) && completes(records[m], *observation, events@)),
                due@ == ids@.subrange(0, i as int).filter(p),
                found@.len() == due@.len(),
                forall|k: int| 0 <= k < due@.len() ==> evidence_sorted((#[trigger] found@[k])@)
                    && found@[k]@.to_set() == record_goal_evidence(records[due@[k]], *observation, events@)->0,
            decreases ids@.len() - i,
        {
            let m = ids[i];
            assert(ids@.contains(m)) by { assert(ids@[i as int] == m); }
            proof { self.lemma_well_formed(); }
            let record = match self.record_of(m) {
                Some(rec) => rec,
                None => {
                    proof { assert(false); }
                    return Vec::new();
                },
            };
            proof {
                assert(ids@.subrange(0, i + 1) =~= ids@.subrange(0, i as int).push(m));
                ids@.subrange(0, i as int).lemma_filter_push(m, p);
                self.lemma_well_formed();
            }
            if goal_can_complete(record.state) {
                match record_evaluation(record, observation, events) {
                    Some(evidence) => {
                        if completion_is_timely(record, &evidence) {
                            due.push(m);
                            found.push(evidence);
                        }
                    },
                    None => {},
                }
            }
            i = i + 1;
        }
        proof {
            assert(ids@.subrange(0, ids@.len() as int) =~= ids@);
            lemma_filter_no_duplicates(ids@, p);
        }
        let mut resolved: Vec<MissionResolution> = Vec::new();
        let mut k: usize = 0;
        while k < due.len()
            invariant
                self.well_formed(),
                due@ == ids@.filter(p),
                ids@ == old(self).order(),
                due@.no_duplicates(),
                p == (|m: MissionId| records.contains_key(m) && completes(records[m], *observation, events@)),
                found@.len() == due@.len(),
                forall|j: int| 0 <= j < due@.len() ==> evidence_sorted((#[trigger] found@[j])@)
                    && found@[j]@.to_set() == record_goal_evidence(records[due@[j]], *observation, events@)->0,
                k <= due@.len(),
                self.records().dom() == records.dom(),
                self.order() == old(self).order(),
                forall|m: MissionId| #[trigger] records.contains_key(m) ==> if due@.subrange(0, k as int).contains(m) {
                    completed_record(records[m], self.records()[m], self.records()[m].completion_evidence@)
                        && evidence_sorted(self.records()[m].completion_evidence@)
                        && self.records()[m].completion_evidence@.to_set() == record_goal_evidence(records[m], *observation, events@)->0
                } else {
                    self.records()[m] == records[m]
                },
                self.active() == pruned_active(active, self.records()),
                registry_invariant(records, active),
                resolved@ == due@.subrange(0, k as int).map_values(|m: MissionId| success_of(records[m])),
            decreases due@.len() - k,
        {
            let m = due[k];
            let ghost prefix = due@.subrange(0, k as int);
            assert(!prefix.contains(m)) by {
                if prefix.contains(m) {
                    let j = choose|j: int| 0 <= j < prefix.len() && prefix[j] == m;
                    assert(due@[j] == due@[k as int]);
                }
            }
            proof {
                lemma_filter_member(ids@, p, m);
                assert(due@.contains(m)) by { assert(due@[k as int] == m); }
            }
            let evidence = found[k].clone();
            let ghost before = self.records();
            let ghost before_active = self.active();
            assert(before[m] == records[m]);
            let resolution = self.complete(m, evidence);
            match resolution {
                Some(res) => resolved.push(res),
                None => {},
            }
            proof {
                assert forall|x: MissionId| #[trigger] due@.subrange(0, k + 1).contains(x) <==> (prefix.contains(x) || x == m) by {
                    if due@.subrange(0, k + 1).contains(x) {
                        let j = choose|j: int| 0 <= j < k + 1 && #[trigger] due@.subrange(0, k + 1)[j] == x;
                        if j < k {
                            assert(prefix[j] == x);
                        }
                    }
                    if prefix.contains(x) {
                        let j = choose|j: int| 0 <= j < prefix.len() && prefix[j] == x;
                        assert(due@.subrange(0, k + 1)[j] == x);
                    }
                    if x == m {
                        assert(due@.subrange(0, k + 1)[k as int] == x);
                    }
                }
                assert(due@.subrange(0, k + 1) =~= prefix.push(m));
                assert(resolved@ =~= due@.subrange(0, k + 1).map_values(|m: MissionId| success_of(records[m])));
                assert forall|a: i64| #[trigger] self.active().contains_key(a) <==> pruned_active(active, self.records()).contains_key(a) by {
                    if active.contains_key(a) {
                        let x = active[a];
                        assert(records.contains_key(x));
                        if x != m {
                            assert(self.records()[x] == before[x]);
                        }
                    }
                }
                assert(self.active() =~= pruned_active(active, self.records()));
            }
            k = k + 1;
        }
        proof {
            assert(due@.subrange(0, due@.len() as int) =~= due@);
            assert forall|m: MissionId| records.contains_key(m) implies (due@.contains(m) <==> completes(records[m], *observation, events@)) by {
                lemma_filter_member(ids@, p, m);
            }
        }
        resolved
    }

    /// Expires, in id order, every unfinished mission whose deadline passed
    /// without the goal being submitted in time, with its tree.
    fn expire_due(&mut self, round: i32) -> (r: Vec<MissionResolution>)
        requires
            old(self).well_formed(),
        ensures
            final(self).well_formed(),
            history_kept(old(self).records(), final(self).records()),
            final(self).records() == expire_fold(old(self).records(),
                old(self).order().filter(|m: MissionId| old(self).records().contains_key(m) && is_due(old(self).records()[m], round))),
            r@ == expire_resolutions(old(self).records(), old(self).order(),
                old(self).order().filter(|m: MissionId| old(self).records().contains_key(m) && is_due(old(self).records()[m], round))),
            final(self).order() == old(self).order(),
    {
        let ghost records = self.records();
        let ghost p = |m: MissionId| records.contains_key(m) && is_due(records[m], round);
        proof {
            self.lemma_well_formed();
        }
        let ids = self.mission_ids();
        let mut due: Vec<MissionId> = Vec::new();
        let mut i: usize = 0;
        while i < ids.len()
            invariant
                self.well_formed(),
                self.records() == records,
                ids@ == self.order(),
                i <= ids@.len(),
                p == (|m: MissionId| records.contains_key(m) && is_due(records[m], round)),
                due@ == ids@.subrange(0, i as int).filter(p),
            decreases ids@.len() - i,
        {
            let m = ids[i];
            proof {
                self.lemma_order();
                assert(ids@.contains(m)) by { assert(ids@[i as int] == m); }
                assert(ids@.subrange(0, i + 1) =~= ids@.subrange(0, i as int).push(m));
                ids@.subrange(0, i as int).lemma_filter_push(m, p);
                self.lemma_well_formed();
            }
            let record = match self.record_of(m) {
                Some(rec) => rec,
                None => {
                    proof { assert(false); }
                    return Vec::new();
                },
            };
            let missed = !is_terminal(record.state) && match record.spec.deadline() {
                Some(d) => deadline_missed(record, d, round),
                None => false,
            };
            if missed {
                due.push(m);
            }
            i = i + 1;
        }
        proof {
            assert(ids@.subrange(0, ids@.len() as int) =~= ids@);
        }
        let mut expired: Vec<MissionResolution> = Vec::new();
        let mut k: usize = 0;
        while k < due.len()
            invariant
                self.well_formed(),
                due@ == ids@.filter(p),
                ids@ == old(self).order(),
                self.order() == old(self).order(),
                k <= due@.len(),
                self.records() == expire_fold(records, due@.subrange(0, k as int)),
                expired@ == expire_resolutions(records, ids@, due@.subrange(0, k as int)),
                history_kept(records, self.records()),
            decreases due@.len() - k,
        {
            let m = due[k];
            let ghost before = self.records();
            proof {
                assert(due@.subrange(0, k + 1) =~= due@.subrange(0, k as int).push(m));
                assert(due@.subrange(0, k + 1).drop_last() =~= due@.subrange(0, k as int));
                self.lemma_well_formed();
            }
            let live = match self.state_of(m) {
                Some(state) => !is_terminal(state),
                None => false,
            };
            if live {
                let mut ended = self.end_tree(m, MissionState::Expired, None);
                expired.append(&mut ended);
            }
            proof {
                assert(self.records() == expire_fold(records, due@.subrange(0, k + 1)));
                assert(expired@ =~= expire_resolutions(records, ids@, due@.subrange(0, k + 1)));
                assert forall|x: MissionId| #[trigger] records.contains_key(x) && spec_is_terminal(records[x].state)
                    implies self.records()[x] == records[x] by {
                    assert(before[x] == records[x]);
                }
            }
            k = k + 1;
        }
        proof {
            assert(due@.subrange(0, due@.len() as int) =~= due@);
        }
        expired
    }
}

} // verus!
