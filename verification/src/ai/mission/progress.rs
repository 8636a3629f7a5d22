use vstd::prelude::*;

use crate::collections::{first_where, is_first, lemma_first_where_at, lemma_first_where_none};
use crate::domain::{Action, ActionView, Observation, Pos, Role, Zone, find_role, role_by_id};
use crate::event::{EventRecord, WorldEvent};
use crate::rules::constants::MIN_ACTION_ROUNDS;
use crate::text::{count_items, count_of};

use super::goal::{GoalEvaluation, GoalEvidence, add_evidence, evidence_sorted, event_evidence_of};

verus! {

/// The effect an economy action is expected to have, measured when it is
/// committed.
#[derive(Clone, Debug)]
pub enum EconomyAction {
    Collect { item: String, before: usize },
    Sell { item: String, remaining: usize, gold_before: i32 },
}

/// An economy action waiting for the round in which its effect shows.
#[derive(Clone, Debug)]
pub struct EconomyCheckpoint {
    pub effect_round: i32,
    pub action: EconomyAction,
}

/// The observed steps of an economy cycle: a collection that filled the
/// backpack, then a sale that emptied it for gold.
#[derive(Clone, Debug)]
pub struct EconomyProgress {
    pub checkpoint: Option<EconomyCheckpoint>,
    pub evidence: Vec<GoalEvidence>,
    pub sale_observed: bool,
}

impl EconomyProgress {
    pub fn new() -> (r: Self)
        ensures
            r.checkpoint is None,
            r.evidence@.len() == 0,
            !r.sale_observed,
    {
        EconomyProgress { checkpoint: None, evidence: Vec::new(), sale_observed: false }
    }

    /// The evidence gathered so far.
    pub fn evidence(&self) -> (r: &[GoalEvidence])
        ensures
            r@ == self.evidence@,
    {
        self.evidence.as_slice()
    }

    /// Satisfied with the gathered evidence once a sale was observed,
    /// pending before.
    pub fn evaluation(&self) -> (r: GoalEvaluation)
        ensures
            self.sale_observed ==> (r matches GoalEvaluation::Satisfied(v) && v@ == self.evidence@),
            !self.sale_observed ==> r is Pending,
    {
        if self.sale_observed {
            GoalEvaluation::Satisfied(copy_evidence(&self.evidence))
        } else {
            GoalEvaluation::Pending
        }
    }
}

pub fn copy_evidence(v: &Vec<GoalEvidence>) -> (r: Vec<GoalEvidence>)
    ensures
        r@ == v@,
{
    let mut r: Vec<GoalEvidence> = Vec::new();
    let mut i: usize = 0;
    while i < v.len()
        invariant
            i <= v@.len(),
            r@ == v@.subrange(0, i as int),
        decreases v@.len() - i,
    {
        r.push(v[i]);
        assert(r@ =~= v@.subrange(0, i + 1));
        i = i + 1;
    }
    assert(r@ =~= v@);
    r
}

/// The first zone on a cell.
pub open spec fn zone_on(zones: Seq<Zone>, pos: Pos) -> Option<Zone> {
    first_where(zones, |z: Zone| z.pos == pos)
}

/// How many of `item` the unit carries in this frame.
pub open spec fn carried(o: Observation, actor: i64, item: Seq<char>) -> Option<nat> {
    match role_by_id(o.team_our.roles@, actor) {
        Some(role) => Some(count_of(role.backpack@, item)),
        None => None,
    }
}

/// The checkpoint an economy action leaves, as (effect round, item, count
/// before or count expected after, gold before a sale).
pub open spec fn spec_checkpoint(action: ActionView, assignee: i64, o: Observation) -> Option<(int, bool, Seq<char>, nat, i32)> {
    match role_by_id(o.team_our.roles@, assignee) {
        None => None,
        Some(role) => {
            if o.round_no + MIN_ACTION_ROUNDS > i32::MAX {
                None
            } else {
                match action {
                    ActionView::Collect(pos) => match zone_on(o.map_info.zones@, pos) {
                        Some(zone) => Some((o.round_no + MIN_ACTION_ROUNDS, true, zone.neutral_type@, count_of(role.backpack@, zone.neutral_type@), 0i32)),
                        None => None,
                    },
                    ActionView::Sell { name, quantity } => {
                        if quantity < 0 || count_of(role.backpack@, name) < quantity {
                            None
                        } else {
                            match o.team_our.gold_num {
                                Some(gold) => Some((o.round_no + MIN_ACTION_ROUNDS, false, name, (count_of(role.backpack@, name) - quantity) as nat, gold)),
                                None => None,
                            }
                        }
                    },
                    _ => None,
                }
            }
        },
    }
}

/// The content of a checkpoint in the same shape.
pub open spec fn checkpoint_view(c: EconomyCheckpoint) -> (int, bool, Seq<char>, nat, i32) {
    match c.action {
        EconomyAction::Collect { item, before } => (c.effect_round as int, true, item@, before as nat, 0i32),
        EconomyAction::Sell { item, remaining, gold_before } => (c.effect_round as int, false, item@, remaining as nat, gold_before),
    }
}

pub open spec fn checkpoint_opt_view(c: Option<EconomyCheckpoint>) -> Option<(int, bool, Seq<char>, nat, i32)> {
    match c {
        Some(c) => Some(checkpoint_view(c)),
        None => None,
    }
}

/// A change of the unit's inventory logged in the given round.
pub open spec fn is_inventory_change(r: EventRecord, actor: i64, round: i32) -> bool {
    r.observed_round == round && r.event == WorldEvent::InventoryChanged(actor)
}

/// A rise of the team's gold from `before`, logged in the given round.
pub open spec fn is_gold_rise(r: EventRecord, round: i32, before: i32) -> bool {
    &&& r.observed_round == round
    &&& r.event matches WorldEvent::GoldChanged { previous, current }
    &&& previous == before
    &&& current > previous
}

pub open spec fn inventory_record(events: Seq<EventRecord>, actor: i64, round: i32) -> Option<EventRecord> {
    first_where(events, |r: EventRecord| is_inventory_change(r, actor, round))
}

pub open spec fn gold_record(events: Seq<EventRecord>, round: i32, before: i32) -> Option<EventRecord> {
    first_where(events, |r: EventRecord| is_gold_rise(r, round, before))
}

/// The evidence and sale flag after the checkpoint is measured against a
/// frame. A collection counts when the unit carries more of the item than
/// before and its inventory change was logged this round; a sale counts,
/// after a counted collection, when the unit carries no more than was to
/// remain and both its inventory change and a rise of gold from the level
/// before the sale were logged this round. A checkpoint measured in any
/// other round than its effect round counts for nothing.
pub open spec fn measured(p: EconomyProgress, assignee: i64, o: Observation, events: Seq<EventRecord>) -> (Set<GoalEvidence>, bool) {
    let old_set = p.evidence@.to_set();
    match p.checkpoint {
        None => (old_set, p.sale_observed),
        Some(c) => {
            if c.effect_round != o.round_no {
                (old_set, p.sale_observed)
            } else {
                match c.action {
                    EconomyAction::Collect { item, before } => {
                        if (carried(o, assignee, item@) matches Some(n) && n > before)
                            && inventory_record(events, assignee, o.round_no) is Some {
                            (old_set.insert(event_evidence_of(inventory_record(events, assignee, o.round_no)->0)), p.sale_observed)
                        } else {
                            (old_set, p.sale_observed)
                        }
                    },
                    EconomyAction::Sell { item, remaining, gold_before } => {
                        if p.evidence@.len() > 0
                            && (carried(o, assignee, item@) matches Some(n) && n <= remaining)
                            && inventory_record(events, assignee, o.round_no) is Some
                            && gold_record(events, o.round_no, gold_before) is Some {
                            (old_set.insert(event_evidence_of(inventory_record(events, assignee, o.round_no)->0))
                                .insert(event_evidence_of(gold_record(events, o.round_no, gold_before)->0)), true)
                        } else {
                            (old_set, p.sale_observed)
                        }
                    },
                }
            }
        },
    }
}

/// Sets the checkpoint an economy action leaves.
pub fn record_action(progress: &mut EconomyProgress, action: &Action, assignee: i64, input: &Observation)
    ensures
        checkpoint_opt_view(final(progress).checkpoint) == spec_checkpoint(action@, assignee, *input),
        final(progress).evidence == old(progress).evidence,
        final(progress).sale_observed == old(progress).sale_observed,
{
    progress.checkpoint = checkpoint(action, assignee, input);
}

fn checkpoint(action: &Action, assignee: i64, input: &Observation) -> (r: Option<EconomyCheckpoint>)
    ensures
        checkpoint_opt_view(r) == spec_checkpoint(action@, assignee, *input),
{
    let role = match find_role(&input.team_our.roles, assignee) {
        Some(i) => &input.team_our.roles[i],
        None => return None,
    };
    if input.round_no > i32::MAX - MIN_ACTION_ROUNDS {
        return None;
    }
    let effect_round = input.round_no + MIN_ACTION_ROUNDS;
    match action {
        Action::Collect(pos) => match collect_checkpoint(input, role, *pos) {
            Some(a) => Some(EconomyCheckpoint { effect_round, action: a }),
            None => None,
        },
        Action::Sell { name, quantity } => match sell_checkpoint(input, role, name.as_str(), *quantity) {
            Some(a) => Some(EconomyCheckpoint { effect_round, action: a }),
            None => None,
        },
        _ => None,
    }
}

fn collect_checkpoint(input: &Observation, role: &Role, pos: Pos) -> (r: Option<EconomyAction>)
    ensures
        match zone_on(input.map_info.zones@, pos) {
            Some(zone) => r matches Some(EconomyAction::Collect { item, before }) && item@ == zone.neutral_type@
                && before == count_of(role.backpack@, zone.neutral_type@),
            None => r is None,
        },
{
    let zones = &input.map_info.zones;
    let ghost p = |z: Zone| z.pos == pos;
    let mut i: usize = 0;
    while i < zones.len()
        invariant
            i <= zones@.len(),
            zones@ == input.map_info.zones@,
            p == (|z: Zone| z.pos == pos),
            forall|j: int| 0 <= j < i ==> !p(#[trigger] zones@[j]),
        decreases zones@.len() - i,
    {
        if zones[i].pos == pos {
            proof {
                assert(is_first(zones@, p, i as int));
                lemma_first_where_at(zones@, p, i as int);
            }
            let item = zones[i].neutral_type.clone();
            let before = count_items(&role.backpack, item.as_str());
            return Some(EconomyAction::Collect { item, before });
        }
        i = i + 1;
    }
    proof { lemma_first_where_none(zones@, p); }
    None
}

fn sell_checkpoint(input: &Observation, role: &Role, item: &str, quantity: i32) -> (r: Option<EconomyAction>)
    ensures
        (quantity < 0 || count_of(role.backpack@, item@) < quantity || input.team_our.gold_num is None) ==> r is None,
        !(quantity < 0 || count_of(role.backpack@, item@) < quantity || input.team_our.gold_num is None) ==>
            (r matches Some(EconomyAction::Sell { item: i, remaining, gold_before }) && i@ == item@
                && remaining == count_of(role.backpack@, item@) - quantity
                && Some(gold_before) == input.team_our.gold_num),
{
    if quantity < 0 {
        return None;
    }
    let count = count_items(&role.backpack, item);
    let q = quantity as usize;
    if count < q {
        return None;
    }
    match input.team_our.gold_num {
        Some(gold_before) => Some(EconomyAction::Sell { item: item.to_string(), remaining: count - q, gold_before }),
        None => None,
    }
}

/// Measures the waiting checkpoint against a frame and the events logged
/// with it; the checkpoint is used up either way.
pub fn reconcile(progress: &mut EconomyProgress, assignee: i64, input: &Observation, events: &[EventRecord])
    requires
        evidence_sorted(old(progress).evidence@),
    ensures
        final(progress).checkpoint is None,
        evidence_sorted(final(progress).evidence@),
        (final(progress).evidence@.to_set(), final(progress).sale_observed) == measured(*old(progress), assignee, *input, events@),
{
    let ghost before = *progress;
    let checkpoint = progress.checkpoint.take();
    let checkpoint = match checkpoint {
        Some(c) => c,
        None => return,
    };
    if checkpoint.effect_round != input.round_no {
        return;
    }
    match checkpoint.action {
        EconomyAction::Collect { item, before: count_before } => {
            match current_item_count(input, assignee, item.as_str()) {
                Some(count) => {
                    if count <= count_before {
                        return;
                    }
                },
                None => return,
            }
            match inventory_evidence(events, assignee, input.round_no) {
                Some(e) => add_evidence(&mut progress.evidence, e),
                None => {},
            }
        },
        EconomyAction::Sell { item, remaining, gold_before } => {
            if progress.evidence.len() == 0 {
                return;
            }
            match current_item_count(input, assignee, item.as_str()) {
                Some(count) => {
                    if count > remaining {
                        return;
                    }
                },
                None => return,
            }
            let inventory = inventory_evidence(events, assignee, input.round_no);
            let gold = gold_evidence(events, input.round_no, gold_before);
            match (inventory, gold) {
                (Some(a), Some(b)) => {
                    add_evidence(&mut progress.evidence, a);
                    add_evidence(&mut progress.evidence, b);
                    progress.sale_observed = true;
                },
                _ => {},
            }
        },
    }
}

fn current_item_count(input: &Observation, actor: i64, item: &str) -> (r: Option<usize>)
    ensures
        match carried(*input, actor, item@) {
            Some(n) => r is Some && r->0 == n,
            None => r is None,
        },
{
    match find_role(&input.team_our.roles, actor) {
        Some(i) => Some(count_items(&input.team_our.roles[i].backpack, item)),
        None => None,
    }
}

fn inventory_evidence(events: &[EventRecord], actor: i64, round: i32) -> (r: Option<GoalEvidence>)
    ensures
        match inventory_record(events@, actor, round) {
            Some(rec) => r == Some(event_evidence_of(rec)),
            None => r is None,
        },
{
    let ghost p = |r: EventRecord| is_inventory_change(r, actor, round);
    let mut i: usize = 0;
    while i < events.len()
        invariant
            i <= events@.len(),
            p == (|r: EventRecord| is_inventory_change(r, actor, round)),
            forall|j: int| 0 <= j < i ==> !p(#[trigger] events@[j]),
        decreases events@.len() - i,
    {
        let r = events[i];
        if r.observed_round == round && r.event == WorldEvent::InventoryChanged(actor) {
            proof {
                assert(is_first(events@, p, i as int));
                lemma_first_where_at(events@, p, i as int);
            }
            return Some(GoalEvidence::EventObserved { event: r.id, observed_round: r.observed_round });
        }
        i = i + 1;
    }
    proof { lemma_first_where_none(events@, p); }
    None
}

fn gold_evidence(events: &[EventRecord], round: i32, before: i32) -> (r: Option<GoalEvidence>)
    ensures
        match gold_record(events@, round, before) {
            Some(rec) => r == Some(event_evidence_of(rec)),
            None => r is None,
        },
{
    let ghost p = |r: EventRecord| is_gold_rise(r, round, before);
    let mut i: usize = 0;
    while i < events.len()
        invariant
            i <= events@.len(),
            p == (|r: EventRecord| is_gold_rise(r, round, before)),
            forall|j: int| 0 <= j < i ==> !p(#[trigger] events@[j]),
        decreases events@.len() - i,
    {
        let r = events[i];
        let rise = match r.event {
            WorldEvent::GoldChanged { previous, current } => previous == before && current > previous,
            _ => false,
        };
        if r.observed_round == round && rise {
            proof {
                assert(is_first(events@, p, i as int));
                lemma_first_where_at(events@, p, i as int);
            }
            return Some(GoalEvidence::EventObserved { event: r.id, observed_round: r.observed_round });
        }
        i = i + 1;
    }
    proof { lemma_first_where_none(events@, p); }
    None
}

} // verus!
