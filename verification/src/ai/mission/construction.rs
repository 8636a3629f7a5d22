use vstd::prelude::*;

use crate::ai::tactics::{
    PathResult, lemma_found_distance, lemma_walk_distance_unique, lemma_walk_fails, next_step,
    stand_at, walk_distance, walk_fails, walk_toward,
};
use crate::collections::{SortedMap, first_where, lemma_first_where_at, lemma_first_where_none};
use crate::command::{count_live_weapons, find_station, live_weapon_count, spec_station};
use crate::domain::{Action, ActionView, Observation, Pos, Role, alive, is_alive};
use crate::rules::build::{BuildArea, ring_cell, weapon_sites};
use crate::rules::constants::{
    ACTION_RESULT_GRACE_ROUNDS, MAX_WEAPONS, NEIGHBOR_RANGE, NO_HEALTH, WEAPON_BUILD_GOLD,
};
use crate::rules::geometry::{spec_distance, spec_station_gap, station_gap, wide_distance};
use crate::text::str_eq;
use crate::world::view::{WorldView, spec_can_enter};

verus! {

/// A weapon a worker was set to build, where, and the round the build
/// command was sent.
#[derive(Clone, Debug)]
pub struct BuildPlan {
    pub kind: String,
    pub site: Pos,
    pub sent_round: Option<i32>,
}

/// The worker is on the field and alive.
pub open spec fn plan_actor_alive(o: Observation, worker: i64) -> bool {
    exists|i: int| 0 <= i < o.team_our.roles@.len() && (#[trigger] o.team_our.roles@[i]).id == worker
        && is_alive(o.team_our.roles@[i])
}

/// A live building of the planned kind stands on the site.
pub open spec fn plan_built(o: Observation, kind: Seq<char>, site: Pos) -> bool {
    exists|i: int| 0 <= i < o.team_our.roles@.len() && (#[trigger] o.team_our.roles@[i]).pos == site
        && o.team_our.roles@[i].role_type@ == kind && is_alive(o.team_our.roles@[i])
}

/// Another live unit of the team stands on the site.
pub open spec fn site_taken(o: Observation, worker: i64, site: Pos) -> bool {
    exists|i: int| 0 <= i < o.team_our.roles@.len() && (#[trigger] o.team_our.roles@[i]).pos == site
        && o.team_our.roles@[i].id != worker && is_alive(o.team_our.roles@[i])
}

/// The result entry of a unit.
pub open spec fn entry_of(worker: i64) -> spec_fn((i64, bool)) -> bool {
    |e: (i64, bool)| e.0 == worker
}

/// The judge's verdict on the worker's last command, if it reported one.
pub open spec fn spec_feedback(o: Observation, worker: i64) -> Option<bool> {
    match first_where(o.last_round_role_action_results@, entry_of(worker)) {
        Some(e) => Some(e.1),
        None => None,
    }
}

/// Whether a plan is over, and if so whether its site proved unusable:
/// a dead worker or a finished building closes it cleanly; another unit
/// on the site, a refused build, or a build that showed nothing within the
/// grace rounds closes it and marks the site bad; otherwise it goes on.
pub open spec fn plan_outcome(o: Observation, worker: i64, plan: BuildPlan) -> Option<bool> {
    if !plan_actor_alive(o, worker) {
        Some(false)
    } else if plan_built(o, plan.kind@, plan.site) {
        Some(false)
    } else if site_taken(o, worker, plan.site) {
        Some(true)
    } else {
        match plan.sent_round {
            None => None,
            Some(sent) => if spec_feedback(o, worker) == Some(false) || o.round_no - sent > ACTION_RESULT_GRACE_ROUNDS {
                Some(true)
            } else {
                None
            },
        }
    }
}

fn actor_alive(observation: &Observation, worker: i64) -> (r: bool)
    ensures
        r == plan_actor_alive(*observation, worker),
{
    let roles = &observation.team_our.roles;
    let mut i: usize = 0;
    while i < roles.len()
        invariant
            roles == &observation.team_our.roles,
            i <= roles@.len(),
            forall|j: int| 0 <= j < i ==> !((#[trigger] roles@[j]).id == worker && is_alive(roles@[j])),
        decreases roles@.len() - i,
    {
        if roles[i].id == worker && alive(&roles[i]) {
            return true;
        }
        i = i + 1;
    }
    false
}

fn built(observation: &Observation, kind: &str, site: Pos) -> (r: bool)
    ensures
        r == plan_built(*observation, kind@, site),
{
    let roles = &observation.team_our.roles;
    let mut i: usize = 0;
    while i < roles.len()
        invariant
            roles == &observation.team_our.roles,
            i <= roles@.len(),
            forall|j: int| 0 <= j < i ==> !((#[trigger] roles@[j]).pos == site && roles@[j].role_type@ == kind@
                && is_alive(roles@[j])),
        decreases roles@.len() - i,
    {
        if roles[i].pos == site && str_eq(roles[i].role_type.as_str(), kind) && alive(&roles[i]) {
            return true;
        }
        i = i + 1;
    }
    false
}

fn taken(observation: &Observation, worker: i64, site: Pos) -> (r: bool)
    ensures
        r == site_taken(*observation, worker, site),
{
    let roles = &observation.team_our.roles;
    let mut i: usize = 0;
    while i < roles.len()
        invariant
            roles == &observation.team_our.roles,
            i <= roles@.len(),
            forall|j: int| 0 <= j < i ==> !((#[trigger] roles@[j]).pos == site && roles@[j].id != worker
                && is_alive(roles@[j])),
        decreases roles@.len() - i,
    {
        if roles[i].pos == site && roles[i].id != worker && alive(&roles[i]) {
            return true;
        }
        i = i + 1;
    }
    false
}

/// The judge's verdict on a unit's last command, if it reported one.
pub fn feedback(observation: &Observation, worker: i64) -> (r: Option<bool>)
    ensures
        r == spec_feedback(*observation, worker),
{
    let results = &observation.last_round_role_action_results;
    let ghost p = entry_of(worker);
    let mut i: usize = 0;
    while i < results.len()
        invariant
            results == &observation.last_round_role_action_results,
            i <= results@.len(),
            p == entry_of(worker),
            forall|j: int| 0 <= j < i ==> !p(#[trigger] results@[j]),
        decreases results@.len() - i,
    {
        if results[i].0 == worker {
            proof { lemma_first_where_at(results@, p, i as int); }
            return Some(results[i].1);
        }
        i = i + 1;
    }
    proof { lemma_first_where_none(results@, p); }
    None
}

/// Whether a worker's plan is over, and whether its site proved unusable.
pub fn plan_finished(observation: &Observation, worker: i64, plan: &BuildPlan) -> (r: Option<bool>)
    ensures
        r == plan_outcome(*observation, worker, *plan),
{
    if !actor_alive(observation, worker) {
        return Some(false);
    }
    if built(observation, plan.kind.as_str(), plan.site) {
        return Some(false);
    }
    if taken(observation, worker, plan.site) {
        return Some(true);
    }
    let sent = match plan.sent_round {
        Some(sent) => sent,
        None => return None,
    };
    let expired = (observation.round_no as i64) - (sent as i64) > ACTION_RESULT_GRACE_ROUNDS as i64;
    if feedback(observation, worker) == Some(false) || expired {
        Some(true)
    } else {
        None
    }
}

/// The plans that go on after this observation.
pub open spec fn kept_plans(o: Observation, plans: Map<i64, BuildPlan>) -> Map<i64, BuildPlan> {
    plans.restrict(Set::new(|w: i64| plans.contains_key(w) && plan_outcome(o, w, plans[w]) is None))
}

/// The sites of the plans that closed as unusable.
pub open spec fn rejected_sites(o: Observation, plans: Map<i64, BuildPlan>) -> Set<Pos> {
    Set::new(|p: Pos| exists|w: i64| #[trigger] plans.contains_key(w) && plan_outcome(o, w, plans[w]) == Some(true)
        && plans[w].site == p)
}

/// Drops the plans that are over, and remembers the sites that proved
/// unusable.
pub fn refresh(observation: &Observation, plans: &mut SortedMap<i64, BuildPlan>, bad_sites: &mut Vec<Pos>)
    requires
        old(plans).well_formed(),
    ensures
        final(plans).well_formed(),
        final(plans).view() == kept_plans(*observation, old(plans).view()),
        final(bad_sites)@.to_set() == old(bad_sites)@.to_set().union(rejected_sites(*observation, old(plans).view())),
{
    let ghost start = plans.view();
    proof { plans.lemma_view(); }
    let mut finished: Vec<(i64, Pos, bool)> = Vec::new();
    let n: usize = plans.len();
    let mut i: usize = 0;
    while i < n
        invariant
            plans.well_formed(),
            plans.view() == start,
            n == plans.entries().len(),
            i <= n,
            forall|k: int| 0 <= k < finished@.len() ==> {
                let f = #[trigger] finished@[k];
                &&& start.contains_key(f.0)
                &&& plan_outcome(*observation, f.0, start[f.0]) == Some(f.2)
                &&& start[f.0].site == f.1
            },
            forall|w: i64| start.contains_key(w) && plan_outcome(*observation, w, start[w]) is Some
                && (exists|j: int| 0 <= j < i && plans.entries()[j].0 == w)
                ==> exists|k: int| 0 <= k < finished@.len() && (#[trigger] finished@[k]).0 == w,
        decreases n - i,
    {
        let (worker, plan) = plans.entry_at(i);
        proof {
            plans.lemma_view();
            assert(plans.view().contains_key(plans.entries()[i as int].0));
            assert(start.contains_key(*worker) && start[*worker] == *plan);
        }
        let outcome = plan_finished(observation, *worker, plan);
        let ghost old_finished = finished@;
        match outcome {
            Some(rejected) => {
                finished.push((*worker, plan.site, rejected));
                proof {
                    assert(finished@[finished@.len() - 1].0 == *worker);
                }
            },
            None => {},
        }
        proof {
            assert forall|w: i64| start.contains_key(w) && plan_outcome(*observation, w, start[w]) is Some
                && (exists|j: int| 0 <= j < i + 1 && plans.entries()[j].0 == w)
                implies exists|k: int| 0 <= k < finished@.len() && (#[trigger] finished@[k]).0 == w by {
                let j = choose|j: int| 0 <= j < i + 1 && plans.entries()[j].0 == w;
                if j == i {
                    assert(w == *worker);
                    assert(outcome is Some);
                    assert(finished@[finished@.len() - 1].0 == w);
                } else {
                    assert(exists|j2: int| 0 <= j2 < i && plans.entries()[j2].0 == w);
                    let k0 = choose|k0: int| 0 <= k0 < old_finished.len() && (#[trigger] old_finished[k0]).0 == w;
                    assert(finished@[k0] == old_finished[k0]);
                }
            }
        }
        i = i + 1;
    }
    proof {
        assert forall|w: i64| start.contains_key(w) && plan_outcome(*observation, w, start[w]) is Some
            implies exists|k: int| 0 <= k < finished@.len() && (#[trigger] finished@[k]).0 == w by {
            let j = choose|j: int| 0 <= j < plans.entries().len() && plans.entries()[j].0 == w;
        }
    }
    let ghost bad_start = bad_sites@;
    let mut k: usize = 0;
    while k < finished.len()
        invariant
            plans.well_formed(),
            k <= finished@.len(),
            forall|q: int| 0 <= q < finished@.len() ==> {
                let f = #[trigger] finished@[q];
                &&& start.contains_key(f.0)
                &&& plan_outcome(*observation, f.0, start[f.0]) == Some(f.2)
                &&& start[f.0].site == f.1
            },
            forall|w: i64| start.contains_key(w) && plan_outcome(*observation, w, start[w]) is Some
                ==> exists|q: int| 0 <= q < finished@.len() && (#[trigger] finished@[q]).0 == w,
            forall|w: i64| plans.view().contains_key(w) <==> start.contains_key(w)
                && !(exists|q: int| 0 <= q < k && (#[trigger] finished@[q]).0 == w),
            forall|w: i64| #[trigger] plans.view().contains_key(w) ==> plans.view()[w] == start[w],
            forall|p: Pos| #[trigger] bad_sites@.contains(p) <==> bad_start.contains(p)
                || exists|q: int| 0 <= q < k && (#[trigger] finished@[q]).2 && finished@[q].1 == p,
        decreases finished@.len() - k,
    {
        let (worker, site, rejected) = finished[k];
        plans.remove(&worker);
        let ghost before = bad_sites@;
        assert(forall|p: Pos| #[trigger] before.contains(p) <==> bad_start.contains(p)
            || exists|q: int| 0 <= q < k && (#[trigger] finished@[q]).2 && finished@[q].1 == p);
        if rejected && !contains_site(bad_sites, site) {
            bad_sites.push(site);
            assert(bad_sites@ == before.push(site));
            assert(bad_sites@[before.len() as int] == site);
        }
        proof {
            assert forall|p: Pos| before.contains(p) implies bad_sites@.contains(p) by {
                let j = choose|j: int| 0 <= j < before.len() && before[j] == p;
                assert(bad_sites@[j] == p);
            }
            assert forall|p: Pos| bad_sites@.contains(p) implies before.contains(p) || (rejected && p == site) by {
                let j = choose|j: int| 0 <= j < bad_sites@.len() && bad_sites@[j] == p;
                if j < before.len() {
                    assert(before[j] == p);
                }
            }
            assert(rejected ==> bad_sites@.contains(site));
            assert forall|w: i64| plans.view().contains_key(w) <==> start.contains_key(w)
                && !(exists|q: int| 0 <= q < k + 1 && (#[trigger] finished@[q]).0 == w) by {
                if exists|q: int| 0 <= q < k + 1 && (#[trigger] finished@[q]).0 == w {
                    let q = choose|q: int| 0 <= q < k + 1 && (#[trigger] finished@[q]).0 == w;
                    if q < k {
                        assert(exists|q2: int| 0 <= q2 < k && (#[trigger] finished@[q2]).0 == w);
                    }
                }
                if !plans.view().contains_key(w) && start.contains_key(w) && w != worker {
                    let q = choose|q: int| 0 <= q < k && (#[trigger] finished@[q]).0 == w;
                    assert(0 <= q < k + 1);
                }
            }
            assert forall|p: Pos| bad_sites@.contains(p) <==> bad_start.contains(p)
                || exists|q: int| 0 <= q < k + 1 && (#[trigger] finished@[q]).2 && finished@[q].1 == p by {
                if exists|q: int| 0 <= q < k + 1 && (#[trigger] finished@[q]).2 && finished@[q].1 == p {
                    let q = choose|q: int| 0 <= q < k + 1 && (#[trigger] finished@[q]).2 && finished@[q].1 == p;
                    if q < k {
                        assert(exists|q2: int| 0 <= q2 < k && (#[trigger] finished@[q2]).2 && finished@[q2].1 == p);
                        assert(before.contains(p));
                    } else {
                        assert(rejected && site == p);
                    }
                    assert(bad_sites@.contains(p));
                }
                if bad_start.contains(p) {
                    assert(before.contains(p));
                }
                if bad_sites@.contains(p) && !bad_start.contains(p) {
                    if before.contains(p) {
                        let q = choose|q: int| 0 <= q < k && (#[trigger] finished@[q]).2 && finished@[q].1 == p;
                        assert(0 <= q < k + 1);
                    } else {
                        assert(finished@[k as int].2 && finished@[k as int].1 == p);
                    }
                }
            }
        }
        k = k + 1;
    }
    proof {
        let kept = kept_plans(*observation, start);
        assert forall|w: i64| plans.view().contains_key(w) <==> kept.contains_key(w) by {
            if start.contains_key(w) && plan_outcome(*observation, w, start[w]) is Some {
                let q = choose|q: int| 0 <= q < finished@.len() && (#[trigger] finished@[q]).0 == w;
                assert(0 <= q < k);
            }
            if exists|q: int| 0 <= q < k && (#[trigger] finished@[q]).0 == w {
                let q = choose|q: int| 0 <= q < k && (#[trigger] finished@[q]).0 == w;
                assert(finished@[q].0 == w);
            }
        }
        assert(plans.view() =~= kept);
        let rejected = rejected_sites(*observation, start);
        assert forall|p: Pos| bad_sites@.to_set().contains(p) <==> bad_start.to_set().union(rejected).contains(p) by {
            if exists|q: int| 0 <= q < k && (#[trigger] finished@[q]).2 && finished@[q].1 == p {
                let q = choose|q: int| 0 <= q < k && (#[trigger] finished@[q]).2 && finished@[q].1 == p;
                let w = finished@[q].0;
                assert(start.contains_key(w));
            }
            if rejected.contains(p) {
                assert(exists|w: i64| #[trigger] start.contains_key(w) && plan_outcome(*observation, w, start[w]) == Some(true)
                    && start[w].site == p);
                let w = choose|w: i64| #[trigger] start.contains_key(w) && plan_outcome(*observation, w, start[w]) == Some(true)
                    && start[w].site == p;
                assert(plan_outcome(*observation, w, start[w]) is Some);
                let q = choose|q: int| 0 <= q < finished@.len() && (#[trigger] finished@[q]).0 == w;
                let f = finished@[q];
                assert(plan_outcome(*observation, f.0, start[f.0]) == Some(f.2));
                assert(f.2 && f.1 == p);
                assert(0 <= q < k);
                assert(bad_sites@.contains(p));
            }
        }
        assert(bad_sites@.to_set() =~= bad_start.to_set().union(rejected));
    }
}

/// Whether a list of cells holds a cell.
pub fn contains_site(sites: &Vec<Pos>, site: Pos) -> (r: bool)
    ensures
        r == sites@.contains(site),
{
    let mut i: usize = 0;
    while i < sites.len()
        invariant
            i <= sites@.len(),
            forall|j: int| 0 <= j < i ==> sites@[j] != site,
        decreases sites@.len() - i,
    {
        if sites[i] == site {
            return true;
        }
        i = i + 1;
    }
    false
}

/// The weapons a base is opened with, in the order they are planned.
pub open spec fn opening_loadout() -> Seq<Seq<char>> {
    seq!["gatling"@, "railgun"@, "rocket"@]
}

/// Some unit of the team, alive or not, is of the kind.
pub open spec fn kind_present(roles: Seq<Role>, kind: Seq<char>) -> bool {
    exists|i: int| 0 <= i < roles.len() && (#[trigger] roles[i]).role_type@ == kind
}

/// Some plan builds the kind.
pub open spec fn kind_planned(plans: Map<i64, BuildPlan>, kind: Seq<char>) -> bool {
    exists|w: i64| #[trigger] plans.contains_key(w) && plans[w].kind@ == kind
}

/// Some plan builds on the site.
pub open spec fn site_planned(plans: Map<i64, BuildPlan>, site: Pos) -> bool {
    exists|w: i64| #[trigger] plans.contains_key(w) && plans[w].site == site
}

/// The first weapon of the opening loadout that the team neither has nor
/// plans.
pub open spec fn next_kind(roles: Seq<Role>, plans: Map<i64, BuildPlan>) -> Option<Seq<char>> {
    let free = |k: Seq<char>| !kind_present(roles, k) && !kind_planned(plans, k);
    if free("gatling"@) {
        Some("gatling"@)
    } else if free("railgun"@) {
        Some("railgun"@)
    } else if free("rocket"@) {
        Some("rocket"@)
    } else {
        None
    }
}

/// The gold that one more plan needs on top of the pending ones.
pub open spec fn required_gold(pending: int) -> int {
    if (pending + 1) * WEAPON_BUILD_GOLD > i32::MAX { i32::MAX as int } else { (pending + 1) * WEAPON_BUILD_GOLD }
}

/// A new plan is affordable and fits under the weapon cap.
pub open spec fn plan_allowed(o: Observation, plans: Map<i64, BuildPlan>) -> bool {
    &&& plans.dom().len() <= i32::MAX
    &&& o.team_our.gold_num matches Some(g) && g >= required_gold(plans.dom().len() as int)
    &&& live_weapon_count(o.team_our.roles@) + plans.dom().len() < MAX_WEAPONS
}

/// A cell a worker may be sent to build a weapon on: in the weapon ring of
/// the team's first station, not where the worker stands, free to enter,
/// not known to be unusable and not taken by another plan.
pub open spec fn site_candidate(o: Observation, worker: Role, plans: Map<i64, BuildPlan>, bad: Seq<Pos>, site: Pos) -> bool {
    &&& spec_station(o.team_our.roles@) matches Some(base)
        && ring_cell(base.pos, o.map_info.width as int, o.map_info.height as int, BuildArea::Weapon, site)
    &&& site != worker.pos
    &&& spec_can_enter(&o, site, worker.id)
    &&& !bad.contains(site)
    &&& !site_planned(plans, site)
}

/// The worker can walk to a cell beside the site.
pub open spec fn site_reachable(o: Observation, worker: Role, site: Pos) -> bool {
    exists|r: PathResult| #[trigger] walk_toward(&o, worker.id, worker.pos, stand_at(o, site, worker.id), r)
}

fn kind_free(observation: &Observation, plans: &SortedMap<i64, BuildPlan>, kind: &str) -> (r: bool)
    requires
        plans.well_formed(),
    ensures
        r == (!kind_present(observation.team_our.roles@, kind@) && !kind_planned(plans.view(), kind@)),
{
    let roles = &observation.team_our.roles;
    let mut i: usize = 0;
    while i < roles.len()
        invariant
            roles == &observation.team_our.roles,
            i <= roles@.len(),
            forall|j: int| 0 <= j < i ==> (#[trigger] roles@[j]).role_type@ != kind@,
        decreases roles@.len() - i,
    {
        if str_eq(roles[i].role_type.as_str(), kind) {
            return false;
        }
        i = i + 1;
    }
    proof { plans.lemma_view(); }
    let n: usize = plans.len();
    let mut k: usize = 0;
    while k < n
        invariant
            plans.well_formed(),
            n == plans.entries().len(),
            k <= n,
            forall|j: int| 0 <= j < k ==> (#[trigger] plans.entries()[j]).1.kind@ != kind@,
        decreases n - k,
    {
        let (_, plan) = plans.entry_at(k);
        if str_eq(plan.kind.as_str(), kind) {
            proof {
                plans.lemma_view();
                assert(plans.view().contains_key(plans.entries()[k as int].0));
            }
            return false;
        }
        k = k + 1;
    }
    proof {
        plans.lemma_view();
        assert forall|w: i64| #[trigger] plans.view().contains_key(w) implies plans.view()[w].kind@ != kind@ by {
            let j = choose|j: int| 0 <= j < plans.entries().len() && plans.entries()[j].0 == w;
            assert(plans.entries()[j].1.kind@ != kind@);
        }
    }
    true
}

fn site_free(plans: &SortedMap<i64, BuildPlan>, site: Pos) -> (r: bool)
    requires
        plans.well_formed(),
    ensures
        r == !site_planned(plans.view(), site),
{
    proof { plans.lemma_view(); }
    let n: usize = plans.len();
    let mut k: usize = 0;
    while k < n
        invariant
            plans.well_formed(),
            n == plans.entries().len(),
            k <= n,
            forall|j: int| 0 <= j < k ==> (#[trigger] plans.entries()[j]).1.site != site,
        decreases n - k,
    {
        let (_, plan) = plans.entry_at(k);
        if plan.site == site {
            proof {
                plans.lemma_view();
                assert(plans.view().contains_key(plans.entries()[k as int].0));
            }
            return false;
        }
        k = k + 1;
    }
    proof {
        plans.lemma_view();
        assert forall|w: i64| #[trigger] plans.view().contains_key(w) implies plans.view()[w].site != site by {
            let j = choose|j: int| 0 <= j < plans.entries().len() && plans.entries()[j].0 == w;
            assert(plans.entries()[j].1.site != site);
        }
    }
    true
}

/// The next weapon kind to plan, if any.
pub fn choose_kind(observation: &Observation, plans: &SortedMap<i64, BuildPlan>) -> (r: Option<String>)
    requires
        plans.well_formed(),
    ensures
        match next_kind(observation.team_our.roles@, plans.view()) {
            Some(k) => r matches Some(s) && s@ == k,
            None => r is None,
        },
{
    if kind_free(observation, plans, "gatling") {
        return Some("gatling".to_string());
    }
    if kind_free(observation, plans, "railgun") {
        return Some("railgun".to_string());
    }
    if kind_free(observation, plans, "rocket") {
        return Some("rocket".to_string());
    }
    None
}

/// Site `s`, `ns` moves away, comes no later than site `p`, `np` moves
/// away: nearer the base, then fewer moves, then by row and column.
pub open spec fn site_first(base: Pos, s: Pos, ns: int, p: Pos, np: int) -> bool {
    let gs = spec_station_gap(base, s);
    let gp = spec_station_gap(base, p);
    gs < gp || (gs == gp && (ns < np || (ns == np && (s.y < p.y || (s.y == p.y && s.x <= p.x)))))
}

/// The worker's walking distance to a cell beside `site` is `steps`.
pub open spec fn site_distance(o: Observation, worker: Role, site: Pos, steps: int) -> bool {
    walk_distance(&o, worker.id, worker.pos, stand_at(o, site, worker.id), steps)
}

/// No walk to a cell beside `site` was found for the worker.
pub open spec fn site_walk_fails(o: Observation, worker: Role, site: Pos) -> bool {
    walk_fails(&o, worker.id, worker.pos, stand_at(o, site, worker.id))
}

/// `s`, `ns` moves away, comes no later than every candidate that a walk
/// was found to.
pub open spec fn site_beats_all(o: Observation, worker: Role, plans: Map<i64, BuildPlan>, bad: Seq<Pos>, base: Pos, s: Pos, ns: int) -> bool {
    forall|p: Pos| #[trigger] site_candidate(o, worker, plans, bad, p) ==> site_walk_fails(o, worker, p)
        || forall|np: int| #[trigger] site_distance(o, worker, p, np) ==> site_first(base, s, ns, p, np)
}

/// `site` is a walk of some number of moves away, and comes no later
/// than every candidate a walk was found to.
pub open spec fn site_chosen(o: Observation, worker: Role, plans: Map<i64, BuildPlan>, bad: Seq<Pos>, site: Pos) -> bool {
    spec_station(o.team_our.roles@) matches Some(base)
        && exists|ns: int| #[trigger] site_distance(o, worker, site, ns)
            && site_beats_all(o, worker, plans, bad, base.pos, site, ns)
}

/// The best cell of the weapon ring for a worker: among the candidates it
/// can walk beside, one nearest the base, then by the fewest steps, then
/// by row and column.
#[verifier::rlimit(40)]
pub fn choose_site(observation: &Observation, worker: &Role, plans: &SortedMap<i64, BuildPlan>, bad_sites: &Vec<Pos>) -> (r: Option<Pos>)
    requires
        plans.well_formed(),
    ensures
        r matches Some(site) ==> site_candidate(*observation, *worker, plans.view(), bad_sites@, site)
            && site_reachable(*observation, *worker, site),
        r matches Some(site) ==> site_chosen(*observation, *worker, plans.view(), bad_sites@, site),
        r is None ==> forall|p: Pos| #[trigger] site_candidate(*observation, *worker, plans.view(), bad_sites@, p)
            ==> site_walk_fails(*observation, *worker, p),
        (forall|p: Pos| !site_candidate(*observation, *worker, plans.view(), bad_sites@, p)) ==> r is None,
{
    let ghost o = *observation;
    let ghost w = *worker;
    let ghost pm = plans.view();
    let ghost bad = bad_sites@;
    let view = WorldView::new(observation);
    let base = match find_station(&observation.team_our.roles) {
        Some(i) => observation.team_our.roles[i].pos,
        None => return None,
    };
    let sites = weapon_sites(base, observation.map_info.width, observation.map_info.height);
    let mut best: Option<(Pos, i64, i32)> = None;
    let mut i: usize = 0;
    while i < sites.len()
        invariant
            view.observation == observation,
            o == *observation,
            w == *worker,
            pm == plans.view(),
            bad == bad_sites@,
            plans.well_formed(),
            spec_station(observation.team_our.roles@) matches Some(b) && b.pos == base,
            forall|j: int| 0 <= j < sites@.len() ==> ring_cell(base, observation.map_info.width as int,
                observation.map_info.height as int, BuildArea::Weapon, #[trigger] sites@[j]),
            i <= sites@.len(),
            best matches Some(b) ==> site_candidate(o, w, pm, bad, b.0) && site_reachable(o, w, b.0)
                && b.1 == spec_station_gap(base, b.0) && site_distance(o, w, b.0, b.2 as int),
            best matches Some(b) ==> forall|j: int| 0 <= j < i && #[trigger] site_candidate(o, w, pm, bad, sites@[j])
                ==> site_walk_fails(o, w, sites@[j])
                    || forall|np: int| #[trigger] site_distance(o, w, sites@[j], np) ==> site_first(base, b.0, b.2 as int, sites@[j], np),
            best is None ==> forall|j: int| 0 <= j < i && #[trigger] site_candidate(o, w, pm, bad, sites@[j])
                ==> site_walk_fails(o, w, sites@[j]),
        decreases sites@.len() - i,
    {
        let site = sites[i];
        if site != worker.pos && view.can_enter(site, worker.id) && !contains_site(bad_sites, site)
            && site_free(plans, site) {
            assert(site_candidate(o, w, pm, bad, site));
            let stands = view.interact_positions(site, worker.id);
            let ghost stand = stand_at(o, site, worker.id);
            match next_step(&view, worker.id, worker.pos, stands.as_slice()) {
                Some(path) => {
                    proof {
                        lemma_found_distance(observation, worker.id, worker.pos, stands@, stand, path);
                        assert(site_reachable(o, w, site));
                    }
                    let gap = station_gap(base, site);
                    let better = match best {
                        None => true,
                        Some((b, bgap, bsteps)) => gap < bgap || (gap == bgap && (path.steps < bsteps
                            || (path.steps == bsteps && (site.y < b.y || (site.y == b.y && site.x < b.x))))),
                    };
                    proof {
                        assert forall|np: int| #[trigger] site_distance(o, w, site, np) implies np == path.steps by {
                            lemma_walk_distance_unique(observation, worker.id, worker.pos, stand, np, path.steps as int);
                        }
                    }
                    if better {
                        proof {
                            if let Some((b, bgap, bsteps)) = best {
                                assert forall|j: int| 0 <= j < i + 1 && #[trigger] site_candidate(o, w, pm, bad, sites@[j])
                                    implies site_walk_fails(o, w, sites@[j])
                                    || forall|np: int| #[trigger] site_distance(o, w, sites@[j], np) ==> site_first(base, site, path.steps as int, sites@[j], np) by {
                                    if j < i && !site_walk_fails(o, w, sites@[j]) {
                                        assert forall|np: int| #[trigger] site_distance(o, w, sites@[j], np)
                                            implies site_first(base, site, path.steps as int, sites@[j], np) by {
                                            assert(site_first(base, b, bsteps as int, sites@[j], np));
                                        }
                                    }
                                }
                            } else {
                                assert forall|j: int| 0 <= j < i + 1 && #[trigger] site_candidate(o, w, pm, bad, sites@[j])
                                    implies site_walk_fails(o, w, sites@[j])
                                    || forall|np: int| #[trigger] site_distance(o, w, sites@[j], np) ==> site_first(base, site, path.steps as int, sites@[j], np) by {
                                    if j < i {
                                        assert(site_walk_fails(o, w, sites@[j]));
                                    }
                                }
                            }
                        }
                        best = Some((site, gap, path.steps));
                    } else {
                        proof {
                            let (b, bgap, bsteps) = best.unwrap();
                            assert(site_first(base, b, bsteps as int, site, path.steps as int));
                        }
                    }
                },
                None => {
                    proof {
                        lemma_walk_fails(observation, worker.id, worker.pos, stands@, stand);
                    }
                },
            }
        } else {
            proof {
                assert(!site_candidate(o, w, pm, bad, site));
            }
        }
        i = i + 1;
    }
    proof {
        assert forall|p: Pos| #[trigger] site_candidate(o, w, pm, bad, p) implies sites@.contains(p) by {}
    }
    match best {
        Some((site, _, steps)) => {
            proof {
                assert forall|p: Pos| #[trigger] site_candidate(o, w, pm, bad, p) implies site_walk_fails(o, w, p)
                    || forall|np: int| #[trigger] site_distance(o, w, p, np) ==> site_first(base, site, steps as int, p, np) by {
                    let j = choose|j: int| 0 <= j < sites@.len() && sites@[j] == p;
                }
                assert(site_beats_all(o, w, pm, bad, base, site, steps as int));
                assert(site_distance(o, w, site, steps as int));
                assert(site_chosen(o, w, pm, bad, site));
            }
            Some(site)
        },
        None => {
            proof {
                assert forall|p: Pos| #[trigger] site_candidate(o, w, pm, bad, p) implies site_walk_fails(o, w, p) by {
                    let j = choose|j: int| 0 <= j < sites@.len() && sites@[j] == p;
                }
            }
            None
        },
    }
}

/// A fresh plan for a worker: allowed, for the next weapon of the
/// loadout, on a candidate site the worker can walk beside, not yet sent.
pub open spec fn fresh_plan(o: Observation, worker: Role, plans: Map<i64, BuildPlan>, bad: Seq<Pos>, plan: BuildPlan) -> bool {
    &&& plan_allowed(o, plans)
    &&& next_kind(o.team_our.roles@, plans) == Some(plan.kind@)
    &&& plan.sent_round is None
    &&& site_candidate(o, worker, plans, bad, plan.site)
    &&& site_reachable(o, worker, plan.site)
}

/// A new plan for a worker, when one is allowed.
pub fn choose_plan(observation: &Observation, worker: &Role, plans: &SortedMap<i64, BuildPlan>, bad_sites: &Vec<Pos>) -> (r: Option<BuildPlan>)
    requires
        plans.well_formed(),
    ensures
        r matches Some(p) ==> fresh_plan(*observation, *worker, plans.view(), bad_sites@, p),
        r matches Some(p) ==> site_chosen(*observation, *worker, plans.view(), bad_sites@, p.site),
        plan_allowed(*observation, plans.view()) && next_kind(observation.team_our.roles@, plans.view()) is Some
            && (exists|p: Pos| #[trigger] site_candidate(*observation, *worker, plans.view(), bad_sites@, p)
                && !site_walk_fails(*observation, *worker, p)) ==> r is Some,
        !plan_allowed(*observation, plans.view()) ==> r is None,
        next_kind(observation.team_our.roles@, plans.view()) is None ==> r is None,
        (forall|p: Pos| !site_candidate(*observation, *worker, plans.view(), bad_sites@, p)) ==> r is None,
{
    proof { plans.lemma_view(); }
    let pending = plans.len();
    if pending > i32::MAX as usize {
        return None;
    }
    let wide: i64 = pending as i64;
    assert(wide == pending && wide <= i32::MAX);
    let unit: i64 = WEAPON_BUILD_GOLD as i64;
    assert(0 <= (wide + 1) * unit <= 0x1_0000_0000 * 30) by (nonlinear_arith)
        requires
            0 <= wide <= i32::MAX,
            unit == 30;
    let wanted: i64 = (wide + 1) * unit;
    let required: i64 = if wanted > i32::MAX as i64 { i32::MAX as i64 } else { wanted };
    let gold = match observation.team_our.gold_num {
        Some(g) => g,
        None => return None,
    };
    if (gold as i64) < required {
        return None;
    }
    let existing = count_live_weapons(&observation.team_our.roles);
    if existing >= MAX_WEAPONS || pending >= MAX_WEAPONS - existing {
        return None;
    }
    let kind = match choose_kind(observation, plans) {
        Some(k) => k,
        None => return None,
    };
    let site = match choose_site(observation, worker, plans, bad_sites) {
        Some(s) => s,
        None => return None,
    };
    Some(BuildPlan { kind, site, sent_round: None })
}

/// The command that carries a plan one step on: the build itself from
/// beside the site, otherwise a move along a walk to a cell beside it.
pub open spec fn plan_step(o: Observation, worker: Role, plan: BuildPlan, a: ActionView) -> bool {
    if spec_distance(worker.pos, plan.site) == NEIGHBOR_RANGE {
        a == ActionView::Build { name: plan.kind@, pos: plan.site }
    } else {
        a matches ActionView::Move(p) && exists|r: PathResult| #[trigger] walk_toward(&o, worker.id, worker.pos,
            stand_at(o, plan.site, worker.id), r) && r.next == p && site_distance(o, worker, plan.site, r.steps as int)
    }
}

/// The next command of a plan; `None` only when no walk to the site was
/// found.
pub fn plan_action(observation: &Observation, worker: &Role, plan: &BuildPlan) -> (r: Option<Action>)
    ensures
        r matches Some(a) ==> plan_step(*observation, *worker, *plan, a@),
        spec_distance(worker.pos, plan.site) == NEIGHBOR_RANGE ==> r is Some,
        r is None ==> site_walk_fails(*observation, *worker, plan.site),
{
    if wide_distance(worker.pos, plan.site) == NEIGHBOR_RANGE as i64 {
        return Some(Action::Build { name: plan.kind.clone(), pos: plan.site });
    }
    let view = WorldView::new(observation);
    let stands = view.interact_positions(plan.site, worker.id);
    match next_step(&view, worker.id, worker.pos, stands.as_slice()) {
        Some(path) => {
            proof {
                lemma_found_distance(observation, worker.id, worker.pos, stands@, stand_at(*observation, plan.site, worker.id), path);
            }
            Some(Action::Move(path.next))
        },
        None => {
            proof {
                lemma_walk_fails(observation, worker.id, worker.pos, stands@, stand_at(*observation, plan.site, worker.id));
            }
            None
        },
    }
}

/// The gold the team holds, none counting as nothing.
pub open spec fn gold_held(o: Observation) -> int {
    match o.team_our.gold_num {
        Some(g) => g as int,
        None => NO_HEALTH as int,
    }
}

/// What a live worker does for construction: it keeps its plan, or gets
/// a fresh one when allowed; a plan not yet sent is carried on while the
/// team holds the gold for one weapon.
pub fn worker_action(observation: &Observation, worker: &Role, plans: &mut SortedMap<i64, BuildPlan>, bad_sites: &Vec<Pos>) -> (r: Option<Action>)
    requires
        old(plans).well_formed(),
    ensures
        final(plans).well_formed(),
        !is_alive(*worker) ==> r is None && final(plans).view() == old(plans).view(),
        old(plans).view().contains_key(worker.id) ==> final(plans).view() == old(plans).view(),
        final(plans).view() == old(plans).view() || (is_alive(*worker) && !old(plans).view().contains_key(worker.id)
            && final(plans).view() == old(plans).view().insert(worker.id, final(plans).view()[worker.id])
            && fresh_plan(*observation, *worker, old(plans).view(), bad_sites@, final(plans).view()[worker.id])
            && site_chosen(*observation, *worker, old(plans).view(), bad_sites@, final(plans).view()[worker.id].site)),
        is_alive(*worker) && !old(plans).view().contains_key(worker.id) && plan_allowed(*observation, old(plans).view())
            && next_kind(observation.team_our.roles@, old(plans).view()) is Some
            && (exists|p: Pos| #[trigger] site_candidate(*observation, *worker, old(plans).view(), bad_sites@, p)
                && !site_walk_fails(*observation, *worker, p))
            ==> final(plans).view().contains_key(worker.id),
        is_alive(*worker) && !old(plans).view().contains_key(worker.id) && (!plan_allowed(*observation, old(plans).view())
            || next_kind(observation.team_our.roles@, old(plans).view()) is None)
            ==> final(plans).view() == old(plans).view(),
        r matches Some(a) ==> {
            &&& is_alive(*worker)
            &&& final(plans).view().contains_key(worker.id)
            &&& final(plans).view()[worker.id].sent_round is None
            &&& gold_held(*observation) >= WEAPON_BUILD_GOLD
            &&& plan_step(*observation, *worker, final(plans).view()[worker.id], a@)
        },
        is_alive(*worker) && final(plans).view().contains_key(worker.id) && final(plans).view()[worker.id].sent_round is None
            && gold_held(*observation) >= WEAPON_BUILD_GOLD
            && spec_distance(worker.pos, final(plans).view()[worker.id].site) == NEIGHBOR_RANGE ==> r is Some,
        is_alive(*worker) && final(plans).view().contains_key(worker.id) && final(plans).view()[worker.id].sent_round is None
            && gold_held(*observation) >= WEAPON_BUILD_GOLD && r is None
            ==> site_walk_fails(*observation, *worker, final(plans).view()[worker.id].site),
{
    if !alive(worker) {
        return None;
    }
    if !plans.contains_key(&worker.id) {
        let plan = match choose_plan(observation, worker, plans, bad_sites) {
            Some(p) => p,
            None => return None,
        };
        plans.insert(worker.id, plan);
    }
    let plan = match plans.get(&worker.id) {
        Some(p) => p,
        None => return None,
    };
    if plan.sent_round.is_some() {
        return None;
    }
    let gold = match observation.team_our.gold_num {
        Some(g) => g,
        None => NO_HEALTH,
    };
    if gold < WEAPON_BUILD_GOLD {
        return None;
    }
    plan_action(observation, worker, plan)
}

/// Records the round a worker's build command was sent.
pub fn mark_sent(plans: &mut SortedMap<i64, BuildPlan>, worker: i64, round: i32)
    requires
        old(plans).well_formed(),
    ensures
        final(plans).well_formed(),
        old(plans).view().contains_key(worker) ==> final(plans).view() == old(plans).view().insert(worker,
            BuildPlan { sent_round: Some(round), ..old(plans).view()[worker] }),
        !old(plans).view().contains_key(worker) ==> final(plans).view() == old(plans).view(),
{
    match plans.remove(&worker) {
        Some(mut plan) => {
            plan.sent_round = Some(round);
            plans.insert(worker, plan);
            proof {
                assert(plans.view() =~= old(plans).view().insert(worker, BuildPlan { sent_round: Some(round), ..old(plans).view()[worker] }));
            }
        },
        None => {
            assert(plans.view() =~= old(plans).view());
        },
    }
}

} // verus!
