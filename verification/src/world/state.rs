use vstd::prelude::*;

use crate::collections::{MapKey, SortedMap};
use crate::command::is_ore;
use crate::domain::{Observation, Pos, Role, find_role, has_role, role_by_id};
use crate::event::{EventLog, WorldEvent, WorldIssue};
use crate::fsm::WorldState;
use crate::rules::constants::{NO_COOLDOWN, NO_HEALTH, VERSION_INCREMENT};
use crate::rules::time::{phase, spec_phase};
use crate::text::{is_one_of, str_eq};
use crate::world::memory::{WorldMemory, aged_status, seen_over, trimmed_to};

verus! {

/// Stations, walls and weapons.
pub open spec fn spec_is_building(kind: Seq<char>) -> bool {
    kind == "station"@ || kind == "wall"@ || kind == "gatling"@ || kind == "railgun"@ || kind == "rocket"@
}

pub fn is_building(role: &Role) -> (r: bool)
    ensures
        r == spec_is_building(role.role_type@),
{
    let kinds: [&str; 5] = ["station", "wall", "gatling", "railgun", "rocket"];
    let r = is_one_of(role.role_type.as_str(), &kinds);
    proof {
        let k = role.role_type@;
        if spec_is_building(k) {
            if k == "station"@ { assert(kinds@[0]@ == "station"@); }
            if k == "wall"@ { assert(kinds@[1]@ == "wall"@); }
            if k == "gatling"@ { assert(kinds@[2]@ == "gatling"@); }
            if k == "railgun"@ { assert(kinds@[3]@ == "railgun"@); }
            if k == "rocket"@ { assert(kinds@[4]@ == "rocket"@); }
        }
        if r {
            let i = choose|i: int| 0 <= i < kinds@.len() && k == kinds@[i]@;
            assert(0 <= i < 5);
        }
    }
    r
}

/// A change of phase, when the new round is in the match.
pub open spec fn phase_events(previous: Observation, current: Observation) -> Seq<WorldEvent> {
    match spec_phase(current.round_no as int) {
        Some(p) => if spec_phase(previous.round_no as int) != Some(p) { seq![WorldEvent::PhaseChanged(p)] } else { seq![] },
        None => seq![],
    }
}

/// Death or revival of a unit.
pub open spec fn health_events(before: Role, after: Role) -> Seq<WorldEvent> {
    match (before.health, after.health) {
        (Some(old), Some(new)) => if old > NO_HEALTH && new <= NO_HEALTH {
            seq![WorldEvent::UnitDied(after.id)]
        } else if old <= NO_HEALTH && new > NO_HEALTH {
            seq![WorldEvent::UnitRevived(after.id)]
        } else {
            seq![]
        },
        _ => seq![],
    }
}

pub open spec fn same_items(a: Seq<String>, b: Seq<String>) -> bool {
    a.len() == b.len() && forall|i: int| 0 <= i < a.len() ==> (#[trigger] a[i])@ == b[i]@
}

/// A move, and a change of what the unit carries.
pub open spec fn position_events(before: Role, after: Role) -> Seq<WorldEvent> {
    (if before.pos != after.pos { seq![WorldEvent::UnitMoved { id: after.id, from: before.pos, to: after.pos }] } else { seq![] })
        + (if !same_items(before.backpack@, after.backpack@) { seq![WorldEvent::InventoryChanged(after.id)] } else { seq![] })
}

/// A building whose health or level changed, and a weapon whose cooldown
/// ran out.
pub open spec fn building_events(before: Role, after: Role) -> Seq<WorldEvent> {
    (if spec_is_building(after.role_type@) && (before.health != after.health || before.level != after.level) {
        seq![WorldEvent::BuildingChanged(after.id)]
    } else {
        seq![]
    }) + (if (before.cooldown matches Some(v) && v > NO_COOLDOWN) && after.cooldown == Some(NO_COOLDOWN) {
        seq![WorldEvent::WeaponReady(after.id)]
    } else {
        seq![]
    })
}

pub open spec fn role_events(before: Role, after: Role) -> Seq<WorldEvent> {
    health_events(before, after) + position_events(before, after) + building_events(before, after)
}

/// The changes of every current unit that was seen before, in current
/// order.
pub open spec fn roles_events(previous: Seq<Role>, current: Seq<Role>) -> Seq<WorldEvent>
    decreases current.len(),
{
    if current.len() == 0 {
        seq![]
    } else {
        roles_events(previous, current.drop_last()) + match role_by_id(previous, current.last().id) {
            Some(before) => role_events(before, current.last()),
            None => seq![],
        }
    }
}

/// The buildings of `roles` whose id `other` does not hold.
pub open spec fn building_turnover(roles: Seq<Role>, other: Seq<Role>) -> Seq<WorldEvent>
    decreases roles.len(),
{
    if roles.len() == 0 {
        seq![]
    } else {
        building_turnover(roles.drop_last(), other) + if !has_role(other, roles.last().id) && spec_is_building(roles.last().role_type@) {
            seq![WorldEvent::BuildingChanged(roles.last().id)]
        } else {
            seq![]
        }
    }
}

/// The enemies seen before that are not seen now, in earlier order.
pub open spec fn enemy_events(previous: Seq<Role>, current: Seq<Role>) -> Seq<WorldEvent>
    decreases previous.len(),
{
    if previous.len() == 0 {
        seq![]
    } else {
        enemy_events(previous.drop_last(), current) + if !has_role(current, previous.last().id) {
            seq![WorldEvent::EnemyUnobserved(previous.last().id)]
        } else {
            seq![]
        }
    }
}

pub open spec fn enemy_roles(o: Observation) -> Seq<Role> {
    match o.team_enemy {
        Some(t) => t.roles@,
        None => seq![],
    }
}

/// A cell holds an ore zone.
pub open spec fn mine_at(o: Observation, p: Pos) -> bool {
    exists|i: int| 0 <= i < o.map_info.zones@.len() && (#[trigger] o.map_info.zones@[i]).pos == p
        && is_ore(o.map_info.zones@[i].neutral_type@)
}

/// Cells in increasing (column, row) order, each once.
pub open spec fn increasing_cells(s: Seq<Pos>) -> bool {
    forall|i: int, j: int| 0 <= i < j < s.len() ==> (s[i].x < s[j].x || (s[i].x == s[j].x && s[i].y < s[j].y))
}

/// Gold, challenge and news changes.
pub open spec fn misc_events(previous: Observation, current: Observation) -> Seq<WorldEvent> {
    (match (previous.team_our.gold_num, current.team_our.gold_num) {
        (Some(old), Some(new)) => if old != new { seq![WorldEvent::GoldChanged { previous: old, current: new }] } else { seq![] },
        _ => seq![],
    }) + (if previous.phase_task@.len() == 0 && current.phase_task@.len() > 0 { seq![WorldEvent::ChallengeStarted] } else { seq![] })
        + (if previous.phase_task@.len() > 0 && current.phase_task@.len() == 0 { seq![WorldEvent::ChallengeEnded] } else { seq![] })
        + (if previous.world_news.official_news@ != current.world_news.official_news@
        || previous.world_news.folk_legends@ != current.world_news.folk_legends@ { seq![WorldEvent::NewsChanged] } else { seq![] })
}

/// What the events between two frames are made of, apart from the mines:
/// the parts before and after them.
pub open spec fn events_before_mines(previous: Observation, current: Observation) -> Seq<WorldEvent> {
    seq![WorldEvent::RoundStarted(current.round_no)] + phase_events(previous, current)
        + roles_events(previous.team_our.roles@, current.team_our.roles@)
        + building_turnover(current.team_our.roles@, previous.team_our.roles@)
        + building_turnover(previous.team_our.roles@, current.team_our.roles@)
}

pub open spec fn events_after_mines(previous: Observation, current: Observation) -> Seq<WorldEvent> {
    enemy_events(enemy_roles(previous), enemy_roles(current)) + misc_events(previous, current)
}

/// The mine events: cells where a mine appeared, then cells where one
/// disappeared, each in increasing cell order.
pub open spec fn mine_events(previous: Observation, current: Observation, e: Seq<WorldEvent>) -> bool {
    exists|appeared: Seq<Pos>, gone: Seq<Pos>| {
        &&& increasing_cells(appeared)
        &&& increasing_cells(gone)
        &&& forall|p: Pos| appeared.contains(p) <==> mine_at(current, p) && !mine_at(previous, p)
        &&& forall|p: Pos| gone.contains(p) <==> mine_at(previous, p) && !mine_at(current, p)
        &&& e == appeared.map_values(|p: Pos| WorldEvent::MineAppeared(p)) + gone.map_values(|p: Pos| WorldEvent::MineDisappeared(p))
    }
}

fn push_if(events: &mut Vec<WorldEvent>, cond: bool, event: WorldEvent)
    ensures
        final(events)@ == old(events)@ + (if cond { seq![event] } else { seq![] }),
{
    if cond {
        events.push(event);
    }
    assert(final(events)@ =~= old(events)@ + (if cond { seq![event] } else { seq![] }));
}

fn append_phase(previous: &Observation, current: &Observation, events: &mut Vec<WorldEvent>)
    ensures
        final(events)@ == old(events)@ + phase_events(*previous, *current),
{
    let new_phase = phase(current.round_no);
    let old_phase = phase(previous.round_no);
    match new_phase {
        Some(p) => push_if(events, old_phase != Some(p), WorldEvent::PhaseChanged(p)),
        None => {
            assert(events@ =~= old(events)@ + phase_events(*previous, *current));
        },
    }
}

fn same_backpack(a: &Vec<String>, b: &Vec<String>) -> (r: bool)
    ensures
        r == same_items(a@, b@),
{
    if a.len() != b.len() {
        return false;
    }
    let mut i: usize = 0;
    while i < a.len()
        invariant
            a@.len() == b@.len(),
            i <= a@.len(),
            forall|j: int| 0 <= j < i ==> (#[trigger] a@[j])@ == b@[j]@,
        decreases a@.len() - i,
    {
        if !str_eq(a[i].as_str(), b[i].as_str()) {
            return false;
        }
        i = i + 1;
    }
    true
}

fn append_role_changes(before: &Role, after: &Role, events: &mut Vec<WorldEvent>)
    ensures
        final(events)@ == old(events)@ + role_events(*before, *after),
{
    match (before.health, after.health) {
        (Some(old), Some(new)) => {
            if old > NO_HEALTH && new <= NO_HEALTH {
                events.push(WorldEvent::UnitDied(after.id));
            } else if old <= NO_HEALTH && new > NO_HEALTH {
                events.push(WorldEvent::UnitRevived(after.id));
            }
        },
        _ => {},
    }
    let ghost mid = events@;
    assert(mid =~= old(events)@ + health_events(*before, *after));
    push_if(events, before.pos != after.pos, WorldEvent::UnitMoved { id: after.id, from: before.pos, to: after.pos });
    push_if(events, !same_backpack(&before.backpack, &after.backpack), WorldEvent::InventoryChanged(after.id));
    let ghost mid2 = events@;
    assert(mid2 =~= mid + position_events(*before, *after));
    push_if(events, is_building(after) && (before.health != after.health || before.level != after.level),
        WorldEvent::BuildingChanged(after.id));
    let ready = match before.cooldown {
        Some(v) => v > NO_COOLDOWN && after.cooldown == Some(NO_COOLDOWN),
        None => false,
    };
    push_if(events, ready, WorldEvent::WeaponReady(after.id));
    assert(events@ =~= mid2 + building_events(*before, *after));
    assert(events@ =~= old(events)@ + role_events(*before, *after));
}

fn append_roles(previous: &Observation, current: &Observation, events: &mut Vec<WorldEvent>)
    ensures
        final(events)@ == old(events)@ + roles_events(previous.team_our.roles@, current.team_our.roles@),
{
    let roles = &current.team_our.roles;
    let old_roles = &previous.team_our.roles;
    let mut i: usize = 0;
    while i < roles.len()
        invariant
            roles == &current.team_our.roles,
            old_roles == &previous.team_our.roles,
            i <= roles@.len(),
            events@ == old(events)@ + roles_events(old_roles@, roles@.subrange(0, i as int)),
        decreases roles@.len() - i,
    {
        assert(roles@.subrange(0, i + 1).drop_last() =~= roles@.subrange(0, i as int));
        let ghost before_push = events@;
        match find_role(old_roles, roles[i].id) {
            Some(k) => append_role_changes(&old_roles[k], &roles[i], events),
            None => {},
        }
        assert(events@ =~= old(events)@ + roles_events(old_roles@, roles@.subrange(0, i + 1)));
        i = i + 1;
    }
    assert(roles@.subrange(0, roles@.len() as int) =~= roles@);
}

fn append_turnover(roles: &Vec<Role>, other: &Vec<Role>, events: &mut Vec<WorldEvent>)
    ensures
        final(events)@ == old(events)@ + building_turnover(roles@, other@),
{
    let mut i: usize = 0;
    while i < roles.len()
        invariant
            i <= roles@.len(),
            events@ == old(events)@ + building_turnover(roles@.subrange(0, i as int), other@),
        decreases roles@.len() - i,
    {
        assert(roles@.subrange(0, i + 1).drop_last() =~= roles@.subrange(0, i as int));
        let absent = find_role(other, roles[i].id).is_none();
        push_if(events, absent && is_building(&roles[i]), WorldEvent::BuildingChanged(roles[i].id));
        assert(events@ =~= old(events)@ + building_turnover(roles@.subrange(0, i + 1), other@));
        i = i + 1;
    }
    assert(roles@.subrange(0, roles@.len() as int) =~= roles@);
}

fn append_enemies(previous: &Observation, current: &Observation, events: &mut Vec<WorldEvent>)
    ensures
        final(events)@ == old(events)@ + enemy_events(enemy_roles(*previous), enemy_roles(*current)),
{
    let old_roles = match &previous.team_enemy {
        Some(t) => &t.roles,
        None => {
            assert(events@ =~= old(events)@ + enemy_events(enemy_roles(*previous), enemy_roles(*current)));
            return;
        },
    };
    let empty: Vec<Role> = Vec::new();
    let visible = match &current.team_enemy {
        Some(t) => &t.roles,
        None => &empty,
    };
    assert(visible@ == enemy_roles(*current));
    let mut i: usize = 0;
    while i < old_roles.len()
        invariant
            old_roles@ == enemy_roles(*previous),
            visible@ == enemy_roles(*current),
            i <= old_roles@.len(),
            events@ == old(events)@ + enemy_events(old_roles@.subrange(0, i as int), visible@),
        decreases old_roles@.len() - i,
    {
        assert(old_roles@.subrange(0, i + 1).drop_last() =~= old_roles@.subrange(0, i as int));
        push_if(events, find_role(visible, old_roles[i].id).is_none(), WorldEvent::EnemyUnobserved(old_roles[i].id));
        assert(events@ =~= old(events)@ + enemy_events(old_roles@.subrange(0, i + 1), visible@));
        i = i + 1;
    }
    assert(old_roles@.subrange(0, old_roles@.len() as int) =~= old_roles@);
}

fn append_misc(previous: &Observation, current: &Observation, events: &mut Vec<WorldEvent>)
    ensures
        final(events)@ == old(events)@ + misc_events(*previous, *current),
{
    match (previous.team_our.gold_num, current.team_our.gold_num) {
        (Some(old), Some(new)) => push_if(events, old != new, WorldEvent::GoldChanged { previous: old, current: new }),
        _ => {},
    }
    let ghost g = events@;
    let was_open = previous.phase_task.as_str().unicode_len() > 0;
    let now_open = current.phase_task.as_str().unicode_len() > 0;
    push_if(events, !was_open && now_open, WorldEvent::ChallengeStarted);
    push_if(events, was_open && !now_open, WorldEvent::ChallengeEnded);
    let news_changed = !str_eq(previous.world_news.official_news.as_str(), current.world_news.official_news.as_str())
        || !str_eq(previous.world_news.folk_legends.as_str(), current.world_news.folk_legends.as_str());
    push_if(events, news_changed, WorldEvent::NewsChanged);
    assert(events@ =~= old(events)@ + misc_events(*previous, *current));
}

/// Rank order of cells is (column, row) order.
pub proof fn lemma_cell_order(a: Pos, b: Pos)
    ensures
        (a.x as int * 0x1_0000_0000 + (a.y as int - i32::MIN as int) < b.x as int * 0x1_0000_0000 + (b.y as int - i32::MIN as int))
            <==> (a.x < b.x || (a.x == b.x && a.y < b.y)),
{
    let ax = a.x as int;
    let bx = b.x as int;
    let ay = a.y as int - i32::MIN as int;
    let by = b.y as int - i32::MIN as int;
    assert(0 <= ay < 0x1_0000_0000 && 0 <= by < 0x1_0000_0000);
    if ax < bx {
        assert(ax * 0x1_0000_0000 + ay < bx * 0x1_0000_0000 + by) by (nonlinear_arith)
            requires ax < bx, 0 <= ay < 0x1_0000_0000, 0 <= by < 0x1_0000_0000;
    } else if ax > bx {
        assert(ax * 0x1_0000_0000 + ay > bx * 0x1_0000_0000 + by) by (nonlinear_arith)
            requires ax > bx, 0 <= ay < 0x1_0000_0000, 0 <= by < 0x1_0000_0000;
    }
}

/// The cells of the ore zones, in order, each once.
fn mine_cells(observation: &Observation) -> (r: SortedMap<Pos, ()>)
    ensures
        r.well_formed(),
        forall|p: Pos| r.view().contains_key(p) <==> mine_at(*observation, p),
{
    let zones = &observation.map_info.zones;
    let mut cells: SortedMap<Pos, ()> = SortedMap::new();
    let mut i: usize = 0;
    while i < zones.len()
        invariant
            zones == &observation.map_info.zones,
            cells.well_formed(),
            i <= zones@.len(),
            forall|p: Pos| cells.view().contains_key(p) <==> exists|j: int| 0 <= j < i && (#[trigger] zones@[j]).pos == p
                && is_ore(zones@[j].neutral_type@),
        decreases zones@.len() - i,
    {
        if crate::ai::mission::ore(zones[i].neutral_type.as_str()) {
            cells.insert(zones[i].pos, ());
        }
        proof {
            assert forall|p: Pos| cells.view().contains_key(p) <==> exists|j: int| 0 <= j < i + 1 && (#[trigger] zones@[j]).pos == p
                && is_ore(zones@[j].neutral_type@) by {
                if exists|j: int| 0 <= j < i + 1 && (#[trigger] zones@[j]).pos == p && is_ore(zones@[j].neutral_type@) {
                    let j = choose|j: int| 0 <= j < i + 1 && (#[trigger] zones@[j]).pos == p && is_ore(zones@[j].neutral_type@);
                    if j < i {
                        assert(exists|j2: int| 0 <= j2 < i && (#[trigger] zones@[j2]).pos == p && is_ore(zones@[j2].neutral_type@));
                    }
                }
            }
        }
        i = i + 1;
    }
    cells
}

/// The cells of `cells` that `other` lacks, in order: as events.
fn push_difference(cells: &SortedMap<Pos, ()>, other: &SortedMap<Pos, ()>, appeared: bool, events: &mut Vec<WorldEvent>) -> (r: Ghost<Seq<Pos>>)
    requires
        cells.well_formed(),
        other.well_formed(),
    ensures
        increasing_cells(r@),
        forall|p: Pos| r@.contains(p) <==> cells.view().contains_key(p) && !other.view().contains_key(p),
        final(events)@ == old(events)@ + (if appeared {
            r@.map_values(|p: Pos| WorldEvent::MineAppeared(p))
        } else {
            r@.map_values(|p: Pos| WorldEvent::MineDisappeared(p))
        }),
{
    proof { cells.lemma_view(); }
    let ghost mut diff: Seq<Pos> = seq![];
    let n: usize = cells.len();
    let mut i: usize = 0;
    while i < n
        invariant
            cells.well_formed(),
            other.well_formed(),
            n == cells.entries().len(),
            i <= n,
            increasing_cells(diff),
            forall|k: int| 0 <= k < diff.len() ==> exists|j: int| 0 <= j < i && cells.entries()[j].0 == #[trigger] diff[k],
            forall|p: Pos| diff.contains(p) <==> (exists|j: int| 0 <= j < i && cells.entries()[j].0 == p)
                && !other.view().contains_key(p),
            events@ == old(events)@ + (if appeared {
                diff.map_values(|p: Pos| WorldEvent::MineAppeared(p))
            } else {
                diff.map_values(|p: Pos| WorldEvent::MineDisappeared(p))
            }),
        decreases n - i,
    {
        let (cell, _) = cells.entry_at(i);
        proof { cells.lemma_view(); }
        if !other.contains_key(cell) {
            if appeared {
                events.push(WorldEvent::MineAppeared(*cell));
            } else {
                events.push(WorldEvent::MineDisappeared(*cell));
            }
            proof {
                let old_diff = diff;
                assert forall|k: int| 0 <= k < old_diff.len() implies (#[trigger] old_diff[k]).x < cell.x
                    || (old_diff[k].x == cell.x && old_diff[k].y < cell.y) by {
                    let j = choose|j: int| 0 <= j < i && cells.entries()[j].0 == old_diff[k];
                    assert(cells.entries()[j].0.rank() < cells.entries()[i as int].0.rank());
                    lemma_cell_order(old_diff[k], *cell);
                }
                diff = old_diff.push(*cell);
                assert(increasing_cells(diff)) by {
                    assert forall|a: int, b: int| 0 <= a < b < diff.len() implies (diff[a].x < diff[b].x
                        || (diff[a].x == diff[b].x && diff[a].y < diff[b].y)) by {
                        if b < old_diff.len() {
                            assert(diff[a] == old_diff[a] && diff[b] == old_diff[b]);
                        } else {
                            assert(diff[a] == old_diff[a]);
                        }
                    }
                }
                assert(diff.map_values(|p: Pos| WorldEvent::MineAppeared(p))
                    =~= old_diff.map_values(|p: Pos| WorldEvent::MineAppeared(p)).push(WorldEvent::MineAppeared(*cell)));
                assert(diff.map_values(|p: Pos| WorldEvent::MineDisappeared(p))
                    =~= old_diff.map_values(|p: Pos| WorldEvent::MineDisappeared(p)).push(WorldEvent::MineDisappeared(*cell)));
                assert forall|k: int| 0 <= k < diff.len() implies exists|j: int| 0 <= j < i + 1 && cells.entries()[j].0 == #[trigger] diff[k] by {
                    if k < old_diff.len() {
                        assert(diff[k] == old_diff[k]);
                        let j = choose|j: int| 0 <= j < i && cells.entries()[j].0 == old_diff[k];
                    } else {
                        assert(cells.entries()[i as int].0 == diff[k]);
                    }
                }
                assert forall|p: Pos| diff.contains(p) <==> (exists|j: int| 0 <= j < i + 1 && cells.entries()[j].0 == p)
                    && !other.view().contains_key(p) by {
                    if diff.contains(p) {
                        let k = choose|k: int| 0 <= k < diff.len() && diff[k] == p;
                        if k < old_diff.len() {
                            assert(old_diff[k] == p);
                            assert(old_diff.contains(p));
                        }
                    }
                    if (exists|j: int| 0 <= j < i + 1 && cells.entries()[j].0 == p) && !other.view().contains_key(p) {
                        let j = choose|j: int| 0 <= j < i + 1 && cells.entries()[j].0 == p;
                        if j < i {
                            assert(old_diff.contains(p));
                            let k = choose|k: int| 0 <= k < old_diff.len() && old_diff[k] == p;
                            assert(diff[k] == p);
                        } else {
                            assert(diff[diff.len() - 1] == p);
                        }
                    }
                }
            }
        } else {
            proof {
                assert forall|p: Pos| diff.contains(p) <==> (exists|j: int| 0 <= j < i + 1 && cells.entries()[j].0 == p)
                    && !other.view().contains_key(p) by {
                    if (exists|j: int| 0 <= j < i + 1 && cells.entries()[j].0 == p) && !other.view().contains_key(p) {
                        let j = choose|j: int| 0 <= j < i + 1 && cells.entries()[j].0 == p;
                        if j == i {
                            assert(false);
                        }
                    }
                    if diff.contains(p) {
                        let j = choose|j: int| 0 <= j < i && cells.entries()[j].0 == p;
                        assert(0 <= j < i + 1);
                    }
                }
                assert forall|k: int| 0 <= k < diff.len() implies exists|j: int| 0 <= j < i + 1 && cells.entries()[j].0 == #[trigger] diff[k] by {
                    let j = choose|j: int| 0 <= j < i && cells.entries()[j].0 == diff[k];
                }
            }
        }
        i = i + 1;
    }
    proof {
        assert forall|p: Pos| diff.contains(p) <==> cells.view().contains_key(p) && !other.view().contains_key(p) by {
            if cells.view().contains_key(p) {
                let j = choose|j: int| 0 <= j < cells.entries().len() && cells.entries()[j].0 == p;
            }
            if diff.contains(p) {
                let j = choose|j: int| 0 <= j < n && cells.entries()[j].0 == p;
                assert(cells.view().contains_key(cells.entries()[j].0));
            }
        }
    }
    Ghost(diff)
}

fn append_mines(previous: &Observation, current: &Observation, events: &mut Vec<WorldEvent>)
    ensures
        exists|m: Seq<WorldEvent>| mine_events(*previous, *current, m) && final(events)@ == old(events)@ + m,
{
    let old_cells = mine_cells(previous);
    let new_cells = mine_cells(current);
    let ghost start = events@;
    let appeared = push_difference(&new_cells, &old_cells, true, events);
    let ghost mid = events@;
    let gone = push_difference(&old_cells, &new_cells, false, events);
    proof {
        let m = appeared@.map_values(|p: Pos| WorldEvent::MineAppeared(p)) + gone@.map_values(|p: Pos| WorldEvent::MineDisappeared(p));
        assert(events@ =~= start + m);
        assert(mine_events(*previous, *current, m));
    }
}

/// The events between two frames: the round start, then (when there was
/// an earlier frame) phase, unit, building, mine, enemy, gold, challenge
/// and news changes, in that order.
pub fn build_events(previous: Option<&Observation>, current: &Observation) -> (r: Vec<WorldEvent>)
    ensures
        previous is None ==> r@ == seq![WorldEvent::RoundStarted(current.round_no)],
        previous matches Some(p) ==> exists|m: Seq<WorldEvent>| mine_events(*p, *current, m)
            && r@ == events_before_mines(*p, *current) + m + events_after_mines(*p, *current),
{
    let mut events: Vec<WorldEvent> = Vec::new();
    events.push(WorldEvent::RoundStarted(current.round_no));
    let previous = match previous {
        Some(p) => p,
        None => return events,
    };
    append_phase(previous, current, &mut events);
    append_roles(previous, current, &mut events);
    append_turnover(&current.team_our.roles, &previous.team_our.roles, &mut events);
    append_turnover(&previous.team_our.roles, &current.team_our.roles, &mut events);
    let ghost before_mines = events@;
    assert(before_mines =~= events_before_mines(*previous, *current));
    append_mines(previous, current, &mut events);
    let ghost with_mines = events@;
    append_enemies(previous, current, &mut events);
    append_misc(previous, current, &mut events);
    proof {
        let m = choose|m: Seq<WorldEvent>| mine_events(*previous, *current, m) && with_mines == before_mines + m;
        assert(events@ =~= events_before_mines(*previous, *current) + m + events_after_mines(*previous, *current));
    }
    events
}

/// The world as last observed: the last valid frame, its version, the
/// events it brought, what is remembered, the lifecycle state and the log
/// of all events.
#[derive(Clone, Debug)]
pub struct World {
    pub observation: Option<Observation>,
    pub version: u64,
    pub events: Vec<WorldEvent>,
    pub memory: WorldMemory,
    pub state: WorldState,
    pub event_log: EventLog,
}

impl Default for World {
    fn default() -> (r: Self)
        ensures
            r.well_formed(),
            r.observation is None,
            r.version == 0,
            r.events@.len() == 0,
            r.state == WorldState::ColdStart,
            r.event_log.spec_records().len() == 0,
    {
        World {
            observation: None,
            version: 0,
            events: Vec::new(),
            memory: WorldMemory::default(),
            state: WorldState::ColdStart,
            event_log: EventLog::default(),
        }
    }
}

/// Why a frame cannot continue the world: the map changed size, or the
/// team changed sides.
pub open spec fn frame_issue(previous: Observation, current: Observation) -> Option<WorldIssue> {
    if previous.map_info.width != current.map_info.width || previous.map_info.height != current.map_info.height {
        Some(WorldIssue::MapDimensionsChanged)
    } else if previous.team_our.faction@ != current.team_our.faction@ {
        Some(WorldIssue::FactionChanged)
    } else {
        None
    }
}

/// The lifecycle event a valid frame brings: the world becomes ready on
/// its first frame and recovers on the first valid frame after a bad one.
pub open spec fn lifecycle_events(state: WorldState) -> Seq<WorldEvent> {
    match state {
        WorldState::ColdStart => seq![WorldEvent::WorldReady],
        WorldState::Degraded => seq![WorldEvent::WorldRecovered],
        _ => seq![],
    }
}

/// The log after appending, when the ids still fit; unchanged otherwise.
pub open spec fn logged(before: EventLog, after: EventLog, round: i32, events: Seq<WorldEvent>) -> bool {
    if before.spec_next_id() + events.len() <= u64::MAX {
        &&& after.spec_next_id() == before.spec_next_id() + events.len()
        &&& after.spec_records() == crate::event::spec_trim(before.spec_records()
            + crate::event::appended_records(before.spec_next_id() as int, round, events))
    } else {
        after == before
    }
}

fn issue_of(previous: &Observation, current: &Observation) -> (r: Option<WorldIssue>)
    ensures
        r == frame_issue(*previous, *current),
{
    if previous.map_info.width != current.map_info.width || previous.map_info.height != current.map_info.height {
        Some(WorldIssue::MapDimensionsChanged)
    } else if !str_eq(previous.team_our.faction.as_str(), current.team_our.faction.as_str()) {
        Some(WorldIssue::FactionChanged)
    } else {
        None
    }
}

/// What taking in a frame does to the world: a frame that cannot continue
/// the world degrades it and keeps the last valid frame, its version and
/// the memory; any other replaces the snapshot, bumps the version, feeds
/// the memory and brings the events since the last valid frame; the events
/// go to the log either way.
pub open spec fn frame_applied(before: World, after: World, observation: Observation) -> bool {
    &&& after.well_formed()
    &&& logged(before.event_log, after.event_log, observation.round_no, after.events@)
    &&& if before.observation is Some && frame_issue(before.observation->0, observation) is Some {
        &&& after.state == WorldState::Degraded
        &&& after.observation == before.observation
        &&& after.version == before.version
        &&& after.memory == before.memory
        &&& after.events@ == seq![WorldEvent::WorldDegraded(frame_issue(before.observation->0, observation)->0)]
    } else {
        &&& after.state == WorldState::Ready
        &&& after.observation == Some(observation)
        &&& after.version == (if before.version == u64::MAX { u64::MAX } else { (before.version + VERSION_INCREMENT) as u64 })
        &&& trimmed_to(seen_over(before.memory.enemies.view().map_values(|e: crate::world::memory::RememberedEnemy|
            (e.pos, e.kind@, e.last_seen_round, aged_status(e))), observation.round_no, enemy_roles(observation)),
            after.memory.enemies_view(), crate::rules::constants::MAX_REMEMBERED_ENEMIES as nat)
        &&& match before.observation {
            None => after.events@ == lifecycle_events(before.state) + seq![WorldEvent::RoundStarted(observation.round_no)],
            Some(p) => exists|m: Seq<WorldEvent>| mine_events(p, observation, m)
                && after.events@ == lifecycle_events(before.state) + events_before_mines(p, observation) + m
                    + events_after_mines(p, observation),
        }
    }
}

impl World {
    pub open spec fn well_formed(&self) -> bool {
        &&& self.memory.well_formed()
        &&& self.event_log.well_formed()
    }

    fn log(&mut self, round: i32)
        requires
            old(self).well_formed(),
        ensures
            final(self).well_formed(),
            logged(old(self).event_log, final(self).event_log, round, old(self).events@),
            final(self).observation == old(self).observation,
            final(self).version == old(self).version,
            final(self).events == old(self).events,
            final(self).memory == old(self).memory,
            final(self).state == old(self).state,
    {
        if self.event_log.next_record_id() <= u64::MAX - self.events.len() as u64 {
            self.event_log.append(round, self.events.as_slice());
        }
    }

    /// Takes in a frame. A frame that cannot continue the world degrades
    /// it: the last valid frame, its version and the memory stay, and the
    /// only event is the degradation. A valid frame replaces the snapshot,
    /// bumps the version, feeds the memory and brings the events since the
    /// last valid frame, after the lifecycle event it causes. Either way
    /// the events go to the log. Returns whether the frame was taken.
    pub fn apply(&mut self, observation: Observation) -> (r: bool)
        requires
            old(self).well_formed(),
        ensures
            final(self).well_formed(),
            logged(old(self).event_log, final(self).event_log, observation.round_no, final(self).events@),
            (old(self).observation matches Some(p) && frame_issue(p, observation) is Some) ==> {
                &&& !r
                &&& final(self).state == WorldState::Degraded
                &&& final(self).observation == old(self).observation
                &&& final(self).version == old(self).version
                &&& final(self).memory == old(self).memory
                &&& final(self).events@ == seq![WorldEvent::WorldDegraded(frame_issue(old(self).observation->0, observation)->0)]
            },
            !(old(self).observation matches Some(p) && frame_issue(p, observation) is Some) ==> {
                &&& r
                &&& final(self).state == WorldState::Ready
                &&& final(self).observation == Some(observation)
                &&& final(self).version == (if old(self).version == u64::MAX { u64::MAX } else { (old(self).version + VERSION_INCREMENT) as u64 })
                &&& trimmed_to(seen_over(old(self).memory.enemies.view().map_values(|e: crate::world::memory::RememberedEnemy|
                    (e.pos, e.kind@, e.last_seen_round, aged_status(e))), observation.round_no, enemy_roles(observation)),
                    final(self).memory.enemies_view(), crate::rules::constants::MAX_REMEMBERED_ENEMIES as nat)
                &&& match old(self).observation {
                    None => final(self).events@ == lifecycle_events(old(self).state) + seq![WorldEvent::RoundStarted(observation.round_no)],
                    Some(p) => exists|m: Seq<WorldEvent>| mine_events(p, observation, m)
                        && final(self).events@ == lifecycle_events(old(self).state) + events_before_mines(p, observation) + m
                            + events_after_mines(p, observation),
                }
            },
            frame_applied(*old(self), *final(self), observation),
            r == !(old(self).observation matches Some(p) && frame_issue(p, observation) is Some),
    {
        let round = observation.round_no;
        let issue = match &self.observation {
            Some(previous) => issue_of(previous, &observation),
            None => None,
        };
        match issue {
            Some(issue) => {
                self.state = WorldState::Degraded;
                self.events = vec![WorldEvent::WorldDegraded(issue)];
                self.log(round);
                assert(old(self).observation is Some && frame_issue(old(self).observation->0, observation) is Some);
                assert(self.events@ == seq![WorldEvent::WorldDegraded(frame_issue(old(self).observation->0, observation)->0)]);
                assert(logged(old(self).event_log, self.event_log, observation.round_no, self.events@));
                assert(self.well_formed());
                return false;
            },
            None => {},
        }
        let mut events: Vec<WorldEvent> = Vec::new();
        match self.state {
            WorldState::ColdStart => events.push(WorldEvent::WorldReady),
            WorldState::Degraded => events.push(WorldEvent::WorldRecovered),
            _ => {},
        }
        assert(events@ == lifecycle_events(old(self).state));
        let mut found = match &self.observation {
            Some(previous) => build_events(Some(previous), &observation),
            None => build_events(None, &observation),
        };
        let ghost found_view = found@;
        events.append(&mut found);
        self.events = events;
        self.memory.observe(&observation);
        self.observation = Some(observation);
        self.version = if self.version == u64::MAX { u64::MAX } else { self.version + VERSION_INCREMENT };
        self.state = WorldState::Ready;
        self.log(round);
        proof {
            match old(self).observation {
                None => {},
                Some(p) => {
                    let m = choose|m: Seq<WorldEvent>| mine_events(p, observation, m)
                        && found_view == events_before_mines(p, observation) + m + events_after_mines(p, observation);
                    assert(self.events@ =~= lifecycle_events(old(self).state) + events_before_mines(p, observation) + m
                        + events_after_mines(p, observation));
                },
            }
        }
        true
    }
}

} // verus!
