use vstd::prelude::*;

use crate::ai::strategy::{is_weapon, spec_is_weapon};
use crate::collections::SortedMap;
use crate::domain::{
    Action, ActionProposal, ActionView, ActiveOwners, Command, CommandView, Observation, OwnerPath, Pos, Response, Role,
    alive, command_for, find_role, is_alive, lemma_command_kinds, role_by_id, spec_command, spec_reporter,
};
use crate::rules::build::{BuildArea, area, spec_area};
use crate::rules::constants::{MAX_WEAPONS, NEIGHBOR_RANGE, NO_COOLDOWN, NO_HEALTH, WEAPON_BUILD_GOLD, ZERO_GOLD};
use crate::rules::geometry::{spec_distance, wide_distance, within_reach};
use crate::rules::time::{Phase, phase, spec_phase};
use crate::text::{contains_item, count_items, count_of, str_eq};
use crate::world::view::{
    WorldView, spec_can_enter, spec_in_bounds, spec_is_task_cell, zone_kind_at,
};

verus! {

/// An accepted action, with the owners it runs for when it has any.
#[derive(Debug)]
pub struct AcceptedAction {
    pub actor: i64,
    pub action: Action,
    pub owner: Option<OwnerPath>,
}

/// Collects at most one legal command per unit for a round, reserving the
/// cells, gold and controllers that accepted commands use.
pub struct Arbiter<'a> {
    view: WorldView<'a>,
    commands: SortedMap<i64, Command>,
    used_roles: Vec<i64>,
    reserved_destinations: Vec<Pos>,
    reserved_build_sites: Vec<Pos>,
    reserved_weapons: usize,
    accepted: Vec<AcceptedAction>,
    remaining_gold: Option<i32>,
}

pub open spec fn is_ore(kind: Seq<char>) -> bool {
    kind == "stone"@ || kind == "iron"@ || kind == "copper"@
}

/// Live weapons the team owns.
pub open spec fn live_weapon_count(roles: Seq<Role>) -> nat
    decreases roles.len(),
{
    if roles.len() == 0 {
        0
    } else {
        live_weapon_count(roles.drop_last())
            + if spec_is_weapon(roles.last().role_type@) && is_alive(roles.last()) { 1nat } else { 0nat }
    }
}

/// The first role of the team that is a station.
pub open spec fn spec_station(roles: Seq<Role>) -> Option<Role> {
    if exists|i: int| 0 <= i < roles.len() && (#[trigger] roles[i]).role_type@ == "station"@ {
        Some(roles[choose|i: int| 0 <= i < roles.len() && roles[i].role_type@ == "station"@
            && forall|j: int| 0 <= j < i ==> roles[j].role_type@ != "station"@])
    } else {
        None
    }
}

pub open spec fn has_vendor_within_reach(o: &Observation, from: Pos) -> bool {
    exists|i: int| 0 <= i < o.map_info.zones@.len() && (#[trigger] o.map_info.zones@[i]).neutral_type@ == "vendor"@
        && spec_distance(from, o.map_info.zones@[i].pos) <= NEIGHBOR_RANGE
}

pub open spec fn vendor_lists(o: &Observation, name: Seq<char>) -> bool {
    exists|i: int| 0 <= i < o.vendor_shop_list@.len() && (#[trigger] o.vendor_shop_list@[i]).name@ == name
}

pub open spec fn backpack_has(role: Role, name: Seq<char>) -> bool {
    exists|i: int| 0 <= i < role.backpack@.len() && (#[trigger] role.backpack@[i])@ == name
}

/// A task the pioneer may accept now from where it stands.
pub open spec fn task_acceptable_from(o: &Observation, from: Pos) -> bool {
    exists|i: int| 0 <= i < o.team_our.player_tasks@.len() && {
        let t = #[trigger] o.team_our.player_tasks@[i];
        &&& t.is_valid == Some(true)
        &&& t.cold_down_rounds == Some(NO_COOLDOWN)
        &&& exists|p: Pos| spec_is_task_cell(o, t.task_position, p) && spec_distance(from, p) <= NEIGHBOR_RANGE
    }
}

pub open spec fn dot_non_negative(origin: Pos, a: Pos, b: Pos) -> bool {
    (a.x - origin.x) * (b.x - origin.x) + (a.y - origin.y) * (b.y - origin.y) >= 0
}

/// Number of targets a weapon must be given: one for a railgun, its level
/// for the others.
pub open spec fn required_targets(weapon: Role) -> Option<int> {
    match weapon.level {
        None => None,
        Some(level) => Some(
            if weapon.role_type@ == "railgun"@ { 1 } else if level < 0 { usize::MAX as int } else { level as int },
        ),
    }
}

/// No target is the weapon's own cell, and a gatling's targets are distinct
/// and pairwise within a right angle of each other.
pub open spec fn fire_geometry_ok(weapon: Role, targets: Seq<Pos>) -> bool {
    &&& !targets.contains(weapon.pos)
    &&& weapon.role_type@ == "gatling"@ ==> {
        &&& targets.no_duplicates()
        &&& forall|i: int, j: int| 0 <= i < j < targets.len() ==> dot_non_negative(weapon.pos, #[trigger] targets[i], #[trigger] targets[j])
    }
}

/// A move of `actor` from `from` to `to`: one cell, onto a cell it can
/// enter that no other move or build of the round takes.
pub open spec fn move_ok(o: &Observation, destinations: Seq<Pos>, sites: Seq<Pos>, from: Pos, to: Pos, actor: i64) -> bool {
    &&& spec_distance(from, to) <= NEIGHBOR_RANGE
    &&& from != to
    &&& spec_can_enter(o, to, actor)
    &&& !destinations.contains(to)
    &&& !sites.contains(to)
}

/// A build by `role` of `name` at `pos` in the day: beside the worker, on
/// a free cell of the right ring of the first station; a weapon under the
/// cap and paid for by the gold left, a wall from a stone carried.
pub open spec fn build_ok(
    o: &Observation,
    destinations: Seq<Pos>,
    sites: Seq<Pos>,
    weapons: nat,
    gold: Option<i32>,
    role: Role,
    name: Seq<char>,
    pos: Pos,
) -> bool {
    &&& role.role_type@ == "worker"@
    &&& spec_phase(o.round_no as int) == Some(Phase::Day)
    &&& spec_distance(role.pos, pos) <= NEIGHBOR_RANGE
    &&& role.pos != pos
    &&& spec_can_enter(o, pos, role.id)
    &&& !sites.contains(pos)
    &&& !destinations.contains(pos)
    &&& spec_station(o.team_our.roles@) matches Some(station) && {
        if spec_is_weapon(name) {
            &&& spec_area(station.pos, pos) == BuildArea::Weapon
            &&& live_weapon_count(o.team_our.roles@) + weapons < MAX_WEAPONS
            &&& gold matches Some(g) && g >= WEAPON_BUILD_GOLD
        } else if name == "wall"@ {
            &&& spec_area(station.pos, pos) == BuildArea::Wall
            &&& backpack_has(role, "stone"@)
        } else {
            false
        }
    }
}

/// An attack at night by a ready weapon under a live controller beside it
/// that has not acted, at in-range targets on the map, as many as the
/// weapon takes and laid out as it fires.
pub open spec fn attack_ok(o: &Observation, used: Seq<i64>, weapon_id: i64, controller_id: i64, targets: Seq<Pos>) -> bool {
    &&& role_by_id(o.team_our.roles@, weapon_id) matches Some(weapon)
    &&& role_by_id(o.team_our.roles@, controller_id) matches Some(controller)
    &&& spec_phase(o.round_no as int) == Some(Phase::Night)
    &&& spec_is_weapon(weapon.role_type@)
    &&& !used.contains(controller_id)
    &&& spec_distance(controller.pos, weapon.pos) <= NEIGHBOR_RANGE
    &&& weapon.cooldown == Some(NO_COOLDOWN)
    &&& is_alive(controller)
    &&& forall|i: int| 0 <= i < targets.len() ==> spec_in_bounds(o, #[trigger] targets[i])
        && spec_distance(weapon.pos, targets[i]) <= weapon.attack_range.unwrap_or(NO_HEALTH)
    &&& required_targets(weapon) == Some(targets.len() as int)
    &&& fire_geometry_ok(weapon, targets)
}

/// Whether `actor` may be given `action`, given what the round has already
/// reserved: the units that acted, the cells moved to and built on, the
/// weapons being built and the gold left.
pub open spec fn action_ok(
    o: &Observation,
    used: Seq<i64>,
    destinations: Seq<Pos>,
    sites: Seq<Pos>,
    weapons: nat,
    gold: Option<i32>,
    actor: i64,
    action: ActionView,
) -> bool {
    &&& !used.contains(actor)
    &&& role_by_id(o.team_our.roles@, actor) matches Some(role)
    &&& is_alive(role)
    &&& match action {
        ActionView::Move(to) => move_ok(o, destinations, sites, role.pos, to, actor),
        ActionView::Collect(pos) => role.role_type@ == "worker"@
            && spec_distance(role.pos, pos) <= NEIGHBOR_RANGE
            && (zone_kind_at(o, pos) matches Some(kind) && is_ore(kind)),
        ActionView::Build { name, pos } => build_ok(o, destinations, sites, weapons, gold, role, name, pos),
        ActionView::Sell { name, quantity } => quantity > ZERO_GOLD
            && count_of(role.backpack@, name) >= quantity
            && has_vendor_within_reach(o, role.pos)
            && vendor_lists(o, name),
        ActionView::Use { name, pos } => name == "Medicine"@ && pos is None && backpack_has(role, name),
        ActionView::Attack { controller, targets } => attack_ok(o, used, actor, controller, targets),
        ActionView::AcceptTask => role.role_type@ == "pioneer"@
            && o.phase_task@.len() == 0
            && task_acceptable_from(o, role.pos),
        _ => false,
    }
}

/// `action` is legal for `actor` in the frame, before anything else of the
/// round is reserved.
pub open spec fn legal_in(o: &Observation, actor: i64, action: ActionView) -> bool {
    action_ok(o, Seq::empty(), Seq::empty(), Seq::empty(), 0, o.team_our.gold_num, actor, action)
}

/// A command that some action legal in the frame for `actor` gives.
pub open spec fn legal_command(o: &Observation, actor: i64, command: Command) -> bool {
    exists|action: ActionView| #[trigger] legal_in(o, actor, action) && command.spec_view() == spec_command(action)
}

/// `command` is the one an accepted action of `actor` gives.
pub open spec fn command_accepted(accepted: Seq<AcceptedAction>, actor: i64, command: Command) -> bool {
    exists|i: int| 0 <= i < accepted.len() && (#[trigger] accepted[i]).actor == actor
        && command.spec_view() == spec_command(accepted[i].action@)
}

/// The command moves its unit onto `p`.
pub open spec fn moves_onto(c: CommandView, p: Pos) -> bool {
    c.action == "move"@ && c.target_pos == Some(seq![p])
}

/// The command builds on `p`.
pub open spec fn builds_on(c: CommandView, p: Pos) -> bool {
    c.action == "build"@ && c.target_pos == Some(seq![p])
}

/// The command is an attack under `controller`.
pub open spec fn controlled_by(c: CommandView, controller: i64) -> bool {
    c.action == "attack"@ && c.controller_id == Some(controller)
}

/// The commands keep apart: no two move onto one cell or build on one
/// cell, no cell is both moved onto and built on, and a unit that controls
/// another's attack has no command of its own.
pub open spec fn commands_apart(commands: Map<i64, Command>) -> bool {
    &&& forall|a: i64, b: i64, p: Pos|
        #![trigger moves_onto(commands[a].spec_view(), p), moves_onto(commands[b].spec_view(), p)]
        commands.contains_key(a) && commands.contains_key(b) && moves_onto(commands[a].spec_view(), p)
            && moves_onto(commands[b].spec_view(), p) ==> a == b
    &&& forall|a: i64, b: i64, p: Pos|
        #![trigger builds_on(commands[a].spec_view(), p), builds_on(commands[b].spec_view(), p)]
        commands.contains_key(a) && commands.contains_key(b) && builds_on(commands[a].spec_view(), p)
            && builds_on(commands[b].spec_view(), p) ==> a == b
    &&& forall|a: i64, b: i64, p: Pos|
        #![trigger moves_onto(commands[a].spec_view(), p), builds_on(commands[b].spec_view(), p)]
        commands.contains_key(a) && commands.contains_key(b) && moves_onto(commands[a].spec_view(), p)
            ==> !builds_on(commands[b].spec_view(), p)
    &&& forall|a: i64, c: i64| #[trigger] controlled_by(commands[a].spec_view(), c)
        && commands.contains_key(a) && commands.contains_key(c) ==> a == c
}

/// Adding the command of an action that was allowed keeps the commands
/// apart and within what the round has reserved.
proof fn lemma_insert_apart(
    o: &Observation,
    commands: Map<i64, Command>,
    next: Map<i64, Command>,
    actor: i64,
    action: ActionView,
    used: Seq<i64>,
    destinations: Seq<Pos>,
    sites: Seq<Pos>,
    weapons: nat,
    gold: Option<i32>,
    used_after: Seq<i64>,
    destinations_after: Seq<Pos>,
    sites_after: Seq<Pos>,
)
    requires
        action_ok(o, used, destinations, sites, weapons, gold, actor, action),
        next.dom() == commands.dom().insert(actor),
        next[actor].spec_view() == spec_command(action),
        forall|k: i64| k != actor && #[trigger] next.contains_key(k) ==> next[k] == commands[k],
        used_after == (match action {
            ActionView::Attack { controller, .. } => used.push(actor).push(controller),
            _ => used.push(actor),
        }),
        destinations_after == (match action {
            ActionView::Move(to) => destinations.push(to),
            _ => destinations,
        }),
        sites_after == (match action {
            ActionView::Build { pos, .. } => sites.push(pos),
            _ => sites,
        }),
        forall|k: i64| #[trigger] commands.contains_key(k) ==> used.contains(k),
        forall|k: i64, p: Pos| #[trigger] moves_onto(commands[k].spec_view(), p) && commands.contains_key(k)
            ==> destinations.contains(p),
        forall|k: i64, p: Pos| #[trigger] builds_on(commands[k].spec_view(), p) && commands.contains_key(k)
            ==> sites.contains(p),
        forall|k: i64, c: i64| #[trigger] controlled_by(commands[k].spec_view(), c) && commands.contains_key(k)
            ==> used.contains(c),
        commands_apart(commands),
    ensures
        forall|k: i64| #[trigger] next.contains_key(k) ==> used_after.contains(k),
        forall|k: i64, p: Pos| #[trigger] moves_onto(next[k].spec_view(), p) && next.contains_key(k)
            ==> destinations_after.contains(p),
        forall|k: i64, p: Pos| #[trigger] builds_on(next[k].spec_view(), p) && next.contains_key(k)
            ==> sites_after.contains(p),
        forall|k: i64, c: i64| #[trigger] controlled_by(next[k].spec_view(), c) && next.contains_key(k)
            ==> used_after.contains(c),
        commands_apart(next),
{
    lemma_command_kinds(action);
    let view = spec_command(action);
    assert(!commands.contains_key(actor));
    assert(used_after.contains(actor)) by {
        match action {
            ActionView::Attack { controller, .. } => {
                assert(used_after[used.len() as int] == actor);
            },
            _ => {
                assert(used_after[used.len() as int] == actor);
            },
        }
    }
    assert forall|x: i64| used.contains(x) implies used_after.contains(x) by {
        let i = choose|i: int| 0 <= i < used.len() && used[i] == x;
        assert(used_after[i] == x);
    }
    assert forall|x: Pos| destinations.contains(x) implies destinations_after.contains(x) by {
        let i = choose|i: int| 0 <= i < destinations.len() && destinations[i] == x;
        assert(destinations_after[i] == x);
    }
    assert forall|x: Pos| sites.contains(x) implies sites_after.contains(x) by {
        let i = choose|i: int| 0 <= i < sites.len() && sites[i] == x;
        assert(sites_after[i] == x);
    }
    // What the new command does.
    assert forall|p: Pos| moves_onto(view, p) implies action == ActionView::Move(p) && !destinations.contains(p)
        && !sites.contains(p) && destinations_after.contains(p) by {
        let to = action->Move_0;
        assert(seq![to][0] == seq![p][0]);
        assert(destinations_after[destinations.len() as int] == to);
    }
    assert forall|p: Pos| builds_on(view, p) implies !destinations.contains(p) && !sites.contains(p)
        && sites_after.contains(p) by {
        let pos = action->Build_pos;
        assert(seq![pos][0] == seq![p][0]);
        assert(sites_after[sites.len() as int] == pos);
    }
    assert forall|c: i64| controlled_by(view, c) implies !used.contains(c) && used_after.contains(c) by {
        assert(used_after[used.len() + 1int] == c);
    }
    assert forall|k: i64| #[trigger] next.contains_key(k) implies used_after.contains(k) by {
        if k != actor {
            assert(commands.contains_key(k));
        }
    }
    assert forall|k: i64, p: Pos| #[trigger] moves_onto(next[k].spec_view(), p) && next.contains_key(k)
        implies destinations_after.contains(p) by {
        if k != actor {
            assert(moves_onto(commands[k].spec_view(), p));
        }
    }
    assert forall|k: i64, p: Pos| #[trigger] builds_on(next[k].spec_view(), p) && next.contains_key(k)
        implies sites_after.contains(p) by {
        if k != actor {
            assert(builds_on(commands[k].spec_view(), p));
        }
    }
    assert forall|k: i64, c: i64| #[trigger] controlled_by(next[k].spec_view(), c) && next.contains_key(k)
        implies used_after.contains(c) by {
        if k != actor {
            assert(controlled_by(commands[k].spec_view(), c));
        }
    }
    assert forall|a: i64, b: i64, p: Pos|
        #![trigger moves_onto(next[a].spec_view(), p), moves_onto(next[b].spec_view(), p)]
        next.contains_key(a) && next.contains_key(b) && moves_onto(next[a].spec_view(), p)
            && moves_onto(next[b].spec_view(), p) implies a == b by {
        if a != actor && b != actor {
            assert(moves_onto(commands[a].spec_view(), p) && moves_onto(commands[b].spec_view(), p));
        } else if a == actor && b != actor {
            assert(moves_onto(commands[b].spec_view(), p));
        } else if b == actor && a != actor {
            assert(moves_onto(commands[a].spec_view(), p));
        }
    }
    assert forall|a: i64, b: i64, p: Pos|
        #![trigger builds_on(next[a].spec_view(), p), builds_on(next[b].spec_view(), p)]
        next.contains_key(a) && next.contains_key(b) && builds_on(next[a].spec_view(), p)
            && builds_on(next[b].spec_view(), p) implies a == b by {
        if a != actor && b != actor {
            assert(builds_on(commands[a].spec_view(), p) && builds_on(commands[b].spec_view(), p));
        } else if a == actor && b != actor {
            assert(builds_on(commands[b].spec_view(), p));
        } else if b == actor && a != actor {
            assert(builds_on(commands[a].spec_view(), p));
        }
    }
    assert forall|a: i64, b: i64, p: Pos|
        #![trigger moves_onto(next[a].spec_view(), p), builds_on(next[b].spec_view(), p)]
        next.contains_key(a) && next.contains_key(b) && moves_onto(next[a].spec_view(), p)
            implies !builds_on(next[b].spec_view(), p) by {
        if builds_on(next[b].spec_view(), p) {
            if a != actor && b != actor {
                assert(moves_onto(commands[a].spec_view(), p) && builds_on(commands[b].spec_view(), p));
            } else if a == actor && b != actor {
                assert(builds_on(commands[b].spec_view(), p));
            } else if b == actor && a != actor {
                assert(moves_onto(commands[a].spec_view(), p));
            }
        }
    }
    assert forall|a: i64, c: i64| #[trigger] controlled_by(next[a].spec_view(), c)
        && next.contains_key(a) && next.contains_key(c) implies a == c by {
        if a == actor {
            if c != actor {
                assert(commands.contains_key(c));
            }
        } else {
            assert(controlled_by(commands[a].spec_view(), c));
            if c != actor {
                assert(commands.contains_key(c));
            }
        }
    }
}

/// What is allowed after some reservations was allowed before any: the
/// reservations only take cells, units, weapon slots and gold away.
pub proof fn lemma_ok_is_legal(
    o: &Observation,
    used: Seq<i64>,
    destinations: Seq<Pos>,
    sites: Seq<Pos>,
    weapons: nat,
    gold: Option<i32>,
    actor: i64,
    action: ActionView,
)
    requires
        action_ok(o, used, destinations, sites, weapons, gold, actor, action),
        gold matches Some(g) ==> (o.team_our.gold_num matches Some(g0) && g <= g0),
    ensures
        legal_in(o, actor, action),
{
}

/// The units the accepted actions use, in order: each actor, and the
/// controller of an attack after its weapon.
pub open spec fn used_by(accepted: Seq<AcceptedAction>) -> Seq<i64>
    decreases accepted.len(),
{
    if accepted.len() == 0 {
        Seq::empty()
    } else {
        let before = used_by(accepted.drop_last());
        let last = accepted.last();
        match last.action@ {
            ActionView::Attack { controller, .. } => before.push(last.actor).push(controller),
            _ => before.push(last.actor),
        }
    }
}

/// The cells the accepted moves go to, in order.
pub open spec fn destinations_by(accepted: Seq<AcceptedAction>) -> Seq<Pos>
    decreases accepted.len(),
{
    if accepted.len() == 0 {
        Seq::empty()
    } else {
        let before = destinations_by(accepted.drop_last());
        match accepted.last().action@ {
            ActionView::Move(to) => before.push(to),
            _ => before,
        }
    }
}

/// The cells the accepted builds take, in order.
pub open spec fn sites_by(accepted: Seq<AcceptedAction>) -> Seq<Pos>
    decreases accepted.len(),
{
    if accepted.len() == 0 {
        Seq::empty()
    } else {
        let before = sites_by(accepted.drop_last());
        match accepted.last().action@ {
            ActionView::Build { pos, .. } => before.push(pos),
            _ => before,
        }
    }
}

/// How many weapons the accepted builds put up.
pub open spec fn weapon_builds(accepted: Seq<AcceptedAction>) -> nat
    decreases accepted.len(),
{
    if accepted.len() == 0 {
        0
    } else {
        weapon_builds(accepted.drop_last()) + match accepted.last().action@ {
            ActionView::Build { name, .. } => if spec_is_weapon(name) { 1nat } else { 0nat },
            _ => 0nat,
        }
    }
}

/// The gold left once the accepted weapon builds are paid for, from the
/// team's gold.
pub open spec fn gold_after(gold: Option<i32>, accepted: Seq<AcceptedAction>) -> Option<i32>
    decreases accepted.len(),
{
    if accepted.len() == 0 {
        gold
    } else {
        let before = gold_after(gold, accepted.drop_last());
        match accepted.last().action@ {
            ActionView::Build { name, .. } => if spec_is_weapon(name) {
                match before {
                    Some(g) => Some(crate::num::clamp_i32(g - WEAPON_BUILD_GOLD)),
                    None => None,
                }
            } else {
                before
            },
            _ => before,
        }
    }
}

/// Every accepted move's cell is among the reserved destinations, and
/// every accepted build's cell among the reserved sites.
pub proof fn lemma_cells_covered(accepted: Seq<AcceptedAction>)
    ensures
        forall|i: int| 0 <= i < accepted.len() ==> (#[trigger] accepted[i].action@ matches ActionView::Move(to)
            ==> destinations_by(accepted).contains(to)),
        forall|i: int| 0 <= i < accepted.len() ==> (#[trigger] accepted[i].action@ matches ActionView::Build { pos, .. }
            ==> sites_by(accepted).contains(pos)),
    decreases accepted.len(),
{
    if accepted.len() > 0 {
        let before = accepted.drop_last();
        lemma_cells_covered(before);
        let d = destinations_by(accepted);
        let db = destinations_by(before);
        let t = sites_by(accepted);
        let tb = sites_by(before);
        assert forall|x: Pos| db.contains(x) implies d.contains(x) by {
            let j = choose|j: int| 0 <= j < db.len() && db[j] == x;
            assert(d[j] == x);
        }
        assert forall|x: Pos| tb.contains(x) implies t.contains(x) by {
            let j = choose|j: int| 0 <= j < tb.len() && tb[j] == x;
            assert(t[j] == x);
        }
        assert forall|i: int| 0 <= i < accepted.len() implies (#[trigger] accepted[i].action@ matches ActionView::Move(to)
            ==> d.contains(to)) by {
            if i < before.len() {
                assert(before[i] == accepted[i]);
            } else {
                match accepted[i].action@ {
                    ActionView::Move(to) => assert(d[db.len() as int] == to),
                    _ => {},
                }
            }
        }
        assert forall|i: int| 0 <= i < accepted.len() implies (#[trigger] accepted[i].action@ matches ActionView::Build { pos, .. }
            ==> t.contains(pos)) by {
            if i < before.len() {
                assert(before[i] == accepted[i]);
            } else {
                match accepted[i].action@ {
                    ActionView::Build { pos, .. } => assert(t[tb.len() as int] == pos),
                    _ => {},
                }
            }
        }
    }
}

/// Every accepted actor, and every controller of an accepted attack, is
/// among the units the accepted actions use.
pub proof fn lemma_used_by_covers(accepted: Seq<AcceptedAction>)
    ensures
        forall|i: int| 0 <= i < accepted.len() ==> used_by(accepted).contains(#[trigger] accepted[i].actor),
        forall|i: int| 0 <= i < accepted.len() ==> (#[trigger] accepted[i].action@ matches ActionView::Attack { controller, .. }
            ==> used_by(accepted).contains(controller)),
    decreases accepted.len(),
{
    if accepted.len() > 0 {
        let before = accepted.drop_last();
        lemma_used_by_covers(before);
        let u = used_by(accepted);
        let ub = used_by(before);
        assert forall|x: i64| ub.contains(x) implies u.contains(x) by {
            let j = choose|j: int| 0 <= j < ub.len() && ub[j] == x;
            match accepted.last().action@ {
                ActionView::Attack { controller, .. } => assert(u[j] == x),
                _ => assert(u[j] == x),
            }
        }
        assert forall|i: int| 0 <= i < accepted.len() implies u.contains(#[trigger] accepted[i].actor) by {
            if i < before.len() {
                assert(before[i] == accepted[i]);
                assert(ub.contains(before[i].actor));
            } else {
                match accepted.last().action@ {
                    ActionView::Attack { controller, .. } => assert(u[ub.len() as int] == accepted[i].actor),
                    _ => assert(u[ub.len() as int] == accepted[i].actor),
                }
            }
        }
        assert forall|i: int| 0 <= i < accepted.len() implies (#[trigger] accepted[i].action@ matches ActionView::Attack { controller, .. }
            ==> u.contains(controller)) by {
            if i < before.len() {
                assert(before[i] == accepted[i]);
                match accepted[i].action@ {
                    ActionView::Attack { controller, .. } => {
                        assert(before[i].action@ matches ActionView::Attack { controller: c, .. } && c == controller);
                        assert(ub.contains(controller));
                    },
                    _ => {},
                }
            } else {
                match accepted[i].action@ {
                    ActionView::Attack { controller, .. } => assert(u[ub.len() as int + 1] == controller),
                    _ => {},
                }
            }
        }
    }
}

impl<'a> Arbiter<'a> {
    pub closed spec fn spec_observation(&self) -> &'a Observation {
        self.view.observation
    }

    pub closed spec fn spec_used(&self) -> Seq<i64> {
        self.used_roles@
    }

    pub closed spec fn spec_destinations(&self) -> Seq<Pos> {
        self.reserved_destinations@
    }

    pub closed spec fn spec_build_sites(&self) -> Seq<Pos> {
        self.reserved_build_sites@
    }

    pub closed spec fn spec_reserved_weapons(&self) -> nat {
        self.reserved_weapons as nat
    }

    pub closed spec fn spec_gold(&self) -> Option<i32> {
        self.remaining_gold
    }

    pub closed spec fn spec_accepted(&self) -> Seq<AcceptedAction> {
        self.accepted@
    }

    pub closed spec fn spec_commands(&self) -> Map<i64, Command> {
        self.commands.view()
    }

    pub closed spec fn well_formed(&self) -> bool {
        &&& self.commands.well_formed()
        &&& self.reserved_weapons <= self.reserved_build_sites@.len()
        &&& self.remaining_gold matches Some(g) ==> (self.view.observation.team_our.gold_num matches Some(g0) && g <= g0)
        &&& forall|k: i64| #[trigger] self.commands.view().contains_key(k)
            ==> legal_command(self.view.observation, k, self.commands.view()[k])
        &&& forall|k: i64| #[trigger] self.commands.view().contains_key(k)
            ==> command_accepted(self.accepted@, k, self.commands.view()[k])
        &&& forall|k: i64| #[trigger] self.commands.view().contains_key(k) ==> self.used_roles@.contains(k)
        &&& forall|k: i64, p: Pos| #[trigger] moves_onto(self.commands.view()[k].spec_view(), p)
            && self.commands.view().contains_key(k) ==> self.reserved_destinations@.contains(p)
        &&& forall|k: i64, p: Pos| #[trigger] builds_on(self.commands.view()[k].spec_view(), p)
            && self.commands.view().contains_key(k) ==> self.reserved_build_sites@.contains(p)
        &&& forall|k: i64, c: i64| #[trigger] controlled_by(self.commands.view()[k].spec_view(), c)
            && self.commands.view().contains_key(k) ==> self.used_roles@.contains(c)
        &&& commands_apart(self.commands.view())
        &&& self.used_roles@ == used_by(self.accepted@)
        &&& self.reserved_destinations@ == destinations_by(self.accepted@)
        &&& self.reserved_build_sites@ == sites_by(self.accepted@)
        &&& self.reserved_weapons as nat == weapon_builds(self.accepted@)
        &&& self.remaining_gold == gold_after(self.view.observation.team_our.gold_num, self.accepted@)
        &&& forall|i: int| 0 <= i < self.accepted@.len() ==> self.commands.view().contains_key(#[trigger] self.accepted@[i].actor)
            && self.commands.view()[self.accepted@[i].actor].spec_view() == spec_command(self.accepted@[i].action@)
        &&& reporters_apart(self.accepted@)
    }

    pub open spec fn valid_move(&self, from: Pos, to: Pos, actor: i64) -> bool {
        move_ok(self.spec_observation(), self.spec_destinations(), self.spec_build_sites(), from, to, actor)
    }

    pub open spec fn valid_build(&self, role: Role, name: Seq<char>, pos: Pos) -> bool {
        build_ok(self.spec_observation(), self.spec_destinations(), self.spec_build_sites(), self.spec_reserved_weapons(),
            self.spec_gold(), role, name, pos)
    }

    pub open spec fn valid_attack(&self, weapon_id: i64, controller_id: i64, targets: Seq<Pos>) -> bool {
        attack_ok(self.spec_observation(), self.spec_used(), weapon_id, controller_id, targets)
    }

    /// Whether `actor` may be given `action` now.
    pub open spec fn spec_valid(&self, actor: i64, action: ActionView) -> bool {
        action_ok(self.spec_observation(), self.spec_used(), self.spec_destinations(), self.spec_build_sites(),
            self.spec_reserved_weapons(), self.spec_gold(), actor, action)
    }

    /// The reservations an accepted action makes, as the state after it.
    pub open spec fn reserved_after(&self, next: &Self, actor: i64, action: ActionView) -> bool {
        &&& next.spec_observation() == self.spec_observation()
        &&& next.spec_used() == (match action {
            ActionView::Attack { controller, .. } => self.spec_used().push(actor).push(controller),
            _ => self.spec_used().push(actor),
        })
        &&& next.spec_destinations() == (match action {
            ActionView::Move(to) => self.spec_destinations().push(to),
            _ => self.spec_destinations(),
        })
        &&& next.spec_build_sites() == (match action {
            ActionView::Build { pos, .. } => self.spec_build_sites().push(pos),
            _ => self.spec_build_sites(),
        })
        &&& next.spec_reserved_weapons() == (match action {
            ActionView::Build { name, .. } => if spec_is_weapon(name) { self.spec_reserved_weapons() + 1 } else { self.spec_reserved_weapons() },
            _ => self.spec_reserved_weapons(),
        })
        &&& next.spec_gold() == (match action {
            ActionView::Build { name, .. } => if spec_is_weapon(name) {
                match self.spec_gold() {
                    Some(g) => Some(crate::num::clamp_i32(g - WEAPON_BUILD_GOLD)),
                    None => None,
                }
            } else {
                self.spec_gold()
            },
            _ => self.spec_gold(),
        })
    }

    pub fn new(observation: &'a Observation) -> (r: Self)
        ensures
            r.well_formed(),
            r.spec_observation() == observation,
            r.spec_used().len() == 0,
            r.spec_destinations().len() == 0,
            r.spec_build_sites().len() == 0,
            r.spec_reserved_weapons() == 0,
            r.spec_gold() == observation.team_our.gold_num,
            r.spec_accepted().len() == 0,
            r.spec_commands() == Map::<i64, Command>::empty(),
    {
        Self {
            view: WorldView::new(observation),
            commands: SortedMap::new(),
            used_roles: Vec::new(),
            reserved_destinations: Vec::new(),
            reserved_build_sites: Vec::new(),
            reserved_weapons: 0,
            accepted: Vec::new(),
            remaining_gold: observation.team_our.gold_num,
        }
    }

    fn is_used(&self, id: i64) -> (r: bool)
        ensures
            r == self.spec_used().contains(id),
    {
        let mut i: usize = 0;
        while i < self.used_roles.len()
            invariant
                i <= self.used_roles@.len(),
                forall|j: int| 0 <= j < i ==> self.used_roles@[j] != id,
            decreases self.used_roles@.len() - i,
        {
            if self.used_roles[i] == id {
                return true;
            }
            i = i + 1;
        }
        false
    }

    fn valid_move_exec(&self, from: Pos, to: Pos, actor: i64) -> (r: bool)
        ensures
            r == self.valid_move(from, to, actor),
    {
        within_reach(from, to) && from != to && self.view.can_enter(to, actor)
            && !contains_pos(&self.reserved_destinations, to)
            && !contains_pos(&self.reserved_build_sites, to)
    }

    fn valid_build_exec(&self, role: &Role, name: &str, pos: Pos) -> (r: bool)
        ensures
            r == self.valid_build(*role, name@, pos),
    {
        let o = self.view.observation;
        if !(str_eq(role.role_type.as_str(), "worker") && phase(o.round_no) == Some(Phase::Day)
            && within_reach(role.pos, pos) && role.pos != pos && self.view.can_enter(pos, role.id)
            && !contains_pos(&self.reserved_build_sites, pos)
            && !contains_pos(&self.reserved_destinations, pos)) {
            return false;
        }
        let station = match find_station(&o.team_our.roles) {
            Some(i) => &o.team_our.roles[i],
            None => return false,
        };
        if is_weapon(name) {
            let existing = count_live_weapons(&o.team_our.roles);
            area(station.pos, pos) == BuildArea::Weapon
                && existing < MAX_WEAPONS
                && self.reserved_weapons < MAX_WEAPONS - existing
                && match self.remaining_gold {
                    Some(gold) => gold >= WEAPON_BUILD_GOLD,
                    None => false,
                }
        } else if str_eq(name, "wall") {
            area(station.pos, pos) == BuildArea::Wall && contains_item(&role.backpack, "stone")
        } else {
            false
        }
    }

    fn valid_sell_exec(&self, role: &Role, name: &str, quantity: i32) -> (r: bool)
        ensures
            r == (quantity > ZERO_GOLD && count_of(role.backpack@, name@) >= quantity
                && has_vendor_within_reach(self.spec_observation(), role.pos)
                && vendor_lists(self.spec_observation(), name@)),
    {
        if quantity <= ZERO_GOLD {
            return false;
        }
        let count = count_items(&role.backpack, name);
        if count < quantity as usize {
            return false;
        }
        let o = self.view.observation;
        let mut vendor = false;
        let mut i: usize = 0;
        while i < o.map_info.zones.len()
            invariant
                i <= o.map_info.zones@.len(),
                o == self.spec_observation(),
                vendor == exists|j: int| 0 <= j < i && (#[trigger] o.map_info.zones@[j]).neutral_type@ == "vendor"@
                    && spec_distance(role.pos, o.map_info.zones@[j].pos) <= NEIGHBOR_RANGE,
            decreases o.map_info.zones@.len() - i,
        {
            let z = &o.map_info.zones[i];
            if str_eq(z.neutral_type.as_str(), "vendor") && within_reach(role.pos, z.pos) {
                vendor = true;
            }
            i = i + 1;
        }
        if !vendor {
            return false;
        }
        let mut k: usize = 0;
        while k < o.vendor_shop_list.len()
            invariant
                k <= o.vendor_shop_list@.len(),
                o == self.spec_observation(),
                quantity > ZERO_GOLD,
                count_of(role.backpack@, name@) >= quantity,
                has_vendor_within_reach(o, role.pos),
                forall|j: int| 0 <= j < k ==> (#[trigger] o.vendor_shop_list@[j]).name@ != name@,
            decreases o.vendor_shop_list@.len() - k,
        {
            if str_eq(o.vendor_shop_list[k].name.as_str(), name) {
                assert(o.vendor_shop_list@[k as int].name@ == name@);
                return true;
            }
            k = k + 1;
        }
        false
    }

    fn valid_accept_exec(&self, role: &Role) -> (r: bool)
        ensures
            r == (role.role_type@ == "pioneer"@ && self.spec_observation().phase_task@.len() == 0
                && task_acceptable_from(self.spec_observation(), role.pos)),
    {
        let o = self.view.observation;
        if !str_eq(role.role_type.as_str(), "pioneer") || o.phase_task.as_str().unicode_len() != 0 {
            return false;
        }
        let tasks = &o.team_our.player_tasks;
        let mut i: usize = 0;
        while i < tasks.len()
            invariant
                i <= tasks@.len(),
                o == self.spec_observation(),
                tasks == &o.team_our.player_tasks,
                role.role_type@ == "pioneer"@,
                o.phase_task@.len() == 0,
                forall|j: int| 0 <= j < i ==> !({
                    let t = #[trigger] tasks@[j];
                    &&& t.is_valid == Some(true)
                    &&& t.cold_down_rounds == Some(NO_COOLDOWN)
                    &&& exists|p: Pos| spec_is_task_cell(o, t.task_position, p) && spec_distance(role.pos, p) <= NEIGHBOR_RANGE
                }),
            decreases tasks@.len() - i,
        {
            let t = &tasks[i];
            if t.is_valid == Some(true) && t.cold_down_rounds == Some(NO_COOLDOWN)
                && self.view.adjacent_task(role.pos, t.task_position) {
                assert(*t == tasks@[i as int]);
                return true;
            }
            i = i + 1;
        }
        false
    }

    fn valid_attack_exec(&self, weapon_id: i64, controller_id: i64, targets: &Vec<Pos>) -> (r: bool)
        ensures
            r == self.valid_attack(weapon_id, controller_id, targets@),
    {
        let o = self.view.observation;
        let weapon = match find_role(&o.team_our.roles, weapon_id) {
            Some(i) => &o.team_our.roles[i],
            None => return false,
        };
        let controller = match find_role(&o.team_our.roles, controller_id) {
            Some(i) => &o.team_our.roles[i],
            None => return false,
        };
        if !(phase(o.round_no) == Some(Phase::Night) && is_weapon(weapon.role_type.as_str())
            && !self.is_used(controller_id) && within_reach(controller.pos, weapon.pos)
            && weapon.cooldown == Some(NO_COOLDOWN) && alive(controller)) {
            return false;
        }
        let range: i32 = match weapon.attack_range {
            Some(r) => r,
            None => NO_HEALTH,
        };
        let mut i: usize = 0;
        while i < targets.len()
            invariant
                i <= targets@.len(),
                o == self.spec_observation(),
                role_by_id(o.team_our.roles@, weapon_id) == Some(*weapon),
                range == weapon.attack_range.unwrap_or(NO_HEALTH),
                forall|j: int| 0 <= j < i ==> spec_in_bounds(o, #[trigger] targets@[j])
                    && spec_distance(weapon.pos, targets@[j]) <= range,
            decreases targets@.len() - i,
        {
            if !self.view.in_bounds(targets[i]) || wide_distance(weapon.pos, targets[i]) > range as i64 {
                assert(!(spec_in_bounds(o, targets@[i as int]) && spec_distance(weapon.pos, targets@[i as int]) <= range));
                return false;
            }
            i = i + 1;
        }
        valid_target_count(weapon, targets) && valid_fire_geometry(weapon, targets)
    }

    fn validate(&self, actor: i64, action: &Action) -> (r: bool)
        ensures
            r == self.spec_valid(actor, action@),
    {
        if self.is_used(actor) {
            return false;
        }
        let o = self.view.observation;
        let role = match find_role(&o.team_our.roles, actor) {
            Some(i) => &o.team_our.roles[i],
            None => return false,
        };
        if !alive(role) {
            return false;
        }
        match action {
            Action::Move(to) => self.valid_move_exec(role.pos, *to, actor),
            Action::Collect(pos) => {
                if !str_eq(role.role_type.as_str(), "worker") || !within_reach(role.pos, *pos) {
                    return false;
                }
                match self.view.zone_at(*pos) {
                    Some(z) => {
                        proof {
                            let i = choose|i: int| crate::world::view::first_zone(o.map_info.zones@, *pos, i) && *z == o.map_info.zones@[i];
                            let k = choose|k: int| crate::world::view::first_zone(o.map_info.zones@, *pos, k);
                            if i < k { assert(o.map_info.zones@[i].pos == *pos); }
                            if k < i { assert(o.map_info.zones@[k].pos == *pos); }
                        }
                        let options: [&str; 3] = ["stone", "iron", "copper"];
                        let r = crate::text::is_one_of(z.neutral_type.as_str(), &options);
                        proof {
                            if is_ore(z.neutral_type@) {
                                if z.neutral_type@ == "stone"@ { assert(options@[0]@ == "stone"@); }
                                if z.neutral_type@ == "iron"@ { assert(options@[1]@ == "iron"@); }
                                if z.neutral_type@ == "copper"@ { assert(options@[2]@ == "copper"@); }
                            }
                            if r {
                                let j = choose|j: int| 0 <= j < options@.len() && z.neutral_type@ == options@[j]@;
                                assert(j == 0 || j == 1 || j == 2);
                            }
                        }
                        r
                    },
                    None => false,
                }
            },
            Action::Build { name, pos } => self.valid_build_exec(role, name.as_str(), *pos),
            Action::Sell { name, quantity } => self.valid_sell_exec(role, name.as_str(), *quantity),
            Action::Use { name, pos } => str_eq(name.as_str(), "Medicine") && pos.is_none()
                && contains_item(&role.backpack, name.as_str()),
            Action::Attack { controller, targets } => self.valid_attack_exec(actor, *controller, targets),
            Action::AcceptTask => self.valid_accept_exec(role),
            _ => false,
        }
    }

    fn reserve(&mut self, actor: i64, action: &Action)
        requires
            old(self).reserved_weapons < usize::MAX,
        ensures
            old(self).reserved_after(&*final(self), actor, action@),
            final(self).spec_accepted() == old(self).spec_accepted(),
            final(self).spec_commands() == old(self).spec_commands(),
            final(self).commands.well_formed() == old(self).commands.well_formed(),
            final(self).reserved_weapons as int - old(self).reserved_weapons as int
                == final(self).reserved_build_sites@.len() as int - old(self).reserved_build_sites@.len() as int
                || final(self).reserved_weapons == old(self).reserved_weapons,
            final(self).reserved_build_sites@.len() >= old(self).reserved_build_sites@.len(),
            final(self).reserved_weapons <= old(self).reserved_weapons + 1,
            final(self).reserved_weapons > old(self).reserved_weapons ==> final(self).reserved_build_sites@.len() > old(self).reserved_build_sites@.len(),
    {
        self.used_roles.push(actor);
        match action {
            Action::Move(pos) => {
                self.reserved_destinations.push(*pos);
            },
            Action::Build { name, pos } => {
                self.reserved_build_sites.push(*pos);
                if is_weapon(name.as_str()) {
                    self.reserved_weapons = self.reserved_weapons + 1;
                    self.remaining_gold = match self.remaining_gold {
                        Some(gold) => Some(crate::num::saturating_sub_i32(gold, WEAPON_BUILD_GOLD)),
                        None => None,
                    };
                }
            },
            Action::Attack { controller, .. } => {
                self.used_roles.push(*controller);
            },
            _ => {},
        }
    }

    /// Accepts `action` for `actor` when it is legal now and the actor has
    /// not acted yet; an accepted action reserves what it uses.
    pub fn propose(&mut self, actor: i64, action: Action) -> (r: bool)
        requires
            old(self).well_formed(),
            old(self).spec_reserved_weapons() < usize::MAX,
        ensures
            final(self).well_formed(),
            r == old(self).spec_valid(actor, action@),
            r ==> old(self).reserved_after(&*final(self), actor, action@),
            r ==> final(self).spec_accepted().len() == old(self).spec_accepted().len() + 1,
            r ==> final(self).spec_accepted().last().actor == actor && final(self).spec_accepted().last().action@ == action@
                && final(self).spec_accepted().last().owner is None,
            r ==> final(self).spec_accepted().drop_last() == old(self).spec_accepted(),
            r ==> final(self).spec_commands().dom() == old(self).spec_commands().dom().insert(actor)
                && final(self).spec_commands()[actor].spec_view() == spec_command(action@),
            !r ==> *final(self) == *old(self),
    {
        self.propose_with_owner(actor, action, None)
    }

    fn propose_with_owner(&mut self, actor: i64, action: Action, owner: Option<OwnerPath>) -> (r: bool)
        requires
            old(self).well_formed(),
            old(self).spec_reserved_weapons() < usize::MAX,
        ensures
            final(self).well_formed(),
            r == old(self).spec_valid(actor, action@),
            r ==> old(self).reserved_after(&*final(self), actor, action@),
            r ==> final(self).spec_accepted().len() == old(self).spec_accepted().len() + 1,
            r ==> final(self).spec_accepted().last().actor == actor && final(self).spec_accepted().last().action@ == action@
                && final(self).spec_accepted().last().owner == owner,
            r ==> final(self).spec_accepted().drop_last() == old(self).spec_accepted(),
            r ==> final(self).spec_commands().dom() == old(self).spec_commands().dom().insert(actor)
                && final(self).spec_commands()[actor].spec_view() == spec_command(action@),
            !r ==> *final(self) == *old(self),
    {
        if !self.validate(actor, &action) {
            return false;
        }
        proof {
            lemma_ok_is_legal(self.view.observation, self.used_roles@, self.reserved_destinations@, self.reserved_build_sites@,
                self.reserved_weapons as nat, self.remaining_gold, actor, action@);
        }
        let ghost used_before = self.used_roles@;
        let ghost destinations_before = self.reserved_destinations@;
        let ghost sites_before = self.reserved_build_sites@;
        let ghost weapons_before = self.reserved_weapons as nat;
        let ghost gold_before = self.remaining_gold;
        self.reserve(actor, &action);
        let copy = action.clone();
        let ghost before = self.accepted@;
        self.accepted.push(AcceptedAction { actor, action: copy, owner });
        assert(self.accepted@.drop_last() == before);
        let command = command_for(action);
        let ghost view_action = action@;
        self.commands.insert(actor, command);
        assert(self.commands.view().dom() =~= old(self).commands.view().dom().insert(actor));
        proof {
            assert(self.accepted@.drop_last() == before);
            lemma_used_by_covers(before);
            assert forall|i: int| 0 <= i < self.accepted@.len() implies self.commands.view().contains_key(#[trigger] self.accepted@[i].actor)
                && self.commands.view()[self.accepted@[i].actor].spec_view() == spec_command(self.accepted@[i].action@) by {
                if i < before.len() {
                    assert(self.accepted@[i] == before[i]);
                    assert(used_before.contains(before[i].actor));
                }
            }
            assert forall|i: int, j: int| 0 <= i < j < self.accepted@.len()
                implies spec_reporter((#[trigger] self.accepted@[i]).actor, self.accepted@[i].action@)
                    != spec_reporter((#[trigger] self.accepted@[j]).actor, self.accepted@[j].action@) by {
                assert(self.accepted@[i] == before[i]);
                if j < before.len() {
                    assert(self.accepted@[j] == before[j]);
                } else {
                    assert(used_before.contains(before[i].actor));
                }
            }
            lemma_insert_apart(self.view.observation, old(self).commands.view(), self.commands.view(), actor, view_action,
                used_before, destinations_before, sites_before, weapons_before, gold_before,
                self.used_roles@, self.reserved_destinations@, self.reserved_build_sites@);
            assert(legal_command(self.view.observation, actor, command));
            assert forall|k: i64| #[trigger] self.commands.view().contains_key(k)
                implies legal_command(self.view.observation, k, self.commands.view()[k]) by {
                if k != actor {
                    assert(old(self).commands.view().contains_key(k));
                }
            }
            let last: int = self.accepted@.len() - 1;
            assert(self.accepted@[last].actor == actor);
            assert forall|k: i64| #[trigger] self.commands.view().contains_key(k)
                implies command_accepted(self.accepted@, k, self.commands.view()[k]) by {
                if k != actor {
                    assert(old(self).commands.view().contains_key(k));
                    let i = choose|i: int| 0 <= i < before.len() && (#[trigger] before[i]).actor == k
                        && old(self).commands.view()[k].spec_view() == spec_command(before[i].action@);
                    assert(self.accepted@[i] == before[i]);
                } else {
                    assert(self.accepted@[last].action@ == action@);
                }
            }
        }
        true
    }

    /// Accepts a proposal when its owners are all live and its action is
    /// legal now; the accepted action keeps the proposal's owners.
    pub fn propose_for(&mut self, proposal: &ActionProposal, owners: &ActiveOwners) -> (r: bool)
        requires
            old(self).well_formed(),
            owners.well_formed(),
            old(self).spec_reserved_weapons() < usize::MAX,
        ensures
            final(self).well_formed(),
            r == (owners.spec_is_current(proposal.spec_owner()) && old(self).spec_valid(proposal.spec_actor(), proposal.spec_action())),
            r ==> old(self).reserved_after(&*final(self), proposal.spec_actor(), proposal.spec_action()),
            r ==> final(self).spec_accepted().len() == old(self).spec_accepted().len() + 1,
            r ==> final(self).spec_accepted().last().actor == proposal.spec_actor()
                && final(self).spec_accepted().last().action@ == proposal.spec_action()
                && final(self).spec_accepted().last().owner == Some(proposal.spec_owner()),
            r ==> final(self).spec_accepted().drop_last() == old(self).spec_accepted(),
            r ==> final(self).spec_commands().dom() == old(self).spec_commands().dom().insert(proposal.spec_actor())
                && final(self).spec_commands()[proposal.spec_actor()].spec_view() == spec_command(proposal.spec_action()),
            !r ==> *final(self) == *old(self),
    {
        if !owners.is_current(proposal.owner()) {
            return false;
        }
        let action = proposal.action().clone();
        self.propose_with_owner(proposal.actor(), action, Some(*proposal.owner()))
    }

    /// The accepted actions, in the order they were accepted.
    pub fn accepted(&self) -> (r: &Vec<AcceptedAction>)
        ensures
            r@ == self.spec_accepted(),
    {
        &self.accepted
    }

    /// The reply holding the accepted commands, keyed by acting unit.
    pub fn finish(self) -> (r: (Response, Vec<AcceptedAction>))
        requires
            self.well_formed(),
        ensures
            r.0.role_command_map.well_formed(),
            r.0.role_command_map.view() == self.spec_commands(),
            forall|k: i64| #[trigger] r.0.role_command_map.view().contains_key(k)
                ==> legal_command(self.spec_observation(), k, r.0.role_command_map.view()[k]),
            forall|k: i64| #[trigger] r.0.role_command_map.view().contains_key(k)
                ==> command_accepted(self.spec_accepted(), k, r.0.role_command_map.view()[k]),
            commands_apart(r.0.role_command_map.view()),
            r.0.prompt@ == Seq::<char>::empty(),
            r.0.execute_cmd@ == Seq::<char>::empty(),
            r.1@ == self.spec_accepted(),
            reporters_apart(r.1@),
            forall|k: i64| r.0.role_command_map.view().contains_key(k)
                <==> exists|i: int| 0 <= i < r.1@.len() && #[trigger] r.1@[i].actor == k,
            forall|i: int| 0 <= i < r.1@.len()
                ==> r.0.role_command_map.view()[#[trigger] r.1@[i].actor].spec_view() == spec_command(r.1@[i].action@),
    {
        proof { law_reply_is_accepted_commands(self); }
        (Response { role_command_map: self.commands, prompt: String::new(), execute_cmd: String::new() }, self.accepted)
    }
}

/// An action the arbiter would accept now never clashes with what it
/// accepted before: its actor has not acted nor controlled a weapon, the
/// controller of an attack has not acted nor controlled another, and the
/// cell of a move is neither an earlier move's cell nor an earlier build's.
pub proof fn law_accepted_actions_are_apart<'a>(arbiter: Arbiter<'a>, actor: i64, action: ActionView)
    requires
        arbiter.well_formed(),
        arbiter.spec_valid(actor, action),
    ensures
        forall|i: int| 0 <= i < arbiter.spec_accepted().len() ==> {
            let earlier = #[trigger] arbiter.spec_accepted()[i];
            &&& earlier.actor != actor
            &&& earlier.action@ matches ActionView::Attack { controller, .. } ==> controller != actor
            &&& action matches ActionView::Attack { controller, .. } ==> controller != earlier.actor
                && !(earlier.action@ matches ActionView::Attack { controller: c, .. } && c == controller)
            &&& action matches ActionView::Move(to) ==> !(earlier.action@ matches ActionView::Move(p) && p == to)
                && !(earlier.action@ matches ActionView::Build { pos, .. } && pos == to)
        },
{
    lemma_used_by_covers(arbiter.spec_accepted());
    lemma_cells_covered(arbiter.spec_accepted());
}

/// No unit answers for two accepted actions: the units that answer for
/// them (the controller of an attack, the actor otherwise) are all distinct.
pub open spec fn reporters_apart(accepted: Seq<AcceptedAction>) -> bool {
    forall|i: int, j: int| 0 <= i < j < accepted.len()
        ==> spec_reporter((#[trigger] accepted[i]).actor, accepted[i].action@)
            != spec_reporter((#[trigger] accepted[j]).actor, accepted[j].action@)
}

/// Whether an action may be accepted after the given accepted actions:
/// what they reserve is all that counts.
pub open spec fn valid_after(o: &Observation, accepted: Seq<AcceptedAction>, actor: i64, action: ActionView) -> bool {
    action_ok(o, used_by(accepted), destinations_by(accepted), sites_by(accepted), weapon_builds(accepted),
        gold_after(o.team_our.gold_num, accepted), actor, action)
}

/// The arbiter judges an action by what it accepted before.
pub proof fn lemma_valid_after<'a>(arbiter: Arbiter<'a>, actor: i64, action: ActionView)
    requires
        arbiter.well_formed(),
    ensures
        arbiter.spec_valid(actor, action) == valid_after(arbiter.spec_observation(), arbiter.spec_accepted(), actor, action),
{
}

/// The reply holds exactly the accepted actions' commands: one for each
/// accepted actor, the command of its action, and none for anyone else.
pub proof fn law_reply_is_accepted_commands<'a>(arbiter: Arbiter<'a>)
    requires
        arbiter.well_formed(),
    ensures
        forall|k: i64| arbiter.spec_commands().contains_key(k)
            <==> exists|i: int| 0 <= i < arbiter.spec_accepted().len() && #[trigger] arbiter.spec_accepted()[i].actor == k,
        forall|i: int| 0 <= i < arbiter.spec_accepted().len()
            ==> arbiter.spec_commands()[#[trigger] arbiter.spec_accepted()[i].actor].spec_view() == spec_command(arbiter.spec_accepted()[i].action@),
{
    assert forall|k: i64| arbiter.spec_commands().contains_key(k)
        implies exists|i: int| 0 <= i < arbiter.spec_accepted().len() && #[trigger] arbiter.spec_accepted()[i].actor == k by {
        assert(command_accepted(arbiter.spec_accepted(), k, arbiter.spec_commands()[k]));
    }
}

/// Every accepted proposal keeps the round's reservations sound: no unit
/// is given two commands, no cell is the destination of two moves, and the
/// gold that weapon builds reserve never takes the team's gold below zero;
/// the gold moves only for a weapon build, by one build's price.
pub proof fn law_reservations_stay_sound<'a>(before: Arbiter<'a>, after: Arbiter<'a>, actor: i64, action: ActionView)
    requires
        before.spec_valid(actor, action),
        before.reserved_after(&after, actor, action),
        before.spec_used().no_duplicates(),
        before.spec_destinations().no_duplicates(),
        before.spec_gold() matches Some(g) ==> g >= 0,
        action matches ActionView::Attack { controller, .. } ==> controller != actor,
    ensures
        after.spec_used().no_duplicates(),
        after.spec_destinations().no_duplicates(),
        after.spec_gold() matches Some(h) ==> h >= 0,
        after.spec_gold() == before.spec_gold() || ({
            &&& action matches ActionView::Build { name, .. } && spec_is_weapon(name)
            &&& before.spec_gold() matches Some(g) && g >= WEAPON_BUILD_GOLD
                && after.spec_gold() == Some((g - WEAPON_BUILD_GOLD) as i32)
        }),
{
    let used = before.spec_used();
    match action {
        ActionView::Attack { controller, .. } => {
            assert(!used.contains(actor));
            assert(!used.contains(controller));
            let once = used.push(actor);
            assert forall|i: int, j: int| 0 <= i < j < once.len() implies once[i] != once[j] by {
                if j == used.len() {
                    assert(used.contains(used[i]));
                }
            }
            let twice = once.push(controller);
            assert forall|i: int, j: int| 0 <= i < j < twice.len() implies twice[i] != twice[j] by {
                if j == once.len() {
                    if i < used.len() {
                        assert(used.contains(used[i]));
                    }
                } else if j == used.len() {
                    assert(used.contains(used[i]));
                }
            }
        },
        _ => {
            let once = used.push(actor);
            assert forall|i: int, j: int| 0 <= i < j < once.len() implies once[i] != once[j] by {
                if j == used.len() {
                    assert(used.contains(used[i]));
                }
            }
        },
    }
    match action {
        ActionView::Move(to) => {
            let d = before.spec_destinations();
            let pushed = d.push(to);
            assert forall|i: int, j: int| 0 <= i < j < pushed.len() implies pushed[i] != pushed[j] by {
                if j == d.len() {
                    assert(d.contains(d[i]));
                }
            }
        },
        _ => {},
    }
}

fn contains_pos(v: &Vec<Pos>, p: Pos) -> (r: bool)
    ensures
        r == v@.contains(p),
{
    let mut i: usize = 0;
    while i < v.len()
        invariant
            i <= v@.len(),
            forall|j: int| 0 <= j < i ==> v@[j] != p,
        decreases v@.len() - i,
    {
        if v[i] == p {
            return true;
        }
        i = i + 1;
    }
    false
}

/// Index of the first station of the team.
pub fn find_station(roles: &Vec<Role>) -> (r: Option<usize>)
    ensures
        r is None <==> spec_station(roles@) is None,
        r matches Some(i) ==> i < roles@.len() && spec_station(roles@) == Some(roles@[i as int]),
{
    let mut i: usize = 0;
    while i < roles.len()
        invariant
            i <= roles@.len(),
            forall|j: int| 0 <= j < i ==> roles@[j].role_type@ != "station"@,
        decreases roles@.len() - i,
    {
        if str_eq(roles[i].role_type.as_str(), "station") {
            proof {
                let k = choose|k: int| 0 <= k < roles@.len() && roles@[k].role_type@ == "station"@
                    && forall|j: int| 0 <= j < k ==> roles@[j].role_type@ != "station"@;
                if k < i { assert(roles@[k].role_type@ != "station"@); }
                if k > i { assert(roles@[i as int].role_type@ != "station"@); }
            }
            return Some(i);
        }
        i = i + 1;
    }
    None
}

/// Number of live weapons the team owns.
pub fn count_live_weapons(roles: &Vec<Role>) -> (n: usize)
    ensures
        n == live_weapon_count(roles@),
{
    let mut n: usize = 0;
    let mut i: usize = 0;
    while i < roles.len()
        invariant
            i <= roles@.len(),
            n == live_weapon_count(roles@.subrange(0, i as int)),
            n <= i,
        decreases roles@.len() - i,
    {
        assert(roles@.subrange(0, i + 1).drop_last() =~= roles@.subrange(0, i as int));
        if is_weapon(roles[i].role_type.as_str()) && alive(&roles[i]) {
            n = n + 1;
        }
        i = i + 1;
    }
    assert(roles@.subrange(0, roles@.len() as int) =~= roles@);
    n
}

fn valid_target_count(weapon: &Role, targets: &Vec<Pos>) -> (r: bool)
    ensures
        r == (required_targets(*weapon) == Some(targets@.len() as int)),
{
    let level = match weapon.level {
        Some(level) => level,
        None => return false,
    };
    let required: usize = if str_eq(weapon.role_type.as_str(), "railgun") {
        1
    } else if level < 0 {
        usize::MAX
    } else {
        level as usize
    };
    targets.len() == required
}

fn dot_ok(origin: Pos, a: Pos, b: Pos) -> (r: bool)
    ensures
        r == dot_non_negative(origin, a, b),
{
    let ax = a.x as i128 - origin.x as i128;
    let ay = a.y as i128 - origin.y as i128;
    let bx = b.x as i128 - origin.x as i128;
    let by = b.y as i128 - origin.y as i128;
    assert(-0x1_0000_0000_0000_0000 <= (ax as int) * (bx as int) <= 0x1_0000_0000_0000_0000) by (nonlinear_arith)
        requires -0x1_0000_0000 <= ax <= 0x1_0000_0000, -0x1_0000_0000 <= bx <= 0x1_0000_0000;
    assert(-0x1_0000_0000_0000_0000 <= (ay as int) * (by as int) <= 0x1_0000_0000_0000_0000) by (nonlinear_arith)
        requires -0x1_0000_0000 <= ay <= 0x1_0000_0000, -0x1_0000_0000 <= by <= 0x1_0000_0000;
    ax * bx + ay * by >= 0
}

pub open spec fn pair_ok(origin: Pos, targets: Seq<Pos>, a: int, b: int) -> bool {
    targets[a] != targets[b] && dot_non_negative(origin, targets[a], targets[b])
}

fn valid_fire_geometry(weapon: &Role, targets: &Vec<Pos>) -> (r: bool)
    ensures
        r == fire_geometry_ok(*weapon, targets@),
{
    if contains_pos(targets, weapon.pos) {
        return false;
    }
    if !str_eq(weapon.role_type.as_str(), "gatling") {
        return true;
    }
    let n: usize = targets.len();
    let ghost origin = weapon.pos;
    let mut i: usize = 0;
    while i < n
        invariant
            n == targets@.len(),
            i <= n,
            origin == weapon.pos,
            weapon.role_type@ == "gatling"@,
            !targets@.contains(weapon.pos),
            forall|a: int, b: int| 0 <= a < i && a < b < n ==> #[trigger] pair_ok(origin, targets@, a, b),
        decreases n - i,
    {
        let mut j: usize = i + 1;
        while j < n
            invariant
                n == targets@.len(),
                i < n,
                i + 1 <= j <= n,
                origin == weapon.pos,
                weapon.role_type@ == "gatling"@,
                !targets@.contains(weapon.pos),
                forall|a: int, b: int| 0 <= a < i && a < b < n ==> #[trigger] pair_ok(origin, targets@, a, b),
                forall|b: int| i < b < j ==> #[trigger] pair_ok(origin, targets@, i as int, b),
            decreases n - j,
        {
            if targets[i] == targets[j] || !dot_ok(weapon.pos, targets[i], targets[j]) {
                proof {
                    if targets@[i as int] == targets@[j as int] {
                        assert(!targets@.no_duplicates());
                    } else {
                        assert(!dot_non_negative(weapon.pos, targets@[i as int], targets@[j as int]));
                    }
                }
                return false;
            }
            assert(pair_ok(origin, targets@, i as int, j as int));
            j = j + 1;
        }
        assert forall|a: int, b: int| 0 <= a < i + 1 && a < b < n implies #[trigger] pair_ok(origin, targets@, a, b) by {
            if a == i as int {
                assert(pair_ok(origin, targets@, i as int, b));
            }
        }
        i = i + 1;
    }
    assert forall|a: int, b: int| 0 <= a < targets@.len() && 0 <= b < targets@.len() && a != b
        implies targets@[a] != targets@[b] by {
        if a < b {
            assert(pair_ok(origin, targets@, a, b));
        } else {
            assert(pair_ok(origin, targets@, b, a));
        }
    }
    assert forall|a: int, b: int| 0 <= a < b < targets@.len()
        implies dot_non_negative(weapon.pos, #[trigger] targets@[a], #[trigger] targets@[b]) by {
        assert(pair_ok(origin, targets@, a, b));
    }
    true
}

} // verus!
