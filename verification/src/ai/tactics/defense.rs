use vstd::prelude::*;

use crate::ai::mission::defense_spec;
use crate::ai::state::{DecisionError, DecisionState, proposal_failed, propose_owned};
use crate::ai::strategy::{is_weapon, spec_is_weapon};
use crate::command::{Arbiter, dot_non_negative, find_station, spec_station};
use crate::ai::mission::{MissionRegistry, history_kept, lemma_history_kept_refl};
use crate::ai::state::proposal_gate;
use crate::command::{AcceptedAction, lemma_valid_after, valid_after};
use crate::domain::{Action, ActionView, DeadlineKind, MissionDeadline, MissionSpec, Observation, OwnerError, Pos, Role, alive, role_by_id, allocator_within, defense_terms, is_alive, owner_room, spec_reporter};
use crate::rules::time::spec_next_day;
use crate::rules::constants::{DEFAULT_LEVEL, MAX_FIRE_TARGETS, NEIGHBOR_RANGE, NO_COOLDOWN, NO_HEALTH};
use crate::rules::geometry::{spec_distance, spec_station_gap, station_gap, wide_distance, within_reach};
use crate::text::str_eq;
use crate::world::view::{WorldView, spec_in_bounds};

use super::path::{PathResult, lemma_found_distance, lemma_walk_fails, next_step, stand_at, walk_distance, walk_fails, walk_toward};

verus! {

/// A live worker or pioneer.
pub open spec fn spec_is_unit(role: Role) -> bool {
    is_alive(role) && (role.role_type@ == "worker"@ || role.role_type@ == "pioneer"@)
}

pub fn is_unit(role: &Role) -> (r: bool)
    ensures
        r == spec_is_unit(*role),
{
    alive(role) && (str_eq(role.role_type.as_str(), "worker") || str_eq(role.role_type.as_str(), "pioneer"))
}

/// Whether two targets lie within a right angle of each other as seen
/// from the weapon.
pub fn angle_legal(origin: Pos, first: Pos, second: Pos) -> (r: bool)
    ensures
        r == dot_non_negative(origin, first, second),
{
    let ax = first.x as i64 - origin.x as i64;
    let ay = first.y as i64 - origin.y as i64;
    let bx = second.x as i64 - origin.x as i64;
    let by = second.y as i64 - origin.y as i64;
    assert(-0x1_0000_0000_0000_0000 <= (ax as int) * (bx as int) <= 0x1_0000_0000_0000_0000) by (nonlinear_arith)
        requires -0x1_0000_0000 <= ax <= 0x1_0000_0000, -0x1_0000_0000 <= bx <= 0x1_0000_0000;
    assert(-0x1_0000_0000_0000_0000 <= (ay as int) * (by as int) <= 0x1_0000_0000_0000_0000) by (nonlinear_arith)
        requires -0x1_0000_0000 <= ay <= 0x1_0000_0000, -0x1_0000_0000 <= by <= 0x1_0000_0000;
    (ax as i128) * (bx as i128) + (ay as i128) * (by as i128) >= NO_HEALTH as i128
}

/// One step of the greedy gatling choice: a candidate is taken while
/// fewer than `required` are chosen and it lies within a right angle of
/// every chosen one.
pub open spec fn gatling_step(origin: Pos, chosen: Seq<Pos>, candidate: Pos, required: nat) -> Seq<Pos> {
    if chosen.len() < required && forall|i: int| 0 <= i < chosen.len() ==> dot_non_negative(origin, #[trigger] chosen[i], candidate) {
        chosen.push(candidate)
    } else {
        chosen
    }
}

/// The greedy gatling choice over the candidates in order.
pub open spec fn gatling_choice(origin: Pos, candidates: Seq<Pos>, required: nat) -> Seq<Pos>
    decreases candidates.len(),
{
    if candidates.len() == 0 {
        Seq::empty()
    } else {
        gatling_step(origin, gatling_choice(origin, candidates.drop_last(), required), candidates.last(), required)
    }
}

/// Takes, in order, each candidate within a right angle of all those taken
/// before, until `required` are taken; fewer than that is no choice.
pub fn select_gatling(origin: Pos, candidates: &Vec<Pos>, required: usize) -> (r: Vec<Pos>)
    ensures
        r@ == (if gatling_choice(origin, candidates@, required as nat).len() == required {
            gatling_choice(origin, candidates@, required as nat)
        } else {
            Seq::empty()
        }),
{
    let mut selected: Vec<Pos> = Vec::new();
    let mut i: usize = 0;
    while i < candidates.len()
        invariant
            i <= candidates@.len(),
            selected@ == gatling_choice(origin, candidates@.subrange(0, i as int), required as nat),
            selected@.len() <= required,
        decreases candidates@.len() - i,
    {
        proof {
            assert(candidates@.subrange(0, i + 1).drop_last() =~= candidates@.subrange(0, i as int));
        }
        if selected.len() < required {
            let c = candidates[i];
            let mut all = true;
            let mut k: usize = 0;
            while k < selected.len()
                invariant
                    k <= selected@.len(),
                    all == forall|j: int| 0 <= j < k ==> dot_non_negative(origin, #[trigger] selected@[j], c),
                decreases selected@.len() - k,
            {
                if !angle_legal(origin, selected[k], c) {
                    all = false;
                }
                k = k + 1;
            }
            if all {
                selected.push(c);
            }
        }
        i = i + 1;
    }
    assert(candidates@.subrange(0, candidates@.len() as int) =~= candidates@);
    if selected.len() == required {
        selected
    } else {
        Vec::new()
    }
}

/// The targets a weapon of the given level fires at, from candidates in
/// priority order: the first for a railgun, the first `level` times for a
/// rocket, the greedy gatling choice for a gatling; nothing for a negative
/// level, no candidate, or another kind.
pub open spec fn spec_select_targets(kind: Seq<char>, origin: Pos, level: i32, candidates: Seq<Pos>) -> Seq<Pos> {
    if level < 0 {
        Seq::empty()
    } else if kind == "railgun"@ {
        if candidates.len() > 0 { seq![candidates[0]] } else { Seq::empty() }
    } else if kind == "rocket"@ {
        if candidates.len() > 0 { Seq::new(level as nat, |i: int| candidates[0]) } else { Seq::empty() }
    } else if kind == "gatling"@ {
        let choice = gatling_choice(origin, candidates, level as nat);
        if choice.len() == level { choice } else { Seq::empty() }
    } else {
        Seq::empty()
    }
}

pub fn select_targets(weapon: &Role, level: i32, candidates: &Vec<Pos>) -> (r: Vec<Pos>)
    ensures
        r@ == spec_select_targets(weapon.role_type@, weapon.pos, level, candidates@),
{
    if level < 0 {
        return Vec::new();
    }
    let required = level as usize;
    if str_eq(weapon.role_type.as_str(), "railgun") {
        if candidates.len() > 0 {
            let v = vec![candidates[0]];
            assert(v@ =~= seq![candidates@[0]]);
            v
        } else {
            Vec::new()
        }
    } else if str_eq(weapon.role_type.as_str(), "rocket") {
        if candidates.len() > 0 {
            let first = candidates[0];
            let mut v: Vec<Pos> = Vec::new();
            let mut i: usize = 0;
            while i < required
                invariant
                    i <= required,
                    v@ == Seq::new(i as nat, |j: int| first),
                decreases required - i,
            {
                v.push(first);
                assert(v@ =~= Seq::new((i + 1) as nat, |j: int| first));
                i = i + 1;
            }
            assert(v@ =~= Seq::new(level as nat, |j: int| candidates@[0]));
            v
        } else {
            Vec::new()
        }
    } else if str_eq(weapon.role_type.as_str(), "gatling") {
        select_gatling(weapon.pos, candidates, required)
    } else {
        Vec::new()
    }
}

/// Robots nearest the base first, then the weakest, then by id.
pub open spec fn target_key(base: Option<Role>, robot: Role) -> (int, int, int) {
    (
        match base {
            Some(b) => spec_station_gap(b.pos, robot.pos),
            None => i32::MAX as int,
        },
        match robot.health {
            Some(hp) => hp as int,
            None => i32::MAX as int,
        },
        robot.id as int,
    )
}

pub open spec fn key_le(a: (int, int, int), b: (int, int, int)) -> bool {
    a.0 < b.0 || (a.0 == b.0 && (a.1 < b.1 || (a.1 == b.1 && a.2 <= b.2)))
}

fn target_priority(base: Option<&Role>, robot: &Role) -> (r: (i64, i64, i64))
    ensures
        (r.0 as int, r.1 as int, r.2 as int) == target_key(match base { Some(b) => Some(*b), None => None }, *robot),
{
    let distance = match base {
        Some(b) => station_gap(b.pos, robot.pos),
        None => i32::MAX as i64,
    };
    let health = match robot.health {
        Some(hp) => hp as i64,
        None => i32::MAX as i64,
    };
    (distance, health, robot.id)
}

/// A live robot within the weapon's range.
pub open spec fn in_fire_range(robot: Role, weapon: Role) -> bool {
    is_alive(robot) && spec_distance(robot.pos, weapon.pos) <= weapon.attack_range.unwrap_or(NO_HEALTH)
}

/// The cell of one of the robots the weapon can hit.
pub open spec fn robot_in_range_at(robots: Seq<Role>, weapon: Role, p: Pos) -> bool {
    exists|j: int| 0 <= j < robots.len() && in_fire_range(robots[j], weapon) && #[trigger] robots[j].pos == p
}

/// How far a robot stands from the team's first station, counted to the
/// nearest station cell; as far as can be when the team has no station.
pub open spec fn base_gap(o: &Observation, robot: Role) -> int {
    match spec_station(o.team_our.roles@) {
        Some(s) => spec_station_gap(s.pos, robot.pos),
        None => i32::MAX as int,
    }
}

/// Robot `a` is shot no later than robot `b`: it stands nearer the base,
/// or as near and is weaker (unknown health counting as the most), or is
/// as near and as strong and has an id no larger.
pub open spec fn shot_before(o: &Observation, a: Role, b: Role) -> bool {
    let ha = a.health.unwrap_or(i32::MAX) as int;
    let hb = b.health.unwrap_or(i32::MAX) as int;
    ||| base_gap(o, a) < base_gap(o, b)
    ||| base_gap(o, a) == base_gap(o, b) && ha < hb
    ||| base_gap(o, a) == base_gap(o, b) && ha == hb && a.id <= b.id
}

/// `p` is the cell of a live robot in the weapon's range that is shot no
/// later than any other live robot in its range.
pub open spec fn first_in_line(o: &Observation, weapon: Role, p: Pos) -> bool {
    let robots = o.robot->0.roles@;
    exists|j: int| 0 <= j < robots.len() && in_fire_range(#[trigger] robots[j], weapon) && robots[j].pos == p
        && forall|k: int| 0 <= k < robots.len() && in_fire_range(#[trigger] robots[k], weapon) ==> shot_before(o, robots[j], robots[k])
}

/// The live robots in the weapon's range, each with its firing key, in key
/// order; the first is that of a robot whose key is no larger than any
/// other's in range.
fn rank_robots(roles: &Vec<Role>, weapon: &Role, base: Option<&Role>) -> (ranked: Vec<((i64, i64, i64), Pos)>)
    ensures
        forall|a: int, b: int| 0 <= a < b < ranked@.len() ==> key_le_exec(#[trigger] ranked@[a].0, #[trigger] ranked@[b].0),
        forall|k: int| 0 <= k < ranked@.len() ==> robot_in_range_at(roles@, *weapon, #[trigger] ranked@[k].1),
        (exists|j: int| 0 <= j < roles@.len() && in_fire_range(#[trigger] roles@[j], *weapon)) ==> ranked@.len() > 0,
        ranked@.len() > 0 ==> exists|j: int| 0 <= j < roles@.len() && #[trigger] in_fire_range(roles@[j], *weapon)
            && roles@[j].pos == ranked@[0].1
            && forall|k: int| 0 <= k < roles@.len() && in_fire_range(#[trigger] roles@[k], *weapon)
                ==> key_le(target_key(match base { Some(b) => Some(*b), None => None }, roles@[j]),
                    target_key(match base { Some(b) => Some(*b), None => None }, roles@[k])),
{
    let ghost station = match base { Some(b) => Some(*b), None => None };
    let mut ranked: Vec<((i64, i64, i64), Pos)> = Vec::new();
    let ghost mut first: int = 0;
    let mut i: usize = 0;
    while i < roles.len()
        invariant
            i <= roles@.len(),
            station == (match base { Some(b) => Some(*b), None => None }),
            ranked@.len() > 0 ==> 0 <= first < i && in_fire_range(roles@[first], *weapon) && roles@[first].pos == ranked@[0].1
                && (ranked@[0].0.0 as int, ranked@[0].0.1 as int, ranked@[0].0.2 as int) == target_key(station, roles@[first]),
            forall|j: int| 0 <= j < i && in_fire_range(#[trigger] roles@[j], *weapon)
                ==> ranked@.len() > 0 && key_le((ranked@[0].0.0 as int, ranked@[0].0.1 as int, ranked@[0].0.2 as int), target_key(station, roles@[j])),
            forall|k: int| 0 <= k < ranked@.len() ==> robot_in_range_at(roles@, *weapon, #[trigger] ranked@[k].1),
            forall|a: int, b: int| 0 <= a < b < ranked@.len() ==> key_le_exec(#[trigger] ranked@[a].0, #[trigger] ranked@[b].0),
        decreases roles@.len() - i,
    {
        let robot = &roles[i];
        if alive(robot) && wide_distance(robot.pos, weapon.pos) <= weapon.attack_range.unwrap_or(NO_HEALTH) as i64 {
            let key = target_priority(base, robot);
            let mut at: usize = 0;
            while at < ranked.len() && !key_less(key, ranked[at].0)
                invariant
                    at <= ranked@.len(),
                    forall|k: int| 0 <= k < at ==> key_le_exec(#[trigger] ranked@[k].0, key),
                decreases ranked@.len() - at,
            {
                at = at + 1;
            }
            let ghost before = ranked@;
            ranked.insert(at, (key, robot.pos));
            proof {
                assert(ranked@ =~= before.insert(at as int, (key, robot.pos)));
                assert(in_fire_range(roles@[i as int], *weapon));
                if at == 0 {
                    first = i as int;
                    assert(ranked@[0] == (key, robot.pos));
                    if before.len() > 0 {
                        assert(key_less_spec(key, before[0].0));
                    }
                } else {
                    assert(ranked@[0] == before[0]);
                    assert(key_le_exec(before[0].0, key));
                }
                assert forall|a: int, b: int| 0 <= a < b < ranked@.len() implies key_le_exec(#[trigger] ranked@[a].0, #[trigger] ranked@[b].0) by {
                    if b < at {
                        assert(ranked@[a] == before[a] && ranked@[b] == before[b]);
                    } else if a > at {
                        assert(ranked@[a] == before[a - 1] && ranked@[b] == before[b - 1]);
                    } else if a == at {
                        assert(ranked@[b] == before[b - 1]);
                        if at < before.len() {
                            assert(key_less_spec(key, before[at as int].0));
                        }
                    } else {
                        assert(ranked@[a] == before[a]);
                        if b == at {
                        } else {
                            assert(ranked@[b] == before[b - 1]);
                        }
                    }
                }
                assert forall|k: int| 0 <= k < ranked@.len() implies robot_in_range_at(roles@, *weapon, #[trigger] ranked@[k].1) by {
                    if k == at {
                        assert(roles@[i as int].pos == ranked@[k].1);
                    } else if k < at {
                        assert(ranked@[k] == before[k]);
                    } else {
                        assert(ranked@[k] == before[k - 1]);
                    }
                }
            }
        }
        i = i + 1;
    }
    proof {
        if ranked@.len() > 0 {
            assert(in_fire_range(roles@[first], *weapon));
        }
    }
    ranked
}

/// The robots a weapon aims at, nearest the base first, then the weakest,
/// then by id; at most the configured number.
#[verifier::rlimit(100)]
pub fn fire_targets(observation: &Observation, weapon: &Role) -> (r: Vec<Pos>)
    ensures
        observation.robot is None ==> r@.len() == 0,
        weapon.level.unwrap_or(DEFAULT_LEVEL) < 0 ==> r@.len() == 0,
        forall|i: int| 0 <= i < r@.len() ==> robot_in_range_at(observation.robot->0.roles@, *weapon, #[trigger] r@[i]),
        spec_is_weapon(weapon.role_type@) && weapon.role_type@ != "gatling"@ && weapon.level.unwrap_or(DEFAULT_LEVEL) >= 0
            && observation.robot is Some
            && (exists|j: int| 0 <= j < observation.robot->0.roles@.len() && in_fire_range(#[trigger] observation.robot->0.roles@[j], *weapon))
            ==> r@.len() == (if weapon.role_type@ == "railgun"@ { 1 } else { weapon.level.unwrap_or(DEFAULT_LEVEL) as int }),
        weapon.role_type@ != "gatling"@ ==> forall|i: int| 0 <= i < r@.len() ==> first_in_line(observation, *weapon, #[trigger] r@[i]),
        r@.len() > 0 ==> first_in_line(observation, *weapon, r@[0]),
{
    let level = match weapon.level {
        Some(l) => l,
        None => DEFAULT_LEVEL,
    };
    let robots = match &observation.robot {
        Some(robots) => robots,
        None => return Vec::new(),
    };
    let base = match find_station(&observation.team_our.roles) {
        Some(i) => Some(&observation.team_our.roles[i]),
        None => None,
    };
    let ghost station = match base { Some(b) => Some(*b), None => None };
    assert(station == spec_station(observation.team_our.roles@));
    let ranked = rank_robots(&robots.roles, weapon, base);
    let mut candidates: Vec<Pos> = Vec::new();
    let mut k: usize = 0;
    while k < ranked.len() && k < MAX_FIRE_TARGETS
        invariant
            k <= ranked@.len(),
            candidates@.len() == k,
            forall|m: int| 0 <= m < k ==> #[trigger] candidates@[m] == ranked@[m].1,
            forall|m: int| 0 <= m < ranked@.len() ==> robot_in_range_at(robots.roles@, *weapon, #[trigger] ranked@[m].1),
        decreases ranked@.len() - k,
    {
        candidates.push(ranked[k].1);
        k = k + 1;
    }
    let r = select_targets(weapon, level, &candidates);
    proof {
        assert forall|m: int| 0 <= m < r@.len() implies robot_in_range_at(observation.robot->0.roles@, *weapon, #[trigger] r@[m]) by {
            if weapon.role_type@ == "gatling"@ {
                lemma_gatling_from(weapon.pos, candidates@, level as nat);
                let c = choose|c: int| 0 <= c < candidates@.len() && candidates@[c] == r@[m];
                assert(candidates@[c] == ranked@[c].1);
            } else {
                assert(r@[m] == candidates@[0]);
                assert(candidates@[0] == ranked@[0].1);
            }
        }
        if robots.roles@.len() > 0 && (exists|j: int| 0 <= j < robots.roles@.len() && in_fire_range(#[trigger] robots.roles@[j], *weapon)) {
            assert(ranked@.len() > 0);
            assert(candidates@.len() > 0);
        }
        if weapon.role_type@ == "gatling"@ && level >= 0 {
            if level == 0 {
                lemma_gatling_none(weapon.pos, candidates@);
            } else if candidates@.len() > 0 {
                lemma_gatling_first(weapon.pos, candidates@, level as nat);
            }
        }
        assert forall|m: int| 0 <= m < r@.len() && (m == 0 || weapon.role_type@ != "gatling"@)
            implies first_in_line(observation, *weapon, #[trigger] r@[m]) by {
            {
                assert(r@[m] == candidates@[0]);
                assert(candidates@[0] == ranked@[0].1);
                let rs = robots.roles@;
                let j = choose|j: int| 0 <= j < rs.len() && #[trigger] in_fire_range(rs[j], *weapon)
                    && rs[j].pos == ranked@[0].1
                    && forall|k: int| 0 <= k < rs.len() && in_fire_range(#[trigger] rs[k], *weapon)
                        ==> key_le(target_key(station, rs[j]), target_key(station, rs[k]));
                assert forall|k: int| 0 <= k < rs.len() && in_fire_range(#[trigger] rs[k], *weapon)
                    implies shot_before(observation, rs[j], rs[k]) by {
                    assert(key_le(target_key(station, rs[j]), target_key(station, rs[k])));
                }
                assert(observation.robot->0.roles@ == rs);
            }
        }
    }
    r
}

pub open spec fn key_le_exec(a: (i64, i64, i64), b: (i64, i64, i64)) -> bool {
    a.0 < b.0 || (a.0 == b.0 && (a.1 < b.1 || (a.1 == b.1 && a.2 <= b.2)))
}

pub open spec fn key_less_spec(a: (i64, i64, i64), b: (i64, i64, i64)) -> bool {
    a.0 < b.0 || (a.0 == b.0 && (a.1 < b.1 || (a.1 == b.1 && a.2 < b.2)))
}

fn key_less(a: (i64, i64, i64), b: (i64, i64, i64)) -> (r: bool)
    ensures
        r == key_less_spec(a, b),
{
    a.0 < b.0 || (a.0 == b.0 && (a.1 < b.1 || (a.1 == b.1 && a.2 < b.2)))
}

/// A gatling that need take none takes none.
proof fn lemma_gatling_none(origin: Pos, candidates: Seq<Pos>)
    ensures
        gatling_choice(origin, candidates, 0).len() == 0,
    decreases candidates.len(),
{
    if candidates.len() > 0 {
        lemma_gatling_none(origin, candidates.drop_last());
    }
}

/// The gatling choice always takes the first candidate first.
proof fn lemma_gatling_first(origin: Pos, candidates: Seq<Pos>, required: nat)
    requires
        required > 0,
        candidates.len() > 0,
    ensures
        gatling_choice(origin, candidates, required).len() > 0,
        gatling_choice(origin, candidates, required)[0] == candidates[0],
    decreases candidates.len(),
{
    let rest = candidates.drop_last();
    if rest.len() == 0 {
        assert(gatling_choice(origin, rest, required) =~= Seq::<Pos>::empty());
    } else {
        lemma_gatling_first(origin, rest, required);
        assert(rest[0] == candidates[0]);
        let prev = gatling_choice(origin, rest, required);
        let now = gatling_choice(origin, candidates, required);
        assert(now == prev || now == prev.push(candidates.last()));
        assert(now[0] == prev[0]);
    }
}

/// Every cell the gatling choice takes is one of the candidates.
pub proof fn lemma_gatling_from(origin: Pos, candidates: Seq<Pos>, required: nat)
    ensures
        forall|i: int| 0 <= i < gatling_choice(origin, candidates, required).len()
            ==> candidates.contains(#[trigger] gatling_choice(origin, candidates, required)[i]),
    decreases candidates.len(),
{
    if candidates.len() > 0 {
        let rest = candidates.drop_last();
        lemma_gatling_from(origin, rest, required);
        let prev = gatling_choice(origin, rest, required);
        let now = gatling_choice(origin, candidates, required);
        assert forall|i: int| 0 <= i < now.len() implies candidates.contains(#[trigger] now[i]) by {
            if i < prev.len() {
                assert(now[i] == prev[i]);
                let k = choose|k: int| 0 <= k < rest.len() && rest[k] == prev[i];
                assert(candidates[k] == prev[i]);
            } else {
                assert(now[i] == candidates.last());
                assert(candidates[candidates.len() - 1] == candidates.last());
            }
        }
    }
}

/// The attack a controller standing by a ready weapon orders, when the
/// weapon has targets.
pub fn fire(observation: &Observation, controller: &Role, weapon: &Role) -> (r: Option<Action>)
    ensures
        weapon.cooldown != Some(NO_COOLDOWN) ==> r is None,
        r matches Some(a) ==> (a@ matches ActionView::Attack { controller: c, targets } && c == controller.id && targets.len() > 0
            && forall|i: int| 0 <= i < targets.len() ==> robot_in_range_at(observation.robot->0.roles@, *weapon, #[trigger] targets[i])),
        weapon.cooldown == Some(NO_COOLDOWN) && spec_is_weapon(weapon.role_type@) && weapon.role_type@ != "gatling"@
            && weapon.level.unwrap_or(DEFAULT_LEVEL) >= 1 && observation.robot is Some
            && (exists|j: int| 0 <= j < observation.robot->0.roles@.len() && in_fire_range(#[trigger] observation.robot->0.roles@[j], *weapon))
            ==> r is Some,
{
    if weapon.cooldown != Some(NO_COOLDOWN) {
        return None;
    }
    let targets = fire_targets(observation, weapon);
    if targets.len() == 0 {
        return None;
    }
    Some(Action::Attack { controller: controller.id, targets })
}

/// A weapon that fires when manned: ready, of a kind that aims at single
/// cells, at a level that fires, with a live robot in range.
pub open spec fn fire_ready(o: &Observation, weapon: Role) -> bool {
    &&& weapon.cooldown == Some(NO_COOLDOWN)
    &&& spec_is_weapon(weapon.role_type@)
    &&& weapon.role_type@ != "gatling"@
    &&& weapon.level.unwrap_or(DEFAULT_LEVEL) >= 1
    &&& o.robot is Some
    &&& exists|j: int| 0 <= j < o.robot->0.roles@.len() && in_fire_range(#[trigger] o.robot->0.roles@[j], weapon)
}

/// Fire when the controller stands by the weapon; otherwise take the first
/// step of a shortest walk to a cell beside it.
pub fn defense_action(view: &WorldView, controller: &Role, weapon: &Role) -> (r: Option<Action>)
    ensures
        spec_distance(controller.pos, weapon.pos) <= 1 ==> (r matches Some(a) ==> (a@ matches ActionView::Attack { controller: c, targets }
            && c == controller.id && targets.len() > 0
            && forall|i: int| 0 <= i < targets.len() ==> robot_in_range_at(view.observation.robot->0.roles@, *weapon, #[trigger] targets[i]))),
        spec_distance(controller.pos, weapon.pos) > 1 ==> (r matches Some(a) ==> (a@ matches ActionView::Move(p)
            && exists|s: PathResult| #[trigger] walk_toward(view.observation, controller.id, controller.pos,
                stand_at(*view.observation, weapon.pos, controller.id), s) && s.next == p
                && walk_distance(view.observation, controller.id, controller.pos, stand_at(*view.observation, weapon.pos, controller.id), s.steps as int))),
        spec_distance(controller.pos, weapon.pos) > 1 && r is None
            ==> walk_fails(view.observation, controller.id, controller.pos, stand_at(*view.observation, weapon.pos, controller.id)),
        spec_distance(controller.pos, weapon.pos) <= 1 && r is Some ==> weapon.cooldown == Some(NO_COOLDOWN),
        spec_distance(controller.pos, weapon.pos) <= 1 && fire_ready(view.observation, *weapon) ==> r is Some,
{
    if within_reach(controller.pos, weapon.pos) {
        return fire(view.observation, controller, weapon);
    }
    let stands = view.interact_positions(weapon.pos, controller.id);
    let ghost stand = stand_at(*view.observation, weapon.pos, controller.id);
    match next_step(view, controller.id, controller.pos, stands.as_slice()) {
        Some(step) => {
            proof {
                lemma_found_distance(view.observation, controller.id, controller.pos, stands@, stand, step);
            }
            Some(Action::Move(step.next))
        },
        None => {
            proof {
                lemma_walk_fails(view.observation, controller.id, controller.pos, stands@, stand);
            }
            None
        },
    }
}

/// Unit `i` comes before unit `j` for the weapon: nearer, or as near with
/// a lower id, or the same id earlier in the team.
pub open spec fn unit_before(o: &Observation, weapon: Role, i: int, j: int) -> bool {
    let roles = o.team_our.roles@;
    let di = spec_distance(roles[i].pos, weapon.pos);
    let dj = spec_distance(roles[j].pos, weapon.pos);
    di < dj || (di == dj && (roles[i].id < roles[j].id || (roles[i].id == roles[j].id && i <= j)))
}

/// Unit `i` is the first of the available units for the weapon.
pub open spec fn nearest_unit(o: &Observation, weapon: Role, available: Seq<i64>, i: int) -> bool {
    &&& 0 <= i < o.team_our.roles@.len()
    &&& available.contains(o.team_our.roles@[i].id)
    &&& forall|j: int| 0 <= j < o.team_our.roles@.len() && available.contains(#[trigger] o.team_our.roles@[j].id)
        ==> unit_before(o, weapon, i, j)
}

/// The unit put in charge of the weapon: the nearest available one, the
/// lowest id among equals; none when no unit is available.
pub open spec fn controller_for(o: &Observation, weapon: Role, available: Seq<i64>) -> Option<int> {
    if exists|i: int| nearest_unit(o, weapon, available, i) {
        Some(choose|i: int| nearest_unit(o, weapon, available, i))
    } else {
        None
    }
}

pub proof fn lemma_nearest_unique(o: &Observation, weapon: Role, available: Seq<i64>, i: int, j: int)
    requires
        nearest_unit(o, weapon, available, i),
        nearest_unit(o, weapon, available, j),
    ensures
        i == j,
{
    assert(unit_before(o, weapon, i, j));
    assert(unit_before(o, weapon, j, i));
}

/// The available unit nearest the weapon, the lowest id among equals.
pub fn choose_controller(observation: &Observation, weapon: &Role, available: &Vec<i64>) -> (r: Option<usize>)
    ensures
        r is None <==> controller_for(observation, *weapon, available@) is None,
        r matches Some(i) ==> controller_for(observation, *weapon, available@) == Some(i as int),
        r is None ==> forall|j: int| 0 <= j < observation.team_our.roles@.len() ==> !available@.contains(#[trigger] observation.team_our.roles@[j].id),
{
    let roles = &observation.team_our.roles;
    let mut best: Option<usize> = None;
    let mut i: usize = 0;
    while i < roles.len()
        invariant
            i <= roles@.len(),
            roles@ == observation.team_our.roles@,
            best is None ==> forall|j: int| 0 <= j < i ==> !available@.contains(#[trigger] roles@[j].id),
            best matches Some(b) ==> b < i && available@.contains(roles@[b as int].id)
                && forall|j: int| 0 <= j < i && available@.contains(#[trigger] roles@[j].id)
                    ==> unit_before(observation, *weapon, b as int, j),
        decreases roles@.len() - i,
    {
        if contains_id(available, roles[i].id) {
            let better = match best {
                None => true,
                Some(b) => {
                    let d = wide_distance(roles[i].pos, weapon.pos);
                    let db = wide_distance(roles[b].pos, weapon.pos);
                    d < db || (d == db && roles[i].id < roles[b].id)
                },
            };
            if better {
                best = Some(i);
            }
        }
        i = i + 1;
    }
    proof {
        match best {
            Some(b) => {
                assert(nearest_unit(observation, *weapon, available@, b as int));
                let c = choose|c: int| nearest_unit(observation, *weapon, available@, c);
                lemma_nearest_unique(observation, *weapon, available@, b as int, c);
            },
            None => {
                assert forall|c: int| !nearest_unit(observation, *weapon, available@, c) by {
                    if nearest_unit(observation, *weapon, available@, c) {
                        assert(!available@.contains(roles@[c].id));
                    }
                }
            },
        }
    }
    best
}

fn contains_id(ids: &Vec<i64>, id: i64) -> (r: bool)
    ensures
        r == ids@.contains(id),
{
    let mut i: usize = 0;
    while i < ids.len()
        invariant
            i <= ids@.len(),
            forall|j: int| 0 <= j < i ==> ids@[j] != id,
        decreases ids@.len() - i,
    {
        if ids[i] == id {
            return true;
        }
        i = i + 1;
    }
    false
}

fn remove_id(ids: &mut Vec<i64>, id: i64)
    ensures
        final(ids)@ == old(ids)@.filter(|x: i64| x != id),
{
    let ghost p = |x: i64| x != id;
    let mut kept: Vec<i64> = Vec::new();
    let mut i: usize = 0;
    while i < ids.len()
        invariant
            i <= ids@.len(),
            ids@ == old(ids)@,
            p == (|x: i64| x != id),
            kept@ == ids@.subrange(0, i as int).filter(p),
        decreases ids@.len() - i,
    {
        let v = ids[i];
        proof {
            assert(ids@.subrange(0, i + 1) =~= ids@.subrange(0, i as int).push(v));
            ids@.subrange(0, i as int).lemma_filter_push(v, p);
        }
        if v != id {
            kept.push(v);
        }
        i = i + 1;
    }
    assert(ids@.subrange(0, ids@.len() as int) =~= ids@);
    *ids = kept;
}

/// A live weapon role.
pub open spec fn live_weapon_role(role: Role) -> bool {
    spec_is_weapon(role.role_type@) && is_alive(role)
}

/// The team's live weapons, by increasing id: their indices.
#[verifier::rlimit(100)]
fn weapons_by_id(observation: &Observation) -> (r: Vec<usize>)
    ensures
        forall|k: int| 0 <= k < r@.len() ==> #[trigger] r@[k] < observation.team_our.roles@.len()
            && live_weapon_role(observation.team_our.roles@[r@[k] as int]),
        forall|a: int, b: int| 0 <= a < b < r@.len() ==> observation.team_our.roles@[#[trigger] r@[a] as int].id
            <= observation.team_our.roles@[#[trigger] r@[b] as int].id,
        forall|j: int| 0 <= j < observation.team_our.roles@.len()
            && live_weapon_role(#[trigger] observation.team_our.roles@[j]) ==> r@.contains(j as usize),
        r@.no_duplicates(),
        r@.len() <= observation.team_our.roles@.len(),
{
    let roles = &observation.team_our.roles;
    let mut found: Vec<usize> = Vec::new();
    let mut i: usize = 0;
    while i < roles.len()
        invariant
            roles == &observation.team_our.roles,
            i <= roles@.len(),
            forall|k: int| 0 <= k < found@.len() ==> #[trigger] found@[k] < roles@.len()
                && live_weapon_role(roles@[found@[k] as int]),
            forall|a: int, b: int| 0 <= a < b < found@.len() ==> roles@[#[trigger] found@[a] as int].id
                <= roles@[#[trigger] found@[b] as int].id,
            forall|j: int| 0 <= j < i && live_weapon_role(#[trigger] roles@[j]) ==> found@.contains(j as usize),
            forall|k: int| 0 <= k < found@.len() ==> #[trigger] found@[k] < i,
            found@.no_duplicates(),
            found@.len() <= i,
        decreases roles@.len() - i,
    {
        if is_weapon(roles[i].role_type.as_str()) && alive(&roles[i]) {
            let id = roles[i].id;
            let mut at: usize = found.len();
            while at > 0 && roles[found[at - 1]].id > id
                invariant
                    roles == &observation.team_our.roles,
                    at <= found@.len(),
                    forall|k: int| 0 <= k < found@.len() ==> #[trigger] found@[k] < roles@.len(),
                    forall|k: int| at <= k < found@.len() ==> roles@[#[trigger] found@[k] as int].id > id,
                decreases at,
            {
                at = at - 1;
            }
            let ghost before = found@;
            found.insert(at, i);
            proof {
                assert(found@ == before.insert(at as int, i));
                assert(found@[at as int] == i);
                assert forall|j: int| 0 <= j < i + 1 && live_weapon_role(#[trigger] roles@[j])
                    implies found@.contains(j as usize) by {
                    if j < i {
                        let k = choose|k: int| 0 <= k < before.len() && before[k] == j as usize;
                        if k < at {
                            assert(found@[k] == before[k]);
                        } else {
                            assert(found@[k + 1] == before[k]);
                        }
                    }
                }
                assert forall|k: int| 0 <= k < found@.len() implies #[trigger] found@[k] < i + 1 by {
                    if k < at {
                        assert(found@[k] == before[k]);
                    } else if k > at {
                        assert(found@[k] == before[k - 1]);
                    }
                }
                assert forall|a: int, b: int| 0 <= a < b < found@.len() implies found@[a] != found@[b] by {
                    if a < at {
                        assert(found@[a] == before[a]);
                    } else if a > at {
                        assert(found@[a] == before[a - 1]);
                    }
                    if b < at {
                        assert(found@[b] == before[b]);
                    } else if b > at {
                        assert(found@[b] == before[b - 1]);
                    }
                }
                assert forall|k: int| 0 <= k < found@.len() implies #[trigger] found@[k] < roles@.len()
                    && live_weapon_role(roles@[found@[k] as int]) by {
                    if k < at {
                        assert(found@[k] == before[k]);
                    } else if k > at {
                        assert(found@[k] == before[k - 1]);
                    }
                }
                assert forall|a: int, b: int| 0 <= a < b < found@.len() implies roles@[#[trigger] found@[a] as int].id
                    <= roles@[#[trigger] found@[b] as int].id by {
                    let wa = found@[a];
                    let wb = found@[b];
                    if a < at {
                        assert(wa == before[a]);
                        if b < at {
                            assert(wb == before[b]);
                        } else if b == at {
                            if at > 0 {
                                assert(before[at - 1] == found@[at - 1]);
                            }
                            assert(roles@[before[a] as int].id <= roles@[before[at - 1] as int].id || a == at - 1);
                        } else {
                            assert(wb == before[b - 1]);
                        }
                    } else if a == at {
                        assert(wb == before[b - 1]);
                        assert(roles@[before[b - 1] as int].id > id);
                    } else {
                        assert(wa == before[a - 1]);
                        assert(wb == before[b - 1]);
                    }
                }
            }
        }
        i = i + 1;
    }
    found
}

/// A role that may be put in charge of a weapon this round.
pub open spec fn pool_member(o: &Observation, role: Role) -> bool {
    spec_is_unit(role) && (role.role_type@ == "worker"@ || o.phase_task@.len() == 0)
}

/// The units that may be put in charge of weapons, in team order.
pub open spec fn unit_pool(o: &Observation) -> Seq<i64> {
    o.team_our.roles@.filter(|role: Role| pool_member(o, role)).map_values(|role: Role| role.id)
}

fn defence_units(observation: &Observation) -> (r: Vec<i64>)
    ensures
        r@ == unit_pool(observation),
{
    let roles = &observation.team_our.roles;
    let challenge_open = observation.phase_task.as_str().unicode_len() != 0;
    let ghost p = |role: Role| pool_member(observation, role);
    let mut units: Vec<i64> = Vec::new();
    let mut i: usize = 0;
    while i < roles.len()
        invariant
            roles@ == observation.team_our.roles@,
            i <= roles@.len(),
            challenge_open == (observation.phase_task@.len() != 0),
            p == (|role: Role| pool_member(observation, role)),
            units@ == roles@.subrange(0, i as int).filter(p).map_values(|role: Role| role.id),
        decreases roles@.len() - i,
    {
        let role = &roles[i];
        proof {
            assert(roles@.subrange(0, i + 1) =~= roles@.subrange(0, i as int).push(*role));
            roles@.subrange(0, i as int).lemma_filter_push(*role, p);
        }
        if is_unit(role) && (str_eq(role.role_type.as_str(), "worker") || !challenge_open) {
            units.push(role.id);
            assert(units@ =~= roles@.subrange(0, i + 1).filter(p).map_values(|role: Role| role.id));
        } else {
            assert(units@ =~= roles@.subrange(0, i + 1).filter(p).map_values(|role: Role| role.id));
        }
        i = i + 1;
    }
    assert(roles@.subrange(0, roles@.len() as int) =~= roles@);
    units
}

/// A unit of the team that may be put in charge of a weapon: a live
/// worker, or a live pioneer when no challenge is open.
pub open spec fn defence_unit(o: &Observation, id: i64) -> bool {
    exists|k: int| 0 <= k < o.team_our.roles@.len() && (#[trigger] o.team_our.roles@[k]).id == id
        && spec_is_unit(o.team_our.roles@[k])
        && (o.team_our.roles@[k].role_type@ == "worker"@ || o.phase_task@.len() == 0)
}

/// A live weapon of the team.
pub open spec fn live_weapon(o: &Observation, id: i64) -> bool {
    exists|k: int| 0 <= k < o.team_our.roles@.len() && (#[trigger] o.team_our.roles@[k]).id == id
        && spec_is_weapon(o.team_our.roles@[k].role_type@) && is_alive(o.team_our.roles@[k])
}

/// An order of the defence: a live weapon's attack under a free unit's
/// control, or a free unit's move.
pub open spec fn defence_order(o: &Observation, actor: i64, action: ActionView) -> bool {
    match action {
        ActionView::Attack { controller, .. } => live_weapon(o, actor) && defence_unit(o, controller),
        ActionView::Move(_) => defence_unit(o, actor),
        _ => false,
    }
}

/// What the arbiter checked of a defence order in the frame it judges by:
/// an attack fires a cooled-down weapon whose controller is a live unit
/// standing within reach of it, at one target or more, each on the map and
/// within the weapon's range; a move takes a live unit one cell away.
pub open spec fn admitted_defence_order(judged: &Observation, actor: i64, action: ActionView) -> bool {
    match action {
        ActionView::Attack { controller, targets } => {
            &&& role_by_id(judged.team_our.roles@, actor) matches Some(weapon)
            &&& role_by_id(judged.team_our.roles@, controller) matches Some(unit)
            &&& spec_is_weapon(weapon.role_type@)
            &&& is_alive(unit)
            &&& spec_distance(unit.pos, weapon.pos) <= NEIGHBOR_RANGE
            &&& weapon.cooldown == Some(NO_COOLDOWN)
            &&& targets.len() > 0
            &&& forall|i: int| 0 <= i < targets.len() ==> spec_in_bounds(judged, #[trigger] targets[i])
                && spec_distance(weapon.pos, targets[i]) <= weapon.attack_range.unwrap_or(NO_HEALTH)
        },
        ActionView::Move(p) => role_by_id(judged.team_our.roles@, actor) matches Some(unit)
            && is_alive(unit) && spec_distance(unit.pos, p) == NEIGHBOR_RANGE,
        _ => false,
    }
}

/// The live weapons, each once, by increasing id: their indices in the team.
pub open spec fn weapon_order(o: &Observation, ws: Seq<int>) -> bool {
    &&& forall|k: int| 0 <= k < ws.len() ==> 0 <= #[trigger] ws[k] < o.team_our.roles@.len()
        && live_weapon_role(o.team_our.roles@[ws[k]])
    &&& forall|j: int| 0 <= j < o.team_our.roles@.len() && live_weapon_role(#[trigger] o.team_our.roles@[j]) ==> ws.contains(j)
    &&& ws.no_duplicates()
    &&& forall|a: int, b: int| 0 <= a < b < ws.len() ==> o.team_our.roles@[#[trigger] ws[a]].id <= o.team_our.roles@[#[trigger] ws[b]].id
}

/// The units still free once the first `n` weapons of the order have
/// taken theirs.
pub open spec fn pool_after(o: &Observation, ws: Seq<int>, n: nat) -> Seq<i64>
    decreases n,
{
    if n == 0 {
        unit_pool(o)
    } else {
        let before = pool_after(o, ws, (n - 1) as nat);
        match controller_for(o, o.team_our.roles@[ws[n - 1]], before) {
            Some(c) => before.filter(|x: i64| x != o.team_our.roles@[c].id),
            None => before,
        }
    }
}

/// The order offered for a weapon under its controller: the attack of a
/// ready weapon at live robots in range when the controller stands by it
/// (nothing when it cannot fire), otherwise the controller's first step of
/// a shortest walk to a cell beside it (nothing when no walk exists).
pub open spec fn defence_offer(o: &Observation, controller: Role, weapon: Role, offer: Option<(i64, ActionView)>) -> bool {
    if spec_distance(controller.pos, weapon.pos) <= 1 {
        match offer {
            Some(order) => {
                &&& order.0 == weapon.id
                &&& weapon.cooldown == Some(NO_COOLDOWN)
                &&& order.1 matches ActionView::Attack { controller: c, targets } && c == controller.id && targets.len() > 0
                    && forall|i: int| 0 <= i < targets.len() ==> robot_in_range_at(o.robot->0.roles@, weapon, #[trigger] targets[i])
            },
            None => !fire_ready(o, weapon),
        }
    } else {
        let stand = stand_at(*o, weapon.pos, controller.id);
        match offer {
            Some(order) => {
                &&& order.0 == controller.id
                &&& order.1 matches ActionView::Move(p) && exists|s: PathResult| #[trigger] walk_toward(o, controller.id, controller.pos, stand, s)
                    && s.next == p && walk_distance(o, controller.id, controller.pos, stand, s.steps as int)
            },
            None => walk_fails(o, controller.id, controller.pos, stand),
        }
    }
}

/// The orders offered so far that the round took.
pub open spec fn offers_taken(steps: Seq<(Option<(i64, ActionView)>, bool)>) -> Seq<(i64, ActionView)>
    decreases steps.len(),
{
    if steps.len() == 0 {
        Seq::empty()
    } else {
        let before = offers_taken(steps.drop_last());
        if steps.last().1 && steps.last().0 is Some {
            before.push(steps.last().0->0)
        } else {
            before
        }
    }
}

/// The deadline of a defence contract offered in this frame.
pub open spec fn defence_deadline(o: &Observation) -> Option<MissionDeadline> {
    if spec_next_day(o.round_no as int) > i32::MAX {
        None
    } else {
        Some(MissionDeadline { at_round: spec_next_day(o.round_no as int) as i32, inclusive: true, kind: DeadlineKind::EffectObservation })
    }
}

/// The first `n` weapons of the order have been handled: each got the
/// nearest free unit and the order that unit gives for it; an order was
/// accepted exactly when the arbiter admitted it after the orders accepted
/// before and the unit could take the weapon's defence contract; the
/// accepted orders follow the earlier ones in order.
pub open spec fn defence_steps(o: &Observation, judged: &Observation, ws: Seq<int>, n: int, steps: Seq<(Option<(i64, ActionView)>, bool)>,
    specs: Seq<MissionSpec>, registries: Seq<MissionRegistry>, before: Seq<AcceptedAction>, after: Seq<AcceptedAction>) -> bool
{
    let roles = o.team_our.roles@;
    let taken = offers_taken(steps);
    &&& 0 <= n <= ws.len()
    &&& steps.len() == n
    &&& specs.len() == n
    &&& registries.len() == n + 1
    &&& forall|k: int| 0 <= k < n ==> match controller_for(o, roles[ws[k]], pool_after(o, ws, k as nat)) {
        None => (#[trigger] steps[k]).0 is None,
        Some(c) => defence_offer(o, roles[c], roles[ws[k]], steps[k].0),
    }
    &&& forall|k: int| 0 <= k < n && (#[trigger] steps[k]).1 ==> steps[k].0 is Some
    &&& forall|k: int| 0 <= k < n && (#[trigger] steps[k]).0 is Some ==> {
        let order = steps[k].0->0;
        &&& defense_terms(specs[k], roles[ws[k]].id)
        &&& specs[k].spec_deadline() == defence_deadline(o)
        &&& (steps[k].1 <==> valid_after(judged, after.subrange(0, (before.len() + offers_taken(steps.subrange(0, k)).len()) as int), order.0, order.1)
            && proposal_gate(*o, registries[k], spec_reporter(order.0, order.1), specs[k]))
    }
    &&& forall|k: int| 0 <= k < n ==> history_kept((#[trigger] registries[k]).records(), registries[k + 1].records())
    &&& after.len() == before.len() + taken.len()
    &&& forall|i: int| 0 <= i < before.len() ==> #[trigger] after[i] == before[i]
    &&& forall|m: int| 0 <= m < taken.len() ==> (#[trigger] after[before.len() + m]).actor == taken[m].0
        && after[before.len() + m].action@ == taken[m].1
}

/// A whole defence round: every live weapon of the order handled.
pub open spec fn defence_run(o: &Observation, judged: &Observation, ws: Seq<int>, steps: Seq<(Option<(i64, ActionView)>, bool)>,
    specs: Seq<MissionSpec>, registries: Seq<MissionRegistry>, before: Seq<AcceptedAction>, after: Seq<AcceptedAction>) -> bool
{
    &&& weapon_order(o, ws)
    &&& defence_steps(o, judged, ws, ws.len() as int, steps, specs, registries, before, after)
}

proof fn lemma_defence_step(o: &Observation, judged: &Observation, ws: Seq<int>, n: int, steps: Seq<(Option<(i64, ActionView)>, bool)>,
    specs: Seq<MissionSpec>, registries: Seq<MissionRegistry>, before: Seq<AcceptedAction>, after: Seq<AcceptedAction>,
    step: (Option<(i64, ActionView)>, bool), spec: MissionSpec, registry: MissionRegistry, next: Seq<AcceptedAction>)
    requires
        defence_steps(o, judged, ws, n, steps, specs, registries, before, after),
        n < ws.len(),
        match controller_for(o, o.team_our.roles@[ws[n]], pool_after(o, ws, n as nat)) {
            None => step.0 is None,
            Some(c) => defence_offer(o, o.team_our.roles@[c], o.team_our.roles@[ws[n]], step.0),
        },
        step.1 ==> step.0 is Some,
        step.0 is Some ==> {
            let order = step.0->0;
            &&& defense_terms(spec, o.team_our.roles@[ws[n]].id)
            &&& spec.spec_deadline() == defence_deadline(o)
            &&& (step.1 <==> valid_after(judged, after, order.0, order.1)
                && proposal_gate(*o, registries[n], spec_reporter(order.0, order.1), spec))
        },
        history_kept(registries[n].records(), registry.records()),
        step.1 ==> next.len() == after.len() + 1 && next.drop_last() == after
            && next.last().actor == (step.0->0).0 && next.last().action@ == (step.0->0).1,
        !step.1 ==> next == after,
    ensures
        defence_steps(o, judged, ws, n + 1, steps.push(step), specs.push(spec), registries.push(registry), before, next),
{
    let steps2 = steps.push(step);
    let roles = o.team_our.roles@;
    assert(steps2.drop_last() =~= steps);
    assert(steps2.subrange(0, n) =~= steps);
    assert forall|k: int| 0 <= k < n implies #[trigger] steps2.subrange(0, k) =~= steps.subrange(0, k) by {}
    assert forall|i: int| 0 <= i < after.len() implies #[trigger] next[i] == after[i] by {
        if step.1 {
            assert(next.drop_last()[i] == next[i]);
        }
    }
    assert forall|x: int| 0 <= x <= after.len() implies #[trigger] next.subrange(0, x) =~= after.subrange(0, x) by {}
    assert(next.subrange(0, after.len() as int) =~= after);
    let taken = offers_taken(steps);
    let taken2 = offers_taken(steps2);
    assert forall|m: int| 0 <= m < taken2.len() implies (#[trigger] next[before.len() + m]).actor == taken2[m].0
        && next[before.len() + m].action@ == taken2[m].1 by {
        if m < taken.len() {
            assert(taken2[m] == taken[m]);
            assert(after[before.len() + m].actor == taken[m].0);
        }
    }
    let specs2 = specs.push(spec);
    let regs2 = registries.push(registry);
    assert forall|k: int| 0 <= k < n + 1 && (#[trigger] steps2[k]).0 is Some implies {
        let order = steps2[k].0->0;
        &&& defense_terms(specs2[k], roles[ws[k]].id)
        &&& specs2[k].spec_deadline() == defence_deadline(o)
        &&& (steps2[k].1 <==> valid_after(judged, next.subrange(0, (before.len() + offers_taken(steps2.subrange(0, k)).len()) as int), order.0, order.1)
            && proposal_gate(*o, regs2[k], spec_reporter(order.0, order.1), specs2[k]))
    } by {
        if k < n {
            assert(steps2[k] == steps[k]);
            assert(steps2.subrange(0, k) =~= steps.subrange(0, k));
            let x = (before.len() + offers_taken(steps.subrange(0, k)).len()) as int;
            assert(offers_taken(steps.subrange(0, k)).len() <= taken.len()) by {
                lemma_offers_taken_prefix(steps, k);
            }
            assert(next.subrange(0, x) =~= after.subrange(0, x));
        } else {
            assert(steps2[k] == step);
            assert(next.subrange(0, after.len() as int) =~= after);
        }
    }
    assert forall|k: int| 0 <= k < n + 1 implies history_kept((#[trigger] regs2[k]).records(), regs2[k + 1].records()) by {
        if k < n {
            assert(regs2[k] == registries[k]);
            assert(regs2[k + 1] == registries[k + 1]);
        }
    }
    assert forall|k: int| 0 <= k < n + 1 implies match controller_for(o, roles[ws[k]], pool_after(o, ws, k as nat)) {
        None => (#[trigger] steps2[k]).0 is None,
        Some(c) => defence_offer(o, roles[c], roles[ws[k]], steps2[k].0),
    } by {
        if k < n {
            assert(steps2[k] == steps[k]);
        }
    }
}

/// Taking a prefix of the steps takes a prefix of the accepted orders.
proof fn lemma_offers_taken_prefix(steps: Seq<(Option<(i64, ActionView)>, bool)>, k: int)
    requires
        0 <= k <= steps.len(),
    ensures
        offers_taken(steps.subrange(0, k)).len() <= offers_taken(steps).len(),
    decreases steps.len() - k,
{
    if k < steps.len() {
        lemma_offers_taken_prefix(steps, k + 1);
        assert(steps.subrange(0, k + 1).drop_last() =~= steps.subrange(0, k));
    } else {
        assert(steps.subrange(0, k) =~= steps);
    }
}

/// Puts each live weapon, in id order, in the hands of the nearest free
/// unit (workers always, pioneers when no challenge is open): the unit
/// fires when it stands by the weapon and walks towards it otherwise, each
/// order offered under the weapon's defence contract. It fails only when
/// the owner allocator runs out of identities; with room for one owner per
/// unit of the team it always succeeds.
#[verifier::spinoff_prover]
#[verifier::rlimit(60)]
pub fn defend(observation: &Observation, state: &mut DecisionState, arbiter: &mut Arbiter) -> (r: Result<(), DecisionError>)
    requires
        old(state).well_formed(),
        old(arbiter).well_formed(),
        old(arbiter).spec_reserved_weapons() < usize::MAX,
    ensures
        final(state).strategy == old(state).strategy,
        final(state).emergency_clear == old(state).emergency_clear,
        final(state).well_formed(),
        final(arbiter).well_formed(),
        final(arbiter).spec_observation() == old(arbiter).spec_observation(),
        final(arbiter).spec_reserved_weapons() == old(arbiter).spec_reserved_weapons(),
        crate::ai::mission::history_kept(old(state).registry().records(), final(state).registry().records()),
        old(arbiter).spec_accepted().len() <= final(arbiter).spec_accepted().len(),
        forall|i: int| 0 <= i < old(arbiter).spec_accepted().len() ==> #[trigger] final(arbiter).spec_accepted()[i] == old(arbiter).spec_accepted()[i],
        forall|i: int| old(arbiter).spec_accepted().len() <= i < final(arbiter).spec_accepted().len()
            ==> defence_order(observation, (#[trigger] final(arbiter).spec_accepted()[i]).actor, final(arbiter).spec_accepted()[i].action@),
        forall|i: int| old(arbiter).spec_accepted().len() <= i < final(arbiter).spec_accepted().len()
            ==> (#[trigger] final(arbiter).spec_accepted()[i]).owner is Some,
        forall|i: int| old(arbiter).spec_accepted().len() <= i < final(arbiter).spec_accepted().len()
            ==> admitted_defence_order(old(arbiter).spec_observation(), (#[trigger] final(arbiter).spec_accepted()[i]).actor,
                final(arbiter).spec_accepted()[i].action@),
        allocator_within(old(state).owner_allocator, final(state).owner_allocator, observation.team_our.roles@.len() as int),
        r matches Err(e) ==> e == DecisionError::Owner(OwnerError::IdentitiesExhausted)
            && !owner_room(old(state).owner_allocator, observation.team_our.roles@.len() as int),
        owner_room(old(state).owner_allocator, observation.team_our.roles@.len() as int) ==> r is Ok,
        (forall|id: i64| !live_weapon(observation, id)) ==> r is Ok && *final(arbiter) == *old(arbiter),
        r is Ok ==> exists|ws: Seq<int>, steps: Seq<(Option<(i64, ActionView)>, bool)>, specs: Seq<MissionSpec>, registries: Seq<MissionRegistry>|
            #[trigger] defence_run(observation, old(arbiter).spec_observation(), ws, steps, specs, registries,
                old(arbiter).spec_accepted(), final(arbiter).spec_accepted())
            && registries[0] == old(state).registry(),
{
    let view = WorldView::new(observation);
    let roles = &observation.team_our.roles;
    let weapons = weapons_by_id(observation);
    let mut available = defence_units(observation);
    let ghost ws = weapons@.map_values(|i: usize| i as int);
    let ghost judged = old(arbiter).spec_observation();
    let ghost start = old(arbiter).spec_accepted();
    let ghost mut steps: Seq<(Option<(i64, ActionView)>, bool)> = Seq::empty();
    let ghost mut specs: Seq<MissionSpec> = Seq::empty();
    let ghost mut registries: Seq<MissionRegistry> = seq![old(state).registry()];
    let team_size: usize = roles.len();
    proof {
        assert forall|j: int| 0 <= j < roles@.len() && live_weapon_role(#[trigger] roles@[j]) implies ws.contains(j) by {
            let k = choose|k: int| 0 <= k < weapons@.len() && weapons@[k] == j as usize;
            assert(j < team_size);
            assert(j as usize as int == j);
            assert(ws[k] == weapons@[k] as int);
        }
        assert(weapon_order(observation, ws));
        assert(offers_taken(steps) =~= Seq::<(i64, ActionView)>::empty());
        assert forall|x: i64| #[trigger] available@.contains(x) implies defence_unit(observation, x) by {
            lemma_pool_members(observation, x);
        }
    }
    let mut w: usize = 0;
    while w < weapons.len()
        invariant
            w == 0 ==> *arbiter == *old(arbiter),
            w <= weapons@.len(),
            roles@ == observation.team_our.roles@,
            view.observation == observation,
            ws == weapons@.map_values(|i: usize| i as int),
            weapon_order(observation, ws),
            judged == old(arbiter).spec_observation(),
            start == old(arbiter).spec_accepted(),
            available@ == pool_after(observation, ws, w as nat),
            defence_steps(observation, judged, ws, w as int, steps, specs, registries, start, arbiter.spec_accepted()),
            registries[0] == old(state).registry(),
            registries.last() == state.registry(),
            state.strategy == old(state).strategy,
            state.emergency_clear == old(state).emergency_clear,
            state.well_formed(),
            arbiter.well_formed(),
            arbiter.spec_observation() == old(arbiter).spec_observation(),
            arbiter.spec_reserved_weapons() == old(arbiter).spec_reserved_weapons(),
            old(arbiter).spec_reserved_weapons() < usize::MAX,
            crate::ai::mission::history_kept(old(state).registry().records(), state.registry().records()),
            old(arbiter).spec_accepted().len() <= arbiter.spec_accepted().len(),
            forall|k: int| 0 <= k < old(arbiter).spec_accepted().len() ==> #[trigger] arbiter.spec_accepted()[k] == old(arbiter).spec_accepted()[k],
            forall|k: int| old(arbiter).spec_accepted().len() <= k < arbiter.spec_accepted().len()
                ==> defence_order(observation, (#[trigger] arbiter.spec_accepted()[k]).actor, arbiter.spec_accepted()[k].action@),
            forall|k: int| old(arbiter).spec_accepted().len() <= k < arbiter.spec_accepted().len()
                ==> (#[trigger] arbiter.spec_accepted()[k]).owner is Some,
            forall|k: int| old(arbiter).spec_accepted().len() <= k < arbiter.spec_accepted().len()
                ==> admitted_defence_order(judged, (#[trigger] arbiter.spec_accepted()[k]).actor, arbiter.spec_accepted()[k].action@),
            allocator_within(old(state).owner_allocator, state.owner_allocator, w as int),
            weapons@.len() <= roles@.len(),
            forall|k: int| 0 <= k < weapons@.len() ==> #[trigger] weapons@[k] < roles@.len(),
            forall|k: int| 0 <= k < weapons@.len() ==> live_weapon(observation, roles@[#[trigger] weapons@[k] as int].id),
            forall|x: i64| #[trigger] available@.contains(x) ==> defence_unit(observation, x),
        decreases weapons@.len() - w,
    {
        let weapon = &roles[weapons[w]];
        let ghost before_available = available@;
        let ghost before_state = *state;
        let ghost before_accepted = arbiter.spec_accepted();
        proof {
            assert(ws[w as int] == weapons@[w as int] as int);
            assert(live_weapon(observation, roles@[weapons@[w as int] as int].id));
        }
        let controller = match choose_controller(observation, weapon, &available) {
            Some(c) => &roles[c],
            None => {
                proof {
                    let step = (None::<(i64, ActionView)>, false);
                    let spec = vstd::pervasive::arbitrary::<MissionSpec>();
                    lemma_history_kept_refl(state.registry().records());
                    lemma_defence_step(observation, judged, ws, w as int, steps, specs, registries, start, arbiter.spec_accepted(),
                        step, spec, state.registry(), arbiter.spec_accepted());
                    steps = steps.push(step);
                    specs = specs.push(spec);
                    registries = registries.push(state.registry());
                    assert(pool_after(observation, ws, (w + 1) as nat) == before_available);
                }
                w = w + 1;
                continue;
            },
        };
        proof {
            assert(defence_unit(observation, controller.id));
            assert(live_weapon(observation, weapon.id));
        }
        remove_id(&mut available, controller.id);
        proof {
            assert forall|x: i64| #[trigger] available@.contains(x) implies defence_unit(observation, x) by {
                crate::collections::lemma_filter_member(before_available, |v: i64| v != controller.id, x);
            }
            assert(available@ =~= pool_after(observation, ws, (w + 1) as nat));
        }
        match defense_action(&view, controller, weapon) {
            Some(action) => {
                let attack = match &action {
                    Action::Attack { .. } => true,
                    _ => false,
                };
                let actor = if attack { weapon.id } else { controller.id };
                let ghost before = arbiter.spec_accepted();
                let ghost proposed = action@;
                let spec = defense_spec(observation, weapon.id);
                let ghost the_spec = spec;
                proof {
                    lemma_valid_after(*arbiter, actor, proposed);
                }
                let outcome = propose_owned(observation, state, arbiter, actor, action, spec);
                proof {
                    if arbiter.spec_accepted().len() != before.len() {
                        assert(arbiter.spec_accepted().drop_last() == before);
                        assert(defence_order(observation, actor, proposed));
                        assert(admitted_defence_order(judged, actor, proposed));
                        assert forall|k: int| old(arbiter).spec_accepted().len() <= k < arbiter.spec_accepted().len()
                            implies defence_order(observation, (#[trigger] arbiter.spec_accepted()[k]).actor, arbiter.spec_accepted()[k].action@)
                                && arbiter.spec_accepted()[k].owner is Some
                                && admitted_defence_order(judged, arbiter.spec_accepted()[k].actor, arbiter.spec_accepted()[k].action@) by {
                            if k < before.len() {
                                assert(arbiter.spec_accepted()[k] == arbiter.spec_accepted().drop_last()[k]);
                            }
                        }
                        assert forall|k: int| 0 <= k < old(arbiter).spec_accepted().len() implies #[trigger] arbiter.spec_accepted()[k] == old(arbiter).spec_accepted()[k] by {
                            assert(arbiter.spec_accepted()[k] == arbiter.spec_accepted().drop_last()[k]);
                        }
                    }
                }
                match outcome {
                    Err(e) => return Err(e),
                    Ok(taken) => {
                        proof {
                            let step = (Some((actor, proposed)), taken);
                            lemma_defence_step(observation, judged, ws, w as int, steps, specs, registries, start, before,
                                step, the_spec, state.registry(), arbiter.spec_accepted());
                            steps = steps.push(step);
                            specs = specs.push(the_spec);
                            registries = registries.push(state.registry());
                        }
                    },
                }
            },
            None => {
                proof {
                    let step = (None::<(i64, ActionView)>, false);
                    let spec = vstd::pervasive::arbitrary::<MissionSpec>();
                    lemma_history_kept_refl(state.registry().records());
                    lemma_defence_step(observation, judged, ws, w as int, steps, specs, registries, start, arbiter.spec_accepted(),
                        step, spec, state.registry(), arbiter.spec_accepted());
                    steps = steps.push(step);
                    specs = specs.push(spec);
                    registries = registries.push(state.registry());
                }
            },
        }
        w = w + 1;
    }
    proof {
        assert(defence_run(observation, judged, ws, steps, specs, registries, start, arbiter.spec_accepted()));
    }
    Ok(())
}

/// Every member of the unit pool may be put in charge of a weapon.
proof fn lemma_pool_members(o: &Observation, x: i64)
    requires
        unit_pool(o).contains(x),
    ensures
        defence_unit(o, x),
{
    let p = |role: Role| pool_member(o, role);
    let members = o.team_our.roles@.filter(p);
    let i = choose|i: int| 0 <= i < unit_pool(o).len() && unit_pool(o)[i] == x;
    assert(members.contains(members[i]));
    crate::collections::lemma_filter_member(o.team_our.roles@, p, members[i]);
    let k = choose|k: int| 0 <= k < o.team_our.roles@.len() && o.team_our.roles@[k] == members[i];
    assert(o.team_our.roles@[k].id == x);
}

} // verus!
