use vstd::prelude::*;

use crate::domain::{Observation, Pos, Role, Zone};
use crate::rules::constants::{MIN_COORDINATE, NEIGHBOR_RANGE, NO_ACTOR_ID, NO_HEALTH};
use crate::rules::geometry::{neighbors, spec_distance, spec_neighbors, within_reach};
use crate::text::str_eq;

verus! {

/// Read-only queries over one observation.
pub struct WorldView<'a> {
    pub observation: &'a Observation,
}

pub open spec fn spec_in_bounds(o: &Observation, pos: Pos) -> bool {
    &&& pos.x >= MIN_COORDINATE
    &&& pos.y >= MIN_COORDINATE
    &&& pos.x < o.map_info.width
    &&& pos.y < o.map_info.height
}

pub open spec fn has_zone(o: &Observation, pos: Pos) -> bool {
    exists|i: int| 0 <= i < o.map_info.zones@.len() && (#[trigger] o.map_info.zones@[i]).pos == pos
}

/// The cells a 2x2 station covers: its anchor, one step right, one step down.
pub open spec fn station_covers(anchor: Pos, pos: Pos) -> bool {
    (pos.x == anchor.x || pos.x == anchor.x + NEIGHBOR_RANGE)
        && (pos.y == anchor.y || pos.y == anchor.y - NEIGHBOR_RANGE)
}

/// A role other than `actor`, not known dead, stands on `pos` or, for a
/// station, covers it.
pub open spec fn spec_occupies(role: Role, pos: Pos, actor: i64) -> bool {
    if role.id == actor || role.health == Some(NO_HEALTH) {
        false
    } else {
        (role.role_type@ == "station"@ && station_covers(role.pos, pos)) || role.pos == pos
    }
}

pub open spec fn occupied_by(roles: Seq<Role>, pos: Pos, actor: i64) -> bool {
    exists|i: int| 0 <= i < roles.len() && spec_occupies(#[trigger] roles[i], pos, actor)
}

pub open spec fn enemy_blocks(o: &Observation, pos: Pos) -> bool {
    o.team_enemy matches Some(enemy) && occupied_by(enemy.roles@, pos, NO_ACTOR_ID)
}

/// A robot known to be alive stands on `pos`.
pub open spec fn robot_blocks(o: &Observation, pos: Pos) -> bool {
    o.robot matches Some(robots) && exists|i: int| 0 <= i < robots.roles@.len()
        && (#[trigger] robots.roles@[i]).pos == pos
        && robots.roles@[i].health.unwrap_or(NO_HEALTH) > NO_HEALTH
}

/// A cell `actor` may step onto: inside the map, not a zone, and not taken
/// by any unit, building, enemy or live robot.
pub open spec fn spec_can_enter(o: &Observation, pos: Pos, actor: i64) -> bool {
    &&& spec_in_bounds(o, pos)
    &&& !has_zone(o, pos)
    &&& !occupied_by(o.team_our.roles@, pos, actor)
    &&& !enemy_blocks(o, pos)
    &&& !robot_blocks(o, pos)
}

pub open spec fn spec_actor_at(o: &Observation, pos: Pos, actor: i64) -> bool {
    exists|i: int| 0 <= i < o.team_our.roles@.len()
        && (#[trigger] o.team_our.roles@[i]).id == actor && o.team_our.roles@[i].pos == pos
}

/// A cell from which `actor` can act on `target`: a neighbour of the target
/// that the actor may enter or already stands on.
pub open spec fn spec_is_stand(o: &Observation, target: Pos, actor: i64, pos: Pos) -> bool {
    spec_distance(pos, target) == 1 && (spec_can_enter(o, pos, actor) || spec_actor_at(o, pos, actor))
}

/// Index of the first zone on `pos`.
pub open spec fn first_zone(zones: Seq<Zone>, pos: Pos, i: int) -> bool {
    &&& 0 <= i < zones.len()
    &&& zones[i].pos == pos
    &&& forall|j: int| 0 <= j < i ==> zones[j].pos != pos
}

fn occupies(role: &Role, pos: Pos, actor: i64) -> (r: bool)
    ensures
        r == spec_occupies(*role, pos, actor),
{
    if role.id == actor || role.health == Some(NO_HEALTH) {
        return false;
    }
    let right = role.pos.x as i64 + NEIGHBOR_RANGE as i64;
    let below = role.pos.y as i64 - NEIGHBOR_RANGE as i64;
    let footprint = str_eq(role.role_type.as_str(), "station")
        && (pos.x as i64 == role.pos.x as i64 || pos.x as i64 == right)
        && (pos.y as i64 == role.pos.y as i64 || pos.y as i64 == below);
    footprint || role.pos == pos
}

fn any_occupies(roles: &Vec<Role>, pos: Pos, actor: i64) -> (r: bool)
    ensures
        r == occupied_by(roles@, pos, actor),
{
    let mut i: usize = 0;
    while i < roles.len()
        invariant
            i <= roles@.len(),
            forall|j: int| 0 <= j < i ==> !spec_occupies(#[trigger] roles@[j], pos, actor),
        decreases roles@.len() - i,
    {
        if occupies(&roles[i], pos, actor) {
            return true;
        }
        i = i + 1;
    }
    false
}

impl<'a> WorldView<'a> {
    pub fn new(observation: &'a Observation) -> (r: Self)
        ensures
            r.observation == observation,
    {
        Self { observation }
    }

    /// Whether a cell lies on the map.
    pub fn in_bounds(&self, pos: Pos) -> (r: bool)
        ensures
            r == spec_in_bounds(self.observation, pos),
    {
        pos.x >= MIN_COORDINATE && pos.y >= MIN_COORDINATE && pos.x < self.observation.map_info.width
            && pos.y < self.observation.map_info.height
    }

    /// The first zone on a cell.
    pub fn zone_at(&self, pos: Pos) -> (r: Option<&'a Zone>)
        ensures
            r is None <==> !has_zone(self.observation, pos),
            r matches Some(z) ==> exists|i: int| first_zone(self.observation.map_info.zones@, pos, i)
                && *z == self.observation.map_info.zones@[i],
    {
        let zones = &self.observation.map_info.zones;
        let mut i: usize = 0;
        while i < zones.len()
            invariant
                zones == &self.observation.map_info.zones,
                i <= zones@.len(),
                forall|j: int| 0 <= j < i ==> zones@[j].pos != pos,
            decreases zones@.len() - i,
        {
            if zones[i].pos == pos {
                assert(first_zone(zones@, pos, i as int));
                return Some(&zones[i]);
            }
            i = i + 1;
        }
        None
    }

    fn enemy_at(&self, pos: Pos) -> (r: bool)
        ensures
            r == enemy_blocks(self.observation, pos),
    {
        match &self.observation.team_enemy {
            Some(enemy) => any_occupies(&enemy.roles, pos, NO_ACTOR_ID),
            None => false,
        }
    }

    #[verifier::loop_isolation(false)]
    fn robot_at(&self, pos: Pos) -> (r: bool)
        ensures
            r == robot_blocks(self.observation, pos),
    {
        match &self.observation.robot {
            Some(robots) => {
                let mut i: usize = 0;
                while i < robots.roles.len()
                    invariant
                        i <= robots.roles@.len(),
                        forall|j: int| 0 <= j < i ==> !((#[trigger] robots.roles@[j]).pos == pos
                            && robots.roles@[j].health.unwrap_or(NO_HEALTH) > NO_HEALTH),
                    decreases robots.roles@.len() - i,
                {
                    let role = &robots.roles[i];
                    let hp = match role.health {
                        Some(h) => h,
                        None => NO_HEALTH,
                    };
                    assert(robots.roles@[i as int].health.unwrap_or(NO_HEALTH) == hp);
                    if role.pos == pos && hp > NO_HEALTH {
                        return true;
                    }
                    i = i + 1;
                }
                false
            },
            None => false,
        }
    }

    /// Whether `actor` may step onto a cell.
    pub fn can_enter(&self, pos: Pos, actor: i64) -> (r: bool)
        ensures
            r == spec_can_enter(self.observation, pos, actor),
    {
        self.in_bounds(pos) && self.zone_at(pos).is_none() && !any_occupies(&self.observation.team_our.roles, pos, actor)
            && !self.enemy_at(pos) && !self.robot_at(pos)
    }

    /// Whether `actor` stands on a cell.
    pub fn actor_at(&self, pos: Pos, actor: i64) -> (r: bool)
        ensures
            r == spec_actor_at(self.observation, pos, actor),
    {
        let roles = &self.observation.team_our.roles;
        let mut i: usize = 0;
        while i < roles.len()
            invariant
                roles == &self.observation.team_our.roles,
                i <= roles@.len(),
                forall|j: int| 0 <= j < i ==> !((#[trigger] roles@[j]).id == actor && roles@[j].pos == pos),
            decreases roles@.len() - i,
        {
            if roles[i].id == actor && roles[i].pos == pos {
                return true;
            }
            i = i + 1;
        }
        false
    }

    /// Whether two cells are at most one king move apart.
    pub fn adjacent(&self, from: Pos, target: Pos) -> (r: bool)
        ensures
            r == (spec_distance(from, target) <= NEIGHBOR_RANGE),
    {
        within_reach(from, target)
    }

    /// The cells from which `actor` can act on `target`, in direction order.
    pub fn interact_positions(&self, target: Pos, actor: i64) -> (r: Vec<Pos>)
        ensures
            forall|i: int| 0 <= i < r@.len() ==> spec_is_stand(self.observation, target, actor, #[trigger] r@[i]),
            forall|p: Pos| #[trigger] spec_is_stand(self.observation, target, actor, p) ==> r@.contains(p),
            r@ == spec_neighbors(target).filter(|p: Pos| spec_can_enter(self.observation, p, actor) || spec_actor_at(self.observation, p, actor)),
    {
        let cells = neighbors(target);
        let ghost f = |p: Pos| spec_can_enter(self.observation, p, actor) || spec_actor_at(self.observation, p, actor);
        let mut r: Vec<Pos> = Vec::new();
        let mut i: usize = 0;
        while i < cells.len()
            invariant
                i <= cells@.len(),
                cells@ == spec_neighbors(target),
                forall|q: Pos| cells@.contains(q) <==> spec_distance(q, target) == 1,
                r@ == cells@.subrange(0, i as int).filter(f),
                f == (|p: Pos| spec_can_enter(self.observation, p, actor) || spec_actor_at(self.observation, p, actor)),
            decreases cells@.len() - i,
        {
            let p = cells[i];
            if self.can_enter(p, actor) || self.actor_at(p, actor) {
                r.push(p);
            }
            proof {
                assert(cells@.subrange(0, i + 1) =~= cells@.subrange(0, i as int).push(p));
                crate::collections::lemma_filter_push(cells@.subrange(0, i as int), f, p);
            }
            i = i + 1;
        }
        assert(cells@.subrange(0, cells@.len() as int) =~= cells@);
        proof {
            assert forall|k: int| 0 <= k < r@.len() implies spec_is_stand(self.observation, target, actor, #[trigger] r@[k]) by {
                cells@.lemma_filter_pred(f, k);
                assert(r@ == cells@.filter(f));
                assert(r@.contains(r@[k]));
                cells@.lemma_filter_contains_rev(f, r@[k]);
            }
            assert forall|p: Pos| spec_is_stand(self.observation, target, actor, p) implies r@.contains(p) by {
                let j = choose|j: int| 0 <= j < cells@.len() && cells@[j] == p;
                cells@.lemma_filter_contains(f, j);
            }
        }
        r
    }
}

/// A zone of the given kind lies on `pos`.
pub open spec fn has_zone_of(o: &Observation, pos: Pos, kind: Seq<char>) -> bool {
    exists|i: int| 0 <= i < o.map_info.zones@.len() && (#[trigger] o.map_info.zones@[i]).pos == pos
        && o.map_info.zones@[i].neutral_type@ == kind
}

/// The kind of the first zone on `pos`, if any.
pub open spec fn zone_kind_at(o: &Observation, pos: Pos) -> Option<Seq<char>> {
    if has_zone(o, pos) {
        let i = choose|i: int| first_zone(o.map_info.zones@, pos, i);
        Some(o.map_info.zones@[i].neutral_type@)
    } else {
        None
    }
}

/// A cell of the task at `task`: the task cell itself, or a neighbour that
/// holds a zone of the same kind as the task cell's zone.
pub open spec fn spec_is_task_cell(o: &Observation, task: Pos, p: Pos) -> bool {
    p == task || (spec_distance(p, task) == 1 && (zone_kind_at(o, task) matches Some(kind) && has_zone_of(o, p, kind)))
}

proof fn lemma_first_zone_unique(zones: Seq<Zone>, pos: Pos, i: int, j: int)
    requires
        first_zone(zones, pos, i),
        first_zone(zones, pos, j),
    ensures
        i == j,
{
}

impl<'a> WorldView<'a> {
    fn has_zone_kind(&self, pos: Pos, kind: &str) -> (r: bool)
        ensures
            r == has_zone_of(self.observation, pos, kind@),
    {
        let zones = &self.observation.map_info.zones;
        let mut i: usize = 0;
        while i < zones.len()
            invariant
                zones == &self.observation.map_info.zones,
                i <= zones@.len(),
                forall|j: int| 0 <= j < i ==> !((#[trigger] zones@[j]).pos == pos && zones@[j].neutral_type@ == kind@),
            decreases zones@.len() - i,
        {
            if zones[i].pos == pos && str_eq(zones[i].neutral_type.as_str(), kind) {
                return true;
            }
            i = i + 1;
        }
        false
    }

    /// The cells a task occupies: the task cell, then the neighbouring cells
    /// that carry a zone of the same kind, in direction order.
    pub fn task_cells(&self, task: Pos) -> (r: Vec<Pos>)
        ensures
            r@.len() >= 1,
            r@[0] == task,
            forall|i: int| 0 <= i < r@.len() ==> spec_is_task_cell(self.observation, task, #[trigger] r@[i]),
            forall|p: Pos| #[trigger] spec_is_task_cell(self.observation, task, p) ==> r@.contains(p),
    {
        let mut r: Vec<Pos> = Vec::new();
        r.push(task);
        let zone = self.zone_at(task);
        match zone {
            None => {
                proof {
                    assert forall|p: Pos| spec_is_task_cell(self.observation, task, p) implies r@.contains(p) by {
                        assert(r@[0] == task);
                    }
                }
                r
            },
            Some(z) => {
                let ghost kind = z.neutral_type@;
                proof {
                    let i = choose|i: int| first_zone(self.observation.map_info.zones@, task, i) && *z == self.observation.map_info.zones@[i];
                    let k = choose|k: int| first_zone(self.observation.map_info.zones@, task, k);
                    lemma_first_zone_unique(self.observation.map_info.zones@, task, i, k);
                    assert(zone_kind_at(self.observation, task) == Some(kind));
                }
                let cells = neighbors(task);
                let mut i: usize = 0;
                while i < cells.len()
                    invariant
                        i <= cells@.len(),
                        forall|q: Pos| cells@.contains(q) <==> spec_distance(q, task) == 1,
                        zone_kind_at(self.observation, task) == Some(kind),
                        z.neutral_type@ == kind,
                        r@.len() >= 1,
                        r@[0] == task,
                        forall|j: int| 0 <= j < r@.len() ==> spec_is_task_cell(self.observation, task, #[trigger] r@[j]),
                        forall|j: int| 0 <= j < i ==> has_zone_of(self.observation, #[trigger] cells@[j], kind) ==> r@.contains(cells@[j]),
                    decreases cells@.len() - i,
                {
                    let p = cells[i];
                    if self.has_zone_kind(p, z.neutral_type.as_str()) {
                        let ghost before = r@;
                        r.push(p);
                        proof {
                            assert(cells@.contains(p));
                            assert forall|j: int| 0 <= j < i + 1 implies has_zone_of(self.observation, #[trigger] cells@[j], kind) ==> r@.contains(cells@[j]) by {
                                if j < i && has_zone_of(self.observation, cells@[j], kind) {
                                    let w = choose|w: int| 0 <= w < before.len() && before[w] == cells@[j];
                                    assert(r@[w] == cells@[j]);
                                }
                                if j == i {
                                    assert(r@[r@.len() - 1] == p);
                                }
                            }
                        }
                    }
                    i = i + 1;
                }
                proof {
                    assert forall|p: Pos| spec_is_task_cell(self.observation, task, p) implies r@.contains(p) by {
                        if p == task {
                            assert(r@[0] == task);
                        } else {
                            assert(cells@.contains(p));
                            let j = choose|j: int| 0 <= j < cells@.len() && cells@[j] == p;
                            assert(has_zone_of(self.observation, cells@[j], kind));
                        }
                    }
                }
                r
            },
        }
    }

    /// Whether a unit on `from` can reach some cell of the task at `task`.
    pub fn adjacent_task(&self, from: Pos, task: Pos) -> (r: bool)
        ensures
            r == exists|p: Pos| spec_is_task_cell(self.observation, task, p) && spec_distance(from, p) <= NEIGHBOR_RANGE,
    {
        let cells = self.task_cells(task);
        let mut i: usize = 0;
        while i < cells.len()
            invariant
                i <= cells@.len(),
                forall|j: int| 0 <= j < cells@.len() ==> spec_is_task_cell(self.observation, task, #[trigger] cells@[j]),
                forall|p: Pos| #[trigger] spec_is_task_cell(self.observation, task, p) ==> cells@.contains(p),
                forall|j: int| 0 <= j < i ==> spec_distance(from, #[trigger] cells@[j]) > NEIGHBOR_RANGE,
            decreases cells@.len() - i,
        {
            if within_reach(from, cells[i]) {
                return true;
            }
            i = i + 1;
        }
        proof {
            assert forall|p: Pos| spec_is_task_cell(self.observation, task, p) implies spec_distance(from, p) > NEIGHBOR_RANGE by {
                assert(cells@.contains(p));
                let j = choose|j: int| 0 <= j < cells@.len() && cells@[j] == p;
                assert(spec_distance(from, cells@[j]) > NEIGHBOR_RANGE);
            }
        }
        false
    }

    /// The cells from which `actor` can act on some cell of a task.
    pub fn task_stands(&self, task: Pos, actor: i64) -> (r: Vec<Pos>)
        ensures
            forall|i: int| 0 <= i < r@.len() ==> exists|c: Pos| spec_is_task_cell(self.observation, task, c)
                && spec_is_stand(self.observation, c, actor, #[trigger] r@[i]),
            forall|c: Pos, p: Pos| #[trigger] spec_is_task_cell(self.observation, task, c) && #[trigger] spec_is_stand(self.observation, c, actor, p) ==> r@.contains(p),
    {
        let cells = self.task_cells(task);
        let mut r: Vec<Pos> = Vec::new();
        let mut i: usize = 0;
        while i < cells.len()
            invariant
                i <= cells@.len(),
                forall|j: int| 0 <= j < cells@.len() ==> spec_is_task_cell(self.observation, task, #[trigger] cells@[j]),
                forall|p: Pos| #[trigger] spec_is_task_cell(self.observation, task, p) ==> cells@.contains(p),
                forall|k: int| 0 <= k < r@.len() ==> exists|c: Pos| spec_is_task_cell(self.observation, task, c)
                    && spec_is_stand(self.observation, c, actor, #[trigger] r@[k]),
                forall|j: int, p: Pos| 0 <= j < i && #[trigger] spec_is_stand(self.observation, cells@[j], actor, p) ==> r@.contains(p),
            decreases cells@.len() - i,
        {
            let stands = self.interact_positions(cells[i], actor);
            let ghost before = r@;
            let mut k: usize = 0;
            while k < stands.len()
                invariant
                    k <= stands@.len(),
                    i < cells@.len(),
                    before.len() <= r@.len(),
                    forall|w: int| 0 <= w < before.len() ==> r@[w] == before[w],
                    forall|w: int| before.len() <= w < r@.len() ==> r@[w] == stands@[w - before.len()],
                    r@.len() == before.len() + k,
                    forall|w: int| 0 <= w < stands@.len() ==> spec_is_stand(self.observation, cells@[i as int], actor, #[trigger] stands@[w]),
                    spec_is_task_cell(self.observation, task, cells@[i as int]),
                    forall|w: int| 0 <= w < before.len() ==> exists|c: Pos| spec_is_task_cell(self.observation, task, c)
                        && spec_is_stand(self.observation, c, actor, #[trigger] before[w]),
                decreases stands@.len() - k,
            {
                r.push(stands[k]);
                k = k + 1;
            }
            proof {
                assert forall|w: int| 0 <= w < r@.len() implies exists|c: Pos| spec_is_task_cell(self.observation, task, c)
                    && spec_is_stand(self.observation, c, actor, #[trigger] r@[w]) by {
                    if w < before.len() {
                        assert(r@[w] == before[w]);
                    } else {
                        assert(r@[w] == stands@[w - before.len()]);
                        assert(spec_is_stand(self.observation, cells@[i as int], actor, stands@[w - before.len()]));
                    }
                }
                assert forall|j: int, p: Pos| 0 <= j < i + 1 && #[trigger] spec_is_stand(self.observation, cells@[j], actor, p) implies r@.contains(p) by {
                    if j < i {
                        let w = choose|w: int| 0 <= w < before.len() && before[w] == p;
                        assert(r@[w] == p);
                    } else {
                        assert(stands@.contains(p));
                        let w = choose|w: int| 0 <= w < stands@.len() && stands@[w] == p;
                        assert(r@[before.len() + w] == p);
                    }
                }
            }
            i = i + 1;
        }
        proof {
            assert forall|c: Pos, p: Pos| spec_is_task_cell(self.observation, task, c) && spec_is_stand(self.observation, c, actor, p) implies r@.contains(p) by {
                assert(cells@.contains(c));
                let j = choose|j: int| 0 <= j < cells@.len() && cells@[j] == c;
                assert(spec_is_stand(self.observation, cells@[j], actor, p));
            }
        }
        r
    }
}

} // verus!
