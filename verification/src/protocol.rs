use vstd::prelude::*;

use crate::collections::SortedMap;
use crate::domain::{Observation, Pos, Response, Role};
use crate::rules::constants::{
    MAP_MIN_SIZE, MATCH_ROUNDS, MAX_HTTP_BODY_BYTES, MAX_MAP_CELLS, MIN_COORDINATE, NEIGHBOR_RANGE,
};
use crate::text::str_eq;

verus! {

/// Why a request was not taken.
#[derive(Clone, Copy, Debug, PartialEq, Eq, Structural)]
pub enum DecodeError {
    InvalidJson,
    InvalidWorld,
    TooLarge,
}

/// A frame as decoded, with the canonical text of the request it came in.
pub struct DecodedRequest {
    pub observation: Observation,
    pub canonical_key: String,
}

/// A body longer than the limit is refused before it is read.
pub fn check_body_size(len: usize) -> (r: Result<(), DecodeError>)
    ensures
        r is Err <==> len > MAX_HTTP_BODY_BYTES,
        r matches Err(e) ==> e == DecodeError::TooLarge,
{
    if len > MAX_HTTP_BODY_BYTES {
        Err(DecodeError::TooLarge)
    } else {
        Ok(())
    }
}

pub open spec fn spec_in_map(pos: Pos, width: int, height: int) -> bool {
    pos.x >= MIN_COORDINATE && pos.y >= MIN_COORDINATE && pos.x < width && pos.y < height
}

/// Whether a cell lies on a map of the given size.
pub fn in_map(pos: Pos, width: i32, height: i32) -> (r: bool)
    ensures
        r == spec_in_map(pos, width as int, height as int),
{
    pos.x >= MIN_COORDINATE && pos.y >= MIN_COORDINATE && pos.x < width && pos.y < height
}

/// The station's far corner (one column right, one row down) is on the
/// map.
pub open spec fn spec_station_in_map(pos: Pos, width: int, height: int) -> bool {
    pos.x + NEIGHBOR_RANGE <= i32::MAX && pos.y - NEIGHBOR_RANGE >= i32::MIN
        && spec_in_map(Pos { x: (pos.x + NEIGHBOR_RANGE) as i32, y: (pos.y - NEIGHBOR_RANGE) as i32 }, width, height)
}

pub fn station_in_map(pos: Pos, width: i32, height: i32) -> (r: bool)
    ensures
        r == spec_station_in_map(pos, width as int, height as int),
{
    let right = match pos.x.checked_add(NEIGHBOR_RANGE) {
        Some(v) => v,
        None => return false,
    };
    let bottom = match pos.y.checked_sub(NEIGHBOR_RANGE) {
        Some(v) => v,
        None => return false,
    };
    in_map(Pos { x: right, y: bottom }, width, height)
}

/// Every unit stands on the map, and every station fits on it whole.
pub open spec fn spec_roles_in_map(roles: Seq<Role>, width: int, height: int) -> bool {
    forall|i: int| 0 <= i < roles.len() ==> spec_in_map((#[trigger] roles[i]).pos, width, height)
        && (roles[i].role_type@ != "station"@ || spec_station_in_map(roles[i].pos, width, height))
}

pub fn roles_in_map(roles: &Vec<Role>, width: i32, height: i32) -> (r: bool)
    ensures
        r == spec_roles_in_map(roles@, width as int, height as int),
{
    let mut i: usize = 0;
    while i < roles.len()
        invariant
            i <= roles@.len(),
            forall|j: int| 0 <= j < i ==> spec_in_map((#[trigger] roles@[j]).pos, width as int, height as int)
                && (roles@[j].role_type@ != "station"@ || spec_station_in_map(roles@[j].pos, width as int, height as int)),
        decreases roles@.len() - i,
    {
        let role = &roles[i];
        if !in_map(role.pos, width, height) {
            return false;
        }
        if str_eq(role.role_type.as_str(), "station") && !station_in_map(role.pos, width, height) {
            return false;
        }
        i = i + 1;
    }
    true
}

/// Every position in the frame is on its map.
pub open spec fn spec_positions_valid(o: Observation) -> bool {
    let w = o.map_info.width as int;
    let h = o.map_info.height as int;
    &&& spec_roles_in_map(o.team_our.roles@, w, h)
    &&& (o.team_enemy matches Some(t) ==> spec_roles_in_map(t.roles@, w, h))
    &&& (o.robot matches Some(t) ==> spec_roles_in_map(t.roles@, w, h))
    &&& forall|i: int| 0 <= i < o.team_our.player_tasks@.len()
        ==> spec_in_map((#[trigger] o.team_our.player_tasks@[i]).task_position, w, h)
    &&& forall|i: int| 0 <= i < o.map_info.zones@.len() ==> spec_in_map((#[trigger] o.map_info.zones@[i]).pos, w, h)
}

pub fn observation_positions_valid(observation: &Observation) -> (r: bool)
    ensures
        r == spec_positions_valid(*observation),
{
    let w = observation.map_info.width;
    let h = observation.map_info.height;
    if !roles_in_map(&observation.team_our.roles, w, h) {
        return false;
    }
    match &observation.team_enemy {
        Some(t) => if !roles_in_map(&t.roles, w, h) {
            return false;
        },
        None => {},
    }
    match &observation.robot {
        Some(t) => if !roles_in_map(&t.roles, w, h) {
            return false;
        },
        None => {},
    }
    let tasks = &observation.team_our.player_tasks;
    let mut i: usize = 0;
    while i < tasks.len()
        invariant
            tasks == &observation.team_our.player_tasks,
            w == observation.map_info.width,
            h == observation.map_info.height,
            i <= tasks@.len(),
            forall|j: int| 0 <= j < i ==> spec_in_map((#[trigger] tasks@[j]).task_position, w as int, h as int),
        decreases tasks@.len() - i,
    {
        if !in_map(tasks[i].task_position, w, h) {
            return false;
        }
        i = i + 1;
    }
    let zones = &observation.map_info.zones;
    let mut k: usize = 0;
    while k < zones.len()
        invariant
            zones == &observation.map_info.zones,
            w == observation.map_info.width,
            h == observation.map_info.height,
            k <= zones@.len(),
            forall|j: int| 0 <= j < k ==> spec_in_map((#[trigger] zones@[j]).pos, w as int, h as int),
        decreases zones@.len() - k,
    {
        if !in_map(zones[k].pos, w, h) {
            return false;
        }
        k = k + 1;
    }
    true
}

/// No two units of the team share an id.
pub open spec fn ids_unique(roles: Seq<Role>) -> bool {
    forall|i: int, j: int| 0 <= i < j < roles.len() ==> (#[trigger] roles[i]).id != (#[trigger] roles[j]).id
}

fn unique_ids(roles: &Vec<Role>) -> (r: bool)
    ensures
        r == ids_unique(roles@),
{
    let mut seen: SortedMap<i64, ()> = SortedMap::new();
    let mut i: usize = 0;
    while i < roles.len()
        invariant
            seen.well_formed(),
            i <= roles@.len(),
            ids_unique(roles@.subrange(0, i as int)),
            forall|id: i64| seen.view().contains_key(id) <==> exists|j: int| 0 <= j < i && (#[trigger] roles@[j]).id == id,
        decreases roles@.len() - i,
    {
        let id = roles[i].id;
        if seen.insert(id, ()).is_some() {
            proof {
                let j = choose|j: int| 0 <= j < i && (#[trigger] roles@[j]).id == id;
                assert(roles@[j].id == roles@[i as int].id);
            }
            return false;
        }
        proof {
            assert forall|a: int, b: int| 0 <= a < b < i + 1 implies (#[trigger] roles@.subrange(0, i + 1)[a]).id
                != (#[trigger] roles@.subrange(0, i + 1)[b]).id by {
                if b < i {
                    assert(roles@.subrange(0, i as int)[a] == roles@[a]);
                    assert(roles@.subrange(0, i as int)[b] == roles@[b]);
                } else {
                    assert(roles@[a].id != id);
                }
            }
            assert forall|x: i64| seen.view().contains_key(x) <==> exists|j: int| 0 <= j < i + 1 && (#[trigger] roles@[j]).id == x by {
                if exists|j: int| 0 <= j < i + 1 && (#[trigger] roles@[j]).id == x {
                    let j = choose|j: int| 0 <= j < i + 1 && (#[trigger] roles@[j]).id == x;
                    if j < i {
                        assert(exists|j2: int| 0 <= j2 < i && (#[trigger] roles@[j2]).id == x);
                    }
                }
                if seen.view().contains_key(x) && x != id {
                    let j = choose|j: int| 0 <= j < i && (#[trigger] roles@[j]).id == x;
                    assert(0 <= j < i + 1);
                }
            }
        }
        i = i + 1;
    }
    proof {
        assert(roles@.subrange(0, roles@.len() as int) =~= roles@);
    }
    true
}

/// A frame the bot can work with: a map of a sane size within the cell
/// limit, a round of the match, a team with an id and at least one unit of
/// distinct ids, and every position on the map.
pub open spec fn spec_world_valid(o: Observation) -> bool {
    let w = o.map_info.width as int;
    let h = o.map_info.height as int;
    &&& i32::MIN <= w * h <= i32::MAX
    &&& w >= MAP_MIN_SIZE && h >= MAP_MIN_SIZE
    &&& w * h <= MAX_MAP_CELLS
    &&& MAP_MIN_SIZE <= o.round_no <= MATCH_ROUNDS
    &&& o.team_our.roles@.len() > 0
    &&& o.team_our.team_id@.len() > 0
    &&& spec_positions_valid(o)
    &&& ids_unique(o.team_our.roles@)
}

/// Accepts a frame the bot can work with, and refuses any other as an
/// invalid world.
pub fn validate(observation: &Observation) -> (r: Result<(), DecodeError>)
    ensures
        r is Ok <==> spec_world_valid(*observation),
        r matches Err(e) ==> e == DecodeError::InvalidWorld,
{
    let w = observation.map_info.width;
    let h = observation.map_info.height;
    let cells = w.checked_mul(h);
    let map_valid = w >= MAP_MIN_SIZE && h >= MAP_MIN_SIZE;
    let round_valid = MAP_MIN_SIZE <= observation.round_no && observation.round_no <= MATCH_ROUNDS;
    let roles_valid = observation.team_our.roles.len() > 0;
    let team_valid = observation.team_our.team_id.as_str().unicode_len() > 0;
    let positions_valid = observation_positions_valid(observation);
    let ids_valid = unique_ids(&observation.team_our.roles);
    match cells {
        Some(total) => if map_valid && total <= MAX_MAP_CELLS && round_valid && roles_valid && team_valid
            && positions_valid && ids_valid {
            Ok(())
        } else {
            Err(DecodeError::InvalidWorld)
        },
        None => Err(DecodeError::InvalidWorld),
    }
}

/// The reply with no commands.
pub fn empty_response() -> (r: Response)
    ensures
        r.role_command_map.well_formed(),
        r.role_command_map.view() == Map::<i64, crate::domain::Command>::empty(),
        r.prompt@.len() == 0,
        r.execute_cmd@.len() == 0,
{
    Response::default()
}

} // verus!
