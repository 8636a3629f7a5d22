use vstd::prelude::*;

use super::constants::{MIN_COORDINATE, NEIGHBOR_RANGE};
use crate::domain::Pos;

verus! {

const WEAPON_MIN_X_OFFSET: i64 = -1;
const WEAPON_MAX_X_OFFSET: i64 = 2;
const WEAPON_MIN_Y_OFFSET: i64 = -2;
const WEAPON_MAX_Y_OFFSET: i64 = 1;
const WALL_MIN_X_OFFSET: i64 = -2;
const WALL_MAX_X_OFFSET: i64 = 3;
const WALL_MIN_Y_OFFSET: i64 = -3;
const WALL_MAX_Y_OFFSET: i64 = 2;

/// Where a cell lies relative to a station: on its 2x2 footprint, in the
/// ring of weapon sites around it, in the wall ring beyond that, or outside.
#[derive(Clone, Copy, Debug, PartialEq, Eq, Structural)]
pub enum BuildArea {
    Station,
    Weapon,
    Wall,
    Outside,
}

pub open spec fn in_rect(dx: int, dy: int, min_x: int, max_x: int, min_y: int, max_y: int) -> bool {
    min_x <= dx <= max_x && min_y <= dy <= max_y
}

/// The area of `pos` relative to a station anchored at `station`.
pub open spec fn spec_area(station: Pos, pos: Pos) -> BuildArea {
    let dx = pos.x - station.x;
    let dy = pos.y - station.y;
    if in_rect(dx, dy, MIN_COORDINATE as int, NEIGHBOR_RANGE as int, -NEIGHBOR_RANGE, MIN_COORDINATE as int) {
        BuildArea::Station
    } else if in_rect(dx, dy, -1, 2, -2, 1) {
        BuildArea::Weapon
    } else if in_rect(dx, dy, -2, 3, -3, 2) {
        BuildArea::Wall
    } else {
        BuildArea::Outside
    }
}

fn in_rect_exec(dx: i64, dy: i64, min_x: i64, max_x: i64, min_y: i64, max_y: i64) -> (r: bool)
    ensures
        r == in_rect(dx as int, dy as int, min_x as int, max_x as int, min_y as int, max_y as int),
{
    min_x <= dx && dx <= max_x && min_y <= dy && dy <= max_y
}

/// The area of `pos` relative to a station anchored at `station`.
pub fn area(station: Pos, pos: Pos) -> (a: BuildArea)
    ensures
        a == spec_area(station, pos),
{
    let dx = pos.x as i64 - station.x as i64;
    let dy = pos.y as i64 - station.y as i64;
    if in_rect_exec(dx, dy, MIN_COORDINATE as i64, NEIGHBOR_RANGE as i64, -(NEIGHBOR_RANGE as i64), MIN_COORDINATE as i64) {
        return BuildArea::Station;
    }
    if in_rect_exec(dx, dy, WEAPON_MIN_X_OFFSET, WEAPON_MAX_X_OFFSET, WEAPON_MIN_Y_OFFSET, WEAPON_MAX_Y_OFFSET) {
        return BuildArea::Weapon;
    }
    if in_rect_exec(dx, dy, WALL_MIN_X_OFFSET, WALL_MAX_X_OFFSET, WALL_MIN_Y_OFFSET, WALL_MAX_Y_OFFSET) {
        return BuildArea::Wall;
    }
    BuildArea::Outside
}

/// A cell of the map that lies in the `expected` area of the station.
pub open spec fn ring_cell(station: Pos, width: int, height: int, expected: BuildArea, p: Pos) -> bool {
    &&& MIN_COORDINATE <= p.x < width
    &&& MIN_COORDINATE <= p.y < height
    &&& spec_area(station, p) == expected
}

/// Strictly increasing by x, then by y.
pub open spec fn column_major_sorted(s: Seq<Pos>) -> bool {
    forall|i: int, j: int| 0 <= i < j < s.len() ==> {
        ||| s[i].x < s[j].x
        ||| (s[i].x == s[j].x && s[i].y < s[j].y)
    }
}

proof fn lemma_push_keeps<T>(s: Seq<T>, x: T, y: T)
    requires
        s.contains(y),
    ensures
        s.push(x).contains(y),
{
    let j = choose|j: int| 0 <= j < s.len() && s[j] == y;
    assert(s.push(x)[j] == y);
}

/// Every map cell of the given area, ordered by x and then by y.
fn ring_sites(station: Pos, width: i32, height: i32, expected: BuildArea) -> (sites: Vec<Pos>)
    ensures
        forall|i: int| 0 <= i < sites@.len() ==> ring_cell(station, width as int, height as int, expected, #[trigger] sites@[i]),
        forall|p: Pos| ring_cell(station, width as int, height as int, expected, p) ==> sites@.contains(p),
        column_major_sorted(sites@),
{
    let mut sites: Vec<Pos> = Vec::new();
    let mut x: i32 = MIN_COORDINATE;
    while x < width
        invariant
            MIN_COORDINATE <= x,
            x < width || x == MIN_COORDINATE || x == width,
            forall|i: int| 0 <= i < sites@.len() ==> ring_cell(station, width as int, height as int, expected, #[trigger] sites@[i]),
            forall|i: int| 0 <= i < sites@.len() ==> (#[trigger] sites@[i]).x < x,
            forall|p: Pos| ring_cell(station, width as int, height as int, expected, p) && p.x < x ==> sites@.contains(p),
            column_major_sorted(sites@),
        decreases width - x,
    {
        let mut y: i32 = MIN_COORDINATE;
        let ghost before = sites@;
        while y < height
            invariant
                MIN_COORDINATE <= x < width,
                MIN_COORDINATE <= y,
                y < height || y == MIN_COORDINATE || y == height,
                before.len() <= sites@.len(),
                forall|i: int| 0 <= i < before.len() ==> sites@[i] == before[i],
                forall|i: int| 0 <= i < before.len() ==> (#[trigger] before[i]).x < x,
                forall|i: int| before.len() <= i < sites@.len() ==> (#[trigger] sites@[i]).x == x && sites@[i].y < y,
                forall|i: int| 0 <= i < sites@.len() ==> ring_cell(station, width as int, height as int, expected, #[trigger] sites@[i]),
                forall|p: Pos| ring_cell(station, width as int, height as int, expected, p) && p.x < x ==> sites@.contains(p),
                forall|p: Pos| ring_cell(station, width as int, height as int, expected, p) && p.x == x && p.y < y ==> sites@.contains(p),
                column_major_sorted(sites@),
            decreases height - y,
        {
            let pos = Pos { x, y };
            if area(station, pos) == expected {
                let ghost old_sites = sites@;
                sites.push(pos);
                proof {
                    assert forall|p: Pos| ring_cell(station, width as int, height as int, expected, p) && p.x < x implies sites@.contains(p) by {
                        lemma_push_keeps(old_sites, pos, p);
                    }
                    assert forall|p: Pos| ring_cell(station, width as int, height as int, expected, p) && p.x == x && p.y < y + 1 implies sites@.contains(p) by {
                        if p.y == y {
                            assert(sites@[sites@.len() - 1] == p);
                        } else {
                            lemma_push_keeps(old_sites, pos, p);
                        }
                    }
                    assert forall|i: int| 0 <= i < sites@.len() - 1 implies (sites@[i].x < pos.x || (sites@[i].x == pos.x && sites@[i].y < pos.y)) by {
                        if i < before.len() {
                            assert(before[i].x < x);
                        }
                    }
                }
            }
            y = y + 1;
        }
        assert forall|i: int| 0 <= i < sites@.len() implies (#[trigger] sites@[i]).x < x + 1 by {
            if i < before.len() {
                assert(before[i].x < x);
            }
        }
        x = x + 1;
    }
    sites
}

/// The weapon ring of a station, clipped to the map.
pub fn weapon_sites(station: Pos, width: i32, height: i32) -> (sites: Vec<Pos>)
    ensures
        forall|i: int| 0 <= i < sites@.len() ==> ring_cell(station, width as int, height as int, BuildArea::Weapon, #[trigger] sites@[i]),
        forall|p: Pos| ring_cell(station, width as int, height as int, BuildArea::Weapon, p) ==> sites@.contains(p),
        column_major_sorted(sites@),
{
    ring_sites(station, width, height, BuildArea::Weapon)
}

/// The wall ring of a station, clipped to the map.
pub fn wall_sites(station: Pos, width: i32, height: i32) -> (sites: Vec<Pos>)
    ensures
        forall|i: int| 0 <= i < sites@.len() ==> ring_cell(station, width as int, height as int, BuildArea::Wall, #[trigger] sites@[i]),
        forall|p: Pos| ring_cell(station, width as int, height as int, BuildArea::Wall, p) ==> sites@.contains(p),
        column_major_sorted(sites@),
{
    ring_sites(station, width, height, BuildArea::Wall)
}

} // verus!
