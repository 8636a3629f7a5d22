use vstd::prelude::*;

use super::constants::NEIGHBOR_RANGE;
use crate::domain::Pos;

verus! {

pub open spec fn abs(v: int) -> int {
    if v < 0 { -v } else { v }
}

pub open spec fn max(a: int, b: int) -> int {
    if a < b { b } else { a }
}

pub open spec fn min(a: int, b: int) -> int {
    if a < b { a } else { b }
}

pub open spec fn clamp(v: int, lo: int, hi: int) -> int {
    if v < lo { lo } else if v > hi { hi } else { v }
}

/// Chebyshev distance: the number of king moves between two cells.
pub open spec fn spec_distance(a: Pos, b: Pos) -> int {
    max(abs(a.x - b.x), abs(a.y - b.y))
}

/// Whether the distance of two cells fits an `i32`.
pub open spec fn distance_fits(a: Pos, b: Pos) -> bool {
    &&& i32::MIN < a.x - b.x <= i32::MAX
    &&& i32::MIN < a.y - b.y <= i32::MAX
}

/// Chebyshev distance from `target` to the nearest cell of the 2x2 station
/// whose anchor is its upper-left-in-x, lower-in-y cell.
pub open spec fn spec_station_distance(station: Pos, target: Pos) -> int {
    spec_distance(target, station_nearest(station, target))
}

/// The station cell nearest the target: the target clamped into the 2x2
/// station anchored at `station`.
pub open spec fn station_nearest(station: Pos, target: Pos) -> Pos {
    Pos {
        x: clamp(target.x as int, station.x as int, station.x + NEIGHBOR_RANGE) as i32,
        y: clamp(target.y as int, station.y - NEIGHBOR_RANGE, station.y as int) as i32,
    }
}

/// The distance of cells is never negative, is the same both ways, is
/// zero exactly between a cell and itself, and obeys the triangle
/// inequality.
pub proof fn law_distance_is_a_metric(a: Pos, b: Pos, c: Pos)
    ensures
        spec_distance(a, b) >= 0,
        spec_distance(a, b) == spec_distance(b, a),
        spec_distance(a, b) == 0 <==> a == b,
        spec_distance(a, c) <= spec_distance(a, b) + spec_distance(b, c),
{
}

/// The station distance is the distance to the nearest of the station's
/// four cells: no station cell is nearer, the nearest one is one of them,
/// and it is zero exactly on a station cell.
pub proof fn law_station_distance_is_nearest_cell(station: Pos, target: Pos)
    requires
        station.x < i32::MAX,
        station.y > i32::MIN,
    ensures
        station.x <= station_nearest(station, target).x <= station.x + 1,
        station.y - 1 <= station_nearest(station, target).y <= station.y,
        forall|c: Pos| station.x <= c.x <= station.x + 1 && station.y - 1 <= c.y <= station.y
            ==> spec_station_distance(station, target) <= #[trigger] spec_distance(target, c),
        spec_station_distance(station, target) == 0 <==> (station.x <= target.x <= station.x + 1
            && station.y - 1 <= target.y <= station.y),
{
}

/// Chebyshev distance between two cells.
pub fn distance(from: Pos, to: Pos) -> (d: i32)
    requires
        distance_fits(from, to),
    ensures
        d == spec_distance(from, to),
        d >= 0,
{
    let dx = from.x - to.x;
    let dy = from.y - to.y;
    let ax = if dx < 0 { -dx } else { dx };
    let ay = if dy < 0 { -dy } else { dy };
    if ax < ay { ay } else { ax }
}

/// Chebyshev distance between two cells, computed without overflow.
pub fn wide_distance(from: Pos, to: Pos) -> (d: i64)
    ensures
        d == spec_distance(from, to),
        d >= 0,
{
    let dx = from.x as i64 - to.x as i64;
    let dy = from.y as i64 - to.y as i64;
    let ax = if dx < 0 { -dx } else { dx };
    let ay = if dy < 0 { -dy } else { dy };
    if ax < ay { ay } else { ax }
}

/// Whether two cells are at most one king move apart. Never overflows.
pub fn within_reach(from: Pos, to: Pos) -> (r: bool)
    ensures
        r == (spec_distance(from, to) <= NEIGHBOR_RANGE),
{
    let dx = from.x as i64 - to.x as i64;
    let dy = from.y as i64 - to.y as i64;
    -1 <= dx && dx <= 1 && -1 <= dy && dy <= 1
}

/// Distance from a target cell to the nearest of the station's four cells.
pub fn station_distance(station: Pos, target: Pos) -> (d: i32)
    requires
        station.x < i32::MAX,
        station.y > i32::MIN,
        distance_fits(target, station_nearest(station, target)),
    ensures
        d == spec_station_distance(station, target),
{
    let hi_x = station.x + NEIGHBOR_RANGE;
    let lo_y = station.y - NEIGHBOR_RANGE;
    let nearest_x = if target.x < station.x { station.x } else if target.x > hi_x { hi_x } else { target.x };
    let nearest_y = if target.y < lo_y { lo_y } else if target.y > station.y { station.y } else { target.y };
    distance(target, Pos { x: nearest_x, y: nearest_y })
}

/// Distance from a cell to the nearest cell of the 2x2 station anchored
/// at `station`, over the integers.
pub open spec fn spec_station_gap(station: Pos, target: Pos) -> int {
    let nx = clamp(target.x as int, station.x as int, station.x + 1);
    let ny = clamp(target.y as int, station.y - 1, station.y as int);
    max(abs(target.x - nx), abs(target.y - ny))
}

/// Distance from a cell to the nearest station cell, without overflow.
pub fn station_gap(station: Pos, target: Pos) -> (r: i64)
    ensures
        r == spec_station_gap(station, target),
        r >= 0,
{
    let hi_x = station.x as i64 + 1;
    let lo_y = station.y as i64 - 1;
    let tx = target.x as i64;
    let ty = target.y as i64;
    let nx = if tx < station.x as i64 { station.x as i64 } else if tx > hi_x { hi_x } else { tx };
    let ny = if ty < lo_y { lo_y } else if ty > station.y as i64 { station.y as i64 } else { ty };
    let dx = if tx > nx { tx - nx } else { nx - tx };
    let dy = if ty > ny { ty - ny } else { ny - ty };
    if dx < dy { dy } else { dx }
}

/// The eight king-move offsets, in row-major order.
pub open spec fn direction(i: int) -> (int, int) {
    if i == 0 { (-1, -1) }
    else if i == 1 { (-1, 0) }
    else if i == 2 { (-1, 1) }
    else if i == 3 { (0, -1) }
    else if i == 4 { (0, 1) }
    else if i == 5 { (1, -1) }
    else if i == 6 { (1, 0) }
    else { (1, 1) }
}

/// The neighbour of `pos` in direction `i`, unless it leaves the `i32` range.
pub open spec fn candidate(pos: Pos, i: int) -> Option<Pos> {
    let (dx, dy) = direction(i);
    if i32::MIN <= pos.x + dx <= i32::MAX && i32::MIN <= pos.y + dy <= i32::MAX {
        Some(Pos { x: (pos.x + dx) as i32, y: (pos.y + dy) as i32 })
    } else {
        None
    }
}

/// The representable neighbours of `pos` in directions `i..8`.
pub open spec fn neighbors_from(pos: Pos, i: int) -> Seq<Pos>
    decreases 8 - i,
{
    if i >= 8 || i < 0 {
        Seq::empty()
    } else {
        match candidate(pos, i) {
            Some(p) => seq![p] + neighbors_from(pos, i + 1),
            None => neighbors_from(pos, i + 1),
        }
    }
}

/// The representable neighbours of `pos`, in direction order.
pub open spec fn spec_neighbors(pos: Pos) -> Seq<Pos> {
    neighbors_from(pos, 0)
}

proof fn lemma_neighbors_from(pos: Pos, i: int)
    requires
        0 <= i <= 8,
    ensures
        forall|q: Pos| neighbors_from(pos, i).contains(q) <==> exists|k: int| i <= k < 8 && candidate(pos, k) == Some(q),
    decreases 8 - i,
{
    if i < 8 {
        lemma_neighbors_from(pos, i + 1);
        let rest = neighbors_from(pos, i + 1);
        assert forall|q: Pos| neighbors_from(pos, i).contains(q) <==> exists|k: int| i <= k < 8 && candidate(pos, k) == Some(q) by {
            match candidate(pos, i) {
                Some(p) => {
                    if neighbors_from(pos, i).contains(q) {
                        let j = choose|j: int| 0 <= j < neighbors_from(pos, i).len() && neighbors_from(pos, i)[j] == q;
                        if j == 0 {
                            assert(candidate(pos, i) == Some(q));
                        } else {
                            assert(rest[j - 1] == q);
                            assert(rest.contains(q));
                        }
                    }
                    if exists|k: int| i <= k < 8 && candidate(pos, k) == Some(q) {
                        let k = choose|k: int| i <= k < 8 && candidate(pos, k) == Some(q);
                        if k == i {
                            assert(neighbors_from(pos, i)[0] == q);
                        } else {
                            assert(rest.contains(q));
                            let j = choose|j: int| 0 <= j < rest.len() && rest[j] == q;
                            assert(neighbors_from(pos, i)[j + 1] == q);
                        }
                    }
                }
                None => {
                    if exists|k: int| i <= k < 8 && candidate(pos, k) == Some(q) {
                        let k = choose|k: int| i <= k < 8 && candidate(pos, k) == Some(q);
                        assert(k != i);
                    }
                }
            }
        }
    }
}

/// A cell is a representable neighbour exactly when it is one king move away.
pub proof fn lemma_neighbors_are_adjacent(pos: Pos)
    ensures
        forall|q: Pos| spec_neighbors(pos).contains(q) <==> spec_distance(q, pos) == 1,
{
    lemma_neighbors_from(pos, 0);
    assert forall|q: Pos| spec_neighbors(pos).contains(q) <==> spec_distance(q, pos) == 1 by {
        if spec_distance(q, pos) == 1 {
            let dx = q.x - pos.x;
            let dy = q.y - pos.y;
            let k: int = if dx == -1 { if dy == -1 { 0 } else if dy == 0 { 1 } else { 2 } }
                else if dx == 0 { if dy == -1 { 3 } else { 4 } }
                else { if dy == -1 { 5 } else if dy == 0 { 6 } else { 7 } };
            assert(candidate(pos, k) == Some(q));
        }
        if spec_neighbors(pos).contains(q) {
            let k = choose|k: int| 0 <= k < 8 && candidate(pos, k) == Some(q);
            assert(spec_distance(q, pos) == 1);
        }
    }
}

/// The cells one king move away from `pos`, in direction order.
pub fn neighbors(pos: Pos) -> (r: Vec<Pos>)
    ensures
        r@ == spec_neighbors(pos),
        forall|q: Pos| r@.contains(q) <==> spec_distance(q, pos) == 1,
{
    let mut r: Vec<Pos> = Vec::new();
    let mut i: usize = 0;
    while i < 8
        invariant
            i <= 8,
            r@ + neighbors_from(pos, i as int) == spec_neighbors(pos),
        decreases 8 - i,
    {
        let (dx, dy): (i32, i32) = if i == 0 { (-1, -1) } else if i == 1 { (-1, 0) }
            else if i == 2 { (-1, 1) } else if i == 3 { (0, -1) } else if i == 4 { (0, 1) }
            else if i == 5 { (1, -1) } else if i == 6 { (1, 0) } else { (1, 1) };
        let ghost old_r = r@;
        match (pos.x.checked_add(dx), pos.y.checked_add(dy)) {
            (Some(x), Some(y)) => {
                r.push(Pos { x, y });
                assert(r@ + neighbors_from(pos, i + 1) =~= old_r + neighbors_from(pos, i as int));
            }
            _ => {}
        }
        i = i + 1;
    }
    assert(r@ + neighbors_from(pos, 8) =~= r@);
    proof { lemma_neighbors_are_adjacent(pos); }
    r
}

} // verus!
