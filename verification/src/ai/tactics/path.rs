use vstd::prelude::*;

use crate::collections::SortedMap;
use crate::domain::{Observation, Pos};
use crate::num::clamp_i32;
use crate::rules::constants::{MAX_PATH_EXPANSIONS, NEAR_GOAL_RANGE, PATH_STEP_COST, SINGLE_ITEM, ZERO_ROUNDS};
use crate::rules::geometry::{neighbors, neighbors_from, spec_distance, spec_neighbors, wide_distance};
use crate::world::view::{WorldView, spec_can_enter, spec_is_stand};

verus! {

/// The first step of a path, the goal it reaches, and its length.
#[derive(Clone, Copy, Debug, PartialEq, Eq, Structural)]
pub struct PathResult {
    pub next: Pos,
    pub goal: Pos,
    pub steps: i32,
}

/// Each cell is one king move from the one before, and every cell after
/// the first can be entered by the actor.
pub open spec fn is_walk(o: &Observation, actor: i64, cells: Seq<Pos>) -> bool {
    &&& cells.len() >= 1
    &&& forall|i: int| 0 < i < cells.len() ==> spec_distance(#[trigger] cells[i], cells[i - 1]) == 1
        && spec_can_enter(o, cells[i], actor)
}

/// The result is a walk of `steps` moves from `start` to one of the goals,
/// starting with a move to `next`; or, when the start is a goal, no move.
pub open spec fn path_found(o: &Observation, actor: i64, start: Pos, goals: Seq<Pos>, r: PathResult) -> bool {
    &&& goals.contains(r.goal)
    &&& if r.steps == 0 {
        r.next == start && r.goal == start
    } else {
        exists|cells: Seq<Pos>| #[trigger] is_walk(o, actor, cells) && cells[0] == start && cells.last() == r.goal
            && cells.len() == r.steps + 1 && cells[1] == r.next
    }
}

/// `r` describes a walk from `from` to a cell that `stand` accepts: no
/// move when `from` is that cell, otherwise `r.steps` moves starting with
/// one to `r.next`.
pub open spec fn walk_toward(o: &Observation, actor: i64, from: Pos, stand: spec_fn(Pos) -> bool, r: PathResult) -> bool {
    &&& stand(r.goal)
    &&& if r.steps == 0 {
        r.next == from && r.goal == from
    } else {
        exists|cells: Seq<Pos>| #[trigger] is_walk(o, actor, cells) && cells[0] == from && cells.last() == r.goal
            && cells.len() == r.steps + 1 && cells[1] == r.next
    }
}

/// Every cell with a parent was reached from the start by a move to it
/// from its parent, which was reached more cheaply.
pub open spec fn parents_sound(o: &Observation, actor: i64, start: Pos, parents: Map<Pos, (i32, Pos)>) -> bool {
    &&& parents.contains_key(start)
    &&& parents[start] == (0i32, start)
    &&& forall|p: Pos| #[trigger] parents.contains_key(p) ==> parents[p].0 >= 0
    &&& forall|p: Pos| #[trigger] parents.contains_key(p) && p != start ==> {
        &&& parents.contains_key(parents[p].1)
        &&& parents[parents[p].1].0 < parents[p].0
        &&& spec_distance(p, parents[p].1) == 1
        &&& spec_can_enter(o, p, actor)
    }
}

/// The cells from which `actor` can act on `target`.
pub open spec fn stand_at(o: Observation, target: Pos, actor: i64) -> spec_fn(Pos) -> bool {
    |p: Pos| spec_is_stand(&o, target, actor, p)
}

/// Some walk leads from `start` to `p`.
pub open spec fn reachable(o: &Observation, actor: i64, start: Pos, p: Pos) -> bool {
    exists|cells: Seq<Pos>| #[trigger] is_walk(o, actor, cells) && cells[0] == start && cells.last() == p
}

/// More cells can be reached from `start` than a search may expand.
pub open spec fn too_many_reachable(o: &Observation, actor: i64, start: Pos) -> bool {
    exists|cells: Set<Pos>| #![trigger cells.len()] cells.finite() && cells.len() > MAX_PATH_EXPANSIONS
        && forall|p: Pos| #[trigger] cells.contains(p) ==> reachable(o, actor, start, p)
}

/// No goal can be reached from `start`, or a search cannot expand every
/// reachable cell.
pub open spec fn search_fails(o: &Observation, actor: i64, start: Pos, goals: Seq<Pos>) -> bool {
    (forall|g: Pos| #[trigger] goals.contains(g) ==> !reachable(o, actor, start, g))
        || too_many_reachable(o, actor, start)
}

/// The actor cannot walk to any cell that `stand` accepts, or a search
/// cannot expand every cell it can reach.
pub open spec fn walk_fails(o: &Observation, actor: i64, from: Pos, stand: spec_fn(Pos) -> bool) -> bool {
    (forall|p: Pos| #[trigger] stand(p) ==> !reachable(o, actor, from, p))
        || too_many_reachable(o, actor, from)
}

/// `steps` is the fewest moves of any walk from `from` to a cell that
/// `stand` accepts.
pub open spec fn walk_distance(o: &Observation, actor: i64, from: Pos, stand: spec_fn(Pos) -> bool, steps: int) -> bool {
    &&& exists|cells: Seq<Pos>| #[trigger] is_walk(o, actor, cells) && cells[0] == from && stand(cells.last())
        && cells.len() == steps + 1
    &&& forall|cells: Seq<Pos>| #[trigger] is_walk(o, actor, cells) && cells[0] == from && stand(cells.last())
        ==> steps <= cells.len() - 1
}

/// The fewest moves to a cell is one number.
pub proof fn lemma_walk_distance_unique(o: &Observation, actor: i64, from: Pos, stand: spec_fn(Pos) -> bool, a: int, b: int)
    requires
        walk_distance(o, actor, from, stand, a),
        walk_distance(o, actor, from, stand, b),
    ensures
        a == b,
{
    let ca = choose|cells: Seq<Pos>| #[trigger] is_walk(o, actor, cells) && cells[0] == from && stand(cells.last())
        && cells.len() == a + 1;
    let cb = choose|cells: Seq<Pos>| #[trigger] is_walk(o, actor, cells) && cells[0] == from && stand(cells.last())
        && cells.len() == b + 1;
}

/// A walk of `steps` moves leads from `from` to `to`.
pub open spec fn walk_of(o: &Observation, actor: i64, from: Pos, to: Pos, steps: int) -> bool {
    exists|cells: Seq<Pos>| #[trigger] is_walk(o, actor, cells) && cells[0] == from && cells.last() == to
        && cells.len() == steps + 1
}

/// The walk a search found is a walk of its steps to its goal.
pub proof fn lemma_found_walk(o: &Observation, actor: i64, from: Pos, goals: Seq<Pos>, r: PathResult)
    requires
        path_found(o, actor, from, goals, r),
    ensures
        walk_of(o, actor, from, r.goal, r.steps as int),
{
    if r.steps == 0 {
        let cells = seq![from];
        assert(is_walk(o, actor, cells));
    } else {
        let cells = choose|cells: Seq<Pos>| #[trigger] is_walk(o, actor, cells) && cells[0] == from && cells.last() == r.goal
            && cells.len() == r.steps + 1 && cells[1] == r.next;
    }
}

/// A walk failing to a cell that can be reached means the search could not
/// expand every reachable cell.
pub proof fn lemma_reached_fails(o: &Observation, actor: i64, from: Pos, stand: spec_fn(Pos) -> bool, steps: int)
    requires
        walk_distance(o, actor, from, stand, steps),
        walk_fails(o, actor, from, stand),
    ensures
        too_many_reachable(o, actor, from),
{
    let cells = choose|cells: Seq<Pos>| #[trigger] is_walk(o, actor, cells) && cells[0] == from && stand(cells.last())
        && cells.len() == steps + 1;
    assert(reachable(o, actor, from, cells.last()));
}

/// A shortest walk found to goals that are exactly the cells `stand`
/// accepts gives the walking distance to such a cell.
pub proof fn lemma_found_distance(o: &Observation, actor: i64, from: Pos, goals: Seq<Pos>, stand: spec_fn(Pos) -> bool, r: PathResult)
    requires
        path_found(o, actor, from, goals, r),
        no_shorter_walk(o, actor, from, goals, r.steps as int),
        forall|p: Pos| #[trigger] stand(p) <==> goals.contains(p),
    ensures
        walk_distance(o, actor, from, stand, r.steps as int),
        walk_toward(o, actor, from, stand, r),
{
    if r.steps == 0 {
        let cells = seq![from];
        assert(is_walk(o, actor, cells));
        assert(stand(cells.last()));
    } else {
        let cells = choose|cells: Seq<Pos>| #[trigger] is_walk(o, actor, cells) && cells[0] == from && cells.last() == r.goal
            && cells.len() == r.steps + 1 && cells[1] == r.next;
        assert(stand(cells.last()));
    }
    assert forall|cells: Seq<Pos>| #[trigger] is_walk(o, actor, cells) && cells[0] == from && stand(cells.last())
        implies r.steps <= cells.len() - 1 by {
        assert(goals.contains(cells.last()));
    }
    assert(stand(r.goal));
}

/// A failed search for goals that include every cell `stand` accepts is a
/// failed walk to such a cell.
pub proof fn lemma_walk_fails(o: &Observation, actor: i64, from: Pos, goals: Seq<Pos>, stand: spec_fn(Pos) -> bool)
    requires
        search_fails(o, actor, from, goals),
        forall|p: Pos| #[trigger] stand(p) ==> goals.contains(p),
    ensures
        walk_fails(o, actor, from, stand),
{
}

/// A path found when the start is not a goal takes at least one step.
pub proof fn lemma_path_moves(o: &Observation, actor: i64, start: Pos, goals: Seq<Pos>, r: PathResult)
    requires
        path_found(o, actor, start, goals, r),
        !goals.contains(start),
    ensures
        r.steps >= 1,
{
    if r.steps != 0 {
        let cells = choose|cells: Seq<Pos>| #[trigger] is_walk(o, actor, cells) && cells[0] == start && cells.last() == r.goal
            && cells.len() == r.steps + 1 && cells[1] == r.next;
    }
}

/// Every cell next to `p` that the actor can enter has a parent entry.
pub open spec fn expanded(o: &Observation, actor: i64, p: Pos, parents: Map<Pos, (i32, Pos)>) -> bool {
    forall|q: Pos| spec_distance(q, p) == 1 && #[trigger] spec_can_enter(o, q, actor) ==> parents.contains_key(q)
}

/// Every cell next to `p` that the actor can enter costs at most one more
/// than `p`.
pub open spec fn cost_expanded(o: &Observation, actor: i64, p: Pos, parents: Map<Pos, (i32, Pos)>) -> bool {
    forall|q: Pos| spec_distance(q, p) == 1 && #[trigger] spec_can_enter(o, q, actor)
        ==> parents.contains_key(q) && parents[q].0 <= parents[p].0 + 1
}

/// No walk from `start` to `p` is shorter than `steps` moves.
pub open spec fn no_shorter_walk_to(o: &Observation, actor: i64, start: Pos, p: Pos, steps: int) -> bool {
    forall|cells: Seq<Pos>| #[trigger] is_walk(o, actor, cells) && cells[0] == start && cells.last() == p
        ==> steps <= cells.len() - 1
}

/// An open node of the queue is for `p` at cost `cost`.
pub open spec fn queued_at(queue: Seq<QueueEntry>, p: Pos, cost: int, goals: Seq<Pos>) -> bool {
    exists|e: QueueEntry| #[trigger] queue.contains(e) && e.pos == p && e.estimate == spec_nearest(p, goals)
        && e.total == clamp_i32(cost + e.estimate)
}

/// The parent links of a cell give a walk to it from the start of no more
/// moves than its cost.
proof fn lemma_parents_walk(o: &Observation, actor: i64, start: Pos, parents: Map<Pos, (i32, Pos)>, p: Pos) -> (cells: Seq<Pos>)
    requires
        parents_sound(o, actor, start, parents),
        parents.contains_key(p),
    ensures
        is_walk(o, actor, cells),
        cells[0] == start,
        cells.last() == p,
        cells.len() - 1 <= parents[p].0,
    decreases parents[p].0,
{
    if p == start {
        let cells = seq![start];
        assert(is_walk(o, actor, cells));
        cells
    } else {
        let q = parents[p].1;
        let cells = lemma_parents_walk(o, actor, start, parents, q);
        let longer = cells.push(p);
        assert forall|i: int| 0 < i < longer.len() implies spec_distance(#[trigger] longer[i], longer[i - 1]) == 1
            && spec_can_enter(o, longer[i], actor) by {
            if i < cells.len() {
                assert(longer[i] == cells[i] && longer[i - 1] == cells[i - 1]);
            }
        }
        assert(is_walk(o, actor, longer));
        longer
    }
}

/// The first cell of a walk outside a set, when its last cell is outside.
proof fn lemma_first_open(cells: Seq<Pos>, closed: Set<Pos>, k: int) -> (i: int)
    requires
        0 <= k < cells.len(),
        forall|j: int| 0 <= j < k ==> closed.contains(#[trigger] cells[j]),
        !closed.contains(cells.last()),
    ensures
        k <= i < cells.len(),
        !closed.contains(cells[i]),
        forall|j: int| 0 <= j < i ==> closed.contains(#[trigger] cells[j]),
    decreases cells.len() - k,
{
    if !closed.contains(cells[k]) {
        k
    } else {
        lemma_first_open(cells, closed, k + 1)
    }
}

/// A walk's first cells are a walk.
proof fn lemma_walk_prefix(o: &Observation, actor: i64, cells: Seq<Pos>, n: int)
    requires
        is_walk(o, actor, cells),
        1 <= n <= cells.len(),
    ensures
        is_walk(o, actor, cells.subrange(0, n)),
{
    let pre = cells.subrange(0, n);
    assert forall|i: int| 0 < i < pre.len() implies spec_distance(#[trigger] pre[i], pre[i - 1]) == 1
        && spec_can_enter(o, pre[i], actor) by {
        assert(pre[i] == cells[i] && pre[i - 1] == cells[i - 1]);
    }
}

/// The node taken from the queue costs, with its estimate, no more than
/// any walk from the start to a cell that is not closed, with that cell's
/// estimate: when closed cells are reached as cheaply as possible and have
/// opened their neighbours, the open cell on such a walk holds an earlier
/// place in the queue.
proof fn lemma_pop_bound(
    o: &Observation,
    actor: i64,
    start: Pos,
    goals: Seq<Pos>,
    pv: Map<Pos, (i32, Pos)>,
    closed: Set<Pos>,
    queue: Seq<QueueEntry>,
    e: QueueEntry,
    cells: Seq<Pos>,
)
    requires
        parents_sound(o, actor, start, pv),
        goal_within_range(start, goals),
        closed.finite(),
        closed.len() < MAX_PATH_EXPANSIONS,
        forall|v: Pos| #[trigger] closed.contains(v) ==> pv.contains_key(v) && cost_expanded(o, actor, v, pv)
            && no_shorter_walk_to(o, actor, start, v, pv[v].0 as int),
        forall|p: Pos| #[trigger] pv.contains_key(p) ==> pv[p].0 <= closed.len(),
        forall|p: Pos| #[trigger] pv.contains_key(p) ==> closed.contains(p) || queued_at(queue, p, pv[p].0 as int, goals),
        queue.contains(e),
        forall|i: int| 0 <= i < queue.len() ==> !entry_before(#[trigger] queue[i], e),
        pv.contains_key(e.pos),
        e.estimate == spec_nearest(e.pos, goals),
        e.total >= clamp_i32(pv[e.pos].0 + e.estimate),
        is_walk(o, actor, cells),
        cells[0] == start,
        !closed.contains(cells.last()),
    ensures
        pv[e.pos].0 + spec_nearest(e.pos, goals) <= cells.len() - 1 + spec_nearest(cells.last(), goals),
{
    let n: int = cells.len() - 1;
    let t = cells.last();
    let i: int = lemma_first_open(cells, closed, 0);
    let w = cells[i];
    // The open cell is reached as cheaply as its place on the walk.
    if i > 0 {
        let v = cells[i - 1];
        assert(closed.contains(v));
        lemma_walk_prefix(o, actor, cells, i);
        let pre = cells.subrange(0, i);
        assert(pre.last() == v);
        assert(no_shorter_walk_to(o, actor, start, v, pv[v].0 as int));
        assert(pv[v].0 <= i - 1);
        assert(spec_distance(cells[i], cells[i - 1]) == 1 && spec_can_enter(o, cells[i], actor));
        assert(cost_expanded(o, actor, v, pv));
    }
    assert(pv.contains_key(w) && pv[w].0 <= i);
    // Its queue entry does not come before the one taken.
    assert(queued_at(queue, w, pv[w].0 as int, goals));
    let ew = choose|ew: QueueEntry| #[trigger] queue.contains(ew) && ew.pos == w && ew.estimate == spec_nearest(w, goals)
        && ew.total == clamp_i32(pv[w].0 + ew.estimate);
    let k = choose|k: int| 0 <= k < queue.len() && queue[k] == ew;
    assert(!entry_before(queue[k], e));
    assert(ew.total >= e.total);
    // Estimates along the rest of the walk.
    lemma_walk_distance(o, actor, cells, i, n);
    lemma_nearest_lipschitz(w, t, goals);
    lemma_nearest_bounds(w, goals);
    lemma_nearest_bounds(t, goals);
    // The taken node's estimated total stays clear of the `i32` limit.
    let g0 = choose|g: Pos| #[trigger] goals.contains(g) && spec_distance(start, g) <= NEAR_GOAL_RANGE;
    lemma_nearest_bounds(start, goals);
    lemma_nearest_bounds(e.pos, goals);
    lemma_nearest_lipschitz(e.pos, start, goals);
    let chain = lemma_parents_walk(o, actor, start, pv, e.pos);
    lemma_walk_distance(o, actor, chain, 0, chain.len() - 1);
    lemma_triangle(e.pos, start, start);
    assert(spec_distance(e.pos, start) <= pv[e.pos].0);
    assert(pv[e.pos].0 + spec_nearest(e.pos, goals) < i32::MAX);
}

/// What the queue and the closed cells keep when a node is taken.
proof fn lemma_after_pop(
    goals: Seq<Pos>,
    pos: Pos,
    entry: QueueEntry,
    closed_before: Map<Pos, ()>,
    closed_now: Map<Pos, ()>,
    pv: Map<Pos, (i32, Pos)>,
    queue_before: Seq<QueueEntry>,
    queue_mid: Seq<QueueEntry>,
)
    requires
        entry.pos == pos,
        queue_before.contains(entry),
        closed_now.dom() == closed_before.dom().insert(pos),
        closed_before.dom().finite(),
        forall|p: Pos| #[trigger] closed_before.contains_key(p) ==> pv.contains_key(p),
        forall|p: Pos| #[trigger] pv.contains_key(p)
            ==> closed_before.contains_key(p) || queued_at(queue_before, p, pv[p].0 as int, goals),
        forall|k: int| 0 <= k < queue_before.len() ==> {
            &&& pv.contains_key(#[trigger] queue_before[k].pos)
            &&& queue_before[k].estimate == spec_nearest(queue_before[k].pos, goals)
            &&& queue_before[k].total >= clamp_i32(pv[queue_before[k].pos].0 + queue_before[k].estimate)
        },
        forall|p: Pos| #[trigger] pv.contains_key(p) ==> pv[p].0 <= closed_before.dom().len(),
        forall|x: QueueEntry| #[trigger] queue_before.contains(x) && x.pos != pos ==> queue_mid.contains(x),
        forall|k: int| 0 <= k < queue_mid.len() ==> queue_before.contains(#[trigger] queue_mid[k]),
    ensures
        closed_now.dom().finite(),
        closed_before.dom().len() <= closed_now.dom().len(),
        !closed_before.contains_key(pos) ==> closed_now.dom().len() == closed_before.dom().len() + 1,
        pv.contains_key(pos),
        forall|p: Pos| #[trigger] closed_now.contains_key(p) ==> pv.contains_key(p),
        forall|p: Pos| #[trigger] pv.contains_key(p)
            ==> closed_now.contains_key(p) || queued_at(queue_mid, p, pv[p].0 as int, goals),
        forall|k: int| 0 <= k < queue_mid.len() ==> {
            &&& pv.contains_key(#[trigger] queue_mid[k].pos)
            &&& queue_mid[k].estimate == spec_nearest(queue_mid[k].pos, goals)
            &&& queue_mid[k].total >= clamp_i32(pv[queue_mid[k].pos].0 + queue_mid[k].estimate)
        },
        forall|p: Pos| #[trigger] pv.contains_key(p) ==> pv[p].0 <= closed_now.dom().len(),
{
    let j = choose|j: int| 0 <= j < queue_before.len() && queue_before[j] == entry;
    assert(pv.contains_key(queue_before[j].pos));
    if closed_before.dom().contains(pos) {
        assert(closed_now.dom() =~= closed_before.dom());
    }
    assert forall|k: int| 0 <= k < queue_mid.len() implies {
        &&& pv.contains_key(#[trigger] queue_mid[k].pos)
        &&& queue_mid[k].estimate == spec_nearest(queue_mid[k].pos, goals)
        &&& queue_mid[k].total >= clamp_i32(pv[queue_mid[k].pos].0 + queue_mid[k].estimate)
    } by {
        assert(queue_before.contains(queue_mid[k]));
        let i = choose|i: int| 0 <= i < queue_before.len() && queue_before[i] == queue_mid[k];
        assert(pv.contains_key(queue_before[i].pos));
    }
    assert forall|p: Pos| #[trigger] pv.contains_key(p)
        implies closed_now.contains_key(p) || queued_at(queue_mid, p, pv[p].0 as int, goals) by {
        if !closed_now.contains_key(p) {
            assert(!closed_before.contains_key(p));
            let x = choose|x: QueueEntry| #[trigger] queue_before.contains(x) && x.pos == p
                && x.estimate == spec_nearest(p, goals) && x.total == clamp_i32(pv[p].0 + x.estimate);
            assert(queue_mid.contains(x));
        }
    }
}

/// The taken cell was reached as cheaply as possible, so no closed cell's
/// cost falls when it is expanded.
proof fn lemma_closed_costs_kept(
    o: &Observation,
    actor: i64,
    start: Pos,
    pos: Pos,
    closed_before: Map<Pos, ()>,
    closed_now: Map<Pos, ()>,
    pb: Map<Pos, (i32, Pos)>,
    pv: Map<Pos, (i32, Pos)>,
    queue_after: Seq<QueueEntry>,
    goals: Seq<Pos>,
)
    requires
        closed_now.dom() == closed_before.dom().insert(pos),
        parents_sound(o, actor, start, pb),
        pb.contains_key(pos),
        forall|p: Pos| #[trigger] closed_now.contains_key(p) ==> pb.contains_key(p),
        forall|p: Pos| #[trigger] closed_now.contains_key(p) ==> no_shorter_walk_to(o, actor, start, p, pb[p].0 as int),
        forall|k: Pos| #[trigger] pb.contains_key(k) ==> pv.contains_key(k),
        forall|k: Pos| #[trigger] pv.contains_key(k) ==>
            (pb.contains_key(k) && pv[k] == pb[k])
            || ((pv[k].0 == pb[pos].0 + 1 && pv[k].1 == pos) && (pb.contains_key(k) ==> pb[pos].0 + 1 < pb[k].0)
                && queued_at(queue_after, k, pb[pos].0 + 1, goals)),
        parents_sound(o, actor, start, pv),
    ensures
        forall|p: Pos| #[trigger] closed_now.contains_key(p) ==> pv[p] == pb[p],
{
    assert forall|p: Pos| #[trigger] closed_now.contains_key(p) implies pv[p] == pb[p] by {
        assert(pb.contains_key(p));
        assert(pv.contains_key(p));
        if pv[p] != pb[p] {
            assert((pv[p].0 == pb[pos].0 + 1 && pv[p].1 == pos));
            assert(pb[pos].0 + 1 < pb[p].0);
            assert(p != start) by {
                assert(pb[start].0 == 0);
            }
            assert(spec_distance(p, pos) == 1 && spec_can_enter(o, p, actor));
            let chain = lemma_parents_walk(o, actor, start, pb, pos);
            let longer = chain.push(p);
            assert forall|i: int| 0 < i < longer.len() implies spec_distance(#[trigger] longer[i], longer[i - 1]) == 1
                && spec_can_enter(o, longer[i], actor) by {
                if i < chain.len() {
                    assert(longer[i] == chain[i] && longer[i - 1] == chain[i - 1]);
                }
            }
            assert(is_walk(o, actor, longer));
            assert(longer[0] == start && longer.last() == p);
            assert(no_shorter_walk_to(o, actor, start, p, pb[p].0 as int));
            assert(pb[p].0 <= longer.len() - 1);
        }
    }
}

/// What expanding a freshly closed cell keeps, when that cell is neither a
/// goal nor past the expansion limit.
#[verifier::rlimit(40)]
proof fn lemma_after_expand(
    o: &Observation,
    actor: i64,
    start: Pos,
    goals: Seq<Pos>,
    pos: Pos,
    entry: QueueEntry,
    closed_before: Map<Pos, ()>,
    closed_now: Map<Pos, ()>,
    pb: Map<Pos, (i32, Pos)>,
    pv: Map<Pos, (i32, Pos)>,
    queue_before: Seq<QueueEntry>,
    queue_mid: Seq<QueueEntry>,
    queue_after: Seq<QueueEntry>,
)
    requires
        entry.pos == pos,
        queue_before.contains(entry),
        forall|i: int| 0 <= i < queue_before.len() ==> !entry_before(#[trigger] queue_before[i], entry),
        !closed_before.contains_key(pos),
        !goals.contains(pos),
        closed_now.dom() == closed_before.dom().insert(pos),
        closed_before.dom().finite(),
        closed_now.dom().finite(),
        closed_now.dom().len() == closed_before.dom().len() + 1,
        closed_now.dom().len() <= MAX_PATH_EXPANSIONS,
        parents_sound(o, actor, start, pb),
        parents_sound(o, actor, start, pv),
        forall|p: Pos| #[trigger] closed_before.contains_key(p) ==> pb.contains_key(p),
        forall|p: Pos| #[trigger] pb.contains_key(p)
            ==> closed_before.contains_key(p) || queued_at(queue_before, p, pb[p].0 as int, goals),
        forall|k: int| 0 <= k < queue_before.len() ==> {
            &&& pb.contains_key(#[trigger] queue_before[k].pos)
            &&& queue_before[k].estimate == spec_nearest(queue_before[k].pos, goals)
            &&& queue_before[k].total >= clamp_i32(pb[queue_before[k].pos].0 + queue_before[k].estimate)
        },
        forall|p: Pos| #[trigger] pb.contains_key(p) ==> pb[p].0 <= closed_before.dom().len(),
        forall|p: Pos| #[trigger] closed_before.contains_key(p) ==> expanded(o, actor, p, pb) && !goals.contains(p),
        goal_within_range(start, goals) ==> forall|p: Pos| #[trigger] closed_before.contains_key(p)
            ==> cost_expanded(o, actor, p, pb) && no_shorter_walk_to(o, actor, start, p, pb[p].0 as int),
        forall|p: Pos| #[trigger] pb.contains_key(p)
            ==> closed_now.contains_key(p) || queued_at(queue_mid, p, pb[p].0 as int, goals),
        forall|k: int| 0 <= k < queue_mid.len() ==> {
            &&& pb.contains_key(#[trigger] queue_mid[k].pos)
            &&& queue_mid[k].estimate == spec_nearest(queue_mid[k].pos, goals)
            &&& queue_mid[k].total >= clamp_i32(pb[queue_mid[k].pos].0 + queue_mid[k].estimate)
        },
        queue_mid.len() <= queue_after.len(),
        queue_after.subrange(0, queue_mid.len() as int) == queue_mid,
        pv[pos] == pb[pos],
        expanded(o, actor, pos, pv),
        cost_expanded(o, actor, pos, pv),
        forall|k: Pos| #[trigger] pb.contains_key(k) ==> pv.contains_key(k),
        forall|k: Pos| #[trigger] pv.contains_key(k) ==>
            (pb.contains_key(k) && pv[k] == pb[k])
            || ((pv[k].0 == pb[pos].0 + 1 && pv[k].1 == pos) && (pb.contains_key(k) ==> pb[pos].0 + 1 < pb[k].0)
                && queued_at(queue_after, k, pb[pos].0 + 1, goals)),
        forall|i: int| queue_mid.len() <= i < queue_after.len() ==> {
            &&& pv.contains_key(#[trigger] queue_after[i].pos)
            &&& pv[queue_after[i].pos].0 == pb[pos].0 + 1
            &&& queue_after[i].estimate == spec_nearest(queue_after[i].pos, goals)
            &&& queue_after[i].total == clamp_i32(pb[pos].0 + 1 + queue_after[i].estimate)
        },
    ensures
        forall|p: Pos| #[trigger] closed_now.contains_key(p) ==> pv.contains_key(p),
        forall|p: Pos| #[trigger] pv.contains_key(p)
            ==> closed_now.contains_key(p) || queued_at(queue_after, p, pv[p].0 as int, goals),
        forall|k: int| 0 <= k < queue_after.len() ==> {
            &&& pv.contains_key(#[trigger] queue_after[k].pos)
            &&& queue_after[k].estimate == spec_nearest(queue_after[k].pos, goals)
            &&& queue_after[k].total >= clamp_i32(pv[queue_after[k].pos].0 + queue_after[k].estimate)
        },
        forall|p: Pos| #[trigger] pv.contains_key(p) ==> pv[p].0 <= closed_now.dom().len(),
        forall|p: Pos| #[trigger] closed_now.contains_key(p) ==> expanded(o, actor, p, pv) && !goals.contains(p),
        goal_within_range(start, goals) ==> forall|p: Pos| #[trigger] closed_now.contains_key(p)
            ==> cost_expanded(o, actor, p, pv) && no_shorter_walk_to(o, actor, start, p, pv[p].0 as int),
{
    assert(pb.contains_key(pos));
    assert forall|p: Pos| #[trigger] closed_now.contains_key(p) implies pv.contains_key(p) by {
        if p != pos {
            assert(closed_before.contains_key(p));
        }
    }
    assert forall|k: int| 0 <= k < queue_after.len() implies {
        &&& pv.contains_key(#[trigger] queue_after[k].pos)
        &&& queue_after[k].estimate == spec_nearest(queue_after[k].pos, goals)
        &&& queue_after[k].total >= clamp_i32(pv[queue_after[k].pos].0 + queue_after[k].estimate)
    } by {
        if k < queue_mid.len() {
            assert(queue_after[k] == queue_after.subrange(0, queue_mid.len() as int)[k]);
            assert(queue_after[k] == queue_mid[k]);
            let q = queue_mid[k].pos;
            assert(pb.contains_key(q));
            assert(pv[q].0 <= pb[q].0);
        }
    }
    assert forall|p: Pos| #[trigger] pv.contains_key(p)
        implies closed_now.contains_key(p) || queued_at(queue_after, p, pv[p].0 as int, goals) by {
        if pb.contains_key(p) && pv[p] == pb[p] && !closed_now.contains_key(p) {
            let x = choose|x: QueueEntry| #[trigger] queue_mid.contains(x) && x.pos == p
                && x.estimate == spec_nearest(p, goals) && x.total == clamp_i32(pb[p].0 + x.estimate);
            let k = choose|k: int| 0 <= k < queue_mid.len() && queue_mid[k] == x;
            assert(queue_after[k] == queue_after.subrange(0, queue_mid.len() as int)[k]);
            assert(queue_after.contains(x));
        }
    }
    assert forall|p: Pos| #[trigger] pv.contains_key(p) implies pv[p].0 <= closed_now.dom().len() by {
        if !(pb.contains_key(p) && pv[p] == pb[p]) {
            assert(pv[p].0 == pb[pos].0 + 1);
        }
    }
    assert forall|p: Pos| #[trigger] closed_now.contains_key(p) implies expanded(o, actor, p, pv) && !goals.contains(p) by {
        if p != pos {
            assert(closed_before.contains_key(p));
            assert(expanded(o, actor, p, pb));
            assert forall|q: Pos| spec_distance(q, p) == 1 && #[trigger] spec_can_enter(o, q, actor) implies pv.contains_key(q) by {
                assert(pb.contains_key(q));
            }
        }
    }
    if goal_within_range(start, goals) {
        assert forall|cells: Seq<Pos>| #[trigger] is_walk(o, actor, cells) && cells[0] == start && cells.last() == pos
            implies pb[pos].0 <= cells.len() - 1 by {
            lemma_pop_bound(o, actor, start, goals, pb, closed_before.dom(), queue_before, entry, cells);
        }
        assert(no_shorter_walk_to(o, actor, start, pos, pb[pos].0 as int));
        assert forall|p: Pos| #[trigger] closed_now.contains_key(p) implies no_shorter_walk_to(o, actor, start, p, pb[p].0 as int) by {
            if p != pos {
                assert(closed_before.contains_key(p));
            }
        }
        lemma_closed_costs_kept(o, actor, start, pos, closed_before, closed_now, pb, pv, queue_after, goals);
        assert forall|p: Pos| #[trigger] closed_now.contains_key(p)
            implies cost_expanded(o, actor, p, pv) && no_shorter_walk_to(o, actor, start, p, pv[p].0 as int) by {
            assert(pv[p] == pb[p]);
            if p != pos {
                assert(closed_before.contains_key(p));
                assert(cost_expanded(o, actor, p, pb));
                assert forall|q: Pos| spec_distance(q, p) == 1 && #[trigger] spec_can_enter(o, q, actor)
                    implies pv.contains_key(q) && pv[q].0 <= pv[p].0 + 1 by {
                    assert(pb.contains_key(q));
                }
            }
        }
    }
}

/// Every cell with a parent entry can be reached from the start.
proof fn lemma_parents_reachable(o: &Observation, actor: i64, start: Pos, parents: Map<Pos, (i32, Pos)>, p: Pos)
    requires
        parents_sound(o, actor, start, parents),
        parents.contains_key(p),
    ensures
        reachable(o, actor, start, p),
    decreases parents[p].0,
{
    if p == start {
        let cells = seq![start];
        assert(is_walk(o, actor, cells));
    } else {
        let q = parents[p].1;
        lemma_parents_reachable(o, actor, start, parents, q);
        let cells = choose|cells: Seq<Pos>| #[trigger] is_walk(o, actor, cells) && cells[0] == start && cells.last() == q;
        let longer = cells.push(p);
        assert forall|i: int| 0 < i < longer.len() implies spec_distance(#[trigger] longer[i], longer[i - 1]) == 1
            && spec_can_enter(o, longer[i], actor) by {
            if i < cells.len() {
                assert(longer[i] == cells[i] && longer[i - 1] == cells[i - 1]);
            }
        }
        assert(is_walk(o, actor, longer));
    }
}

/// A walk that starts in a set closed under the actor's moves stays in it.
proof fn lemma_walk_stays(o: &Observation, actor: i64, cells: Seq<Pos>, parents: Map<Pos, (i32, Pos)>)
    requires
        is_walk(o, actor, cells),
        parents.contains_key(cells[0]),
        forall|p: Pos| #[trigger] parents.contains_key(p) ==> expanded(o, actor, p, parents),
    ensures
        forall|i: int| 0 <= i < cells.len() ==> parents.contains_key(#[trigger] cells[i]),
{
    assert forall|i: int| 0 <= i < cells.len() implies parents.contains_key(#[trigger] cells[i]) by {
        lemma_walk_prefix_stays(o, actor, cells, parents, i);
    }
}

/// Each cell of such a walk, by induction on its place.
proof fn lemma_walk_prefix_stays(o: &Observation, actor: i64, cells: Seq<Pos>, parents: Map<Pos, (i32, Pos)>, i: int)
    requires
        is_walk(o, actor, cells),
        0 <= i < cells.len(),
        parents.contains_key(cells[0]),
        forall|p: Pos| #[trigger] parents.contains_key(p) ==> expanded(o, actor, p, parents),
    ensures
        parents.contains_key(cells[i]),
    decreases i,
{
    if i > 0 {
        lemma_walk_prefix_stays(o, actor, cells, parents, i - 1);
        assert(expanded(o, actor, cells[i - 1], parents));
        assert(spec_distance(cells[i], cells[i - 1]) == 1 && spec_can_enter(o, cells[i], actor));
    }
}

/// The distance from `pos` to the nearest goal, capped at the largest `i32`.
pub open spec fn spec_nearest(pos: Pos, goals: Seq<Pos>) -> int
    decreases goals.len(),
{
    if goals.len() == 0 {
        i32::MAX as int
    } else {
        let rest = spec_nearest(pos, goals.drop_last());
        let d = spec_distance(pos, goals.last());
        if d < rest { d } else { rest }
    }
}

/// Some goal lies within a quarter of the `i32` range of `start`.
pub open spec fn goal_within_range(start: Pos, goals: Seq<Pos>) -> bool {
    exists|g: Pos| #[trigger] goals.contains(g) && spec_distance(start, g) <= NEAR_GOAL_RANGE
}

/// No walk from `start` to a goal is shorter than `steps` moves.
pub open spec fn no_shorter_walk(o: &Observation, actor: i64, start: Pos, goals: Seq<Pos>, steps: int) -> bool {
    forall|cells: Seq<Pos>| #[trigger] is_walk(o, actor, cells) && cells[0] == start && goals.contains(cells.last())
        ==> steps <= cells.len() - 1
}

/// The king-move distance is a metric.
proof fn lemma_triangle(a: Pos, b: Pos, c: Pos)
    ensures
        spec_distance(a, c) <= spec_distance(a, b) + spec_distance(b, c),
        spec_distance(a, b) == spec_distance(b, a),
        spec_distance(a, a) == 0,
        spec_distance(a, b) >= 0,
{
}

/// The nearest goal is no farther than any goal, within the `i32` range.
proof fn lemma_nearest_bounds(pos: Pos, goals: Seq<Pos>)
    ensures
        0 <= spec_nearest(pos, goals) <= i32::MAX,
        forall|g: Pos| #[trigger] goals.contains(g) ==> spec_nearest(pos, goals) <= spec_distance(pos, g),
    decreases goals.len(),
{
    if goals.len() > 0 {
        lemma_nearest_bounds(pos, goals.drop_last());
        assert forall|g: Pos| #[trigger] goals.contains(g) implies spec_nearest(pos, goals) <= spec_distance(pos, g) by {
            let i = choose|i: int| 0 <= i < goals.len() && goals[i] == g;
            if i < goals.len() - 1 {
                assert(goals.drop_last()[i] == g);
                assert(goals.drop_last().contains(g));
            }
        }
    }
}

/// Moving one cell changes the distance to the nearest goal by at most the
/// distance moved.
proof fn lemma_nearest_lipschitz(p: Pos, q: Pos, goals: Seq<Pos>)
    ensures
        spec_nearest(p, goals) <= spec_nearest(q, goals) + spec_distance(p, q),
    decreases goals.len(),
{
    lemma_triangle(p, q, q);
    if goals.len() > 0 {
        lemma_nearest_lipschitz(p, q, goals.drop_last());
        lemma_triangle(p, q, goals.last());
    }
}

/// The ends of a walk are no farther apart than its number of moves.
proof fn lemma_walk_distance(o: &Observation, actor: i64, cells: Seq<Pos>, a: int, b: int)
    requires
        is_walk(o, actor, cells),
        0 <= a <= b < cells.len(),
    ensures
        spec_distance(cells[a], cells[b]) <= b - a,
    decreases b - a,
{
    lemma_triangle(cells[a], cells[a], cells[a]);
    if a < b {
        lemma_walk_distance(o, actor, cells, a, b - 1);
        lemma_triangle(cells[a], cells[b - 1], cells[b]);
        lemma_triangle(cells[b], cells[b - 1], cells[b]);
    }
}

/// An open node: estimated total cost, estimate to the goal, row, column,
/// insertion number, and the cell.
#[derive(Clone, Copy, Debug)]
pub struct QueueEntry {
    pub total: i32,
    pub estimate: i32,
    pub y: i32,
    pub x: i32,
    pub sequence: usize,
    pub pos: Pos,
}

/// The order in which open nodes are taken: by estimated total, then by
/// estimate, then by row, column and insertion.
pub open spec fn entry_before(a: QueueEntry, b: QueueEntry) -> bool {
    a.total < b.total || (a.total == b.total && (a.estimate < b.estimate || (a.estimate == b.estimate
        && (a.y < b.y || (a.y == b.y && (a.x < b.x || (a.x == b.x && a.sequence < b.sequence)))))))
}

fn entry_less(a: &QueueEntry, b: &QueueEntry) -> (r: bool)
    ensures
        r == entry_before(*a, *b),
{
    a.total < b.total || (a.total == b.total && (a.estimate < b.estimate || (a.estimate == b.estimate
        && (a.y < b.y || (a.y == b.y && (a.x < b.x || (a.x == b.x && a.sequence < b.sequence)))))))
}

/// Takes the first open node in the queue's order.
fn pop_min(queue: &mut Vec<QueueEntry>) -> (r: QueueEntry)
    requires
        old(queue)@.len() > 0,
    ensures
        final(queue)@.len() == old(queue)@.len() - 1,
        old(queue)@.contains(r),
        forall|i: int| 0 <= i < old(queue)@.len() ==> !entry_before(#[trigger] old(queue)@[i], r),
        forall|x: QueueEntry| #[trigger] old(queue)@.contains(x) && x.pos != r.pos ==> final(queue)@.contains(x),
        forall|k: int| 0 <= k < final(queue)@.len() ==> old(queue)@.contains(#[trigger] final(queue)@[k]),
{
    let mut best: usize = 0;
    let mut i: usize = 1;
    while i < queue.len()
        invariant
            queue@ == old(queue)@,
            best < queue@.len(),
            1 <= i <= queue@.len(),
            best < i,
            forall|j: int| 0 <= j < i ==> !entry_before(#[trigger] queue@[j], queue@[best as int]),
        decreases queue@.len() - i,
    {
        if entry_less(&queue[i], &queue[best]) {
            best = i;
        }
        i = i + 1;
    }
    let ghost before = queue@;
    let r = queue.remove(best);
    proof {
        assert(queue@ == before.remove(best as int));
        assert forall|x: QueueEntry| #[trigger] before.contains(x) && x.pos != r.pos implies queue@.contains(x) by {
            let k = choose|k: int| 0 <= k < before.len() && before[k] == x;
            if k < best {
                assert(queue@[k] == before[k]);
            } else {
                assert(k != best);
                assert(queue@[k - 1] == before[k]);
            }
        }
        assert forall|k: int| 0 <= k < queue@.len() implies before.contains(#[trigger] queue@[k]) by {
            if k < best {
                assert(queue@[k] == before[k]);
            } else {
                assert(queue@[k] == before[k + 1]);
            }
        }
    }
    r
}

/// The distance to the nearest goal, capped at the largest `i32`.
fn nearest_goal(pos: Pos, goals: &[Pos]) -> (r: i32)
    ensures
        r == spec_nearest(pos, goals@),
        r >= 0,
{
    let mut best: i64 = i32::MAX as i64;
    let mut i: usize = 0;
    while i < goals.len()
        invariant
            i <= goals@.len(),
            0 <= best <= i32::MAX,
            best == spec_nearest(pos, goals@.subrange(0, i as int)),
        decreases goals@.len() - i,
    {
        assert(goals@.subrange(0, i + 1).drop_last() =~= goals@.subrange(0, i as int));
        let d = wide_distance(pos, goals[i]);
        if d < best {
            best = d;
        }
        i = i + 1;
    }
    assert(goals@.subrange(0, goals@.len() as int) =~= goals@);
    best as i32
}

fn push_node(queue: &mut Vec<QueueEntry>, pos: Pos, cost: i32, goals: &[Pos], sequence: usize)
    requires
        cost >= 0,
    ensures
        final(queue)@.len() == old(queue)@.len() + 1,
        final(queue)@.last().pos == pos,
        final(queue)@.drop_last() == old(queue)@,
        final(queue)@.last().estimate == spec_nearest(pos, goals@),
        final(queue)@.last().total == clamp_i32(cost + spec_nearest(pos, goals@)),
{
    let estimate = nearest_goal(pos, goals);
    let heuristic = crate::num::saturating_mul_i32(estimate, PATH_STEP_COST);
    queue.push(QueueEntry {
        total: crate::num::saturating_add_i32(cost, heuristic),
        estimate: heuristic,
        y: pos.y,
        x: pos.x,
        sequence,
        pos,
    });
}

fn contains_cell(cells: &[Pos], p: Pos) -> (r: bool)
    ensures
        r == cells@.contains(p),
{
    let mut i: usize = 0;
    while i < cells.len()
        invariant
            i <= cells@.len(),
            forall|j: int| 0 <= j < i ==> cells@[j] != p,
        decreases cells@.len() - i,
    {
        if cells[i] == p {
            return true;
        }
        i = i + 1;
    }
    false
}

/// A cell has at most eight neighbours.
proof fn lemma_neighbors_len(pos: Pos, i: int)
    requires
        0 <= i <= 8,
    ensures
        neighbors_from(pos, i).len() <= 8 - i,
    decreases 8 - i,
{
    if i < 8 {
        lemma_neighbors_len(pos, i + 1);
    }
}

/// Opens the enterable neighbours of a closed cell that it reaches more
/// cheaply than before.
fn expand(
    view: &WorldView,
    actor: i64,
    pos: Pos,
    start: Pos,
    goals: &[Pos],
    queue: &mut Vec<QueueEntry>,
    parents: &mut SortedMap<Pos, (i32, Pos)>,
    sequence: &mut usize,
)
    requires
        old(parents).well_formed(),
        parents_sound(view.observation, actor, start, old(parents).view()),
        old(parents).view().contains_key(pos),
        old(parents).view()[pos].0 < i32::MAX - 1,
    ensures
        final(parents).well_formed(),
        parents_sound(view.observation, actor, start, final(parents).view()),
        old(queue)@.len() <= final(queue)@.len() <= old(queue)@.len() + 8,
        final(queue)@.subrange(0, old(queue)@.len() as int) == old(queue)@,
        final(parents).view()[pos] == old(parents).view()[pos],
        expanded(view.observation, actor, pos, final(parents).view()),
        cost_expanded(view.observation, actor, pos, final(parents).view()),
        forall|k: Pos| #[trigger] old(parents).view().contains_key(k) ==> final(parents).view().contains_key(k),
        forall|k: Pos| #[trigger] final(parents).view().contains_key(k) ==>
            (old(parents).view().contains_key(k) && final(parents).view()[k] == old(parents).view()[k])
            || ((final(parents).view()[k].0 == old(parents).view()[pos].0 + 1 && final(parents).view()[k].1 == pos)
                && (old(parents).view().contains_key(k) ==> old(parents).view()[pos].0 + 1 < old(parents).view()[k].0)
                && queued_at(final(queue)@, k, old(parents).view()[pos].0 + 1, goals@)),
        forall|i: int| old(queue)@.len() <= i < final(queue)@.len() ==> {
            &&& final(parents).view().contains_key(#[trigger] final(queue)@[i].pos)
            &&& final(parents).view()[final(queue)@[i].pos].0 == old(parents).view()[pos].0 + 1
            &&& final(queue)@[i].estimate == spec_nearest(final(queue)@[i].pos, goals@)
            &&& final(queue)@[i].total == clamp_i32(old(parents).view()[pos].0 + 1 + final(queue)@[i].estimate)
        },
{
    let ghost o = view.observation;
    let ghost old_parents = parents.view();
    let ghost old_queue = queue@;
    let cost = match parents.get(&pos) {
        Some(entry) => entry.0,
        None => return,
    };
    let cells = neighbors(pos);
    proof {
        lemma_neighbors_len(pos, 0);
    }
    let ghost start_len = queue@.len();
    let mut i: usize = 0;
    while i < cells.len()
        invariant
            o == view.observation,
            parents.well_formed(),
            parents_sound(o, actor, start, parents.view()),
            parents.view().contains_key(pos),
            cost == old_parents[pos].0,
            parents.view()[pos] == old_parents[pos],
            0 <= cost < i32::MAX - 1,
            cells@ == spec_neighbors(pos),
            cells@.len() <= 8,
            forall|q: Pos| cells@.contains(q) <==> spec_distance(q, pos) == 1,
            i <= cells@.len(),
            start_len == old_queue.len(),
            start_len <= queue@.len() <= start_len + i,
            queue@.subrange(0, start_len as int) == old_queue,
            forall|j: int| 0 <= j < i && spec_can_enter(o, #[trigger] cells@[j], actor)
                ==> parents.view().contains_key(cells@[j]) && parents.view()[cells@[j]].0 <= cost + 1,
            forall|k: Pos| #[trigger] old_parents.contains_key(k) ==> parents.view().contains_key(k),
            forall|k: Pos| #[trigger] parents.view().contains_key(k) ==>
                (old_parents.contains_key(k) && parents.view()[k] == old_parents[k])
                || ((parents.view()[k].0 == cost + 1 && parents.view()[k].1 == pos) && (old_parents.contains_key(k) ==> cost + 1 < old_parents[k].0)
                    && queued_at(queue@, k, cost + 1, goals@)),
            forall|j: int| start_len <= j < queue@.len() ==> {
                &&& parents.view().contains_key(#[trigger] queue@[j].pos)
                &&& parents.view()[queue@[j].pos].0 == cost + 1
                &&& queue@[j].estimate == spec_nearest(queue@[j].pos, goals@)
                &&& queue@[j].total == clamp_i32(cost + 1 + queue@[j].estimate)
            },
        decreases cells@.len() - i,
    {
        let neighbor = cells[i];
        assert(cells@.contains(neighbor));
        if view.can_enter(neighbor, actor) && cost < i32::MAX {
            let candidate = cost + PATH_STEP_COST;
            let known = match parents.get(&neighbor) {
                Some(entry) => entry.0,
                None => i32::MAX,
            };
            if candidate < known {
                let ghost before = parents.view();
                let ghost queue_before = queue@;
                parents.insert(neighbor, (candidate, pos));
                proof {
                    let after = parents.view();
                    assert(neighbor != start);
                    assert(neighbor != pos);
                    assert forall|p: Pos| #[trigger] after.contains_key(p) && p != start implies {
                        &&& after.contains_key(after[p].1)
                        &&& after[after[p].1].0 < after[p].0
                        &&& spec_distance(p, after[p].1) == 1
                        &&& spec_can_enter(o, p, actor)
                    } by {
                        if p != neighbor {
                            assert(before.contains_key(p));
                            let q = before[p].1;
                            if q == neighbor {
                                assert(after[q].0 == candidate);
                            }
                        }
                    }
                }
                *sequence = sequence.saturating_add(SINGLE_ITEM);
                push_node(queue, neighbor, candidate, goals, *sequence);
                proof {
                    let after = parents.view();
                    let pushed = queue@[queue@.len() - 1];
                    assert(queue@ =~= queue_before.push(pushed));
                    assert forall|x: QueueEntry| #[trigger] queue_before.contains(x) implies queue@.contains(x) by {
                        let k = choose|k: int| 0 <= k < queue_before.len() && queue_before[k] == x;
                        assert(queue@[k] == x);
                    }
                    assert(queue@.contains(pushed));
                    assert(queued_at(queue@, neighbor, cost + 1, goals@));
                    assert(queue@.subrange(0, start_len as int) =~= old_queue) by {
                        assert forall|j: int| 0 <= j < start_len implies queue@[j] == old_queue[j] by {
                            assert(queue@[j] == queue_before[j]);
                            assert(queue_before[j] == queue_before.subrange(0, start_len as int)[j]);
                        }
                    }
                    assert forall|j: int| start_len <= j < queue@.len() implies {
                        &&& after.contains_key(#[trigger] queue@[j].pos)
                        &&& after[queue@[j].pos].0 == cost + 1
                        &&& queue@[j].estimate == spec_nearest(queue@[j].pos, goals@)
                        &&& queue@[j].total == clamp_i32(cost + 1 + queue@[j].estimate)
                    } by {
                        if j < queue_before.len() {
                            assert(queue@[j] == queue_before[j]);
                            assert(before.contains_key(queue_before[j].pos));
                        }
                    }
                    assert forall|k: Pos| #[trigger] after.contains_key(k) implies
                        (old_parents.contains_key(k) && after[k] == old_parents[k])
                        || ((after[k].0 == cost + 1 && after[k].1 == pos) && (old_parents.contains_key(k) ==> cost + 1 < old_parents[k].0)
                            && queued_at(queue@, k, cost + 1, goals@)) by {
                        if k != neighbor {
                            assert(before.contains_key(k));
                            if !(old_parents.contains_key(k) && before[k] == old_parents[k]) {
                                assert(queued_at(queue_before, k, cost + 1, goals@));
                                let x = choose|x: QueueEntry| #[trigger] queue_before.contains(x) && x.pos == k
                                    && x.estimate == spec_nearest(k, goals@) && x.total == clamp_i32(cost + 1 + x.estimate);
                                assert(queue@.contains(x));
                            }
                        } else if old_parents.contains_key(k) {
                            assert(before.contains_key(k));
                            if before[k] == old_parents[k] {
                                assert(candidate < old_parents[k].0);
                            } else {
                                assert((before[k].0 == cost + 1 && before[k].1 == pos));
                            }
                        }
                    }
                    assert forall|j: int| 0 <= j <= i && spec_can_enter(o, #[trigger] cells@[j], actor)
                        implies after.contains_key(cells@[j]) && after[cells@[j]].0 <= cost + 1 by {
                        if j < i && cells@[j] != neighbor {
                            assert(before.contains_key(cells@[j]));
                        }
                    }
                }
            } else {
                proof {
                    assert(parents.view().contains_key(neighbor));
                }
            }
        }
        i = i + 1;
    }
    proof {
        assert forall|q: Pos| spec_distance(q, pos) == 1 && #[trigger] spec_can_enter(o, q, actor)
            implies parents.view().contains_key(q) && parents.view()[q].0 <= parents.view()[pos].0 + 1 by {
            assert(cells@.contains(q));
            let j = choose|j: int| 0 <= j < cells@.len() && cells@[j] == q;
            assert(spec_can_enter(o, cells@[j], actor));
        }
    }
}

/// Walks the parents back from the goal to the start.
fn reconstruct(start: Pos, target: Pos, parents: &SortedMap<Pos, (i32, Pos)>, Ghost(o): Ghost<&Observation>, Ghost(actor): Ghost<i64>) -> (r: Option<PathResult>)
    requires
        parents.well_formed(),
        parents_sound(o, actor, start, parents.view()),
        target != start,
    ensures
        parents.view().contains_key(target) ==> r is Some,
        r matches Some(p) ==> p.steps <= parents.view()[target].0,
        r matches Some(p) ==> p.goal == target && p.steps >= 1
            && exists|cells: Seq<Pos>| #[trigger] is_walk(o, actor, cells) && cells[0] == start && cells.last() == target
                && cells.len() == p.steps + 1 && cells[1] == p.next,
{
    let ghost pv = parents.view();
    let first = match parents.get(&target) {
        Some(entry) => *entry,
        None => return None,
    };
    let mut node = target;
    let mut steps: i32 = 0;
    let ghost mut suffix: Seq<Pos> = seq![target];
    loop
        invariant
            parents.well_formed(),
            pv == parents.view(),
            parents_sound(o, actor, start, pv),
            pv.contains_key(target),
            pv.contains_key(node),
            node != start,
            steps >= 0,
            steps + pv[node].0 <= pv[target].0,
            suffix.len() == steps + 1,
            suffix[0] == node,
            suffix.last() == target,
            forall|i: int| 0 <= i < suffix.len() ==> spec_can_enter(o, #[trigger] suffix[i], actor),
            forall|i: int| 0 < i < suffix.len() ==> spec_distance(#[trigger] suffix[i], suffix[i - 1]) == 1,
        decreases pv[node].0,
    {
        let entry = match parents.get(&node) {
            Some(entry) => *entry,
            None => return None,
        };
        let parent = entry.1;
        steps = steps + 1;
        if parent == start {
            proof {
                let cells = seq![start] + suffix;
                assert(cells[1] == node);
                assert forall|i: int| 0 < i < cells.len() implies spec_distance(#[trigger] cells[i], cells[i - 1]) == 1
                    && spec_can_enter(o, cells[i], actor) by {
                    assert(cells[i] == suffix[i - 1]);
                    if i > 1 {
                        assert(cells[i - 1] == suffix[i - 2]);
                    }
                }
                assert(is_walk(o, actor, cells));
                assert(cells.last() == target);
            }
            return Some(PathResult { next: node, goal: target, steps });
        }
        proof {
            let longer = seq![parent] + suffix;
            assert forall|i: int| 0 <= i < longer.len() implies spec_can_enter(o, #[trigger] longer[i], actor) by {
                if i > 0 {
                    assert(longer[i] == suffix[i - 1]);
                }
            }
            assert forall|i: int| 0 < i < longer.len() implies spec_distance(#[trigger] longer[i], longer[i - 1]) == 1 by {
                assert(longer[i] == suffix[i - 1]);
                if i > 1 {
                    assert(longer[i - 1] == suffix[i - 2]);
                }
            }
            suffix = longer;
        }
        node = parent;
    }
}

/// A shortest-first search for a walk from `start` to one of the goals,
/// over cells the actor can enter, expanding at most the configured
/// number of cells. A start that is a goal needs no move. No walk is
/// found only when no goal can be reached, or when more cells than the
/// search may expand can be reached. The walk found is a shortest one.
#[verifier::rlimit(60)]
pub fn next_step(view: &WorldView, actor: i64, start: Pos, goals: &[Pos]) -> (r: Option<PathResult>)
    ensures
        r matches Some(p) ==> path_found(view.observation, actor, start, goals@, p),
        goals@.contains(start) ==> r == Some(PathResult { next: start, goal: start, steps: ZERO_ROUNDS }),
        r is None ==> search_fails(view.observation, actor, start, goals@),
        r matches Some(p) ==> no_shorter_walk(view.observation, actor, start, goals@, p.steps as int),
        r matches Some(p) ==> p.steps <= MAX_PATH_EXPANSIONS,
{
    let ghost o = view.observation;
    if contains_cell(goals, start) {
        return Some(PathResult { next: start, goal: start, steps: ZERO_ROUNDS });
    }
    let mut queue: Vec<QueueEntry> = Vec::new();
    let mut parents: SortedMap<Pos, (i32, Pos)> = SortedMap::new();
    let mut closed: SortedMap<Pos, ()> = SortedMap::new();
    let mut sequence: usize = 0;
    let mut expansions: usize = 0;
    parents.insert(start, (0, start));
    push_node(&mut queue, start, 0, goals, sequence);
    proof {
        closed.lemma_view();
        assert(queue@.contains(queue@[0]));
        assert(queued_at(queue@, start, 0, goals@));
    }
    while queue.len() > 0
        invariant
            o == view.observation,
            parents.well_formed(),
            closed.well_formed(),
            parents_sound(o, actor, start, parents.view()),
            !goals@.contains(start),
            expansions <= closed.view().dom().len(),
            expansions <= MAX_PATH_EXPANSIONS,
            closed.view().dom().finite(),
            forall|p: Pos| #[trigger] closed.view().contains_key(p) ==> parents.view().contains_key(p),
            forall|p: Pos| #[trigger] parents.view().contains_key(p)
                ==> closed.view().contains_key(p) || queued_at(queue@, p, parents.view()[p].0 as int, goals@),
            forall|k: int| 0 <= k < queue@.len() ==> {
                &&& parents.view().contains_key(#[trigger] queue@[k].pos)
                &&& queue@[k].estimate == spec_nearest(queue@[k].pos, goals@)
                &&& queue@[k].total >= clamp_i32(parents.view()[queue@[k].pos].0 + queue@[k].estimate)
            },
            forall|p: Pos| #[trigger] parents.view().contains_key(p) ==> parents.view()[p].0 <= closed.view().dom().len(),
            closed.view().dom().len() <= MAX_PATH_EXPANSIONS ==> forall|p: Pos| #[trigger] closed.view().contains_key(p)
                ==> expanded(o, actor, p, parents.view()) && !goals@.contains(p),
            goal_within_range(start, goals@) && closed.view().dom().len() <= MAX_PATH_EXPANSIONS
                ==> forall|p: Pos| #[trigger] closed.view().contains_key(p) ==> cost_expanded(o, actor, p, parents.view())
                    && no_shorter_walk_to(o, actor, start, p, parents.view()[p].0 as int),
        decreases (MAX_PATH_EXPANSIONS - expansions) * 9 + queue@.len(),
    {
        let ghost queue_before = queue@;
        let ghost pb = parents.view();
        let entry = pop_min(&mut queue);
        let pos = entry.pos;
        let ghost closed_before = closed.view();
        let ghost queue_mid = queue@;
        proof {
            closed.lemma_view();
        }
        let fresh = !closed.contains_key(&pos);
        if fresh {
            closed.insert(pos, ());
            proof {
                closed.lemma_view();
                assert(closed.view().dom() == closed_before.dom().insert(pos));
            }
        }
        proof {
            if !fresh {
                assert(closed.view().dom() =~= closed_before.dom().insert(pos));
            }
            lemma_after_pop(goals@, pos, entry, closed_before, closed.view(), pb, queue_before, queue_mid);
        }
        if !fresh || closed.len() > MAX_PATH_EXPANSIONS {
            continue;
        }
        if contains_cell(goals, pos) {
            let found = reconstruct(start, pos, &parents, Ghost(view.observation), Ghost(actor));
            match found {
                Some(p) => {
                    proof {
                        let walk = choose|cells: Seq<Pos>| #[trigger] is_walk(o, actor, cells) && cells[0] == start
                            && cells.last() == pos && cells.len() == p.steps + 1 && cells[1] == p.next;
                        lemma_walk_distance(o, actor, walk, 0, walk.len() - 1);
                        assert(spec_distance(start, pos) <= MAX_PATH_EXPANSIONS);
                        assert(goal_within_range(start, goals@));
                        if goal_within_range(start, goals@) {
                            lemma_nearest_bounds(pos, goals@);
                            lemma_triangle(pos, pos, pos);
                            assert forall|cells: Seq<Pos>| #[trigger] is_walk(o, actor, cells) && cells[0] == start
                                && goals@.contains(cells.last()) implies p.steps <= cells.len() - 1 by {
                                lemma_nearest_bounds(cells.last(), goals@);
                                lemma_triangle(cells.last(), cells.last(), cells.last());
                                lemma_pop_bound(o, actor, start, goals@, pb, closed_before.dom(), queue_before, entry, cells);
                            }
                        }
                    }
                    assert(goals@.contains(p.goal));
                    return Some(p);
                },
                None => return None,
            }
        }
        let ghost closed_now = closed.view();
        expand(view, actor, pos, start, goals, &mut queue, &mut parents, &mut sequence);
        proof {
            lemma_after_expand(o, actor, start, goals@, pos, entry, closed_before, closed_now, pb, parents.view(),
                queue_before, queue_mid, queue@);
        }
        expansions = expansions + 1;
    }
    proof {
        let pv = parents.view();
        closed.lemma_view();
        if closed.view().dom().len() > MAX_PATH_EXPANSIONS {
            let cells = closed.view().dom();
            assert forall|p: Pos| #[trigger] cells.contains(p) implies reachable(o, actor, start, p) by {
                lemma_parents_reachable(o, actor, start, pv, p);
            }
            assert(cells.finite() && cells.len() > MAX_PATH_EXPANSIONS);
        } else {
            assert forall|p: Pos| #[trigger] pv.contains_key(p) implies expanded(o, actor, p, pv) by {
                assert(closed.view().contains_key(p));
            }
            assert forall|g: Pos| #[trigger] goals@.contains(g) implies !reachable(o, actor, start, g) by {
                if reachable(o, actor, start, g) {
                    let cells = choose|cells: Seq<Pos>| #[trigger] is_walk(o, actor, cells) && cells[0] == start && cells.last() == g;
                    lemma_walk_stays(o, actor, cells, pv);
                    assert(pv.contains_key(cells[cells.len() - 1]));
                    assert(closed.view().contains_key(g));
                }
            }
        }
    }
    None
}

} // verus!
