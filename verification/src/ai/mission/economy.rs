use vstd::prelude::*;

use crate::ai::tactics::{
    PathResult, lemma_found_distance, lemma_path_moves, lemma_reached_fails, lemma_walk_distance_unique, lemma_walk_fails,
    lemma_found_walk, next_step, stand_at, too_many_reachable, walk_distance, walk_fails, walk_of, walk_toward,
};
use crate::command::{backpack_has, is_ore};
use crate::domain::{Action, ActionView, Observation, Pos, Role, ShopItem, Zone, alive, is_alive};
use crate::num::{clamp_i32, saturating_mul_i32};
use crate::rules::constants::{
    ECONOMY_SETUP_ROUNDS, GATHER_BATCH_MAX, MAX_PATH_EXPANSIONS, MEDICINE_HEAL_THRESHOLD, MIN_ACTION_ROUNDS, NEIGHBOR_RANGE,
    NO_HEALTH, PIONEER_MAX_HP, POSITION_SETUP_ROUNDS, RETURN_MARGIN_ROUNDS, SCORE_SCALE, WORKER_MAX_HP,
};
use crate::rules::geometry::{spec_distance, wide_distance};
use crate::rules::time::{next_night, spec_next_night};
use crate::text::{contains_item, count_items, count_of, is_one_of, str_eq, str_lt, text_lt};
use crate::world::view::{WorldView, spec_is_stand};

verus! {

/// The unit carries medicine and its health has fallen below the healing
/// threshold share of its maximum.
pub open spec fn spec_should_heal(role: Role, max_hp: int) -> bool {
    role.health matches Some(hp) && backpack_has(role, "Medicine"@) && hp * SCORE_SCALE < max_hp * MEDICINE_HEAL_THRESHOLD
}

/// Whether a unit should use its medicine now.
pub fn should_heal(role: &Role, max_hp: i32) -> (r: bool)
    ensures
        r == spec_should_heal(*role, max_hp as int),
{
    let hp = match role.health {
        Some(hp) => hp,
        None => return false,
    };
    let scale: i64 = SCORE_SCALE as i64;
    let threshold: i64 = MEDICINE_HEAL_THRESHOLD as i64;
    let h: i64 = hp as i64;
    let m: i64 = max_hp as i64;
    assert(-0x100_0000_0000 <= h * scale <= 0x100_0000_0000 && -0x100_0000_0000 <= m * threshold <= 0x100_0000_0000)
        by (nonlinear_arith)
        requires
            i32::MIN <= h <= i32::MAX,
            i32::MIN <= m <= i32::MAX,
            scale == 100,
            threshold == 50;
    contains_item(&role.backpack, "Medicine") && h * scale < m * threshold
}

/// The pioneer's maximum health.
pub fn pioneer_max_hp() -> (r: i32)
    ensures
        r == PIONEER_MAX_HP,
{
    PIONEER_MAX_HP
}

/// Whether an item or zone kind is an ore.
pub fn ore(kind: &str) -> (r: bool)
    ensures
        r == is_ore(kind@),
{
    let options: [&str; 3] = ["stone", "iron", "copper"];
    let r = is_one_of(kind, &options);
    proof {
        if is_ore(kind@) {
            if kind@ == "stone"@ { assert(options@[0]@ == "stone"@); }
            if kind@ == "iron"@ { assert(options@[1]@ == "iron"@); }
            if kind@ == "copper"@ { assert(options@[2]@ == "copper"@); }
        }
        if r {
            let i = choose|i: int| 0 <= i < options@.len() && kind@ == options@[i]@;
            assert(i == 0 || i == 1 || i == 2);
        }
    }
    r
}

/// The ores in a backpack.
pub open spec fn ore_count(items: Seq<String>) -> nat
    decreases items.len(),
{
    if items.len() == 0 {
        0
    } else {
        ore_count(items.drop_last()) + if is_ore(items.last()@) { 1nat } else { 0nat }
    }
}

fn count_ores(items: &Vec<String>) -> (n: usize)
    ensures
        n == ore_count(items@),
{
    let mut n: usize = 0;
    let mut i: usize = 0;
    while i < items.len()
        invariant
            i <= items@.len(),
            n == ore_count(items@.subrange(0, i as int)),
            n <= i,
        decreases items@.len() - i,
    {
        assert(items@.subrange(0, i + 1).drop_last() =~= items@.subrange(0, i as int));
        if ore(items[i].as_str()) {
            n = n + 1;
        }
        i = i + 1;
    }
    assert(items@.subrange(0, items@.len() as int) =~= items@);
    n
}

/// The worker has gathered a batch, or its backpack is full.
pub open spec fn loaded(worker: Role) -> bool {
    worker.back_pack_capability matches Some(capacity)
        && (ore_count(worker.backpack@) >= GATHER_BATCH_MAX || worker.backpack@.len() >= capacity)
}

/// How many of a shop entry the worker could sell: its count of that ore,
/// when positive and within `i32`.
pub open spec fn sale_quantity(worker: Role, entry: ShopItem) -> Option<i32> {
    let count = count_of(worker.backpack@, entry.name@);
    if is_ore(entry.name@) && 0 < count <= i32::MAX {
        Some(count as i32)
    } else {
        None
    }
}

/// `(value, name)` of a sale orders sales; a later entry wins a tie.
pub open spec fn sale_at_least(value: i32, name: Seq<char>, best_value: i32, best_name: Seq<char>) -> bool {
    value > best_value || (value == best_value && !text_lt(name, best_name))
}

/// The most valuable sale among the first entries of the shop list: its
/// entry and quantity.
pub open spec fn best_sale_in(worker: Role, shop: Seq<ShopItem>) -> Option<(ShopItem, i32)>
    decreases shop.len(),
{
    if shop.len() == 0 {
        None
    } else {
        let rest = best_sale_in(worker, shop.drop_last());
        let entry = shop.last();
        match sale_quantity(worker, entry) {
            None => rest,
            Some(q) => match rest {
                None => Some((entry, q)),
                Some((b, bq)) => if sale_at_least(clamp_i32(entry.price * q), entry.name@,
                    clamp_i32(b.price * bq), b.name@) {
                    Some((entry, q))
                } else {
                    rest
                },
            },
        }
    }
}

/// The sale of the ore that brings the most gold at the listed prices,
/// all of that ore at once.
pub open spec fn spec_best_sale(o: Observation, worker: Role) -> Option<ActionView> {
    match best_sale_in(worker, o.vendor_shop_list@) {
        Some((entry, q)) => Some(ActionView::Sell { name: entry.name@, quantity: q }),
        None => None,
    }
}

/// The sale that brings the most gold.
pub fn best_sale(observation: &Observation, worker: &Role) -> (r: Option<Action>)
    ensures
        match spec_best_sale(*observation, *worker) {
            Some(v) => r matches Some(a) && a@ == v,
            None => r is None,
        },
{
    let shop = &observation.vendor_shop_list;
    let mut best: Option<(usize, i32, i32)> = None;
    let mut i: usize = 0;
    while i < shop.len()
        invariant
            shop == &observation.vendor_shop_list,
            i <= shop@.len(),
            match best_sale_in(*worker, shop@.subrange(0, i as int)) {
                None => best is None,
                Some((e, q)) => best matches Some((k, bq, bv)) && k < i && shop@[k as int] == e && bq == q
                    && bv == clamp_i32(e.price * q),
            },
        decreases shop@.len() - i,
    {
        assert(shop@.subrange(0, i + 1).drop_last() =~= shop@.subrange(0, i as int));
        let entry = &shop[i];
        if ore(entry.name.as_str()) {
            let count = count_items(&worker.backpack, entry.name.as_str());
            if count > 0 && count <= i32::MAX as usize {
                let q = count as i32;
                let value = saturating_mul_i32(entry.price, q);
                let wins = match best {
                    None => true,
                    Some((k, _, bv)) => value > bv || (value == bv && !str_lt(entry.name.as_str(), shop[k].name.as_str())),
                };
                if wins {
                    best = Some((i, q, value));
                }
            }
        }
        i = i + 1;
    }
    assert(shop@.subrange(0, shop@.len() as int) =~= shop@);
    match best {
        Some((k, q, _)) => Some(Action::Sell { name: shop[k].name.clone(), quantity: q }),
        None => None,
    }
}

/// A zone the worker can walk beside: the zones of the given kind.
pub open spec fn zone_of_kind(o: Observation, kind: spec_fn(Seq<char>) -> bool, pos: Pos) -> bool {
    exists|i: int| 0 <= i < o.map_info.zones@.len() && (#[trigger] o.map_info.zones@[i]).pos == pos
        && kind(o.map_info.zones@[i].neutral_type@)
}

/// A move that starts a walk of at least one step to a cell beside the
/// target.
pub open spec fn move_toward(o: Observation, worker: Role, target: Pos, a: ActionView) -> bool {
    a matches ActionView::Move(p) && exists|r: PathResult| #[trigger] walk_toward(&o, worker.id, worker.pos,
        stand_at(o, target, worker.id), r) && r.next == p && r.steps >= MIN_ACTION_ROUNDS
        && walk_distance(&o, worker.id, worker.pos, stand_at(o, target, worker.id), r.steps as int)
}

/// A move of at least one step towards a cell beside `target`.
pub fn move_to(observation: &Observation, worker: &Role, target: Pos) -> (r: Option<Action>)
    ensures
        r matches Some(a) ==> move_toward(*observation, *worker, target, a@),
        spec_is_stand(observation, target, worker.id, worker.pos) ==> r is None,
        r is None ==> spec_is_stand(observation, target, worker.id, worker.pos)
            || walk_fails(observation, worker.id, worker.pos, stand_at(*observation, target, worker.id)),
{
    let view = WorldView::new(observation);
    let stands = view.interact_positions(target, worker.id);
    let path = match next_step(&view, worker.id, worker.pos, stands.as_slice()) {
        Some(p) => p,
        None => {
            proof {
                lemma_walk_fails(observation, worker.id, worker.pos, stands@, stand_at(*observation, target, worker.id));
            }
            return None;
        },
    };
    proof {
        lemma_found_distance(observation, worker.id, worker.pos, stands@, stand_at(*observation, target, worker.id), path);
        if !stands@.contains(worker.pos) {
            lemma_path_moves(observation, worker.id, worker.pos, stands@, path);
        }
    }
    if path.steps < MIN_ACTION_ROUNDS {
        return None;
    }
    Some(Action::Move(path.next))
}

pub open spec fn is_vendor(kind: Seq<char>) -> bool {
    kind == "vendor"@
}

/// The zones a worker is looking for: vendors, or ore.
pub open spec fn zone_kind(vendor: bool, kind: Seq<char>) -> bool {
    if vendor { is_vendor(kind) } else { is_ore(kind) }
}

/// The worker's walking distance to a cell beside `target` is `steps`.
pub open spec fn beside_distance(o: Observation, worker: Role, target: Pos, steps: int) -> bool {
    walk_distance(&o, worker.id, worker.pos, stand_at(o, target, worker.id), steps)
}

/// No walk to a cell beside `target` was found for the worker.
pub open spec fn beside_walk_fails(o: Observation, worker: Role, target: Pos) -> bool {
    walk_fails(&o, worker.id, worker.pos, stand_at(o, target, worker.id))
}

/// Cell `a`, `na` moves away, comes no later than cell `b`, `nb` moves
/// away: fewer moves, then by row, then by column.
pub open spec fn nearer_first(a: Pos, na: int, b: Pos, nb: int) -> bool {
    na < nb || (na == nb && (a.y < b.y || (a.y == b.y && a.x <= b.x)))
}

/// Zone `k` is a walk away and comes no later than every zone of the kind
/// that a walk was found to.
pub open spec fn zone_nearest(o: Observation, worker: Role, vendor: bool, k: int) -> bool {
    let zones = o.map_info.zones@;
    exists|nk: int| #[trigger] beside_distance(o, worker, zones[k].pos, nk)
        && forall|j: int| 0 <= j < zones.len() && #[trigger] zone_kind(vendor, zones[j].neutral_type@)
            ==> beside_walk_fails(o, worker, zones[j].pos)
                || forall|nj: int| #[trigger] beside_distance(o, worker, zones[j].pos, nj)
                    ==> nearer_first(zones[k].pos, nk, zones[j].pos, nj)
}

/// The nearest zone of a kind by walking steps (then row, then column):
/// its index.
pub fn nearest_zone(observation: &Observation, worker: &Role, vendor: bool) -> (r: Option<usize>)
    ensures
        r matches Some(i) ==> i < observation.map_info.zones@.len() && ({
            let z = observation.map_info.zones@[i as int];
            &&& if vendor { is_vendor(z.neutral_type@) } else { is_ore(z.neutral_type@) }
            &&& exists|p: PathResult| #[trigger] walk_toward(observation, worker.id, worker.pos,
                stand_at(*observation, z.pos, worker.id), p)
        }),
        r matches Some(i) ==> zone_nearest(*observation, *worker, vendor, i as int),
        r is None ==> forall|i: int| 0 <= i < observation.map_info.zones@.len()
            && #[trigger] zone_kind(vendor, observation.map_info.zones@[i].neutral_type@)
            ==> beside_walk_fails(*observation, *worker, observation.map_info.zones@[i].pos),
{
    let ghost o = *observation;
    let ghost w = *worker;
    let view = WorldView::new(observation);
    let zones = &observation.map_info.zones;
    let mut best: Option<(usize, i32)> = None;
    let mut i: usize = 0;
    while i < zones.len()
        invariant
            view.observation == observation,
            zones == &observation.map_info.zones,
            i <= zones@.len(),
            best matches Some((k, _)) ==> k < zones@.len() && ({
                let z = zones@[k as int];
                &&& if vendor { is_vendor(z.neutral_type@) } else { is_ore(z.neutral_type@) }
                &&& exists|p: PathResult| #[trigger] walk_toward(observation, worker.id, worker.pos,
                    stand_at(*observation, z.pos, worker.id), p)
            }),
            o == *observation,
            w == *worker,
            best matches Some((k, ks)) ==> beside_distance(o, w, zones@[k as int].pos, ks as int)
                && forall|j: int| 0 <= j < i && #[trigger] zone_kind(vendor, zones@[j].neutral_type@)
                    ==> beside_walk_fails(o, w, zones@[j].pos)
                        || forall|nj: int| #[trigger] beside_distance(o, w, zones@[j].pos, nj)
                            ==> nearer_first(zones@[k as int].pos, ks as int, zones@[j].pos, nj),
            best is None ==> forall|j: int| 0 <= j < i && #[trigger] zone_kind(vendor, zones@[j].neutral_type@)
                ==> beside_walk_fails(o, w, zones@[j].pos),
        decreases zones@.len() - i,
    {
        let zone = &zones[i];
        let wanted = if vendor { str_eq(zone.neutral_type.as_str(), "vendor") } else { ore(zone.neutral_type.as_str()) };
        if wanted {
            let stands = view.interact_positions(zone.pos, worker.id);
            match next_step(&view, worker.id, worker.pos, stands.as_slice()) {
                Some(path) => {
                    proof {
                        lemma_found_distance(observation, worker.id, worker.pos, stands@, stand_at(*observation, zone.pos, worker.id), path);
                        assert(zones@[i as int].pos == zone.pos);
                        assert forall|nj: int| #[trigger] beside_distance(o, w, zone.pos, nj) implies nj == path.steps by {
                            lemma_walk_distance_unique(observation, worker.id, worker.pos, stand_at(o, zone.pos, worker.id), nj, path.steps as int);
                        }
                    }
                    let better = match best {
                        None => true,
                        Some((k, steps)) => path.steps < steps || (path.steps == steps
                            && (zone.pos.y < zones[k].pos.y || (zone.pos.y == zones[k].pos.y && zone.pos.x < zones[k].pos.x))),
                    };
                    proof {
                        if let Some((k, ks)) = best {
                            if !better {
                                assert(nearer_first(zones@[k as int].pos, ks as int, zone.pos, path.steps as int));
                            }
                        }
                    }
                    if better {
                        proof {
                            assert(zones@[i as int].pos == zone.pos);
                            if vendor {
                                assert(is_vendor(zones@[i as int].neutral_type@));
                            } else {
                                assert(is_ore(zones@[i as int].neutral_type@));
                            }
                            assert(walk_toward(observation, worker.id, worker.pos,
                                stand_at(*observation, zones@[i as int].pos, worker.id), path));
                        }
                        best = Some((i, path.steps));
                    }
                },
                None => {
                    proof {
                        lemma_walk_fails(observation, worker.id, worker.pos, stands@, stand_at(*observation, zone.pos, worker.id));
                        assert(zones@[i as int].pos == zone.pos);
                    }
                },
            }
        } else {
            proof {
                assert(zones@[i as int] == *zone);
                assert(!zone_kind(vendor, zones@[i as int].neutral_type@));
            }
        }
        i = i + 1;
    }
    match best {
        Some((k, ks)) => {
            proof {
                assert(zone_nearest(o, w, vendor, k as int));
            }
            Some(k)
        },
        None => None,
    }
}

/// A loaded worker's step: the best sale when it stands beside a vendor,
/// otherwise a move towards one.
pub open spec fn sell_step(o: Observation, worker: Role, a: ActionView) -> bool {
    ||| (exists|i: int| 0 <= i < o.map_info.zones@.len() && is_vendor((#[trigger] o.map_info.zones@[i]).neutral_type@)
        && spec_distance(worker.pos, o.map_info.zones@[i].pos) <= NEIGHBOR_RANGE) && spec_best_sale(o, worker) == Some(a)
    ||| exists|i: int| 0 <= i < o.map_info.zones@.len() && is_vendor((#[trigger] o.map_info.zones@[i]).neutral_type@)
        && move_toward(o, worker, o.map_info.zones@[i].pos, a)
}

/// No sale or move towards a vendor could be made: no vendor can be walked
/// to, none of the ore carried sells, or the worker can reach more cells
/// than a search may expand.
pub open spec fn sell_fails(o: Observation, worker: Role) -> bool {
    ||| forall|i: int| 0 <= i < o.map_info.zones@.len() && #[trigger] zone_kind(true, o.map_info.zones@[i].neutral_type@)
            ==> beside_walk_fails(o, worker, o.map_info.zones@[i].pos)
    ||| spec_best_sale(o, worker) is None
    ||| too_many_reachable(&o, worker.id, worker.pos)
}

fn sell_action(observation: &Observation, worker: &Role) -> (r: Option<Action>)
    ensures
        r matches Some(a) ==> sell_step(*observation, *worker, a@),
        r is None ==> sell_fails(*observation, *worker),
{
    let k = match nearest_zone(observation, worker, true) {
        Some(k) => k,
        None => return None,
    };
    let vendor = observation.map_info.zones[k].pos;
    if wide_distance(worker.pos, vendor) <= NEIGHBOR_RANGE as i64 {
        let r = best_sale(observation, worker);
        proof {
            if r is Some {
                assert(is_vendor(observation.map_info.zones@[k as int].neutral_type@));
            }
        }
        return r;
    }
    let r = move_to(observation, worker, vendor);
    proof {
        if r is Some {
            assert(is_vendor(observation.map_info.zones@[k as int].neutral_type@));
        } else {
            let nk = choose|nk: int| #[trigger] beside_distance(*observation, *worker, vendor, nk)
                && forall|j: int| 0 <= j < observation.map_info.zones@.len()
                    && #[trigger] zone_kind(true, observation.map_info.zones@[j].neutral_type@)
                    ==> beside_walk_fails(*observation, *worker, observation.map_info.zones@[j].pos)
                        || forall|nj: int| #[trigger] beside_distance(*observation, *worker, observation.map_info.zones@[j].pos, nj)
                            ==> nearer_first(vendor, nk, observation.map_info.zones@[j].pos, nj);
            lemma_reached_fails(observation, worker.id, worker.pos, stand_at(*observation, vendor, worker.id), nk);
        }
    }
    r
}

/// The shop buys the ore at a positive price.
pub open spec fn priced(o: Observation, kind: Seq<char>) -> bool {
    exists|j: int| 0 <= j < o.vendor_shop_list@.len() && (#[trigger] o.vendor_shop_list@[j]).name@ == kind
        && o.vendor_shop_list@[j].price > NO_HEALTH
}

/// The units can still walk from `from` to the nearest live weapon and take
/// position before nightfall after `work` more rounds; with no live weapon,
/// or no coming night within `i32`, there is nothing to fit.
pub open spec fn spec_fits_return(o: Observation, from: Pos, work: int) -> bool {
    match crate::ai::strategy::spec_nearest_weapon(o.team_our.roles@, from) {
        Some(travel) => spec_next_night(o.round_no as int) > i32::MAX || o.round_no + work + travel + POSITION_SETUP_ROUNDS
            + RETURN_MARGIN_ROUNDS <= spec_next_night(o.round_no as int),
        None => true,
    }
}

/// Whether the work leaves time to get back before nightfall.
pub fn fits_return(observation: &Observation, from: Pos, work: i64) -> (r: bool)
    requires
        -0x1_0000_0000_0000 <= work <= 0x1_0000_0000_0000,
    ensures
        r == spec_fits_return(*observation, from, work as int),
{
    let travel = match crate::ai::strategy::nearest_weapon_distance(observation, from) {
        Some(t) => t,
        None => return true,
    };
    let night = match next_night(observation.round_no) {
        Some(n) => n,
        None => return true,
    };
    (observation.round_no as i64) + work + travel + (POSITION_SETUP_ROUNDS as i64) + (RETURN_MARGIN_ROUNDS as i64) <= night as i64
}

/// No walk beside any vendor was found from `from`.
pub open spec fn market_fails(o: Observation, actor: i64, from: Pos) -> bool {
    forall|j: int| 0 <= j < o.map_info.zones@.len() && #[trigger] zone_kind(true, o.map_info.zones@[j].neutral_type@)
        ==> walk_fails(&o, actor, from, stand_at(o, o.map_info.zones@[j].pos, actor))
}

/// `stand`, beside a vendor, is a shortest walk of `steps` moves from
/// `from` to that vendor, and no vendor a walk was found to is fewer moves
/// away.
pub open spec fn market_route_to(o: Observation, actor: i64, from: Pos, stand: Pos, steps: int) -> bool {
    let zones = o.map_info.zones@;
    &&& walk_of(&o, actor, from, stand, steps)
    &&& exists|k: int| 0 <= k < zones.len() && #[trigger] zone_kind(true, zones[k].neutral_type@)
        && spec_is_stand(&o, zones[k].pos, actor, stand)
        && walk_distance(&o, actor, from, stand_at(o, zones[k].pos, actor), steps)
    &&& forall|j: int| 0 <= j < zones.len() && #[trigger] zone_kind(true, zones[j].neutral_type@)
        ==> walk_fails(&o, actor, from, stand_at(o, zones[j].pos, actor))
            || forall|nj: int| #[trigger] walk_distance(&o, actor, from, stand_at(o, zones[j].pos, actor), nj) ==> steps <= nj
}

/// The vendor stand nearest by walking from `from` (then by row and
/// column), and the steps to it.
fn market_route(observation: &Observation, actor: i64, from: Pos) -> (r: Option<(Pos, i32)>)
    ensures
        r matches Some((stand, steps)) ==> market_route_to(*observation, actor, from, stand, steps as int)
            && 0 <= steps <= MAX_PATH_EXPANSIONS,
        r is None ==> market_fails(*observation, actor, from),
{
    let ghost o = *observation;
    let view = WorldView::new(observation);
    let zones = &observation.map_info.zones;
    let mut best: Option<(Pos, i32)> = None;
    let mut i: usize = 0;
    while i < zones.len()
        invariant
            view.observation == observation,
            o == *observation,
            zones == &observation.map_info.zones,
            i <= zones@.len(),
            best matches Some((stand, steps)) ==> {
                &&& walk_of(&o, actor, from, stand, steps as int)
                &&& 0 <= steps <= MAX_PATH_EXPANSIONS
                &&& exists|k: int| 0 <= k < zones@.len() && #[trigger] zone_kind(true, zones@[k].neutral_type@)
                    && spec_is_stand(&o, zones@[k].pos, actor, stand)
                    && walk_distance(&o, actor, from, stand_at(o, zones@[k].pos, actor), steps as int)
                &&& forall|j: int| 0 <= j < i && #[trigger] zone_kind(true, zones@[j].neutral_type@)
                    ==> walk_fails(&o, actor, from, stand_at(o, zones@[j].pos, actor))
                        || forall|nj: int| #[trigger] walk_distance(&o, actor, from, stand_at(o, zones@[j].pos, actor), nj) ==> steps <= nj
            },
            best is None ==> forall|j: int| 0 <= j < i && #[trigger] zone_kind(true, zones@[j].neutral_type@)
                ==> walk_fails(&o, actor, from, stand_at(o, zones@[j].pos, actor)),
        decreases zones@.len() - i,
    {
        let zone = &zones[i];
        let ghost stand_i = stand_at(o, zone.pos, actor);
        if str_eq(zone.neutral_type.as_str(), "vendor") {
            let stands = view.interact_positions(zone.pos, actor);
            match next_step(&view, actor, from, stands.as_slice()) {
                Some(path) => {
                    proof {
                        lemma_found_distance(observation, actor, from, stands@, stand_i, path);
                        lemma_found_walk(observation, actor, from, stands@, path);
                        assert(zones@[i as int].pos == zone.pos);
                        assert(zone_kind(true, zones@[i as int].neutral_type@));
                        assert(spec_is_stand(&o, zones@[i as int].pos, actor, path.goal));
                        assert forall|nj: int| #[trigger] walk_distance(&o, actor, from, stand_i, nj) implies nj == path.steps by {
                            lemma_walk_distance_unique(observation, actor, from, stand_i, nj, path.steps as int);
                        }
                    }
                    let better = match best {
                        None => true,
                        Some((stand, steps)) => path.steps < steps || (path.steps == steps
                            && (path.goal.y < stand.y || (path.goal.y == stand.y && path.goal.x < stand.x))),
                    };
                    if better {
                        best = Some((path.goal, path.steps));
                    }
                },
                None => {
                    proof {
                        lemma_walk_fails(observation, actor, from, stands@, stand_i);
                        assert(zones@[i as int].pos == zone.pos);
                    }
                },
            }
        } else {
            proof {
                assert(zones@[i as int] == *zone);
            }
        }
        i = i + 1;
    }
    best
}

/// The first positive price the shop lists for a kind of ore.
pub open spec fn first_price(o: Observation, kind: Seq<char>, price: i32) -> bool {
    let shop = o.vendor_shop_list@;
    exists|j: int| 0 <= j < shop.len() && (#[trigger] shop[j]).name@ == kind && shop[j].price == price
        && price > NO_HEALTH && forall|i: int| 0 <= i < j ==> !((#[trigger] shop[i]).name@ == kind && shop[i].price > NO_HEALTH)
}

fn price_of(observation: &Observation, kind: &str) -> (r: Option<i32>)
    ensures
        r matches Some(p) ==> p > NO_HEALTH && priced(*observation, kind@) && first_price(*observation, kind@, p),
        r is None ==> !priced(*observation, kind@),
{
    let shop = &observation.vendor_shop_list;
    let mut i: usize = 0;
    while i < shop.len()
        invariant
            shop == &observation.vendor_shop_list,
            i <= shop@.len(),
            forall|j: int| 0 <= j < i ==> !((#[trigger] shop@[j]).name@ == kind@ && shop@[j].price > NO_HEALTH),
        decreases shop@.len() - i,
    {
        if str_eq(shop[i].name.as_str(), kind) && shop[i].price > NO_HEALTH {
            return Some(shop[i].price);
        }
        i = i + 1;
    }
    None
}

/// The rounds a mine trip takes: walking to the mine, gathering the batch,
/// walking to the market, and being set.
pub open spec fn trip_rounds(to_mine: int, quantity: int, to_market: int) -> int {
    to_mine + quantity + to_market + MIN_ACTION_ROUNDS + ECONOMY_SETUP_ROUNDS
}

/// A trip to the mine at `mine` as the worker's searches find it: a
/// shortest walk of `dm` moves to the cell `g` beside it, then the market
/// route from `g` to the vendor stand `vs`, `dv` moves on.
pub open spec fn mine_trip(o: Observation, worker: Role, mine: Pos, g: Pos, dm: int, vs: Pos, dv: int) -> bool {
    &&& spec_is_stand(&o, mine, worker.id, g)
    &&& walk_of(&o, worker.id, worker.pos, g, dm)
    &&& beside_distance(o, worker, mine, dm)
    &&& market_route_to(o, worker.id, g, vs, dv)
}

/// A trip to `zone` yields `gain` gold in `rounds` rounds: the batch at the
/// ore's first price, over a trip that leaves time to get back.
pub open spec fn mine_trip_value(o: Observation, worker: Role, zone: Zone, quantity: int, gain: i32, rounds: int) -> bool {
    exists|price: i32, g: Pos, dm: int, vs: Pos, dv: int|
        #![trigger first_price(o, zone.neutral_type@, price), mine_trip(o, worker, zone.pos, g, dm, vs, dv)]
        first_price(o, zone.neutral_type@, price) && gain == clamp_i32(price * quantity)
            && mine_trip(o, worker, zone.pos, g, dm, vs, dv) && rounds == trip_rounds(dm, quantity, dv)
            && spec_fits_return(o, vs, rounds)
}

/// No trip to `zone` could be valued: its ore has no price, no walk beside
/// it was found, or, from a cell beside it that a shortest walk reaches,
/// no market route was found or the trip would not leave time to get back.
pub open spec fn mine_trip_fails(o: Observation, worker: Role, zone: Zone, quantity: int) -> bool {
    ||| !priced(o, zone.neutral_type@)
    ||| beside_walk_fails(o, worker, zone.pos)
    ||| exists|g: Pos, dm: int| #![trigger walk_of(&o, worker.id, worker.pos, g, dm)]
        spec_is_stand(&o, zone.pos, worker.id, g) && walk_of(&o, worker.id, worker.pos, g, dm)
            && beside_distance(o, worker, zone.pos, dm) && {
                ||| market_fails(o, worker.id, g)
                ||| exists|vs: Pos, dv: int| #[trigger] market_route_to(o, worker.id, g, vs, dv)
                    && !spec_fits_return(o, vs, trip_rounds(dm, quantity, dv))
            }
}

/// What a trip to a mine yields: the gold for the batch, and the rounds it
/// takes to walk there, gather, walk to the market and be set; `None` when
/// the ore has no price, no walk is found, or the trip would not leave
/// time to get back before nightfall.
fn mine_value(observation: &Observation, worker: &Role, zone: &Zone, quantity: i32) -> (r: Option<(i32, i64)>)
    requires
        0 <= quantity <= GATHER_BATCH_MAX,
    ensures
        r is Some ==> priced(*observation, zone.neutral_type@),
        r matches Some((gain, rounds)) ==> 0 < rounds <= 2 * MAX_PATH_EXPANSIONS + GATHER_BATCH_MAX + 3
            && mine_trip_value(*observation, *worker, *zone, quantity as int, gain, rounds as int),
        r is None ==> mine_trip_fails(*observation, *worker, *zone, quantity as int),
{
    let ghost o = *observation;
    let ghost w = *worker;
    let price = match price_of(observation, zone.neutral_type.as_str()) {
        Some(p) => p,
        None => return None,
    };
    let view = WorldView::new(observation);
    let stands = view.interact_positions(zone.pos, worker.id);
    let ghost stand = stand_at(o, zone.pos, worker.id);
    let mine_path = match next_step(&view, worker.id, worker.pos, stands.as_slice()) {
        Some(p) => p,
        None => {
            proof {
                lemma_walk_fails(observation, worker.id, worker.pos, stands@, stand);
            }
            return None;
        },
    };
    proof {
        lemma_found_distance(observation, worker.id, worker.pos, stands@, stand, mine_path);
        lemma_found_walk(observation, worker.id, worker.pos, stands@, mine_path);
        assert(spec_is_stand(&o, zone.pos, worker.id, mine_path.goal));
    }
    let (stand_to, market_steps) = match market_route(observation, worker.id, mine_path.goal) {
        Some(route) => route,
        None => {
            proof {
                assert(walk_of(&o, worker.id, worker.pos, mine_path.goal, mine_path.steps as int));
            }
            return None;
        },
    };
    let rounds: i64 = (mine_path.steps as i64) + (quantity as i64) + (market_steps as i64)
        + (MIN_ACTION_ROUNDS as i64) + (ECONOMY_SETUP_ROUNDS as i64);
    if !fits_return(observation, stand_to, rounds) {
        proof {
            assert(walk_of(&o, worker.id, worker.pos, mine_path.goal, mine_path.steps as int));
            assert(market_route_to(o, worker.id, mine_path.goal, stand_to, market_steps as int));
        }
        return None;
    }
    proof {
        assert(mine_trip(o, w, zone.pos, mine_path.goal, mine_path.steps as int, stand_to, market_steps as int));
        assert(first_price(o, zone.neutral_type@, price));
    }
    Some((saturating_mul_i32(price, quantity), rounds))
}

/// Whether one mine trip is at least as good as another: more gold per
/// round, then fewer rounds, then the smaller cell (by column, then row).
pub open spec fn mine_at_least(gain: i32, rounds: int, pos: Pos, best_gain: i32, best_rounds: int, best_pos: Pos) -> bool {
    let value = gain * best_rounds;
    let other = best_gain * rounds;
    value > other || (value == other && (rounds < best_rounds || (rounds == best_rounds
        && (pos.x < best_pos.x || (pos.x == best_pos.x && pos.y <= best_pos.y)))))
}

fn mine_not_worse(gain: i32, rounds: i64, pos: Pos, best_gain: i32, best_rounds: i64, best_pos: Pos) -> (r: bool)
    requires
        0 < rounds <= 0x1_0000_0000_0000,
        0 < best_rounds <= 0x1_0000_0000_0000,
    ensures
        r == mine_at_least(gain, rounds as int, pos, best_gain, best_rounds as int, best_pos),
{
    let g: i128 = gain as i128;
    let bg: i128 = best_gain as i128;
    let r1: i128 = rounds as i128;
    let r2: i128 = best_rounds as i128;
    assert(-0x1_0000_0000_0000_0000_0000 <= g * r2 <= 0x1_0000_0000_0000_0000_0000
        && -0x1_0000_0000_0000_0000_0000 <= bg * r1 <= 0x1_0000_0000_0000_0000_0000) by (nonlinear_arith)
        requires
            i32::MIN <= g <= i32::MAX,
            i32::MIN <= bg <= i32::MAX,
            0 < r1 <= 0x1_0000_0000_0000,
            0 < r2 <= 0x1_0000_0000_0000;
    let value = g * r2;
    let other = bg * r1;
    value > other || (value == other && (rounds < best_rounds || (rounds == best_rounds
        && (pos.x < best_pos.x || (pos.x == best_pos.x && pos.y <= best_pos.y)))))
}

/// Trading gold per round is an order: comparing through a middle trip.
proof fn lemma_ratio_trans(ga: int, ra: int, gb: int, rb: int, gc: int, rc: int)
    requires
        ra > 0,
        rb > 0,
        rc > 0,
        ga * rb >= gb * ra,
        gb * rc >= gc * rb,
    ensures
        ga * rc >= gc * ra,
        (ga * rb > gb * ra || gb * rc > gc * rb) ==> ga * rc > gc * ra,
{
    assert(ga * rb * rc >= gb * ra * rc) by (nonlinear_arith)
        requires
            ga * rb >= gb * ra,
            rc > 0;
    assert(gb * rc * ra >= gc * rb * ra) by (nonlinear_arith)
        requires
            gb * rc >= gc * rb,
            ra > 0;
    assert(gb * ra * rc == gb * rc * ra) by (nonlinear_arith);
    assert(ga * rb * rc == (ga * rc) * rb) by (nonlinear_arith);
    assert(gc * rb * ra == (gc * ra) * rb) by (nonlinear_arith);
    assert(ga * rc >= gc * ra) by (nonlinear_arith)
        requires
            (ga * rc) * rb >= (gc * ra) * rb,
            rb > 0;
    if ga * rb > gb * ra {
        assert(ga * rb * rc > gb * ra * rc) by (nonlinear_arith)
            requires
                ga * rb > gb * ra,
                rc > 0;
        assert(ga * rc > gc * ra) by (nonlinear_arith)
            requires
                (ga * rc) * rb > (gc * ra) * rb,
                rb > 0;
    }
    if gb * rc > gc * rb {
        assert(gb * rc * ra > gc * rb * ra) by (nonlinear_arith)
            requires
                gb * rc > gc * rb,
                ra > 0;
        assert(ga * rc > gc * ra) by (nonlinear_arith)
            requires
                (ga * rc) * rb > (gc * ra) * rb,
                rb > 0;
    }
}

/// Comparing mine trips is transitive.
proof fn lemma_mine_order_trans(ga: i32, ra: int, pa: Pos, gb: i32, rb: int, pb: Pos, gc: i32, rc: int, pc: Pos)
    requires
        ra > 0,
        rb > 0,
        rc > 0,
        mine_at_least(ga, ra, pa, gb, rb, pb),
        mine_at_least(gb, rb, pb, gc, rc, pc),
    ensures
        mine_at_least(ga, ra, pa, gc, rc, pc),
{
    lemma_ratio_trans(ga as int, ra, gb as int, rb, gc as int, rc);
    if ga * rb == gb * ra && gb * rc == gc * rb {
        lemma_ratio_trans(gc as int, rc, gb as int, rb, ga as int, ra);
    }
}

/// Of two mine trips, one is at least as good as the other.
proof fn lemma_mine_order_total(ga: i32, ra: int, pa: Pos, gb: i32, rb: int, pb: Pos)
    ensures
        mine_at_least(ga, ra, pa, gb, rb, pb) || mine_at_least(gb, rb, pb, ga, ra, pa),
{
}

/// A trip to mine `k`, `gk` gold in `rk` rounds, is at least as good as some
/// valuation of the trip to every ore zone whose trip could be valued.
pub open spec fn mine_best(o: Observation, worker: Role, k: int, gk: i32, rk: int) -> bool {
    let zones = o.map_info.zones@;
    &&& 0 <= k < zones.len()
    &&& is_ore(zones[k].neutral_type@)
    &&& rk > 0
    &&& mine_trip_value(o, worker, zones[k], batch_quantity(worker), gk, rk)
    &&& forall|j: int| 0 <= j < zones.len() && #[trigger] is_ore(zones[j].neutral_type@)
        ==> mine_trip_fails(o, worker, zones[j], batch_quantity(worker))
            || exists|gj: i32, rj: int| #[trigger] mine_trip_value(o, worker, zones[j], batch_quantity(worker), gj, rj)
                && rj > 0 && mine_at_least(gk, rk, zones[k].pos, gj, rj, zones[j].pos)
}

/// Gathering from the zone at `pos` from beside it, or a move towards it.
pub open spec fn zone_step(o: Observation, worker: Role, pos: Pos, a: ActionView) -> bool {
    ||| spec_distance(worker.pos, pos) <= NEIGHBOR_RANGE && a == ActionView::Collect(pos)
    ||| spec_distance(worker.pos, pos) > NEIGHBOR_RANGE && move_toward(o, worker, pos, a)
}

/// How many ores a worker gathers on one trip: its free backpack slots, at
/// most a batch.
pub open spec fn batch_quantity(worker: Role) -> int {
    match worker.back_pack_capability {
        Some(capacity) => {
            let free = if capacity > worker.backpack@.len() { capacity - worker.backpack@.len() } else { 0 };
            if free < GATHER_BATCH_MAX { free } else { GATHER_BATCH_MAX as int }
        },
        None => 0,
    }
}

/// A trip to zone `i` can be valued for the worker.
pub open spec fn mine_usable(o: Observation, worker: Role, i: int) -> bool {
    exists|gain: i32, rounds: int| #[trigger] mine_trip_value(o, worker, o.map_info.zones@[i], batch_quantity(worker), gain, rounds)
}

/// A worker's mining step: gathering from an ore zone it stands beside,
/// or a move towards one; either way the ore has a price and the trip
/// leaves time to get back.
pub open spec fn mine_step(o: Observation, worker: Role, a: ActionView) -> bool {
    exists|i: int| 0 <= i < o.map_info.zones@.len() && is_ore((#[trigger] o.map_info.zones@[i]).neutral_type@)
        && priced(o, o.map_info.zones@[i].neutral_type@) && mine_usable(o, worker, i) && {
            let pos = o.map_info.zones@[i].pos;
            ||| spec_distance(worker.pos, pos) <= NEIGHBOR_RANGE && a == ActionView::Collect(pos)
            ||| spec_distance(worker.pos, pos) > NEIGHBOR_RANGE && move_toward(o, worker, pos, a)
        }
}

fn mine_action(observation: &Observation, worker: &Role) -> (r: Option<Action>)
    ensures
        worker.back_pack_capability is None ==> r is None,
        r matches Some(a) ==> mine_step(*observation, *worker, a@),
        r matches Some(a) ==> exists|k: int, gk: i32, rk: int| #[trigger] mine_best(*observation, *worker, k, gk, rk)
            && zone_step(*observation, *worker, observation.map_info.zones@[k].pos, a@),
        r is None ==> worker.back_pack_capability is None
            || (forall|j: int| 0 <= j < observation.map_info.zones@.len()
                && #[trigger] is_ore(observation.map_info.zones@[j].neutral_type@)
                ==> mine_trip_fails(*observation, *worker, observation.map_info.zones@[j], batch_quantity(*worker)))
            || too_many_reachable(observation, worker.id, worker.pos),
{
    let ghost o = *observation;
    let ghost w = *worker;
    let capacity = match worker.back_pack_capability {
        Some(c) => c,
        None => return None,
    };
    let free = if capacity > worker.backpack.len() { capacity - worker.backpack.len() } else { 0 };
    let quantity = (if free < GATHER_BATCH_MAX { free } else { GATHER_BATCH_MAX }) as i32;
    let zones = &observation.map_info.zones;
    let mut best: Option<(usize, i32, i64)> = None;
    let mut i: usize = 0;
    while i < zones.len()
        invariant
            zones == &observation.map_info.zones,
            0 <= quantity <= GATHER_BATCH_MAX,
            i <= zones@.len(),
            o == *observation,
            w == *worker,
            quantity == batch_quantity(w),
            best matches Some((k, gain, rounds)) ==> k < zones@.len() && is_ore(zones@[k as int].neutral_type@)
                && priced(*observation, zones@[k as int].neutral_type@) && 0 < rounds <= 0x1_0000_0000_0000
                && mine_trip_value(o, w, zones@[k as int], quantity as int, gain, rounds as int),
            best is None ==> forall|j: int| 0 <= j < i && #[trigger] is_ore(zones@[j].neutral_type@)
                ==> mine_trip_fails(o, w, zones@[j], quantity as int),
            best matches Some((k, gk, rk)) ==> k < i && forall|j: int| 0 <= j < i && #[trigger] is_ore(zones@[j].neutral_type@)
                ==> mine_trip_fails(o, w, zones@[j], quantity as int)
                    || exists|gj: i32, rj: int| #[trigger] mine_trip_value(o, w, zones@[j], quantity as int, gj, rj)
                        && rj > 0 && mine_at_least(gk, rk as int, zones@[k as int].pos, gj, rj, zones@[j].pos),
        decreases zones@.len() - i,
    {
        let zone = &zones[i];
        if ore(zone.neutral_type.as_str()) {
            match mine_value(observation, worker, zone, quantity) {
                Some((gain, rounds)) => {
                    if rounds <= 0x1_0000_0000_0000 {
                        let better = match best {
                            None => true,
                            Some((k, bgain, brounds)) => mine_not_worse(gain, rounds, zone.pos, bgain, brounds, zones[k].pos),
                        };
                        proof {
                            assert(zones@[i as int] == *zone);
                            let q: int = quantity as int;
                            if better {
                                assert forall|j: int| 0 <= j < i + 1 && #[trigger] is_ore(zones@[j].neutral_type@)
                                    implies mine_trip_fails(o, w, zones@[j], q)
                                    || exists|gj: i32, rj: int| #[trigger] mine_trip_value(o, w, zones@[j], q, gj, rj)
                                        && rj > 0 && mine_at_least(gain, rounds as int, zone.pos, gj, rj, zones@[j].pos) by {
                                    if j == i {
                                        assert(mine_trip_value(o, w, zones@[j], q, gain, rounds as int));
                                        assert(mine_at_least(gain, rounds as int, zone.pos, gain, rounds as int, zones@[j].pos));
                                    } else if !mine_trip_fails(o, w, zones@[j], q) {
                                        let (k, bgain, brounds) = best.unwrap();
                                        let (gj, rj) = choose|gj: i32, rj: int| #[trigger] mine_trip_value(o, w, zones@[j], q, gj, rj)
                                            && rj > 0 && mine_at_least(bgain, brounds as int, zones@[k as int].pos, gj, rj, zones@[j].pos);
                                        lemma_mine_order_trans(gain, rounds as int, zone.pos, bgain, brounds as int, zones@[k as int].pos,
                                            gj, rj, zones@[j].pos);
                                    }
                                }
                            } else {
                                let (k, bgain, brounds) = best.unwrap();
                                lemma_mine_order_total(gain, rounds as int, zone.pos, bgain, brounds as int, zones@[k as int].pos);
                                assert(mine_trip_value(o, w, zones@[i as int], q, gain, rounds as int));
                            }
                        }
                        if better {
                            best = Some((i, gain, rounds));
                        }
                    }
                },
                None => {
                    proof {
                        assert(zones@[i as int] == *zone);
                    }
                },
            }
        } else {
            proof {
                assert(zones@[i as int] == *zone);
            }
        }
        i = i + 1;
    }
    let (k, best_gain, best_rounds) = match best {
        Some(b) => b,
        None => return None,
    };
    proof {
        assert(mine_best(o, w, k as int, best_gain, best_rounds as int));
    }
    let pos = zones[k].pos;
    if wide_distance(worker.pos, pos) <= NEIGHBOR_RANGE as i64 {
        proof { assert(is_ore((#[trigger] observation.map_info.zones@[k as int]).neutral_type@)); }
        return Some(Action::Collect(pos));
    }
    let r = move_to(observation, worker, pos);
    proof {
        assert(mine_usable(o, w, k as int));
        if r is Some {
            assert(is_ore((#[trigger] observation.map_info.zones@[k as int]).neutral_type@));
        } else {
            let (gain, rounds) = choose|gain: i32, rounds: int|
                #[trigger] mine_trip_value(o, w, observation.map_info.zones@[k as int], batch_quantity(w), gain, rounds);
            let (price, g, dm, vs, dv) = choose|price: i32, g: Pos, dm: int, vs: Pos, dv: int|
                #![trigger first_price(o, observation.map_info.zones@[k as int].neutral_type@, price), mine_trip(o, w, pos, g, dm, vs, dv)]
                first_price(o, observation.map_info.zones@[k as int].neutral_type@, price) && gain == clamp_i32(price * batch_quantity(w))
                    && mine_trip(o, w, pos, g, dm, vs, dv) && rounds == trip_rounds(dm, batch_quantity(w), dv)
                    && spec_fits_return(o, vs, rounds);
            lemma_reached_fails(observation, worker.id, worker.pos, stand_at(o, pos, worker.id), dm);
        }
    }
    r
}

/// A worker's economy step: medicine when it needs healing, otherwise a
/// sale once it carries a batch or a full backpack, otherwise mining.
pub fn worker_action(observation: &Observation, worker: &Role) -> (r: Option<Action>)
    ensures
        !is_alive(*worker) ==> r is None,
        is_alive(*worker) && spec_should_heal(*worker, WORKER_MAX_HP as int)
            ==> (r matches Some(a) && a@ == (ActionView::Use { name: "Medicine"@, pos: None })),
        is_alive(*worker) && !spec_should_heal(*worker, WORKER_MAX_HP as int) && worker.back_pack_capability is None ==> r is None,
        is_alive(*worker) && !spec_should_heal(*worker, WORKER_MAX_HP as int) && loaded(*worker)
            ==> (r matches Some(a) ==> sell_step(*observation, *worker, a@)),
        is_alive(*worker) && !spec_should_heal(*worker, WORKER_MAX_HP as int) && !loaded(*worker)
            ==> (r matches Some(a) ==> mine_step(*observation, *worker, a@)),
        is_alive(*worker) && !spec_should_heal(*worker, WORKER_MAX_HP as int) && !loaded(*worker)
            ==> (r matches Some(a) ==> exists|k: int, gk: i32, rk: int| #[trigger] mine_best(*observation, *worker, k, gk, rk)
                && zone_step(*observation, *worker, observation.map_info.zones@[k].pos, a@)),
        is_alive(*worker) && !spec_should_heal(*worker, WORKER_MAX_HP as int) && loaded(*worker) && r is None
            ==> sell_fails(*observation, *worker),
        is_alive(*worker) && !spec_should_heal(*worker, WORKER_MAX_HP as int) && worker.back_pack_capability is Some
            && !loaded(*worker) && r is None
            ==> (forall|j: int| 0 <= j < observation.map_info.zones@.len()
                    && #[trigger] is_ore(observation.map_info.zones@[j].neutral_type@)
                    ==> mine_trip_fails(*observation, *worker, observation.map_info.zones@[j], batch_quantity(*worker)))
                || too_many_reachable(observation, worker.id, worker.pos),
{
    if !alive(worker) {
        return None;
    }
    if should_heal(worker, WORKER_MAX_HP) {
        return Some(Action::Use { name: "Medicine".to_string(), pos: None });
    }
    let capacity = match worker.back_pack_capability {
        Some(c) => c,
        None => return None,
    };
    let ores = count_ores(&worker.backpack);
    if ores >= GATHER_BATCH_MAX || worker.backpack.len() >= capacity {
        return sell_action(observation, worker);
    }
    mine_action(observation, worker)
}

} // verus!
