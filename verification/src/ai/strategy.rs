use vstd::prelude::*;

use crate::domain::{Observation, Pos, Role, alive, is_alive};
use crate::event::{EventRecord, WorldEvent};
use crate::fsm::{StrategyState, normal_strategy, spec_normal_strategy};
use crate::rules::constants::{
    BASE_RISK_ENTER, BASE_RISK_EXIT, BOSS_ROBOT_ATTACK, COUNTER_INCREMENT, EMERGENCY_CLEAR_ROUNDS,
    ENDGAME_WINDOW_ROUNDS, FIRST_ROUND, LARGE_ROBOT_ATTACK, MATCH_ROUNDS, MIDDLE_ROBOT_ATTACK,
    MIN_POSITIVE_HP, NEIGHBOR_RANGE, POSITION_SETUP_ROUNDS, RETURN_MARGIN_ROUNDS, RISK_HORIZON_ROUNDS,
    ROBOT_ATTACK_RANGE, ROBOT_STEP_ESTIMATE, SCORE_SCALE, SMALL_ROBOT_ATTACK, ZERO_COUNTER, ZERO_SCORE,
};
use crate::rules::geometry::{spec_distance, spec_station_gap, station_gap, wide_distance};
use crate::rules::time::{Phase, next_night, phase, spec_next_night, spec_phase};
use crate::text::{is_one_of, str_eq};

verus! {

pub open spec fn spec_is_weapon(kind: Seq<char>) -> bool {
    kind == "gatling"@ || kind == "railgun"@ || kind == "rocket"@
}

/// Whether a role kind is one of the three weapons.
pub fn is_weapon(kind: &str) -> (r: bool)
    ensures
        r == spec_is_weapon(kind@),
{
    let options: [&str; 3] = ["gatling", "railgun", "rocket"];
    let r = is_one_of(kind, &options);
    proof {
        if spec_is_weapon(kind@) {
            if kind@ == "gatling"@ { assert(options@[0]@ == "gatling"@); }
            if kind@ == "railgun"@ { assert(options@[1]@ == "railgun"@); }
            if kind@ == "rocket"@ { assert(options@[2]@ == "rocket"@); }
        }
        if r {
            let i = choose|i: int| 0 <= i < options@.len() && kind@ == options@[i]@;
            assert(i == 0 || i == 1 || i == 2);
        }
    }
    r
}

/// A live worker or pioneer.
pub open spec fn spec_is_active_unit(role: Role) -> bool {
    (role.role_type@ == "worker"@ || role.role_type@ == "pioneer"@) && is_alive(role)
}

pub fn is_active_unit(role: &Role) -> (r: bool)
    ensures
        r == spec_is_active_unit(*role),
{
    (str_eq(role.role_type.as_str(), "worker") || str_eq(role.role_type.as_str(), "pioneer")) && alive(role)
}

/// The last rounds of the match.
pub open spec fn spec_endgame(round: int) -> bool {
    MATCH_ROUNDS - round + FIRST_ROUND <= ENDGAME_WINDOW_ROUNDS
}

pub fn endgame(round: i32) -> (r: bool)
    ensures
        r == spec_endgame(round as int),
{
    (MATCH_ROUNDS as i64) - (round as i64) + (FIRST_ROUND as i64) <= ENDGAME_WINDOW_ROUNDS as i64
}

/// The steps from a cell to the nearest live weapon, one less than the
/// distance since a unit acts from beside it; `None` without live weapons.
pub open spec fn spec_nearest_weapon(roles: Seq<Role>, from: Pos) -> Option<int>
    decreases roles.len(),
{
    if roles.len() == 0 {
        None
    } else {
        let rest = spec_nearest_weapon(roles.drop_last(), from);
        let w = roles.last();
        if spec_is_weapon(w.role_type@) && is_alive(w) {
            let d = spec_distance(from, w.pos) - NEIGHBOR_RANGE;
            match rest {
                Some(best) => Some(if d < best { d } else { best }),
                None => Some(d),
            }
        } else {
            rest
        }
    }
}

pub fn nearest_weapon_distance(observation: &Observation, from: Pos) -> (r: Option<i64>)
    ensures
        match spec_nearest_weapon(observation.team_our.roles@, from) {
            Some(d) => r == Some(d as i64) && -1 <= d <= 0x1_0000_0000,
            None => r is None,
        },
{
    let roles = &observation.team_our.roles;
    let mut best: Option<i64> = None;
    let mut i: usize = 0;
    while i < roles.len()
        invariant
            i <= roles@.len(),
            match spec_nearest_weapon(roles@.subrange(0, i as int), from) {
                Some(d) => best == Some(d as i64) && -1 <= d <= 0x1_0000_0000,
                None => best is None,
            },
        decreases roles@.len() - i,
    {
        assert(roles@.subrange(0, i + 1).drop_last() =~= roles@.subrange(0, i as int));
        let role = &roles[i];
        if is_weapon(role.role_type.as_str()) && alive(role) {
            let d = wide_distance(from, role.pos) - 1;
            best = match best {
                Some(b) => Some(if d < b { d } else { b }),
                None => Some(d),
            };
        }
        i = i + 1;
    }
    assert(roles@.subrange(0, roles@.len() as int) =~= roles@);
    best
}

/// The units must head back: for some live unit, the rounds left before
/// nightfall are no more than its walk to the nearest live weapon plus the
/// time to take position and a margin.
pub open spec fn spec_return_due(o: Observation) -> bool {
    spec_next_night(o.round_no as int) <= i32::MAX && exists|i: int| 0 <= i < o.team_our.roles@.len()
        && spec_is_active_unit(#[trigger] o.team_our.roles@[i])
        && (spec_nearest_weapon(o.team_our.roles@, o.team_our.roles@[i].pos) matches Some(travel)
            && spec_next_night(o.round_no as int) - o.round_no <= travel + POSITION_SETUP_ROUNDS + RETURN_MARGIN_ROUNDS)
}

pub fn return_due(observation: &Observation) -> (r: bool)
    ensures
        r == spec_return_due(*observation),
{
    let night = match next_night(observation.round_no) {
        Some(n) => n,
        None => return false,
    };
    let roles = &observation.team_our.roles;
    let left = night as i64 - observation.round_no as i64;
    let mut i: usize = 0;
    while i < roles.len()
        invariant
            i <= roles@.len(),
            roles@ == observation.team_our.roles@,
            night == spec_next_night(observation.round_no as int),
            left == night - observation.round_no,
            forall|j: int| 0 <= j < i ==> !(spec_is_active_unit(#[trigger] roles@[j])
                && (spec_nearest_weapon(roles@, roles@[j].pos) matches Some(travel)
                    && left <= travel + POSITION_SETUP_ROUNDS + RETURN_MARGIN_ROUNDS)),
        decreases roles@.len() - i,
    {
        let role = &roles[i];
        if is_active_unit(role) {
            match nearest_weapon_distance(observation, role.pos) {
                Some(travel) => {
                    if left <= travel + (POSITION_SETUP_ROUNDS as i64) + (RETURN_MARGIN_ROUNDS as i64) {
                        proof {
                            assert(spec_is_active_unit(observation.team_our.roles@[i as int]));
                        }
                        return true;
                    }
                },
                None => {},
            }
        }
        i = i + 1;
    }
    false
}

/// The damage a robot of a kind deals.
pub open spec fn spec_robot_attack(kind: Seq<char>) -> int {
    if kind == "smallRobot"@ {
        SMALL_ROBOT_ATTACK as int
    } else if kind == "middleRobot"@ {
        MIDDLE_ROBOT_ATTACK as int
    } else if kind == "largeRobot"@ {
        LARGE_ROBOT_ATTACK as int
    } else if kind == "bossRobot"@ {
        BOSS_ROBOT_ATTACK as int
    } else {
        ZERO_SCORE as int
    }
}

pub fn robot_attack(kind: &str) -> (r: i32)
    ensures
        r == spec_robot_attack(kind@),
{
    if str_eq(kind, "smallRobot") {
        SMALL_ROBOT_ATTACK
    } else if str_eq(kind, "middleRobot") {
        MIDDLE_ROBOT_ATTACK
    } else if str_eq(kind, "largeRobot") {
        LARGE_ROBOT_ATTACK
    } else if str_eq(kind, "bossRobot") {
        BOSS_ROBOT_ATTACK
    } else {
        ZERO_SCORE
    }
}

/// Robots close enough to the base to strike it within the risk horizon.
pub open spec fn spec_in_horizon(distance_to_base: int) -> bool {
    distance_to_base <= ROBOT_ATTACK_RANGE + RISK_HORIZON_ROUNDS * ROBOT_STEP_ESTIMATE
}

pub fn in_horizon(distance_to_base: i64) -> (r: bool)
    ensures
        r == spec_in_horizon(distance_to_base as int),
{
    distance_to_base <= (ROBOT_ATTACK_RANGE + RISK_HORIZON_ROUNDS * ROBOT_STEP_ESTIMATE) as i64
}

/// The damage the robots within the horizon can deal to the base.
pub open spec fn threat(base: Pos, robots: Seq<Role>) -> int
    decreases robots.len(),
{
    if robots.len() == 0 {
        0
    } else {
        threat(base, robots.drop_last()) + if spec_in_horizon(spec_station_gap(base, robots.last().pos)) {
            spec_robot_attack(robots.last().role_type@)
        } else {
            0
        }
    }
}

/// The first live station of the team.
pub open spec fn live_station(roles: Seq<Role>) -> Option<Role> {
    crate::collections::first_where(roles, |r: Role| r.role_type@ == "station"@ && is_alive(r))
}

/// The share (in percent, at most all of it) of the base's health that the
/// threatening robots can take over the risk horizon, rounded up; no risk
/// without a live base.
pub open spec fn spec_base_risk(o: Observation) -> int {
    match live_station(o.team_our.roles@) {
        None => ZERO_SCORE as int,
        Some(base) => {
            let damage = match o.robot {
                Some(robots) => threat(base.pos, robots.roles@),
                None => 0,
            };
            let hp: int = match base.health {
                Some(h) => if h < MIN_POSITIVE_HP { MIN_POSITIVE_HP as int } else { h as int },
                None => MIN_POSITIVE_HP as int,
            };
            let raw = (SCORE_SCALE * RISK_HORIZON_ROUNDS * damage + hp - MIN_POSITIVE_HP) / hp;
            if raw < SCORE_SCALE { raw } else { SCORE_SCALE as int }
        },
    }
}

proof fn lemma_threat_nonneg(base: Pos, robots: Seq<Role>)
    ensures
        threat(base, robots) >= 0,
    decreases robots.len(),
{
    if robots.len() > 0 {
        lemma_threat_nonneg(base, robots.drop_last());
    }
}

/// The base risk never falls when a robot joins the field, and stays the
/// same when the robot is beyond the risk horizon of the base; with no live
/// station there is no risk.
pub proof fn law_base_risk_grows_with_robots(before: Observation, after: Observation, robot: Role)
    requires
        after.team_our == before.team_our,
        before.robot is Some,
        after.robot is Some,
        after.robot->0.roles@ == before.robot->0.roles@.push(robot),
    ensures
        live_station(before.team_our.roles@) is None ==> spec_base_risk(after) == ZERO_SCORE && spec_base_risk(before) == ZERO_SCORE,
        spec_base_risk(after) >= spec_base_risk(before),
        (live_station(before.team_our.roles@) matches Some(base) && !spec_in_horizon(spec_station_gap(base.pos, robot.pos)))
            ==> spec_base_risk(after) == spec_base_risk(before),
{
    match live_station(before.team_our.roles@) {
        None => {},
        Some(base) => {
            let rs = before.robot->0.roles@;
            assert(after.robot->0.roles@.drop_last() =~= rs);
            let d1 = threat(base.pos, rs);
            let d2 = threat(base.pos, after.robot->0.roles@);
            assert(spec_robot_attack(robot.role_type@) >= 0);
            assert(d2 >= d1);
            let hp: int = match base.health {
                Some(h) => if h < MIN_POSITIVE_HP { MIN_POSITIVE_HP as int } else { h as int },
                None => MIN_POSITIVE_HP as int,
            };
            assert(hp >= 1);
            let a = SCORE_SCALE * RISK_HORIZON_ROUNDS * d1 + hp - MIN_POSITIVE_HP;
            let b = SCORE_SCALE * RISK_HORIZON_ROUNDS * d2 + hp - MIN_POSITIVE_HP;
            assert(a <= b) by (nonlinear_arith)
                requires
                    d1 <= d2,
                    SCORE_SCALE == 100,
                    RISK_HORIZON_ROUNDS == 3,
                    a == SCORE_SCALE * RISK_HORIZON_ROUNDS * d1 + hp - MIN_POSITIVE_HP,
                    b == SCORE_SCALE * RISK_HORIZON_ROUNDS * d2 + hp - MIN_POSITIVE_HP;
            vstd::arithmetic::div_mod::lemma_div_is_ordered(a, b, hp);
        },
    }
}

pub fn base_risk(observation: &Observation) -> (r: i32)
    ensures
        r == spec_base_risk(*observation),
        0 <= r <= SCORE_SCALE,
{
    let roles = &observation.team_our.roles;
    let ghost p = |r: Role| r.role_type@ == "station"@ && is_alive(r);
    let mut found: Option<usize> = None;
    let mut i: usize = 0;
    while i < roles.len()
        invariant
            i <= roles@.len(),
            roles@ == observation.team_our.roles@,
            p == (|r: Role| r.role_type@ == "station"@ && is_alive(r)),
            found is None ==> forall|j: int| 0 <= j < i ==> !p(#[trigger] roles@[j]),
            found matches Some(k) ==> crate::collections::is_first(roles@, p, k as int),
        decreases roles@.len() - i,
    {
        if found.is_none() && str_eq(roles[i].role_type.as_str(), "station") && alive(&roles[i]) {
            found = Some(i);
        }
        i = i + 1;
    }
    let base = match found {
        Some(k) => {
            proof { crate::collections::lemma_first_where_at(roles@, p, k as int); }
            &roles[k]
        },
        None => {
            proof { crate::collections::lemma_first_where_none(roles@, p); }
            return ZERO_SCORE;
        },
    };
    let mut damage: i64 = 0;
    let cap: i64 = i32::MAX as i64;
    match &observation.robot {
        Some(robots) => {
            let mut k: usize = 0;
            while k < robots.roles.len()
                invariant
                    k <= robots.roles@.len(),
                    damage == if threat(base.pos, robots.roles@.subrange(0, k as int)) < cap {
                        threat(base.pos, robots.roles@.subrange(0, k as int))
                    } else {
                        cap as int
                    },
                    cap == i32::MAX,
                    0 <= damage <= cap,
                decreases robots.roles@.len() - k,
            {
                proof {
                    assert(robots.roles@.subrange(0, k + 1).drop_last() =~= robots.roles@.subrange(0, k as int));
                    lemma_threat_nonneg(base.pos, robots.roles@.subrange(0, k as int));
                }
                let robot = &robots.roles[k];
                if in_horizon(station_gap(base.pos, robot.pos)) {
                    let add = robot_attack(robot.role_type.as_str()) as i64;
                    damage = if damage + add < cap { damage + add } else { cap };
                }
                k = k + 1;
            }
            assert(robots.roles@.subrange(0, robots.roles@.len() as int) =~= robots.roles@);
        },
        None => {},
    }
    let hp: i64 = match base.health {
        Some(h) => if h < MIN_POSITIVE_HP { MIN_POSITIVE_HP as i64 } else { h as i64 },
        None => MIN_POSITIVE_HP as i64,
    };
    let numerator = (SCORE_SCALE as i64) * (RISK_HORIZON_ROUNDS as i64) * damage;
    let raw = (numerator + hp - MIN_POSITIVE_HP as i64) / hp;
    proof {
        let full: int = if observation.robot is Some { threat(base.pos, observation.robot->0.roles@) } else { 0 };
        if !(full >= cap) {
            assert(damage == full);
        }
        if full >= cap {
            let h: int = hp as int;
            assert(raw >= SCORE_SCALE) by (nonlinear_arith)
                requires
                    damage == cap, cap == i32::MAX, 1 <= h <= i32::MAX,
                    numerator == 300 * damage, raw == (numerator + h - 1) / h;
            let full_raw: int = (300 * full + h - 1) / h;
            assert(full_raw >= SCORE_SCALE) by (nonlinear_arith)
                requires
                    full >= i32::MAX, 1 <= h <= i32::MAX, full_raw == (300 * full + h - 1) / h;
        }
    }
    if raw < SCORE_SCALE as i64 {
        raw as i32
    } else {
        SCORE_SCALE
    }
}

/// A recovered world starts counting clear observations afresh.
pub open spec fn recovered(events: Seq<EventRecord>) -> bool {
    exists|i: int| 0 <= i < events.len() && (#[trigger] events[i]).event == WorldEvent::WorldRecovered
}

pub fn reset_clear_after_recovery(events: &[EventRecord], clear_count: &mut u8)
    ensures
        *final(clear_count) == (if recovered(events@) { ZERO_COUNTER } else { *old(clear_count) }),
{
    let mut i: usize = 0;
    while i < events.len()
        invariant
            i <= events@.len(),
            forall|j: int| 0 <= j < i ==> (#[trigger] events@[j]).event != WorldEvent::WorldRecovered,
            *clear_count == *old(clear_count),
        decreases events@.len() - i,
    {
        if events[i].event == WorldEvent::WorldRecovered {
            *clear_count = ZERO_COUNTER;
            return;
        }
        i = i + 1;
    }
}

/// The next strategy, and the count of consecutive clear observations.
/// Outside the match the strategy stands. A risk at or above the entry
/// level is an emergency; an emergency lasts while the risk stays at or
/// above the exit level, and ends only after the configured number of
/// consecutive observations below it; otherwise the phase, the return
/// deadline and the endgame decide.
pub open spec fn spec_advance(o: Observation, events: Seq<EventRecord>, previous: StrategyState, clear: u8) -> (StrategyState, u8) {
    let count = if recovered(events) { ZERO_COUNTER } else { clear };
    match spec_phase(o.round_no as int) {
        None => (previous, count),
        Some(p) => {
            let risk = spec_base_risk(o);
            if risk >= BASE_RISK_ENTER {
                (StrategyState::Emergency, ZERO_COUNTER)
            } else if previous == StrategyState::Emergency && risk >= BASE_RISK_EXIT {
                (previous, ZERO_COUNTER)
            } else if previous == StrategyState::Emergency {
                let next: u8 = if count == u8::MAX { u8::MAX } else { (count + COUNTER_INCREMENT) as u8 };
                if next < EMERGENCY_CLEAR_ROUNDS {
                    (previous, next)
                } else {
                    (spec_normal_strategy(p, spec_return_due(o), spec_endgame(o.round_no as int)), next)
                }
            } else {
                (spec_normal_strategy(p, spec_return_due(o), spec_endgame(o.round_no as int)), count)
            }
        },
    }
}

pub fn advance(observation: &Observation, events: &[EventRecord], previous: StrategyState, clear_count: &mut u8) -> (r: StrategyState)
    ensures
        (r, *final(clear_count)) == spec_advance(*observation, events@, previous, *old(clear_count)),
{
    reset_clear_after_recovery(events, clear_count);
    let current_phase = match phase(observation.round_no) {
        Some(p) => p,
        None => return previous,
    };
    let risk = base_risk(observation);
    if risk >= BASE_RISK_ENTER {
        *clear_count = ZERO_COUNTER;
        return StrategyState::Emergency;
    }
    if previous == StrategyState::Emergency && risk >= BASE_RISK_EXIT {
        *clear_count = ZERO_COUNTER;
        return previous;
    }
    if previous == StrategyState::Emergency {
        *clear_count = if *clear_count == u8::MAX { u8::MAX } else { *clear_count + COUNTER_INCREMENT };
        if *clear_count < EMERGENCY_CLEAR_ROUNDS {
            return previous;
        }
    }
    normal_strategy(current_phase, return_due(observation), endgame(observation.round_no))
}

/// In the last rounds of the match the strategy is the endgame, by night
/// as by day, whenever the base is not at risk and no emergency is
/// running; before those rounds it is never the endgame, and outside an
/// emergency a night round is spent defending.
pub proof fn law_endgame_outranks_the_phase(o: Observation, events: Seq<EventRecord>, previous: StrategyState, clear: u8)
    ensures
        MATCH_ROUNDS - ENDGAME_WINDOW_ROUNDS < o.round_no <= MATCH_ROUNDS && spec_base_risk(o) < BASE_RISK_ENTER
            && previous != StrategyState::Emergency ==> spec_advance(o, events, previous, clear).0 == StrategyState::Endgame,
        FIRST_ROUND <= o.round_no <= MATCH_ROUNDS - ENDGAME_WINDOW_ROUNDS && previous != StrategyState::Endgame
            ==> spec_advance(o, events, previous, clear).0 != StrategyState::Endgame,
        FIRST_ROUND <= o.round_no <= MATCH_ROUNDS - ENDGAME_WINDOW_ROUNDS && spec_phase(o.round_no as int) == Some(Phase::Night)
            && spec_base_risk(o) < BASE_RISK_ENTER && previous != StrategyState::Emergency
            ==> spec_advance(o, events, previous, clear).0 == StrategyState::NightDefend,
{
}

/// By day, before the last rounds and outside an emergency and a risk to
/// the base, the units are called back exactly when the return to the
/// weapons is due, and develop the base otherwise; outside the match the
/// strategy stands.
pub proof fn law_day_strategy(o: Observation, events: Seq<EventRecord>, previous: StrategyState, clear: u8)
    ensures
        FIRST_ROUND <= o.round_no <= MATCH_ROUNDS - ENDGAME_WINDOW_ROUNDS && spec_phase(o.round_no as int) == Some(Phase::Day)
            && spec_base_risk(o) < BASE_RISK_ENTER && previous != StrategyState::Emergency
            ==> spec_advance(o, events, previous, clear).0 == (if spec_return_due(o) { StrategyState::PrepareNight } else { StrategyState::DayDevelop }),
        !(FIRST_ROUND <= o.round_no <= MATCH_ROUNDS) ==> spec_advance(o, events, previous, clear).0 == previous,
{
}

/// An emergency ends only after the configured number of consecutive
/// clear observations: whenever `advance` leaves an emergency, the count
/// it returns has reached that number.
pub proof fn law_emergency_exit_needs_clear_rounds(o: Observation, events: Seq<EventRecord>, clear: u8)
    ensures
        spec_advance(o, events, StrategyState::Emergency, clear).0 != StrategyState::Emergency
            ==> spec_advance(o, events, StrategyState::Emergency, clear).1 >= EMERGENCY_CLEAR_ROUNDS,
{
}

/// A risk at or above the entry level always means an emergency, whatever
/// the strategy was.
pub proof fn law_high_risk_is_emergency(o: Observation, events: Seq<EventRecord>, previous: StrategyState, clear: u8)
    requires
        spec_phase(o.round_no as int) is Some,
        spec_base_risk(o) >= BASE_RISK_ENTER,
    ensures
        spec_advance(o, events, previous, clear) == (StrategyState::Emergency, ZERO_COUNTER),
{
}

} // verus!
