use vstd::prelude::*;

use super::constants::{DAY_ROUNDS, FIRST_ROUND, MATCH_ROUNDS, NIGHT_ROUNDS, ROUND_OFFSET};

verus! {

/// Half of a day/night cycle.
#[derive(Clone, Copy, Debug, PartialEq, Eq, Structural)]
pub enum Phase {
    Day,
    Night,
}

/// Length of one full day/night cycle.
pub open spec fn cycle() -> int {
    DAY_ROUNDS + NIGHT_ROUNDS
}

/// Position of a round inside its cycle (0 is the first day round).
pub open spec fn slot(round: int) -> int {
    (round - ROUND_OFFSET) % cycle()
}

pub open spec fn in_match(round: int) -> bool {
    FIRST_ROUND <= round <= MATCH_ROUNDS
}

/// The phase of a round inside the match.
pub open spec fn spec_phase(round: int) -> Option<Phase> {
    if in_match(round) {
        Some(if slot(round) < DAY_ROUNDS { Phase::Day } else { Phase::Night })
    } else {
        None
    }
}

/// The first night round strictly after `round`'s day part, or the next
/// cycle's first night round when `round` is already at night.
pub open spec fn spec_next_night(round: int) -> int {
    if slot(round) < DAY_ROUNDS {
        round + (DAY_ROUNDS - slot(round))
    } else {
        round + (cycle() - slot(round) + DAY_ROUNDS)
    }
}

/// The first round of the next cycle.
pub open spec fn spec_next_day(round: int) -> int {
    round + (cycle() - slot(round))
}

/// One-based number of the day that holds `round`.
pub open spec fn spec_day_number(round: int) -> Option<int> {
    if in_match(round) {
        Some((round - ROUND_OFFSET) / cycle() + FIRST_ROUND)
    } else {
        None
    }
}

fn cycle_slot(round: i32) -> (s: i32)
    ensures
        s == slot(round as int),
        0 <= s < cycle(),
{
    let shifted: i64 = round as i64 - ROUND_OFFSET as i64;
    let length: i64 = (DAY_ROUNDS + NIGHT_ROUNDS) as i64;
    if shifted >= 0 {
        let r: i64 = shifted % length;
        return r as i32;
    }
    let m: i64 = (-shifted) % length;
    let s: i64 = if m == 0 { 0 } else { length - m };
    proof {
        let a = -(shifted as int);
        let q = a / cycle();
        vstd::arithmetic::div_mod::lemma_fundamental_div_mod(a, cycle());
        assert(a == q * cycle() + m);
        if m == 0 {
            assert(shifted as int == (-q) * cycle() + 0) by (nonlinear_arith)
                requires a == q * cycle() + m, m == 0, a == -(shifted as int);
            vstd::arithmetic::div_mod::lemma_fundamental_div_mod_converse(
                shifted as int, cycle(), -q, 0);
        } else {
            assert(shifted as int == (-q - 1) * cycle() + (cycle() - m)) by (nonlinear_arith)
                requires a == q * cycle() + m, a == -(shifted as int);
            vstd::arithmetic::div_mod::lemma_fundamental_div_mod_converse(
                shifted as int, cycle(), -q - 1, cycle() - m);
        }
    }
    s as i32
}

/// Day or night for a round of the match; `None` outside the match.
pub fn phase(round: i32) -> (r: Option<Phase>)
    ensures
        r == spec_phase(round as int),
{
    if round < FIRST_ROUND || round > MATCH_ROUNDS {
        return None;
    }
    let s = cycle_slot(round);
    Some(if s < DAY_ROUNDS { Phase::Day } else { Phase::Night })
}

/// First round of the coming night; `None` when it does not fit an `i32`.
pub fn next_night(round: i32) -> (r: Option<i32>)
    ensures
        r matches Some(n) ==> n == spec_next_night(round as int),
        r is None <==> spec_next_night(round as int) > i32::MAX,
{
    let s = cycle_slot(round);
    let delta: i32 = if s < DAY_ROUNDS {
        DAY_ROUNDS - s
    } else {
        DAY_ROUNDS + NIGHT_ROUNDS - s + DAY_ROUNDS
    };
    round.checked_add(delta)
}

/// First round of the coming day; `None` when it does not fit an `i32`.
pub fn next_day(round: i32) -> (r: Option<i32>)
    ensures
        r matches Some(n) ==> n == spec_next_day(round as int),
        r is None <==> spec_next_day(round as int) > i32::MAX,
{
    let s = cycle_slot(round);
    let delta: i32 = DAY_ROUNDS + NIGHT_ROUNDS - s;
    round.checked_add(delta)
}

/// Day number of a round of the match; `None` outside the match.
pub fn day_number(round: i32) -> (r: Option<i32>)
    ensures
        r is Some <==> spec_day_number(round as int) is Some,
        r matches Some(d) ==> d == spec_day_number(round as int)->0,
{
    if round < FIRST_ROUND || round > MATCH_ROUNDS {
        return None;
    }
    Some((round - ROUND_OFFSET) / (DAY_ROUNDS + NIGHT_ROUNDS) + FIRST_ROUND)
}

/// The phase repeats with the cycle length inside the match.
pub proof fn lemma_phase_periodic(round: int)
    requires
        in_match(round),
        in_match(round + cycle()),
    ensures
        spec_phase(round + cycle()) == spec_phase(round),
{
    assert(slot(round + cycle()) == slot(round)) by {
        vstd::arithmetic::div_mod::lemma_mod_add_multiples_vanish(round - ROUND_OFFSET, cycle());
    }
}

/// The coming night starts after `round`, at a night round, and every round
/// in between is a day round.
pub proof fn lemma_next_night_is_first_night(round: int)
    requires
        in_match(round),
        in_match(spec_next_night(round)),
    ensures
        spec_next_night(round) > round,
        spec_phase(spec_next_night(round)) == Some(Phase::Night),
        slot(spec_next_night(round)) == DAY_ROUNDS,
{
    let s = slot(round);
    let n = spec_next_night(round);
    if s < DAY_ROUNDS {
        assert(n - ROUND_OFFSET == (round - ROUND_OFFSET) + (DAY_ROUNDS - s));
        vstd::arithmetic::div_mod::lemma_fundamental_div_mod(round - ROUND_OFFSET, cycle());
        let q = (round - ROUND_OFFSET) / cycle();
        assert(n - ROUND_OFFSET == q * cycle() + DAY_ROUNDS);
        vstd::arithmetic::div_mod::lemma_fundamental_div_mod_converse(
            n - ROUND_OFFSET,
            cycle(),
            q,
            DAY_ROUNDS as int,
        );
    } else {
        vstd::arithmetic::div_mod::lemma_fundamental_div_mod(round - ROUND_OFFSET, cycle());
        let q = (round - ROUND_OFFSET) / cycle();
        assert(n - ROUND_OFFSET == (q + 1) * cycle() + DAY_ROUNDS) by (nonlinear_arith)
            requires
                n - ROUND_OFFSET == (round - ROUND_OFFSET) + (cycle() - s + DAY_ROUNDS),
                round - ROUND_OFFSET == q * cycle() + s,
        ;
        vstd::arithmetic::div_mod::lemma_fundamental_div_mod_converse(
            n - ROUND_OFFSET,
            cycle(),
            q + 1,
            DAY_ROUNDS as int,
        );
    }
}

/// The coming night comes after `round`, at most a cycle later.
pub proof fn law_next_night_within_a_cycle(round: int)
    ensures
        0 < spec_next_night(round) - round <= cycle(),
{
    vstd::arithmetic::div_mod::lemma_fundamental_div_mod(round - ROUND_OFFSET, cycle());
}

/// The coming night is the least later night: no round strictly between
/// `round` and it starts a night.
pub proof fn law_next_night_is_least(round: int, m: int)
    requires
        round < m < spec_next_night(round),
    ensures
        slot(m) != DAY_ROUNDS,
{
    let c = cycle();
    let s = slot(round);
    let d = m - round;
    vstd::arithmetic::div_mod::lemma_fundamental_div_mod(round - ROUND_OFFSET, c);
    let q = (round - ROUND_OFFSET) / c;
    assert(0 <= s < c);
    if s < DAY_ROUNDS {
        vstd::arithmetic::div_mod::lemma_fundamental_div_mod_converse(m - ROUND_OFFSET, c, q, s + d);
    } else if s + d < c {
        vstd::arithmetic::div_mod::lemma_fundamental_div_mod_converse(m - ROUND_OFFSET, c, q, s + d);
    } else {
        assert(m - ROUND_OFFSET == (q + 1) * c + (s + d - c)) by (nonlinear_arith)
            requires
                m - ROUND_OFFSET == (round - ROUND_OFFSET) + d,
                round - ROUND_OFFSET == q * c + s,
        ;
        vstd::arithmetic::div_mod::lemma_fundamental_div_mod_converse(m - ROUND_OFFSET, c, q + 1, s + d - c);
    }
}

} // verus!
