use vstd::prelude::*;

use crate::domain::{
    DeadlineKind, MissionDeadline, MissionSpec, Observation, Pos, challenge_terms, construction_terms,
    defense_terms, economy_terms, same_except_deadline,
};
use crate::rules::constants::{ANSWER_MARGIN_ROUNDS, MIN_ACTION_ROUNDS};
use crate::rules::time::{next_day, next_night, spec_next_day, spec_next_night};

verus! {

/// The last round in which an action submitted today still takes effect
/// before nightfall.
pub open spec fn day_submission_round(round: int) -> Option<int> {
    if spec_next_night(round) > i32::MAX || spec_next_night(round) - MIN_ACTION_ROUNDS < i32::MIN {
        None
    } else {
        Some(spec_next_night(round) - MIN_ACTION_ROUNDS)
    }
}

pub open spec fn submission_deadline(round: int) -> MissionDeadline {
    MissionDeadline { at_round: round as i32, inclusive: true, kind: DeadlineKind::ActionSubmission }
}

/// The contract with the deadline attached when there is one; everything
/// else unchanged.
pub open spec fn with_optional_deadline(r: MissionSpec, base: MissionSpec, deadline: Option<MissionDeadline>) -> bool {
    &&& same_except_deadline(r, base)
    &&& r.spec_deadline() == (if deadline is Some { deadline } else { base.spec_deadline() })
    &&& r.spec_dependency_seq() == base.spec_dependency_seq()
    &&& (base.well_formed() ==> r.well_formed())
}

fn attach(spec: MissionSpec, deadline: Option<MissionDeadline>) -> (r: MissionSpec)
    requires
        spec.well_formed(),
    ensures
        with_optional_deadline(r, spec, deadline),
{
    proof { crate::domain::lemma_same_contract_reflexive(spec); }
    match deadline {
        Some(d) => spec.with_deadline(d),
        None => spec,
    }
}

fn day_submission_deadline(observation: &Observation) -> (r: Option<MissionDeadline>)
    ensures
        match day_submission_round(observation.round_no as int) {
            Some(round) => r == Some(submission_deadline(round)),
            None => r is None,
        },
{
    let night = next_night(observation.round_no)?;
    let round = night.checked_sub(MIN_ACTION_ROUNDS)?;
    Some(MissionDeadline::new(round, true, DeadlineKind::ActionSubmission))
}

/// An economy cycle due before the coming night.
pub fn economy_spec(observation: &Observation) -> (r: MissionSpec)
    ensures
        r.well_formed(),
        economy_terms(r),
        r.spec_deadline() == match day_submission_round(observation.round_no as int) {
            Some(round) => Some(submission_deadline(round)),
            None => None,
        },
{
    let spec = MissionSpec::economy();
    attach(spec, day_submission_deadline(observation))
}

/// A building due before the coming night.
pub fn construction_spec(observation: &Observation, site: Pos, building: &str) -> (r: MissionSpec)
    ensures
        r.well_formed(),
        construction_terms(r, site, building@),
        r.spec_deadline() == match day_submission_round(observation.round_no as int) {
            Some(round) => Some(submission_deadline(round)),
            None => None,
        },
{
    let spec = MissionSpec::construction(site, building);
    attach(spec, day_submission_deadline(observation))
}

/// A challenge due before the coming night, and earlier when the task's
/// own time limit, less the answer margin, ends first.
pub fn challenge_spec(observation: &Observation, timeout_rounds: Option<i32>) -> (r: MissionSpec)
    ensures
        r.well_formed(),
        challenge_terms(r),
        r.spec_deadline() == (match day_submission_round(observation.round_no as int) {
            None => None,
            Some(day) => Some(submission_deadline(match timeout_rounds {
                Some(t) => {
                    let relative = observation.round_no + t - ANSWER_MARGIN_ROUNDS;
                    if observation.round_no + t > i32::MAX || observation.round_no + t < i32::MIN
                        || relative < i32::MIN || relative > i32::MAX || relative >= day {
                        day
                    } else {
                        relative
                    }
                },
                None => day,
            })),
        }),
{
    let day = day_submission_deadline(observation);
    let relative = match timeout_rounds {
        Some(timeout) => match observation.round_no.checked_add(timeout) {
            Some(end) => end.checked_sub(ANSWER_MARGIN_ROUNDS),
            None => None,
        },
        None => None,
    };
    let deadline = match day {
        Some(day) => {
            let round = match relative {
                Some(rel) => if rel < day.at_round() { rel } else { day.at_round() },
                None => day.at_round(),
            };
            Some(MissionDeadline::new(round, true, DeadlineKind::ActionSubmission))
        },
        None => None,
    };
    attach(MissionSpec::challenge(), deadline)
}

/// Guarding a weapon until the next day begins, observed by its effect.
pub fn defense_spec(observation: &Observation, weapon: i64) -> (r: MissionSpec)
    ensures
        r.well_formed(),
        defense_terms(r, weapon),
        r.spec_deadline() == (if spec_next_day(observation.round_no as int) > i32::MAX {
            None
        } else {
            Some(MissionDeadline { at_round: spec_next_day(observation.round_no as int) as i32, inclusive: true, kind: DeadlineKind::EffectObservation })
        }),
{
    let deadline = match next_day(observation.round_no) {
        Some(round) => Some(MissionDeadline::new(round, true, DeadlineKind::EffectObservation)),
        None => None,
    };
    attach(MissionSpec::defense(weapon), deadline)
}

} // verus!
