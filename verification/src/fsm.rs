use vstd::prelude::*;

use crate::rules::time::Phase;

verus! {

#[derive(Clone, Copy, Debug, PartialEq, Eq, Structural)]
pub enum WorldState {
    ColdStart,
    Ready,
    Degraded,
    Closed,
}

#[derive(Clone, Copy, Debug, PartialEq, Eq, Structural)]
pub enum StrategyState {
    Bootstrap,
    DayDevelop,
    PrepareNight,
    NightDefend,
    Emergency,
    Endgame,
    Finished,
}

#[derive(Clone, Copy, Debug, PartialEq, Eq, Structural)]
pub enum MissionState {
    Proposed,
    Ready,
    Assigned,
    Executing,
    Blocked,
    Suspended,
    Succeeded,
    Failed,
    Cancelled,
    Expired,
}

#[derive(Clone, Copy, Debug, PartialEq, Eq, Structural)]
pub enum TacticalState {
    Plan,
    Approach,
    Position,
    Execute,
    Evaluate,
    Replan,
    Hold,
    Retreat,
    Completed,
    Failed,
    Cancelled,
}

#[derive(Clone, Copy, Debug, PartialEq, Eq, Structural)]
pub enum IndividualState {
    Idle,
    Moving,
    Interacting,
    OperatingWeapon,
    WaitingResult,
    Recovering,
    Dead,
}

/// The strategy outside emergencies: endgame wins, then night defence,
/// then preparing for the night when units must head back, else developing.
pub open spec fn spec_normal_strategy(phase: Phase, return_due: bool, endgame: bool) -> StrategyState {
    if endgame {
        StrategyState::Endgame
    } else {
        match phase {
            Phase::Night => StrategyState::NightDefend,
            Phase::Day => if return_due { StrategyState::PrepareNight } else { StrategyState::DayDevelop },
        }
    }
}

pub fn normal_strategy(phase: Phase, return_due: bool, endgame: bool) -> (r: StrategyState)
    ensures
        r == spec_normal_strategy(phase, return_due, endgame),
{
    if endgame {
        return StrategyState::Endgame;
    }
    match phase {
        Phase::Night => StrategyState::NightDefend,
        Phase::Day => if return_due { StrategyState::PrepareNight } else { StrategyState::DayDevelop },
    }
}

} // verus!
