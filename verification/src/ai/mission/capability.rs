use vstd::prelude::*;

use crate::collections::{first_where, is_first, lemma_first_where_at, lemma_first_where_none};
use crate::domain::{MissionCapability, MissionSpec, Observation, Role, find_role, role_by_id};
use crate::rules::constants::NO_HEALTH;
use crate::text::str_eq;

verus! {

/// Why a unit cannot take a mission.
#[derive(Clone, Copy, Debug, PartialEq, Eq, Structural)]
pub enum CapabilityRejection {
    AssigneeMissing,
    HealthUnknown,
    AssigneeDead,
    MissingCapability(MissionCapability),
}

/// What a kind of unit can do: a worker gathers, sells, builds and operates
/// weapons; a pioneer solves challenges and operates weapons; nothing else
/// can take missions.
pub open spec fn spec_capabilities(kind: Seq<char>) -> Seq<MissionCapability> {
    if kind == "worker"@ {
        seq![MissionCapability::Gather, MissionCapability::Sell, MissionCapability::Build, MissionCapability::OperateWeapon]
    } else if kind == "pioneer"@ {
        seq![MissionCapability::SolveChallenge, MissionCapability::OperateWeapon]
    } else {
        Seq::empty()
    }
}

/// Why the unit cannot take the mission, if it cannot: it is not in the
/// frame, its health is unknown, it is dead, or it lacks the first required
/// capability (in the mission's order) that its kind does not have.
pub open spec fn assignment_rejection(o: Observation, assignee: i64, spec: MissionSpec) -> Option<CapabilityRejection> {
    match role_by_id(o.team_our.roles@, assignee) {
        None => Some(CapabilityRejection::AssigneeMissing),
        Some(role) => match role.health {
            None => Some(CapabilityRejection::HealthUnknown),
            Some(hp) => if hp <= NO_HEALTH {
                Some(CapabilityRejection::AssigneeDead)
            } else {
                match first_where(spec.spec_capabilities(), |c: MissionCapability| !spec_capabilities(role.role_type@).contains(c)) {
                    Some(c) => Some(CapabilityRejection::MissingCapability(c)),
                    None => None,
                }
            },
        },
    }
}

/// The capabilities of a unit's kind.
pub fn role_capabilities(role: &Role) -> (r: Vec<MissionCapability>)
    ensures
        r@ == spec_capabilities(role.role_type@),
{
    if str_eq(role.role_type.as_str(), "worker") {
        let v = vec![MissionCapability::Gather, MissionCapability::Sell, MissionCapability::Build, MissionCapability::OperateWeapon];
        assert(v@ =~= seq![MissionCapability::Gather, MissionCapability::Sell, MissionCapability::Build, MissionCapability::OperateWeapon]);
        v
    } else if str_eq(role.role_type.as_str(), "pioneer") {
        let v = vec![MissionCapability::SolveChallenge, MissionCapability::OperateWeapon];
        assert(v@ =~= seq![MissionCapability::SolveChallenge, MissionCapability::OperateWeapon]);
        v
    } else {
        Vec::new()
    }
}

fn has_capability(available: &Vec<MissionCapability>, c: MissionCapability) -> (r: bool)
    ensures
        r == available@.contains(c),
{
    let mut i: usize = 0;
    while i < available.len()
        invariant
            i <= available@.len(),
            forall|j: int| 0 <= j < i ==> available@[j] != c,
        decreases available@.len() - i,
    {
        if available[i] == c {
            return true;
        }
        i = i + 1;
    }
    false
}

fn check_health(role: &Role) -> (r: Result<(), CapabilityRejection>)
    ensures
        match role.health {
            None => r == Err::<(), CapabilityRejection>(CapabilityRejection::HealthUnknown),
            Some(hp) => if hp <= NO_HEALTH { r == Err::<(), CapabilityRejection>(CapabilityRejection::AssigneeDead) } else { r is Ok },
        },
{
    match role.health {
        Some(hp) => if hp > NO_HEALTH { Ok(()) } else { Err(CapabilityRejection::AssigneeDead) },
        None => Err(CapabilityRejection::HealthUnknown),
    }
}

/// Checks that a unit can take a mission.
pub fn check_assignment(observation: &Observation, assignee: i64, spec: &MissionSpec) -> (r: Result<(), CapabilityRejection>)
    ensures
        match assignment_rejection(*observation, assignee, *spec) {
            Some(e) => r == Err::<(), CapabilityRejection>(e),
            None => r is Ok,
        },
{
    let role = match find_role(&observation.team_our.roles, assignee) {
        Some(i) => &observation.team_our.roles[i],
        None => return Err(CapabilityRejection::AssigneeMissing),
    };
    check_health(role)?;
    let available = role_capabilities(role);
    let required = spec.required_capabilities();
    let ghost p = |c: MissionCapability| !spec_capabilities(role.role_type@).contains(c);
    let mut i: usize = 0;
    while i < required.len()
        invariant
            i <= required@.len(),
            required@ == spec.spec_capabilities(),
            available@ == spec_capabilities(role.role_type@),
            role_by_id(observation.team_our.roles@, assignee) == Some(*role),
            role.health matches Some(hp) && hp > NO_HEALTH,
            p == (|c: MissionCapability| !spec_capabilities(role.role_type@).contains(c)),
            forall|j: int| 0 <= j < i ==> !p(#[trigger] required@[j]),
        decreases required@.len() - i,
    {
        if !has_capability(&available, required[i]) {
            proof {
                assert(is_first(required@, p, i as int));
                lemma_first_where_at(required@, p, i as int);
            }
            return Err(CapabilityRejection::MissingCapability(required[i]));
        }
        i = i + 1;
    }
    proof { lemma_first_where_none(required@, p); }
    Ok(())
}

} // verus!
