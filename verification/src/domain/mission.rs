use vstd::prelude::*;

use super::{MissionId, Pos};
use crate::collections::{MapKey, SortedMap};
use crate::rules::constants::MAX_LOCAL_REPLANS;

verus! {

#[derive(Clone, Copy, Debug, PartialEq, Eq, Structural)]
pub enum MissionKind {
    GatherAndSell,
    Construct,
    Challenge,
    DefendSector,
}

/// What a mission is about; two missions of one kind differ by target.
#[derive(Clone, Copy, Debug, PartialEq, Eq, Structural)]
pub enum ObjectiveKey {
    EconomyCycle,
    ConstructionSite(Pos),
    ChallengeSession,
    DefenseWeapon(i64),
}

/// The observable condition that completes a mission.
#[derive(Debug)]
pub enum GoalPredicate {
    EconomyCycleCompleted,
    BuildingPresent { kind: String, site: Pos },
    ChallengeResolved,
    DefenseWindowCompleted { weapon: i64 },
    AllOf(Vec<GoalPredicate>),
}

#[derive(Clone, Copy, Debug, PartialEq, Eq, Structural)]
pub enum MissionCapability {
    Gather,
    Sell,
    Build,
    SolveChallenge,
    OperateWeapon,
}

#[derive(Clone, Copy, Debug, PartialEq, Eq, Structural)]
pub enum PriorityClass {
    Q0Preserve,
    Q1Defense,
    Q2Deadline,
    Q3Economy,
    Q4Opportunity,
}

#[derive(Clone, Copy, Debug, PartialEq, Eq, Structural)]
pub enum Interruptibility {
    SuspendAndResume,
    CancelOnly,
    FinishCurrentStep,
}

/// What a deadline bounds: sending the goal action, observing its effect,
/// or internal planning.
#[derive(Clone, Copy, Debug, PartialEq, Eq, Structural)]
pub enum DeadlineKind {
    ActionSubmission,
    EffectObservation,
    InternalPlanning,
}

#[derive(Clone, Copy, Debug, PartialEq, Eq, Structural)]
pub struct MissionDeadline {
    pub at_round: i32,
    pub inclusive: bool,
    pub kind: DeadlineKind,
}

/// A round is past the deadline when it is after it, or at it for an
/// exclusive deadline.
pub open spec fn spec_is_expired(deadline: MissionDeadline, round: int) -> bool {
    if deadline.inclusive {
        round > deadline.at_round
    } else {
        round >= deadline.at_round
    }
}

impl MissionDeadline {
    pub fn new(at_round: i32, inclusive: bool, kind: DeadlineKind) -> (r: Self)
        ensures
            r == (MissionDeadline { at_round, inclusive, kind }),
    {
        Self { at_round, inclusive, kind }
    }

    pub fn at_round(self) -> (r: i32)
        ensures
            r == self.at_round,
    {
        self.at_round
    }

    pub fn inclusive(self) -> (r: bool)
        ensures
            r == self.inclusive,
    {
        self.inclusive
    }

    pub fn kind(self) -> (r: DeadlineKind)
        ensures
            r == self.kind,
    {
        self.kind
    }

    pub fn is_expired(self, round: i32) -> (r: bool)
        ensures
            r == spec_is_expired(self, round as int),
    {
        if self.inclusive {
            round > self.at_round
        } else {
            round >= self.at_round
        }
    }
}

/// How many rejected attempts a mission tolerates.
#[derive(Clone, Copy, Debug, PartialEq, Eq, Structural)]
pub struct RetryPolicy {
    pub max_replans: u8,
}

impl RetryPolicy {
    pub fn bounded(max_replans: u8) -> (r: Self)
        ensures
            r.max_replans == max_replans,
    {
        Self { max_replans }
    }

    pub fn max_replans(self) -> (r: u8)
        ensures
            r == self.max_replans,
    {
        self.max_replans
    }
}

/// Structural equality of goals, strings compared by their characters.
pub open spec fn goal_eq(a: GoalPredicate, b: GoalPredicate) -> bool
    decreases a,
{
    match (a, b) {
        (GoalPredicate::EconomyCycleCompleted, GoalPredicate::EconomyCycleCompleted) => true,
        (GoalPredicate::BuildingPresent { kind: k1, site: s1 }, GoalPredicate::BuildingPresent { kind: k2, site: s2 }) =>
            k1@ == k2@ && s1 == s2,
        (GoalPredicate::ChallengeResolved, GoalPredicate::ChallengeResolved) => true,
        (GoalPredicate::DefenseWindowCompleted { weapon: w1 }, GoalPredicate::DefenseWindowCompleted { weapon: w2 }) =>
            w1 == w2,
        (GoalPredicate::AllOf(v1), GoalPredicate::AllOf(v2)) =>
            v1@.len() == v2@.len() && forall|i: int| 0 <= i < v1@.len() ==> goal_eq(#[trigger] v1@[i], v2@[i]),
        _ => false,
    }
}

pub proof fn lemma_goal_eq_reflexive(a: GoalPredicate)
    ensures
        goal_eq(a, a),
    decreases a,
{
    if let GoalPredicate::AllOf(v) = a {
        assert forall|i: int| 0 <= i < v@.len() implies goal_eq(#[trigger] v@[i], v@[i]) by {
            lemma_goal_eq_reflexive(v@[i]);
        }
    }
}

/// Structural equality of two goals.
#[verifier::loop_isolation(false)]
pub fn same_goal(a: &GoalPredicate, b: &GoalPredicate) -> (r: bool)
    ensures
        r == goal_eq(*a, *b),
    decreases a,
{
    match (a, b) {
        (GoalPredicate::EconomyCycleCompleted, GoalPredicate::EconomyCycleCompleted) => true,
        (GoalPredicate::BuildingPresent { kind: k1, site: s1 }, GoalPredicate::BuildingPresent { kind: k2, site: s2 }) =>
            crate::text::str_eq(k1.as_str(), k2.as_str()) && *s1 == *s2,
        (GoalPredicate::ChallengeResolved, GoalPredicate::ChallengeResolved) => true,
        (GoalPredicate::DefenseWindowCompleted { weapon: w1 }, GoalPredicate::DefenseWindowCompleted { weapon: w2 }) =>
            *w1 == *w2,
        (GoalPredicate::AllOf(v1), GoalPredicate::AllOf(v2)) => {
            if v1.len() != v2.len() {
                return false;
            }
            let mut i: usize = 0;
            while i < v1.len()
                invariant
                    i <= v1@.len(),
                    v1@.len() == v2@.len(),
                    forall|j: int| 0 <= j < i ==> goal_eq(#[trigger] v1@[j], v2@[j]),
                decreases v1@.len() - i,
            {
                proof {
                    assert(decreases_to!(*a => *v1));
                    assert(decreases_to!(*v1 => v1@));
                    assert(decreases_to!(v1@ => v1@[i as int]));
                }
                if !same_goal(&v1[i], &v2[i]) {
                    return false;
                }
                i = i + 1;
            }
            true
        },
        _ => false,
    }
}

/// A structurally equal copy of a goal.
#[verifier::loop_isolation(false)]
pub fn clone_goal(g: &GoalPredicate) -> (r: GoalPredicate)
    ensures
        goal_eq(r, *g),
    decreases g,
{
    match g {
        GoalPredicate::EconomyCycleCompleted => GoalPredicate::EconomyCycleCompleted,
        GoalPredicate::BuildingPresent { kind, site } => GoalPredicate::BuildingPresent { kind: kind.clone(), site: *site },
        GoalPredicate::ChallengeResolved => GoalPredicate::ChallengeResolved,
        GoalPredicate::DefenseWindowCompleted { weapon } => GoalPredicate::DefenseWindowCompleted { weapon: *weapon },
        GoalPredicate::AllOf(v) => {
            let mut out: Vec<GoalPredicate> = Vec::new();
            let mut i: usize = 0;
            while i < v.len()
                invariant
                    i <= v@.len(),
                    out@.len() == i,
                    forall|j: int| 0 <= j < i ==> goal_eq(#[trigger] out@[j], v@[j]),
                decreases v@.len() - i,
            {
                proof {
                    assert(decreases_to!(*g => *v));
                    assert(decreases_to!(*v => v@));
                    assert(decreases_to!(v@ => v@[i as int]));
                }
                out.push(clone_goal(&v[i]));
                i = i + 1;
            }
            GoalPredicate::AllOf(out)
        },
    }
}

impl Clone for GoalPredicate {
    fn clone(&self) -> (r: Self)
        ensures
            goal_eq(r, *self),
    {
        clone_goal(self)
    }
}

/// The full contract of a mission: what it is for, how it completes, what
/// it waits for, who can run it, until when, and how it may be interrupted.
#[derive(Debug)]
pub struct MissionSpec {
    kind: MissionKind,
    objective: ObjectiveKey,
    goal: GoalPredicate,
    dependencies: SortedMap<MissionId, ()>,
    required_capabilities: Vec<MissionCapability>,
    deadline: Option<MissionDeadline>,
    priority: PriorityClass,
    interruptibility: Interruptibility,
    retry_policy: RetryPolicy,
}

/// Two contracts agree on everything but, perhaps, the deadline.
pub open spec fn same_except_deadline(a: MissionSpec, b: MissionSpec) -> bool {
    &&& a.spec_kind() == b.spec_kind()
    &&& a.spec_objective() == b.spec_objective()
    &&& goal_eq(a.spec_goal(), b.spec_goal())
    &&& a.spec_dependencies() == b.spec_dependencies()
    &&& a.spec_capabilities() == b.spec_capabilities()
    &&& a.spec_priority() == b.spec_priority()
    &&& a.spec_interruptibility() == b.spec_interruptibility()
    &&& a.spec_retry_policy() == b.spec_retry_policy()
}

/// Two contracts are the same contract.
pub open spec fn same_contract(a: MissionSpec, b: MissionSpec) -> bool {
    same_except_deadline(a, b) && a.spec_deadline() == b.spec_deadline()
}

/// Each prerequisite listed in order is one of the contract's
/// prerequisites.
pub proof fn lemma_dependency_seq_members(spec: MissionSpec)
    requires
        spec.well_formed(),
    ensures
        forall|i: int| 0 <= i < spec.spec_dependency_seq().len() ==> spec.spec_dependencies().contains(#[trigger] spec.spec_dependency_seq()[i]),
{
    spec.dependencies.lemma_view();
    assert forall|i: int| 0 <= i < spec.spec_dependency_seq().len() implies spec.spec_dependencies().contains(#[trigger] spec.spec_dependency_seq()[i]) by {
        assert(spec.spec_dependency_seq()[i] == spec.dependencies.entries()[i].0);
    }
}

/// Each of the contract's prerequisites is listed in order.
pub proof fn lemma_dependency_seq_covers(spec: MissionSpec, d: MissionId)
    requires
        spec.well_formed(),
        spec.spec_dependencies().contains(d),
    ensures
        exists|i: int| 0 <= i < spec.spec_dependency_seq().len() && spec.spec_dependency_seq()[i] == d,
{
    spec.dependencies.lemma_view();
    let i = choose|i: int| 0 <= i < spec.dependencies.entries().len() && spec.dependencies.entries()[i].0 == d;
    assert(spec.spec_dependency_seq()[i] == d);
}

pub proof fn lemma_same_contract_reflexive(a: MissionSpec)
    ensures
        same_contract(a, a),
{
    lemma_goal_eq_reflexive(a.spec_goal());
}

fn push_unique(deps: &mut SortedMap<MissionId, ()>, id: MissionId)
    requires
        old(deps).well_formed(),
    ensures
        final(deps).well_formed(),
        final(deps).view().dom() == old(deps).view().dom().insert(id),
{
    deps.insert(id, ());
    assert(deps.view().dom() =~= old(deps).view().dom().insert(id));
}

impl MissionSpec {
    pub closed spec fn spec_kind(self) -> MissionKind {
        self.kind
    }

    pub closed spec fn spec_objective(self) -> ObjectiveKey {
        self.objective
    }

    pub closed spec fn spec_goal(self) -> GoalPredicate {
        self.goal
    }

    /// The missions this one waits for.
    pub closed spec fn spec_dependencies(self) -> Set<MissionId> {
        self.dependencies.view().dom()
    }

    pub closed spec fn spec_dependency_seq(self) -> Seq<MissionId> {
        self.dependencies.key_seq()
    }

    pub closed spec fn spec_capabilities(self) -> Seq<MissionCapability> {
        self.required_capabilities@
    }

    pub closed spec fn spec_deadline(self) -> Option<MissionDeadline> {
        self.deadline
    }

    pub closed spec fn spec_priority(self) -> PriorityClass {
        self.priority
    }

    pub closed spec fn spec_interruptibility(self) -> Interruptibility {
        self.interruptibility
    }

    pub closed spec fn spec_retry_policy(self) -> RetryPolicy {
        self.retry_policy
    }

    pub closed spec fn well_formed(self) -> bool {
        &&& self.dependencies.well_formed()
        &&& self.spec_dependencies().finite()
    }

    fn new(
        kind: MissionKind,
        objective: ObjectiveKey,
        goal: GoalPredicate,
        required_capabilities: Vec<MissionCapability>,
        priority: PriorityClass,
        interruptibility: Interruptibility,
    ) -> (r: Self)
        ensures
            r.well_formed(),
            r.spec_kind() == kind,
            r.spec_objective() == objective,
            r.spec_goal() == goal,
            r.spec_dependencies() == Set::<MissionId>::empty(),
            r.spec_capabilities() == required_capabilities@,
            r.spec_deadline() is None,
            r.spec_priority() == priority,
            r.spec_interruptibility() == interruptibility,
            r.spec_retry_policy() == (RetryPolicy { max_replans: MAX_LOCAL_REPLANS }),
    {
        let dependencies: SortedMap<MissionId, ()> = SortedMap::new();
        proof { dependencies.lemma_view(); }
        assert(dependencies.view().dom() =~= Set::<MissionId>::empty());
        Self {
            kind,
            objective,
            goal,
            dependencies,
            required_capabilities,
            deadline: None,
            priority,
            interruptibility,
            retry_policy: RetryPolicy::bounded(MAX_LOCAL_REPLANS),
        }
    }

    /// Gather ore and sell it.
    pub fn economy() -> (r: Self)
        ensures
            r.well_formed(),
            r.spec_kind() == MissionKind::GatherAndSell,
            r.spec_objective() == ObjectiveKey::EconomyCycle,
            r.spec_goal() == GoalPredicate::EconomyCycleCompleted,
            r.spec_dependencies() == Set::<MissionId>::empty(),
            r.spec_capabilities() == seq![MissionCapability::Gather, MissionCapability::Sell],
            r.spec_deadline() is None,
            r.spec_priority() == PriorityClass::Q3Economy,
            r.spec_interruptibility() == Interruptibility::SuspendAndResume,
            r.spec_retry_policy() == (RetryPolicy { max_replans: MAX_LOCAL_REPLANS }),
    {
        let caps = vec![MissionCapability::Gather, MissionCapability::Sell];
        assert(caps@ =~= seq![MissionCapability::Gather, MissionCapability::Sell]);
        Self::new(
            MissionKind::GatherAndSell,
            ObjectiveKey::EconomyCycle,
            GoalPredicate::EconomyCycleCompleted,
            caps,
            PriorityClass::Q3Economy,
            Interruptibility::SuspendAndResume,
        )
    }

    /// Put a building of the given kind on a site.
    pub fn construction(site: Pos, building: &str) -> (r: Self)
        ensures
            r.well_formed(),
            r.spec_kind() == MissionKind::Construct,
            r.spec_objective() == ObjectiveKey::ConstructionSite(site),
            (r.spec_goal() matches GoalPredicate::BuildingPresent { kind, site: s } && kind@ == building@ && s == site),
            r.spec_dependencies() == Set::<MissionId>::empty(),
            r.spec_capabilities() == seq![MissionCapability::Build],
            r.spec_deadline() is None,
            r.spec_priority() == PriorityClass::Q1Defense,
            r.spec_interruptibility() == Interruptibility::FinishCurrentStep,
            r.spec_retry_policy() == (RetryPolicy { max_replans: MAX_LOCAL_REPLANS }),
    {
        let caps = vec![MissionCapability::Build];
        assert(caps@ =~= seq![MissionCapability::Build]);
        Self::new(
            MissionKind::Construct,
            ObjectiveKey::ConstructionSite(site),
            GoalPredicate::BuildingPresent { kind: building.to_owned(), site },
            caps,
            PriorityClass::Q1Defense,
            Interruptibility::FinishCurrentStep,
        )
    }

    /// Solve the current challenge task.
    pub fn challenge() -> (r: Self)
        ensures
            r.well_formed(),
            r.spec_kind() == MissionKind::Challenge,
            r.spec_objective() == ObjectiveKey::ChallengeSession,
            r.spec_goal() == GoalPredicate::ChallengeResolved,
            r.spec_dependencies() == Set::<MissionId>::empty(),
            r.spec_capabilities() == seq![MissionCapability::SolveChallenge],
            r.spec_deadline() is None,
            r.spec_priority() == PriorityClass::Q2Deadline,
            r.spec_interruptibility() == Interruptibility::CancelOnly,
            r.spec_retry_policy() == (RetryPolicy { max_replans: MAX_LOCAL_REPLANS }),
    {
        let caps = vec![MissionCapability::SolveChallenge];
        assert(caps@ =~= seq![MissionCapability::SolveChallenge]);
        Self::new(
            MissionKind::Challenge,
            ObjectiveKey::ChallengeSession,
            GoalPredicate::ChallengeResolved,
            caps,
            PriorityClass::Q2Deadline,
            Interruptibility::CancelOnly,
        )
    }

    /// Operate a weapon through the night.
    pub fn defense(weapon: i64) -> (r: Self)
        ensures
            r.well_formed(),
            r.spec_kind() == MissionKind::DefendSector,
            r.spec_objective() == ObjectiveKey::DefenseWeapon(weapon),
            r.spec_goal() == (GoalPredicate::DefenseWindowCompleted { weapon }),
            r.spec_dependencies() == Set::<MissionId>::empty(),
            r.spec_capabilities() == seq![MissionCapability::OperateWeapon],
            r.spec_deadline() is None,
            r.spec_priority() == PriorityClass::Q1Defense,
            r.spec_interruptibility() == Interruptibility::FinishCurrentStep,
            r.spec_retry_policy() == (RetryPolicy { max_replans: MAX_LOCAL_REPLANS }),
    {
        let caps = vec![MissionCapability::OperateWeapon];
        assert(caps@ =~= seq![MissionCapability::OperateWeapon]);
        Self::new(
            MissionKind::DefendSector,
            ObjectiveKey::DefenseWeapon(weapon),
            GoalPredicate::DefenseWindowCompleted { weapon },
            caps,
            PriorityClass::Q1Defense,
            Interruptibility::FinishCurrentStep,
        )
    }

    /// The same contract, waiting for exactly the given missions.
    pub fn with_dependencies(self, dependencies: &[MissionId]) -> (r: Self)
        requires
            self.well_formed(),
        ensures
            r.well_formed(),
            r.spec_dependencies() == dependencies@.to_set(),
            r.spec_kind() == self.spec_kind(),
            r.spec_objective() == self.spec_objective(),
            r.spec_goal() == self.spec_goal(),
            r.spec_capabilities() == self.spec_capabilities(),
            r.spec_deadline() == self.spec_deadline(),
            r.spec_priority() == self.spec_priority(),
            r.spec_interruptibility() == self.spec_interruptibility(),
            r.spec_retry_policy() == self.spec_retry_policy(),
    {
        let mut deps: SortedMap<MissionId, ()> = SortedMap::new();
        proof { deps.lemma_view(); }
        let mut i: usize = 0;
        while i < dependencies.len()
            invariant
                i <= dependencies@.len(),
                deps.well_formed(),
                deps.view().dom() == dependencies@.subrange(0, i as int).to_set(),
            decreases dependencies@.len() - i,
        {
            push_unique(&mut deps, dependencies[i]);
            proof {
                assert(dependencies@.subrange(0, i + 1) =~= dependencies@.subrange(0, i as int).push(dependencies@[i as int]));
                dependencies@.subrange(0, i as int).lemma_push_to_set_commute(dependencies@[i as int]);
            }
            i = i + 1;
        }
        assert(dependencies@.subrange(0, dependencies@.len() as int) =~= dependencies@);
        proof { deps.lemma_view(); }
        MissionSpec { dependencies: deps, ..self }
    }

    pub fn with_deadline(self, deadline: MissionDeadline) -> (r: Self)
        ensures
            r.spec_deadline() == Some(deadline),
            r.spec_kind() == self.spec_kind(),
            r.spec_objective() == self.spec_objective(),
            r.spec_goal() == self.spec_goal(),
            r.spec_dependencies() == self.spec_dependencies(),
            r.spec_dependency_seq() == self.spec_dependency_seq(),
            r.spec_capabilities() == self.spec_capabilities(),
            r.spec_priority() == self.spec_priority(),
            r.spec_interruptibility() == self.spec_interruptibility(),
            r.spec_retry_policy() == self.spec_retry_policy(),
            same_except_deadline(r, self),
            self.well_formed() ==> r.well_formed(),
    {
        proof { lemma_goal_eq_reflexive(self.spec_goal()); }
        MissionSpec { deadline: Some(deadline), ..self }
    }

    pub fn with_priority(self, priority: PriorityClass) -> (r: Self)
        ensures
            r.spec_priority() == priority,
            r.spec_kind() == self.spec_kind(),
            r.spec_objective() == self.spec_objective(),
            r.spec_goal() == self.spec_goal(),
            r.spec_dependencies() == self.spec_dependencies(),
            r.spec_dependency_seq() == self.spec_dependency_seq(),
            r.spec_capabilities() == self.spec_capabilities(),
            r.spec_deadline() == self.spec_deadline(),
            r.spec_interruptibility() == self.spec_interruptibility(),
            r.spec_retry_policy() == self.spec_retry_policy(),
            self.well_formed() ==> r.well_formed(),
    {
        MissionSpec { priority, ..self }
    }

    pub fn with_interruptibility(self, interruptibility: Interruptibility) -> (r: Self)
        ensures
            r.spec_interruptibility() == interruptibility,
            r.spec_kind() == self.spec_kind(),
            r.spec_objective() == self.spec_objective(),
            r.spec_goal() == self.spec_goal(),
            r.spec_dependencies() == self.spec_dependencies(),
            r.spec_dependency_seq() == self.spec_dependency_seq(),
            r.spec_capabilities() == self.spec_capabilities(),
            r.spec_deadline() == self.spec_deadline(),
            r.spec_priority() == self.spec_priority(),
            r.spec_retry_policy() == self.spec_retry_policy(),
            self.well_formed() ==> r.well_formed(),
    {
        MissionSpec { interruptibility, ..self }
    }

    pub fn with_retry_policy(self, retry_policy: RetryPolicy) -> (r: Self)
        ensures
            r.spec_retry_policy() == retry_policy,
            r.spec_kind() == self.spec_kind(),
            r.spec_objective() == self.spec_objective(),
            r.spec_goal() == self.spec_goal(),
            r.spec_dependencies() == self.spec_dependencies(),
            r.spec_dependency_seq() == self.spec_dependency_seq(),
            r.spec_capabilities() == self.spec_capabilities(),
            r.spec_deadline() == self.spec_deadline(),
            r.spec_priority() == self.spec_priority(),
            r.spec_interruptibility() == self.spec_interruptibility(),
            self.well_formed() ==> r.well_formed(),
    {
        MissionSpec { retry_policy, ..self }
    }

    pub fn kind(&self) -> (r: MissionKind)
        ensures
            r == self.spec_kind(),
    {
        self.kind
    }

    pub fn objective(&self) -> (r: ObjectiveKey)
        ensures
            r == self.spec_objective(),
    {
        self.objective
    }

    pub fn goal(&self) -> (r: &GoalPredicate)
        ensures
            *r == self.spec_goal(),
    {
        &self.goal
    }

    pub fn dependencies(&self) -> (r: &SortedMap<MissionId, ()>)
        ensures
            r.view().dom() == self.spec_dependencies(),
            r.key_seq() == self.spec_dependency_seq(),
            self.well_formed() ==> r.well_formed(),
    {
        &self.dependencies
    }

    pub fn required_capabilities(&self) -> (r: &Vec<MissionCapability>)
        ensures
            r@ == self.spec_capabilities(),
    {
        &self.required_capabilities
    }

    pub fn deadline(&self) -> (r: Option<MissionDeadline>)
        ensures
            r == self.spec_deadline(),
    {
        self.deadline
    }

    pub fn priority(&self) -> (r: PriorityClass)
        ensures
            r == self.spec_priority(),
    {
        self.priority
    }

    pub fn interruptibility(&self) -> (r: Interruptibility)
        ensures
            r == self.spec_interruptibility(),
    {
        self.interruptibility
    }

    pub fn retry_policy(&self) -> (r: RetryPolicy)
        ensures
            r == self.spec_retry_policy(),
    {
        self.retry_policy
    }

    fn same_dependencies(&self, other: &Self) -> (r: bool)
        requires
            self.well_formed(),
            other.well_formed(),
        ensures
            r == (self.spec_dependencies() == other.spec_dependencies()),
    {
        proof {
            self.dependencies.lemma_view();
            other.dependencies.lemma_view();
        }
        let n: usize = self.dependencies.len();
        if n != other.dependencies.len() {
            assert(self.spec_dependencies().len() != other.spec_dependencies().len());
            return false;
        }
        let mut i: usize = 0;
        while i < n
            invariant
                i <= n,
                n == self.dependencies.entries().len(),
                n == other.dependencies.entries().len(),
                self.dependencies.well_formed(),
                other.dependencies.well_formed(),
                forall|j: int| 0 <= j < i ==> self.dependencies.entries()[j].0 == other.dependencies.entries()[j].0,
            decreases n - i,
        {
            let (a, _) = self.dependencies.entry_at(i);
            let (b, _) = other.dependencies.entry_at(i);
            if *a != *b {
                proof {
                    lemma_sorted_keys_differ(self.dependencies, other.dependencies, i as int);
                }
                return false;
            }
            i = i + 1;
        }
        proof {
            assert(self.spec_dependencies() =~= other.spec_dependencies()) by {
                assert forall|m: MissionId| self.spec_dependencies().contains(m) implies other.spec_dependencies().contains(m) by {
                    let j = choose|j: int| 0 <= j < n && self.dependencies.entries()[j].0 == m;
                    assert(other.dependencies.entries()[j].0 == m);
                }
                assert forall|m: MissionId| other.spec_dependencies().contains(m) implies self.spec_dependencies().contains(m) by {
                    let j = choose|j: int| 0 <= j < n && other.dependencies.entries()[j].0 == m;
                    assert(self.dependencies.entries()[j].0 == m);
                }
            }
        }
        true
    }

    fn same_capabilities(&self, other: &Self) -> (r: bool)
        ensures
            r == (self.spec_capabilities() == other.spec_capabilities()),
    {
        if self.required_capabilities.len() != other.required_capabilities.len() {
            return false;
        }
        let mut i: usize = 0;
        while i < self.required_capabilities.len()
            invariant
                i <= self.required_capabilities@.len(),
                self.required_capabilities@.len() == other.required_capabilities@.len(),
                forall|j: int| 0 <= j < i ==> self.required_capabilities@[j] == other.required_capabilities@[j],
            decreases self.required_capabilities@.len() - i,
        {
            if self.required_capabilities[i] != other.required_capabilities[i] {
                return false;
            }
            i = i + 1;
        }
        assert(self.required_capabilities@ =~= other.required_capabilities@);
        true
    }

    /// Whether two contracts agree on everything but the deadline.
    pub fn matches_except_deadline(&self, other: &Self) -> (r: bool)
        requires
            self.well_formed(),
            other.well_formed(),
        ensures
            r == same_except_deadline(*self, *other),
    {
        self.kind == other.kind
            && self.objective == other.objective
            && same_goal(&self.goal, &other.goal)
            && self.same_dependencies(other)
            && self.same_capabilities(other)
            && self.priority == other.priority
            && self.interruptibility == other.interruptibility
            && self.retry_policy == other.retry_policy
    }

    /// Whether two contracts are the same contract.
    pub fn same_as(&self, other: &Self) -> (r: bool)
        requires
            self.well_formed(),
            other.well_formed(),
        ensures
            r == same_contract(*self, *other),
    {
        self.matches_except_deadline(other) && self.deadline == other.deadline
    }

    /// An equal copy of the contract.
    pub fn duplicate(&self) -> (r: Self)
        ensures
            self.well_formed() ==> r.well_formed(),
            same_contract(r, *self),
            r.spec_dependency_seq() == self.spec_dependency_seq(),
            r.spec_dependencies() == self.spec_dependencies(),
    {
        MissionSpec {
            kind: self.kind,
            objective: self.objective,
            goal: clone_goal(&self.goal),
            dependencies: self.dependencies.clone_map(),
            required_capabilities: self.required_capabilities.clone(),
            deadline: self.deadline,
            priority: self.priority,
            interruptibility: self.interruptibility,
            retry_policy: self.retry_policy,
        }
    }
}

/// The terms of an economy contract, apart from its deadline.
pub open spec fn economy_terms(s: MissionSpec) -> bool {
    &&& s.spec_kind() == MissionKind::GatherAndSell
    &&& s.spec_objective() == ObjectiveKey::EconomyCycle
    &&& s.spec_goal() == GoalPredicate::EconomyCycleCompleted
    &&& s.spec_dependencies() == Set::<MissionId>::empty()
    &&& s.spec_capabilities() == seq![MissionCapability::Gather, MissionCapability::Sell]
    &&& s.spec_priority() == PriorityClass::Q3Economy
    &&& s.spec_interruptibility() == Interruptibility::SuspendAndResume
    &&& s.spec_retry_policy() == (RetryPolicy { max_replans: MAX_LOCAL_REPLANS })
}

/// The terms of a construction contract, apart from its deadline.
pub open spec fn construction_terms(s: MissionSpec, site: Pos, building: Seq<char>) -> bool {
    &&& s.spec_kind() == MissionKind::Construct
    &&& s.spec_objective() == ObjectiveKey::ConstructionSite(site)
    &&& (s.spec_goal() matches GoalPredicate::BuildingPresent { kind, site: at } && kind@ == building && at == site)
    &&& s.spec_dependencies() == Set::<MissionId>::empty()
    &&& s.spec_capabilities() == seq![MissionCapability::Build]
    &&& s.spec_priority() == PriorityClass::Q1Defense
    &&& s.spec_interruptibility() == Interruptibility::FinishCurrentStep
    &&& s.spec_retry_policy() == (RetryPolicy { max_replans: MAX_LOCAL_REPLANS })
}

/// The terms of a challenge contract, apart from its deadline.
pub open spec fn challenge_terms(s: MissionSpec) -> bool {
    &&& s.spec_kind() == MissionKind::Challenge
    &&& s.spec_objective() == ObjectiveKey::ChallengeSession
    &&& s.spec_goal() == GoalPredicate::ChallengeResolved
    &&& s.spec_dependencies() == Set::<MissionId>::empty()
    &&& s.spec_capabilities() == seq![MissionCapability::SolveChallenge]
    &&& s.spec_priority() == PriorityClass::Q2Deadline
    &&& s.spec_interruptibility() == Interruptibility::CancelOnly
    &&& s.spec_retry_policy() == (RetryPolicy { max_replans: MAX_LOCAL_REPLANS })
}

/// The terms of a defence contract for a weapon, apart from its deadline.
pub open spec fn defense_terms(s: MissionSpec, weapon: i64) -> bool {
    &&& s.spec_kind() == MissionKind::DefendSector
    &&& s.spec_objective() == ObjectiveKey::DefenseWeapon(weapon)
    &&& s.spec_goal() == (GoalPredicate::DefenseWindowCompleted { weapon })
    &&& s.spec_dependencies() == Set::<MissionId>::empty()
    &&& s.spec_capabilities() == seq![MissionCapability::OperateWeapon]
    &&& s.spec_priority() == PriorityClass::Q1Defense
    &&& s.spec_interruptibility() == Interruptibility::FinishCurrentStep
    &&& s.spec_retry_policy() == (RetryPolicy { max_replans: MAX_LOCAL_REPLANS })
}

impl Clone for MissionSpec {
    fn clone(&self) -> (r: Self)
        ensures
            self.well_formed() ==> r.well_formed(),
            same_contract(r, *self),
    {
        self.duplicate()
    }
}

proof fn lemma_sorted_keys_differ(a: SortedMap<MissionId, ()>, b: SortedMap<MissionId, ()>, i: int)
    requires
        a.well_formed(),
        b.well_formed(),
        a.entries().len() == b.entries().len(),
        0 <= i < a.entries().len(),
        forall|j: int| 0 <= j < i ==> a.entries()[j].0 == b.entries()[j].0,
        a.entries()[i].0 != b.entries()[i].0,
    ensures
        a.view().dom() != b.view().dom(),
{
    a.lemma_view();
    b.lemma_view();
    let x = a.entries()[i].0;
    let y = b.entries()[i].0;
    crate::collections::MapKey::rank_injective(x, y);
    if x.rank() < y.rank() {
        // x is in a but cannot be in b
        if b.view().dom().contains(x) {
            let j = choose|j: int| 0 <= j < b.entries().len() && b.entries()[j].0 == x;
            if j < i {
                assert(a.entries()[j].0 == x);
                assert(a.entries()[j].0.rank() < a.entries()[i].0.rank());
            } else if j > i {
                assert(b.entries()[i].0.rank() < b.entries()[j].0.rank());
            }
        }
        assert(a.view().dom().contains(x));
    } else {
        if a.view().dom().contains(y) {
            let j = choose|j: int| 0 <= j < a.entries().len() && a.entries()[j].0 == y;
            if j < i {
                assert(b.entries()[j].0 == y);
                assert(b.entries()[j].0.rank() < b.entries()[i].0.rank());
            } else if j > i {
                assert(a.entries()[i].0.rank() < a.entries()[j].0.rank());
            }
        }
        assert(b.view().dom().contains(y));
    }
}

} // verus!
