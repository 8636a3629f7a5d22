use vstd::prelude::*;

use crate::collections::SortedMap;
use crate::rules::constants::{VERSION_INCREMENT, ZERO_VERSION};

verus! {

/// Identity of a mission.
#[derive(Clone, Copy, Debug, PartialEq, Eq, Structural, PartialOrd, Ord)]
pub struct MissionId {
    value: u64,
}

/// Identity of a plan that serves a mission.
#[derive(Clone, Copy, Debug, PartialEq, Eq, Structural, PartialOrd, Ord)]
pub struct PlanId {
    value: u64,
}

/// Identity of a single step (intent) of a plan.
#[derive(Clone, Copy, Debug, PartialEq, Eq, Structural, PartialOrd, Ord)]
pub struct IntentId {
    value: u64,
}

/// A version counter: a re-registered owner must carry a larger one.
#[derive(Clone, Copy, Debug, PartialEq, Eq, Structural, PartialOrd, Ord)]
pub struct Generation {
    value: u64,
}

impl MissionId {
    pub closed spec fn spec_value(self) -> u64 {
        self.value
    }

    pub fn new(value: u64) -> (r: Self)
        ensures
            r.spec_value() == value,
    {
        Self { value }
    }

    pub fn value(self) -> (r: u64)
        ensures
            r == self.spec_value(),
    {
        self.value
    }
}

/// Two identities of the same kind are equal exactly when their values are.
pub broadcast proof fn lemma_ids_by_value(a: MissionId, b: MissionId)
    ensures
        #[trigger] a.spec_value() == #[trigger] b.spec_value() <==> a == b,
{
}

/// A path is determined by its three links.
pub broadcast proof fn lemma_paths_by_links(a: OwnerPath, b: OwnerPath)
    ensures
        (#[trigger] a.spec_mission() == #[trigger] b.spec_mission() && a.spec_plan() == b.spec_plan() && a.spec_intent() == b.spec_intent()) <==> a == b,
{
}

/// The step-less form of a path keeps its mission and plan.
pub broadcast proof fn lemma_assignment_links(a: OwnerPath)
    ensures
        #![trigger a.spec_assignment()]
        a.spec_assignment().spec_mission() == a.spec_mission(),
        a.spec_assignment().spec_plan() == a.spec_plan(),
        a.spec_assignment().spec_intent() is None,
{
}

impl crate::collections::MapKey for MissionId {
    closed spec fn rank(self) -> int {
        self.value as int
    }

    fn rank_lt(&self, other: &Self) -> (r: bool) {
        self.value < other.value
    }

    fn rank_eq(&self, other: &Self) -> (r: bool) {
        self.value == other.value
    }

    proof fn rank_injective(a: Self, b: Self) {
    }
}

impl PlanId {
    pub closed spec fn spec_value(self) -> u64 {
        self.value
    }

    pub fn new(value: u64) -> (r: Self)
        ensures
            r.spec_value() == value,
    {
        Self { value }
    }

    pub fn value(self) -> (r: u64)
        ensures
            r == self.spec_value(),
    {
        self.value
    }
}

impl IntentId {
    pub closed spec fn spec_value(self) -> u64 {
        self.value
    }

    pub fn new(value: u64) -> (r: Self)
        ensures
            r.spec_value() == value,
    {
        Self { value }
    }

    pub fn value(self) -> (r: u64)
        ensures
            r == self.spec_value(),
    {
        self.value
    }
}

impl Generation {
    pub closed spec fn spec_value(self) -> u64 {
        self.value
    }

    /// The first generation.
    pub fn initial() -> (r: Self)
        ensures
            r.spec_value() == ZERO_VERSION,
    {
        Self { value: ZERO_VERSION }
    }

    /// The following generation; `None` when the counter is exhausted.
    pub fn next(self) -> (r: Option<Self>)
        ensures
            r matches Some(g) ==> g.spec_value() == self.spec_value() + VERSION_INCREMENT,
            r is None <==> self.spec_value() + VERSION_INCREMENT > u64::MAX,
    {
        match self.value.checked_add(VERSION_INCREMENT) {
            Some(value) => Some(Self { value }),
            None => None,
        }
    }

    pub fn value(self) -> (r: u64)
        ensures
            r == self.spec_value(),
    {
        self.value
    }
}

/// An identity together with the generation it was registered under.
#[derive(Clone, Copy, Debug, PartialEq, Eq, Structural)]
pub struct Versioned<T> {
    pub id: T,
    pub generation: Generation,
}

impl<T> Versioned<T> {
    pub fn new(id: T, generation: Generation) -> (r: Self)
        ensures
            r.id == id,
            r.generation == generation,
    {
        Self { id, generation }
    }
}

/// The chain of owners on whose behalf an action runs: a mission, optionally
/// one of its plans, and optionally one step of that plan.
#[derive(Clone, Copy, Debug, PartialEq, Eq, Structural)]
pub struct OwnerPath {
    mission: Versioned<MissionId>,
    plan: Option<Versioned<PlanId>>,
    intent: Option<Versioned<IntentId>>,
}

#[derive(Clone, Copy, Debug, PartialEq, Eq, Structural)]
pub enum OwnerError {
    IntentWithoutPlan,
    MissionNotCurrent,
    PlanNotCurrent,
    GenerationNotAdvanced,
    ParentChanged,
    IdentitiesExhausted,
    IdentityInUse,
}

impl OwnerPath {
    pub closed spec fn spec_mission(self) -> Versioned<MissionId> {
        self.mission
    }

    pub closed spec fn spec_plan(self) -> Option<Versioned<PlanId>> {
        self.plan
    }

    pub closed spec fn spec_intent(self) -> Option<Versioned<IntentId>> {
        self.intent
    }

    /// A path is well formed when a step never stands without its plan.
    pub closed spec fn well_formed(self) -> bool {
        self.intent is Some ==> self.plan is Some
    }

    /// The same path without its step.
    pub closed spec fn spec_assignment(self) -> OwnerPath {
        OwnerPath { mission: self.mission, plan: self.plan, intent: None }
    }

    /// Builds a path; a step without a plan is refused.
    pub fn new(
        mission: Versioned<MissionId>,
        plan: Option<Versioned<PlanId>>,
        intent: Option<Versioned<IntentId>>,
    ) -> (r: Result<Self, OwnerError>)
        ensures
            r matches Ok(p) ==> p.spec_mission() == mission && p.spec_plan() == plan && p.spec_intent() == intent,
            r matches Err(e) ==> e == OwnerError::IntentWithoutPlan,
            r is Err <==> (intent is Some && plan is None),
    {
        if intent.is_some() && plan.is_none() {
            return Err(OwnerError::IntentWithoutPlan);
        }
        Ok(Self { mission, plan, intent })
    }

    pub fn mission(&self) -> (r: Versioned<MissionId>)
        ensures
            r == self.spec_mission(),
    {
        self.mission
    }

    pub fn plan(&self) -> (r: Option<Versioned<PlanId>>)
        ensures
            r == self.spec_plan(),
    {
        self.plan
    }

    pub fn intent(&self) -> (r: Option<Versioned<IntentId>>)
        ensures
            r == self.spec_intent(),
    {
        self.intent
    }

    /// The mission and plan of this path, without its step.
    pub fn assignment(&self) -> (r: OwnerPath)
        ensures
            r == self.spec_assignment(),
    {
        OwnerPath { mission: self.mission, plan: self.plan, intent: None }
    }
}

#[derive(Clone, Copy, Debug, PartialEq, Eq, Structural)]
pub struct PlanRegistration {
    pub mission: Versioned<MissionId>,
    pub generation: Generation,
}

#[derive(Clone, Copy, Debug, PartialEq, Eq, Structural)]
pub struct IntentRegistration {
    pub plan: Versioned<PlanId>,
    pub generation: Generation,
}

/// The owners that are currently live, each at its registered generation.
#[derive(Clone, Debug)]
pub struct ActiveOwners {
    missions: SortedMap<u64, Generation>,
    plans: SortedMap<u64, PlanRegistration>,
    intents: SortedMap<u64, IntentRegistration>,
}

/// Hands out fresh identities; an identity is never handed out twice.
#[derive(Clone, Copy, Debug, PartialEq, Eq, Structural)]
pub struct OwnerAllocator {
    next_mission: u64,
    next_plan: u64,
    next_intent: u64,
}

impl Default for OwnerAllocator {
    fn default() -> (r: Self)
        ensures
            r.spec_next_mission() == ZERO_VERSION,
            r.spec_next_plan() == ZERO_VERSION,
            r.spec_next_intent() == ZERO_VERSION,
    {
        OwnerAllocator { next_mission: ZERO_VERSION, next_plan: ZERO_VERSION, next_intent: ZERO_VERSION }
    }
}

impl OwnerAllocator {
    pub closed spec fn spec_next_mission(self) -> u64 {
        self.next_mission
    }

    pub closed spec fn spec_next_plan(self) -> u64 {
        self.next_plan
    }

    pub closed spec fn spec_next_intent(self) -> u64 {
        self.next_intent
    }
}

/// The generation is strictly larger than the registered one, if any.
pub open spec fn generation_advances(current: Option<Generation>, candidate: Generation) -> bool {
    current matches Some(g) ==> candidate.spec_value() > g.spec_value()
}

impl Default for ActiveOwners {
    fn default() -> (r: Self)
        ensures
            r.well_formed(),
            r.mission_map() == Map::<u64, Generation>::empty(),
            r.plan_map() == Map::<u64, PlanRegistration>::empty(),
            r.intent_map() == Map::<u64, IntentRegistration>::empty(),
    {
        ActiveOwners { missions: SortedMap::new(), plans: SortedMap::new(), intents: SortedMap::new() }
    }
}

impl ActiveOwners {
    pub closed spec fn well_formed(&self) -> bool {
        &&& self.missions.well_formed()
        &&& self.plans.well_formed()
        &&& self.intents.well_formed()
    }

    /// Registered generation of each live mission, by mission id.
    pub closed spec fn mission_map(&self) -> Map<u64, Generation> {
        self.missions.view()
    }

    /// Registration of each live plan, by plan id.
    pub closed spec fn plan_map(&self) -> Map<u64, PlanRegistration> {
        self.plans.view()
    }

    /// Registration of each live step, by step id.
    pub closed spec fn intent_map(&self) -> Map<u64, IntentRegistration> {
        self.intents.view()
    }

    pub open spec fn mission_current(&self, mission: Versioned<MissionId>) -> bool {
        &&& self.mission_map().contains_key(mission.id.spec_value())
        &&& self.mission_map()[mission.id.spec_value()] == mission.generation
    }

    pub open spec fn plan_current(&self, mission: Versioned<MissionId>, plan: Versioned<PlanId>) -> bool {
        &&& self.plan_map().contains_key(plan.id.spec_value())
        &&& self.plan_map()[plan.id.spec_value()].mission == mission
        &&& self.plan_map()[plan.id.spec_value()].generation == plan.generation
    }

    pub open spec fn intent_current(&self, plan: Versioned<PlanId>, intent: Versioned<IntentId>) -> bool {
        &&& self.intent_map().contains_key(intent.id.spec_value())
        &&& self.intent_map()[intent.id.spec_value()].plan == plan
        &&& self.intent_map()[intent.id.spec_value()].generation == intent.generation
    }

    /// Every link of the path is live at the generation the path names, and
    /// each link is registered under the link before it.
    pub open spec fn spec_is_current(&self, owner: OwnerPath) -> bool {
        &&& self.mission_current(owner.spec_mission())
        &&& owner.spec_plan() matches Some(plan) ==> self.plan_current(owner.spec_mission(), plan)
        &&& owner.spec_intent() matches Some(intent) ==> (owner.spec_plan() matches Some(plan) && self.intent_current(plan, intent))
    }

    fn registered_mission(&self, id: u64) -> (r: Option<Generation>)
        requires
            self.well_formed(),
        ensures
            r is Some <==> self.mission_map().contains_key(id),
            r matches Some(g) ==> g == self.mission_map()[id],
    {
        match self.missions.get(&id) {
            Some(g) => Some(*g),
            None => None,
        }
    }

    /// Registers a mission at a generation newer than any it had.
    pub fn activate_mission(&mut self, mission: Versioned<MissionId>) -> (r: Result<(), OwnerError>)
        requires
            old(self).well_formed(),
        ensures
            final(self).well_formed(),
            r is Ok <==> generation_advances(
                if old(self).mission_map().contains_key(mission.id.spec_value()) { Some(old(self).mission_map()[mission.id.spec_value()]) } else { None },
                mission.generation,
            ),
            r matches Err(e) ==> e == OwnerError::GenerationNotAdvanced && *final(self) == *old(self),
            r is Ok ==> final(self).mission_map() == old(self).mission_map().insert(mission.id.spec_value(), mission.generation),
            final(self).plan_map() == old(self).plan_map(),
            final(self).intent_map() == old(self).intent_map(),
    {
        let current = self.registered_mission(mission.id.value);
        if let Some(g) = current {
            if mission.generation.value <= g.value {
                return Err(OwnerError::GenerationNotAdvanced);
            }
        }
        self.missions.insert(mission.id.value, mission.generation);
        Ok(())
    }

    fn mission_is_current(&self, mission: Versioned<MissionId>) -> (r: bool)
        requires
            self.well_formed(),
        ensures
            r == self.mission_current(mission),
    {
        match self.missions.get(&mission.id.value) {
            Some(g) => *g == mission.generation,
            None => false,
        }
    }

    fn plan_is_current(&self, mission: Versioned<MissionId>, plan: Versioned<PlanId>) -> (r: bool)
        requires
            self.well_formed(),
        ensures
            r == self.plan_current(mission, plan),
    {
        match self.plans.get(&plan.id.value) {
            Some(registered) => registered.mission == mission && registered.generation == plan.generation,
            None => false,
        }
    }

    fn intent_is_current(&self, plan: Versioned<PlanId>, intent: Versioned<IntentId>) -> (r: bool)
        requires
            self.well_formed(),
        ensures
            r == self.intent_current(plan, intent),
    {
        match self.intents.get(&intent.id.value) {
            Some(registered) => registered.plan == plan && registered.generation == intent.generation,
            None => false,
        }
    }

    /// Registers a plan under a live mission. A plan id keeps the mission it
    /// was first registered under, and its generation must advance.
    pub fn activate_plan(&mut self, mission: Versioned<MissionId>, plan: Versioned<PlanId>) -> (r: Result<(), OwnerError>)
        requires
            old(self).well_formed(),
        ensures
            final(self).well_formed(),
            final(self).mission_map() == old(self).mission_map(),
            final(self).intent_map() == old(self).intent_map(),
            !old(self).mission_current(mission) ==> r == Err::<(), OwnerError>(OwnerError::MissionNotCurrent),
            old(self).mission_current(mission) && old(self).plan_map().contains_key(plan.id.spec_value())
                && old(self).plan_map()[plan.id.spec_value()].mission != mission
                ==> r == Err::<(), OwnerError>(OwnerError::ParentChanged),
            old(self).mission_current(mission) && old(self).plan_map().contains_key(plan.id.spec_value())
                && old(self).plan_map()[plan.id.spec_value()].mission == mission
                && plan.generation.spec_value() <= old(self).plan_map()[plan.id.spec_value()].generation.spec_value()
                ==> r == Err::<(), OwnerError>(OwnerError::GenerationNotAdvanced),
            r is Ok <==> (old(self).mission_current(mission) && (old(self).plan_map().contains_key(plan.id.spec_value()) ==> (
                old(self).plan_map()[plan.id.spec_value()].mission == mission
                && plan.generation.spec_value() > old(self).plan_map()[plan.id.spec_value()].generation.spec_value()))),
            r is Ok ==> final(self).plan_map() == old(self).plan_map().insert(plan.id.spec_value(), PlanRegistration { mission, generation: plan.generation }),
            r is Err ==> *final(self) == *old(self),
    {
        if !self.mission_is_current(mission) {
            return Err(OwnerError::MissionNotCurrent);
        }
        if let Some(registered) = self.plans.get(&plan.id.value) {
            if registered.mission != mission {
                return Err(OwnerError::ParentChanged);
            }
            if plan.generation.value <= registered.generation.value {
                return Err(OwnerError::GenerationNotAdvanced);
            }
        }
        self.plans.insert(plan.id.value, PlanRegistration { mission, generation: plan.generation });
        Ok(())
    }

    /// Registers a step under a live plan of a live mission.
    pub fn activate_intent(
        &mut self,
        mission: Versioned<MissionId>,
        plan: Versioned<PlanId>,
        intent: Versioned<IntentId>,
    ) -> (r: Result<(), OwnerError>)
        requires
            old(self).well_formed(),
        ensures
            final(self).well_formed(),
            final(self).mission_map() == old(self).mission_map(),
            final(self).plan_map() == old(self).plan_map(),
            !old(self).plan_current(mission, plan) ==> r == Err::<(), OwnerError>(OwnerError::PlanNotCurrent),
            old(self).plan_current(mission, plan) && old(self).intent_map().contains_key(intent.id.spec_value())
                && old(self).intent_map()[intent.id.spec_value()].plan != plan
                ==> r == Err::<(), OwnerError>(OwnerError::ParentChanged),
            old(self).plan_current(mission, plan) && old(self).intent_map().contains_key(intent.id.spec_value())
                && old(self).intent_map()[intent.id.spec_value()].plan == plan
                && intent.generation.spec_value() <= old(self).intent_map()[intent.id.spec_value()].generation.spec_value()
                ==> r == Err::<(), OwnerError>(OwnerError::GenerationNotAdvanced),
            r is Ok <==> (old(self).plan_current(mission, plan) && (old(self).intent_map().contains_key(intent.id.spec_value()) ==> (
                old(self).intent_map()[intent.id.spec_value()].plan == plan
                && intent.generation.spec_value() > old(self).intent_map()[intent.id.spec_value()].generation.spec_value()))),
            r is Ok ==> final(self).intent_map() == old(self).intent_map().insert(intent.id.spec_value(), IntentRegistration { plan, generation: intent.generation }),
            r is Err ==> *final(self) == *old(self),
    {
        if !self.plan_is_current(mission, plan) {
            return Err(OwnerError::PlanNotCurrent);
        }
        if let Some(registered) = self.intents.get(&intent.id.value) {
            if registered.plan != plan {
                return Err(OwnerError::ParentChanged);
            }
            if intent.generation.value <= registered.generation.value {
                return Err(OwnerError::GenerationNotAdvanced);
            }
        }
        self.intents.insert(intent.id.value, IntentRegistration { plan, generation: intent.generation });
        Ok(())
    }

    /// Whether every link of the path is live at the generation it names.
    pub fn is_current(&self, owner: &OwnerPath) -> (r: bool)
        requires
            self.well_formed(),
        ensures
            r == self.spec_is_current(*owner),
    {
        if !self.mission_is_current(owner.mission) {
            return false;
        }
        if let Some(plan) = owner.plan {
            if !self.plan_is_current(owner.mission, plan) {
                return false;
            }
        }
        match owner.intent {
            None => true,
            Some(intent) => match owner.plan {
                Some(plan) => self.intent_is_current(plan, intent),
                None => false,
            },
        }
    }
}

/// Every live owner id is one the allocator has already handed out.
pub open spec fn ids_below(owners: ActiveOwners, allocator: OwnerAllocator) -> bool {
    &&& forall|k: u64| #[trigger] owners.mission_map().contains_key(k) ==> k < allocator.spec_next_mission()
    &&& forall|k: u64| #[trigger] owners.plan_map().contains_key(k) ==> k < allocator.spec_next_plan()
    &&& forall|k: u64| #[trigger] owners.intent_map().contains_key(k) ==> k < allocator.spec_next_intent()
}

/// The allocator never hands an id out twice: its next ids only grow.
pub open spec fn allocator_advanced(before: OwnerAllocator, after: OwnerAllocator) -> bool {
    &&& before.spec_next_mission() <= after.spec_next_mission()
    &&& before.spec_next_plan() <= after.spec_next_plan()
    &&& before.spec_next_intent() <= after.spec_next_intent()
}

/// The allocator handed out at most `n` more ids of each kind.
pub open spec fn allocator_within(before: OwnerAllocator, after: OwnerAllocator, n: int) -> bool {
    &&& allocator_advanced(before, after)
    &&& after.spec_next_mission() <= before.spec_next_mission() + n
    &&& after.spec_next_plan() <= before.spec_next_plan() + n
    &&& after.spec_next_intent() <= before.spec_next_intent() + n
}

/// The allocator can still hand out `n` more ids of each kind.
pub open spec fn owner_room(allocator: OwnerAllocator, n: int) -> bool {
    &&& allocator.spec_next_mission() + n <= u64::MAX
    &&& allocator.spec_next_plan() + n <= u64::MAX
    &&& allocator.spec_next_intent() + n <= u64::MAX
}

/// No owner became live: each map only lost entries.
pub open spec fn owners_shrunk(before: ActiveOwners, after: ActiveOwners) -> bool {
    &&& forall|k: u64| #[trigger] after.mission_map().contains_key(k) ==> before.mission_map().contains_key(k)
    &&& forall|k: u64| #[trigger] after.plan_map().contains_key(k) ==> before.plan_map().contains_key(k)
    &&& forall|k: u64| #[trigger] after.intent_map().contains_key(k) ==> before.intent_map().contains_key(k)
}

impl ActiveOwners {
    /// Allocates a fresh mission with a fresh plan and makes both live.
    pub fn create_assignment(&mut self, allocator: &mut OwnerAllocator) -> (r: Result<OwnerPath, OwnerError>)
        requires
            old(self).well_formed(),
        ensures
            ids_below(*old(self), *old(allocator)) ==> ids_below(*final(self), *final(allocator)),
            allocator_advanced(*old(allocator), *final(allocator)),
            allocator_within(*old(allocator), *final(allocator), 1),
            final(self).well_formed(),
            final(self).intent_map() == old(self).intent_map(),
            r matches Ok(path) ==> {
                &&& path.spec_mission().id.spec_value() == old(allocator).spec_next_mission()
                &&& path.spec_mission().generation.spec_value() == ZERO_VERSION
                &&& path.spec_plan() matches Some(plan) && plan.id.spec_value() == old(allocator).spec_next_plan()
                    && plan.generation.spec_value() == ZERO_VERSION
                &&& path.spec_intent() is None
                &&& final(self).spec_is_current(path)
                &&& final(self).mission_map() == old(self).mission_map().insert(path.spec_mission().id.spec_value(), path.spec_mission().generation)
                &&& final(self).plan_map() == old(self).plan_map().insert(
                    old(allocator).spec_next_plan(),
                    PlanRegistration { mission: path.spec_mission(), generation: path.spec_mission().generation })
                &&& final(allocator).spec_next_mission() == old(allocator).spec_next_mission() + 1
                &&& final(allocator).spec_next_plan() == old(allocator).spec_next_plan() + 1
                &&& final(allocator).spec_next_intent() == old(allocator).spec_next_intent()
            },
            r is Err ==> *final(self) == *old(self) && *final(allocator) == *old(allocator),
            r matches Err(e) ==> e == OwnerError::IdentitiesExhausted || e == OwnerError::IdentityInUse,
            ids_below(*old(self), *old(allocator)) ==> (r matches Err(e) ==> e == OwnerError::IdentitiesExhausted),
            (old(allocator).spec_next_mission() < u64::MAX && old(allocator).spec_next_plan() < u64::MAX
                && !old(self).mission_map().contains_key(old(allocator).spec_next_mission())
                && !old(self).plan_map().contains_key(old(allocator).spec_next_plan())) ==> r is Ok,
    {
        let m = allocator.next_mission;
        let p = allocator.next_plan;
        if m == u64::MAX || p == u64::MAX {
            return Err(OwnerError::IdentitiesExhausted);
        }
        if self.missions.contains_key(&m) || self.plans.contains_key(&p) {
            assert(self.mission_map().contains_key(m) || self.plan_map().contains_key(p));
            return Err(OwnerError::IdentityInUse);
        }
        let mission = Versioned { id: MissionId { value: m }, generation: Generation::initial() };
        let plan = Versioned { id: PlanId { value: p }, generation: Generation::initial() };
        self.missions.insert(m, mission.generation);
        self.plans.insert(p, PlanRegistration { mission, generation: plan.generation });
        allocator.next_mission = m + 1;
        allocator.next_plan = p + 1;
        proof {
            if ids_below(*old(self), *old(allocator)) {
                assert forall|k: u64| #[trigger] self.mission_map().contains_key(k) implies k < allocator.spec_next_mission() by {
                    if k != m { assert(old(self).mission_map().contains_key(k)); }
                }
                assert forall|k: u64| #[trigger] self.plan_map().contains_key(k) implies k < allocator.spec_next_plan() by {
                    if k != p { assert(old(self).plan_map().contains_key(k)); }
                }
                assert(self.intent_map() == old(self).intent_map());
                assert(allocator.spec_next_intent() == old(allocator).spec_next_intent());
                assert(ids_below(*self, *allocator));
            }
        }
        Ok(OwnerPath { mission, plan: Some(plan), intent: None })
    }

    /// Allocates a fresh step under a live assignment and makes it live.
    pub fn create_intent(&mut self, allocator: &mut OwnerAllocator, assignment: &OwnerPath) -> (r: Result<OwnerPath, OwnerError>)
        requires
            old(self).well_formed(),
        ensures
            ids_below(*old(self), *old(allocator)) ==> ids_below(*final(self), *final(allocator)),
            allocator_advanced(*old(allocator), *final(allocator)),
            allocator_within(*old(allocator), *final(allocator), 1),
            final(self).well_formed(),
            final(self).mission_map() == old(self).mission_map(),
            final(self).plan_map() == old(self).plan_map(),
            r matches Ok(path) ==> {
                &&& path.spec_mission() == assignment.spec_mission()
                &&& path.spec_plan() == assignment.spec_plan()
                &&& path.spec_intent() matches Some(intent) && intent.id.spec_value() == old(allocator).spec_next_intent()
                    && intent.generation.spec_value() == ZERO_VERSION
                &&& final(self).spec_is_current(path)
                &&& final(self).intent_map() == old(self).intent_map().insert(
                    old(allocator).spec_next_intent(),
                    IntentRegistration { plan: path.spec_plan()->0, generation: intent_generation(path) })
                &&& final(allocator).spec_next_intent() == old(allocator).spec_next_intent() + 1
                &&& final(allocator).spec_next_mission() == old(allocator).spec_next_mission()
                &&& final(allocator).spec_next_plan() == old(allocator).spec_next_plan()
            },
            r is Err ==> *final(self) == *old(self) && *final(allocator) == *old(allocator),
            !old(self).mission_current(assignment.spec_mission()) ==> r == Err::<OwnerPath, OwnerError>(OwnerError::MissionNotCurrent),
            old(self).mission_current(assignment.spec_mission()) && !(assignment.spec_plan() matches Some(plan) && old(self).plan_current(assignment.spec_mission(), plan))
                ==> r == Err::<OwnerPath, OwnerError>(OwnerError::PlanNotCurrent),
            (old(self).spec_is_current(assignment.spec_assignment()) && assignment.spec_plan() is Some
                && old(allocator).spec_next_intent() < u64::MAX
                && !old(self).intent_map().contains_key(old(allocator).spec_next_intent())) ==> r is Ok,
            old(self).spec_is_current(assignment.spec_assignment()) && assignment.spec_plan() is Some
                ==> (r matches Err(e) ==> e == OwnerError::IdentitiesExhausted || e == OwnerError::IdentityInUse),
            old(self).spec_is_current(assignment.spec_assignment()) && assignment.spec_plan() is Some
                && ids_below(*old(self), *old(allocator)) ==> (r matches Err(e) ==> e == OwnerError::IdentitiesExhausted),
    {
        if !self.mission_is_current(assignment.mission) {
            return Err(OwnerError::MissionNotCurrent);
        }
        let plan = match assignment.plan {
            Some(plan) => plan,
            None => return Err(OwnerError::PlanNotCurrent),
        };
        if !self.plan_is_current(assignment.mission, plan) {
            return Err(OwnerError::PlanNotCurrent);
        }
        let i = allocator.next_intent;
        if i == u64::MAX {
            return Err(OwnerError::IdentitiesExhausted);
        }
        if self.intents.contains_key(&i) {
            return Err(OwnerError::IdentityInUse);
        }
        let intent = Versioned { id: IntentId { value: i }, generation: Generation::initial() };
        self.intents.insert(i, IntentRegistration { plan, generation: intent.generation });
        allocator.next_intent = i + 1;
        proof {
            if ids_below(*old(self), *old(allocator)) {
                assert forall|k: u64| #[trigger] self.intent_map().contains_key(k) implies k < allocator.spec_next_intent() by {
                    if k != i { assert(old(self).intent_map().contains_key(k)); }
                }
            }
        }
        Ok(OwnerPath { mission: assignment.mission, plan: Some(plan), intent: Some(intent) })
    }

    /// Allocates a fresh mission, plan and step and makes all three live.
    pub fn create_path(&mut self, allocator: &mut OwnerAllocator) -> (r: Result<OwnerPath, OwnerError>)
        requires
            old(self).well_formed(),
        ensures
            ids_below(*old(self), *old(allocator)) ==> ids_below(*final(self), *final(allocator)),
            allocator_advanced(*old(allocator), *final(allocator)),
            allocator_within(*old(allocator), *final(allocator), 1),
            final(self).well_formed(),
            r matches Ok(path) ==> {
                &&& path.spec_mission().id.spec_value() == old(allocator).spec_next_mission()
                &&& path.spec_plan() matches Some(plan) && plan.id.spec_value() == old(allocator).spec_next_plan()
                &&& path.spec_intent() matches Some(intent) && intent.id.spec_value() == old(allocator).spec_next_intent()
                &&& final(self).spec_is_current(path)
                &&& final(self).spec_is_current(path.spec_assignment())
                &&& final(allocator).spec_next_mission() == old(allocator).spec_next_mission() + 1
                &&& final(allocator).spec_next_plan() == old(allocator).spec_next_plan() + 1
                &&& final(allocator).spec_next_intent() == old(allocator).spec_next_intent() + 1
            },
            r matches Ok(path) ==> {
                &&& final(self).mission_map() == old(self).mission_map().insert(path.spec_mission().id.spec_value(), path.spec_mission().generation)
                &&& final(self).plan_map() == old(self).plan_map().insert(
                    path.spec_plan()->0.id.spec_value(),
                    PlanRegistration { mission: path.spec_mission(), generation: path.spec_plan()->0.generation })
                &&& final(self).intent_map() == old(self).intent_map().insert(
                    path.spec_intent()->0.id.spec_value(),
                    IntentRegistration { plan: path.spec_plan()->0, generation: intent_generation(path) })
            },
            (old(allocator).spec_next_mission() < u64::MAX && old(allocator).spec_next_plan() < u64::MAX
                && old(allocator).spec_next_intent() < u64::MAX
                && !old(self).mission_map().contains_key(old(allocator).spec_next_mission())
                && !old(self).plan_map().contains_key(old(allocator).spec_next_plan())
                && !old(self).intent_map().contains_key(old(allocator).spec_next_intent())) ==> r is Ok,
            r matches Err(e) ==> e == OwnerError::IdentitiesExhausted || e == OwnerError::IdentityInUse,
            ids_below(*old(self), *old(allocator)) ==> (r matches Err(e) ==> e == OwnerError::IdentitiesExhausted),
    {
        let assignment = self.create_assignment(allocator)?;
        proof { lemma_assignment_links(assignment); }
        let path = self.create_intent(allocator, &assignment);
        match path {
            Ok(path) => Ok(path),
            Err(e) => {
                self.deactivate_assignment(&assignment);
                Err(e)
            },
        }
    }

    /// Retires the mission, plan and step of a path, each only while it is
    /// still registered at the generation the path names.
    pub fn deactivate_assignment(&mut self, owner: &OwnerPath)
        requires
            old(self).well_formed(),
        ensures
            owners_shrunk(*old(self), *final(self)),
            final(self).well_formed(),
            !final(self).spec_is_current(*owner),
            !final(self).mission_current(owner.spec_mission()),
            final(self).mission_map() == (if old(self).mission_current(owner.spec_mission()) {
                old(self).mission_map().remove(owner.spec_mission().id.spec_value())
            } else {
                old(self).mission_map()
            }),
            forall|k: u64| k != (if owner.spec_plan() is Some { owner.spec_plan()->0.id.spec_value() } else { k })
                ==> (#[trigger] final(self).plan_map().contains_key(k) == old(self).plan_map().contains_key(k)
                    && (old(self).plan_map().contains_key(k) ==> final(self).plan_map()[k] == old(self).plan_map()[k])),
            forall|k: u64| k != (if owner.spec_intent() is Some { owner.spec_intent()->0.id.spec_value() } else { k })
                ==> (#[trigger] final(self).intent_map().contains_key(k) == old(self).intent_map().contains_key(k)
                    && (old(self).intent_map().contains_key(k) ==> final(self).intent_map()[k] == old(self).intent_map()[k])),
    {
        if self.mission_is_current(owner.mission) {
            self.missions.remove(&owner.mission.id.value);
        }
        if let Some(plan) = owner.plan {
            if self.plan_is_current(owner.mission, plan) {
                self.plans.remove(&plan.id.value);
            }
        }
        if let (Some(plan), Some(intent)) = (owner.plan, owner.intent) {
            if self.intent_is_current(plan, intent) {
                self.intents.remove(&intent.id.value);
            }
        }
    }

    /// Retires a step, whatever its generation.
    pub fn deactivate_intent(&mut self, intent: IntentId)
        requires
            old(self).well_formed(),
        ensures
            owners_shrunk(*old(self), *final(self)),
            final(self).well_formed(),
            final(self).mission_map() == old(self).mission_map(),
            final(self).plan_map() == old(self).plan_map(),
            final(self).intent_map() == old(self).intent_map().remove(intent.spec_value()),
    {
        self.intents.remove(&intent.value);
    }
}

/// The generation of a path's step (meaningful when it has one).
pub open spec fn intent_generation(path: OwnerPath) -> Generation {
    path.spec_intent()->0.generation
}

} // verus!
