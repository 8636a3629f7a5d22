use technetium_battle_bot::ai::mission::{MissionCancellation, MissionRegistry, MissionRegistryError};
use technetium_battle_bot::domain::{
    ActiveOwners, Generation, IntentId, MissionId, MissionKind, MissionSpec, ObjectiveKey, OwnerAllocator,
    OwnerError, OwnerPath, PlanId, Pos, PriorityClass, Versioned,
};
use technetium_battle_bot::fsm::MissionState;

const ROOT_ASSIGNEE: i64 = 10;
const CHILD_ASSIGNEE: i64 = 11;
const GRANDCHILD_ASSIGNEE: i64 = 12;
const WEAPON_ID: i64 = 20;
const BUILDING_KIND: &str = "gatling";

fn assignment(owners: &mut ActiveOwners, allocator: &mut OwnerAllocator) -> OwnerPath {
    owners.create_assignment(allocator).expect("owner space")
}

fn construction_spec() -> MissionSpec {
    MissionSpec::construction(Pos { x: 3, y: 7 }, BUILDING_KIND)
}

fn state(registry: &MissionRegistry, mission: MissionId) -> MissionState {
    registry.view(mission).expect("mission view").state()
}

fn deactivate_cancelled(owners: &mut ActiveOwners, cancelled: &[MissionCancellation]) {
    for cancellation in cancelled {
        owners.deactivate_assignment(&cancellation.owner());
    }
}

#[test]
fn succeeding_a_prerequisite_releases_its_dependents() {
    let mut owners = ActiveOwners::default();
    let mut allocator = OwnerAllocator::default();
    let mut registry = MissionRegistry::default();
    let root_owner = assignment(&mut owners, &mut allocator);
    let root = registry.register(ROOT_ASSIGNEE, MissionSpec::economy(), root_owner).expect("root mission");
    registry.assign(root).expect("ready root");
    registry.activate(root).expect("assigned root");
    let child_owner = assignment(&mut owners, &mut allocator);
    let child = registry.register(CHILD_ASSIGNEE, construction_spec().with_dependencies(&[root]), child_owner).expect("dependent mission");
    let child_view = registry.view(child).expect("child view");
    assert_eq!(child_view.spec().objective(), construction_spec().objective());
    assert_eq!(child_view.owner(), child_owner);
    assert_eq!(child_view.assignee(), CHILD_ASSIGNEE);
    assert!(child_view.dependencies().contains_key(&root));
    assert_eq!(child_view.state(), MissionState::Proposed);
    let completion = registry.succeed(root).expect("executing root");
    owners.deactivate_assignment(&completion.owner());
    assert_eq!(completion.ready(), &[child]);
    assert_eq!(state(&registry, root), MissionState::Succeeded);
    assert_eq!(state(&registry, child), MissionState::Ready);
    assert!(registry.current_assignment(ROOT_ASSIGNEE, &MissionSpec::economy()).is_none());
}

#[test]
fn cancelling_a_prerequisite_cancels_the_dependency_tree() {
    let mut owners = ActiveOwners::default();
    let mut allocator = OwnerAllocator::default();
    let mut registry = MissionRegistry::default();
    let root_owner = assignment(&mut owners, &mut allocator);
    let root = registry.register(ROOT_ASSIGNEE, MissionSpec::economy(), root_owner).expect("root mission");
    registry.assign(root).expect("ready root");
    registry.activate(root).expect("assigned root");
    let child_owner = assignment(&mut owners, &mut allocator);
    let child = registry.register(CHILD_ASSIGNEE, construction_spec().with_dependencies(&[root]), child_owner).expect("child mission");
    let grandchild_owner = assignment(&mut owners, &mut allocator);
    let grandchild = registry.register(GRANDCHILD_ASSIGNEE, MissionSpec::defense(WEAPON_ID).with_dependencies(&[child]), grandchild_owner)
        .expect("grandchild mission");
    let cancelled = registry.cancel(root).expect("active root");
    deactivate_cancelled(&mut owners, &cancelled);
    assert_eq!(cancelled.len(), 3);
    assert_eq!(state(&registry, root), MissionState::Cancelled);
    assert_eq!(state(&registry, child), MissionState::Cancelled);
    assert_eq!(state(&registry, grandchild), MissionState::Cancelled);
}

#[test]
fn assigning_replacement_cancels_the_previous_active_mission() {
    let mut owners = ActiveOwners::default();
    let mut allocator = OwnerAllocator::default();
    let mut registry = MissionRegistry::default();
    let first_owner = assignment(&mut owners, &mut allocator);
    let first = registry.register(ROOT_ASSIGNEE, MissionSpec::economy(), first_owner).expect("first mission");
    registry.assign(first).expect("ready first");
    registry.activate(first).expect("assigned first");
    let second_owner = assignment(&mut owners, &mut allocator);
    let second = registry.register(ROOT_ASSIGNEE, construction_spec(), second_owner).expect("replacement mission");
    let cancelled = registry.assign(second).expect("ready replacement");
    deactivate_cancelled(&mut owners, &cancelled);
    registry.activate(second).expect("assigned replacement");
    assert_eq!(cancelled.first().map(|item| item.owner()), Some(first_owner));
    assert_eq!(state(&registry, first), MissionState::Cancelled);
    assert_eq!(state(&registry, second), MissionState::Executing);
    assert!(!owners.is_current(&first_owner));
    assert!(owners.is_current(&second_owner));
    assert_eq!(registry.current_assignment(ROOT_ASSIGNEE, &construction_spec()), Some(second_owner));
}

#[test]
fn assignment_identity_includes_the_full_contract() {
    let mut owners = ActiveOwners::default();
    let mut allocator = OwnerAllocator::default();
    let mut registry = MissionRegistry::default();
    let owner = assignment(&mut owners, &mut allocator);
    let spec = construction_spec();
    let mission = registry.register(ROOT_ASSIGNEE, spec.clone(), owner).expect("mission");
    registry.assign(mission).expect("ready mission");
    registry.activate(mission).expect("assigned mission");
    assert_eq!(registry.current_assignment(ROOT_ASSIGNEE, &spec), Some(owner));
    let changed = construction_spec().with_priority(PriorityClass::Q2Deadline);
    assert!(registry.current_assignment(ROOT_ASSIGNEE, &changed).is_none());
}

#[test]
fn registration_rejects_unknown_dependencies() {
    let mut owners = ActiveOwners::default();
    let mut allocator = OwnerAllocator::default();
    let mut registry = MissionRegistry::default();
    let owner = assignment(&mut owners, &mut allocator);
    assert_eq!(registry.register(ROOT_ASSIGNEE, MissionSpec::economy().with_dependencies(&[MissionId::new(999)]), owner),
        Err(MissionRegistryError::UnknownDependency));
    let self_owner = assignment(&mut owners, &mut allocator);
    let self_dependency = self_owner.mission().id;
    assert_eq!(registry.register(CHILD_ASSIGNEE, MissionSpec::economy().with_dependencies(&[self_dependency]), self_owner),
        Err(MissionRegistryError::SelfDependency));
    let root_owner = assignment(&mut owners, &mut allocator);
    let root = registry.register(ROOT_ASSIGNEE, MissionSpec::economy(), root_owner).expect("root mission");
    registry.cancel(root).expect("ready root");
    let dependent_owner = assignment(&mut owners, &mut allocator);
    assert_eq!(registry.register(CHILD_ASSIGNEE, construction_spec().with_dependencies(&[root]), dependent_owner),
        Err(MissionRegistryError::DependencyUnavailable));
}

#[test]
fn constructors_bind_mission_kinds_to_their_objectives() {
    let site = Pos { x: 3, y: 7 };
    assert_eq!(MissionSpec::economy().kind(), MissionKind::GatherAndSell);
    assert_eq!(MissionSpec::economy().objective(), ObjectiveKey::EconomyCycle);
    assert_eq!(MissionSpec::construction(site, BUILDING_KIND).kind(), MissionKind::Construct);
    assert_eq!(MissionSpec::construction(site, BUILDING_KIND).objective(), ObjectiveKey::ConstructionSite(site));
    assert_eq!(MissionSpec::challenge().kind(), MissionKind::Challenge);
    assert_eq!(MissionSpec::challenge().objective(), ObjectiveKey::ChallengeSession);
    assert_eq!(MissionSpec::defense(WEAPON_ID).kind(), MissionKind::DefendSector);
    assert_eq!(MissionSpec::defense(WEAPON_ID).objective(), ObjectiveKey::DefenseWeapon(WEAPON_ID));
}

#[test]
fn objective_keys_distinguish_targets_within_one_mission_kind() {
    let first = MissionSpec::construction(Pos { x: 3, y: 7 }, BUILDING_KIND);
    let second = MissionSpec::construction(Pos { x: 4, y: 7 }, BUILDING_KIND);
    assert!(!first.same_as(&second));
    assert!(!MissionSpec::defense(WEAPON_ID).same_as(&MissionSpec::defense(21)));
    assert!(first.same_as(&MissionSpec::construction(Pos { x: 3, y: 7 }, BUILDING_KIND)));
}

const MISSION_KEY: u64 = 11;
const PLAN_KEY: u64 = 21;

fn versioned_mission(generation: Generation) -> Versioned<MissionId> {
    Versioned::new(MissionId::new(MISSION_KEY), generation)
}

fn versioned_plan(id: u64, generation: Generation) -> Versioned<PlanId> {
    Versioned::new(PlanId::new(id), generation)
}

fn versioned_intent(generation: Generation) -> Versioned<IntentId> {
    Versioned::new(IntentId::new(31), generation)
}

#[test]
fn owner_path_requires_a_complete_parent_chain() {
    let mission = versioned_mission(Generation::initial());
    let intent = versioned_intent(Generation::initial());
    assert_eq!(OwnerPath::new(mission, None, Some(intent)), Err(OwnerError::IntentWithoutPlan));
}

#[test]
fn changing_a_mission_generation_invalidates_the_whole_old_path() {
    let initial = Generation::initial();
    let next = initial.next().expect("generation space");
    let mission = versioned_mission(initial);
    let plan = versioned_plan(PLAN_KEY, initial);
    let intent = versioned_intent(initial);
    let owner = OwnerPath::new(mission, Some(plan), Some(intent)).expect("complete path");
    let mut owners = ActiveOwners::default();
    owners.activate_mission(mission).expect("new mission");
    owners.activate_plan(mission, plan).expect("current parent");
    owners.activate_intent(mission, plan, intent).expect("current parents");
    assert!(owners.is_current(&owner));
    owners.activate_mission(versioned_mission(next)).expect("advanced mission");
    assert!(!owners.is_current(&owner));
}

#[test]
fn registration_rejects_stale_parents_and_reused_children() {
    let initial = Generation::initial();
    let next = initial.next().expect("generation space");
    let mission = versioned_mission(initial);
    let plan = versioned_plan(PLAN_KEY, initial);
    let mut owners = ActiveOwners::default();
    assert_eq!(owners.activate_plan(mission, plan), Err(OwnerError::MissionNotCurrent));
    owners.activate_mission(mission).expect("new mission");
    owners.activate_plan(mission, plan).expect("new plan");
    assert_eq!(owners.activate_plan(mission, plan), Err(OwnerError::GenerationNotAdvanced));
    let advanced_mission = versioned_mission(next);
    owners.activate_mission(advanced_mission).expect("advanced mission");
    assert_eq!(owners.activate_plan(advanced_mission, versioned_plan(PLAN_KEY, next)), Err(OwnerError::ParentChanged));
    assert!(owners.activate_plan(advanced_mission, versioned_plan(22, initial)).is_ok());
}
