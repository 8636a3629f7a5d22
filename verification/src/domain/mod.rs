mod action;
mod mission;
mod observation;
mod owner;

pub use observation::{
    alive, find_role, first_role, has_role, is_alive, lemma_first_role, role_by_id, MapInfo, Observation, PlayerTask, Pos, Robot, Role, ShopItem, Team, WorldNews, Zone,
};
pub use owner::{
    ActiveOwners, Generation, IntentId, IntentRegistration, MissionId, OwnerAllocator, OwnerError,
    OwnerPath, PlanId, PlanRegistration, Versioned, generation_advances, intent_generation,
    lemma_assignment_links, lemma_paths_by_links, lemma_ids_by_value, ids_below, allocator_advanced, allocator_within, owner_room, owners_shrunk,
};
pub use mission::{
    DeadlineKind, GoalPredicate, Interruptibility, MissionCapability, MissionDeadline, MissionKind,
    MissionSpec, ObjectiveKey, PriorityClass, RetryPolicy, clone_goal, goal_eq, same_contract,
    same_except_deadline, same_goal, spec_is_expired, economy_terms, construction_terms,
    challenge_terms, defense_terms, lemma_dependency_seq_members, lemma_dependency_seq_covers, lemma_same_contract_reflexive,
};
pub use action::{
    Action, ActionProposal, ActionView, Command, CommandView, Response, action_reporter, command_for,
    lemma_command_kinds, spec_command, spec_reporter,
};
