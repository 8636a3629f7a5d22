mod defense;
mod path;

pub use defense::{
    angle_legal, choose_controller, defence_order, defence_unit, defend, defense_action, fire, fire_targets,
    gatling_choice, gatling_step, in_fire_range, is_unit, key_le, lemma_gatling_from, live_weapon, select_gatling,
    select_targets, spec_is_unit, spec_select_targets, target_key, controller_for, defence_deadline, defence_offer,
    defence_run, defence_steps, fire_ready, lemma_nearest_unique, live_weapon_role, nearest_unit, offers_taken,
    pool_after, pool_member, unit_before, unit_pool, weapon_order,
};
pub use path::{
    PathResult, QueueEntry, entry_before, is_walk, lemma_found_distance, lemma_found_walk, lemma_path_moves,
    lemma_reached_fails, lemma_walk_distance_unique, lemma_walk_fails, next_step, parents_sound,
    path_found, reachable, search_fails, stand_at, too_many_reachable, walk_distance, walk_fails, walk_of,
    walk_toward,
};
