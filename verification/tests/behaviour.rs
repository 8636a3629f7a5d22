use technetium_battle_bot::ai::mission::{BuildPlan, best_sale, fits_return, plan_finished, refresh, should_heal};
use technetium_battle_bot::ai::strategy::{advance, base_risk};
use technetium_battle_bot::ai::tactics::next_step;
use technetium_battle_bot::collections::SortedMap;
use technetium_battle_bot::command::Arbiter;
use technetium_battle_bot::domain::{Action, MapInfo, Observation, PlayerTask, Pos, Robot, Role, ShopItem, Team, WorldNews, Zone};
use technetium_battle_bot::event::WorldEvent;
use technetium_battle_bot::fsm::StrategyState;
use technetium_battle_bot::protocol::{DecodeError, check_body_size, validate};
use technetium_battle_bot::rules::constants::{
    MAX_HTTP_BODY_BYTES, MAX_NEWS_RECORDS, MAX_REMEMBERED_ENEMIES, SCORE_SCALE, WEAPON_BUILD_GOLD, WORKER_MAX_HP,
    ZERO_COUNTER,
};
use technetium_battle_bot::world::{World, WorldMemory, WorldView};

fn role(id: i64, x: i32, y: i32, kind: &str, health: i32) -> Role {
    Role {
        id,
        pos: Pos { x, y },
        role_type: kind.to_owned(),
        health: Some(health),
        attack_power: None,
        attack_range: None,
        back_pack_capability: Some(10),
        backpack: Vec::new(),
        level: None,
        cooldown: None,
    }
}

fn frame() -> Observation {
    Observation {
        round_no: 1,
        map_info: MapInfo {
            width: 12,
            height: 12,
            zones: vec![
                Zone { pos: Pos { x: 8, y: 8 }, neutral_type: "vendor".to_owned() },
                Zone { pos: Pos { x: 5, y: 5 }, neutral_type: "iron".to_owned() },
            ],
        },
        team_our: Team {
            faction: "ice".to_owned(),
            team_id: "team-ice".to_owned(),
            gold_num: Some(100),
            player_tasks: vec![PlayerTask {
                task_type: "challenge".to_owned(),
                task_position: Pos { x: 6, y: 2 },
                cold_down_rounds: Some(0),
                score_reward: None,
                gold_reward: None,
                is_valid: Some(true),
                timeout_rounds: Some(30),
            }],
            roles: vec![
                role(10, 3, 4, "worker", 100),
                role(12, 1, 5, "worker", 100),
                role(1, 2, 6, "station", 1000),
            ],
        },
        team_enemy: None,
        robot: None,
        phase_task: String::new(),
        last_round_role_action_results: Vec::new(),
        last_summon_treasure_result: None,
        llm_resp: String::new(),
        last_cmd_result: String::new(),
        world_news: WorldNews { official_news: String::new(), folk_legends: String::new() },
        vendor_shop_list: vec![
            ShopItem { name: "iron".to_owned(), price: 3 },
            ShopItem { name: "stone".to_owned(), price: 5 },
        ],
        weapon_shop_list: Vec::new(),
    }
}

#[test]
fn medicine_is_used_below_half_health() {
    let mut worker = role(10, 3, 4, "worker", 40);
    assert!(!should_heal(&worker, WORKER_MAX_HP));
    worker.backpack.push("Medicine".to_owned());
    assert!(should_heal(&worker, WORKER_MAX_HP));
    worker.health = Some(WORKER_MAX_HP / 2);
    assert!(!should_heal(&worker, WORKER_MAX_HP));
    assert_eq!(SCORE_SCALE, 100);
}

#[test]
fn best_sale_takes_the_most_gold_for_the_whole_stack() {
    let observation = frame();
    let mut worker = role(10, 3, 4, "worker", 100);
    worker.backpack = vec!["iron".to_owned(), "iron".to_owned(), "stone".to_owned()];
    match best_sale(&observation, &worker) {
        Some(Action::Sell { name, quantity }) => {
            assert_eq!(name, "iron");
            assert_eq!(quantity, 2);
        },
        _ => panic!("expected a sale"),
    }
    worker.backpack = vec!["Medicine".to_owned()];
    assert!(best_sale(&observation, &worker).is_none());
}

#[test]
fn return_fits_only_when_the_walk_ends_before_nightfall() {
    let mut observation = frame();
    assert!(fits_return(&observation, Pos { x: 3, y: 4 }, 1000));
    let mut gatling = role(20, 4, 4, "gatling", 500);
    gatling.back_pack_capability = None;
    observation.team_our.roles.push(gatling);
    // Nightfall is round 41; from round 1 with the weapon one step away
    // (no walk needed), setup 1 and margin 2: 1 + work + 0 + 3 <= 41.
    assert!(fits_return(&observation, Pos { x: 3, y: 4 }, 37));
    assert!(!fits_return(&observation, Pos { x: 3, y: 4 }, 38));
}

fn plan(kind: &str, x: i32, y: i32, sent: Option<i32>) -> BuildPlan {
    BuildPlan { kind: kind.to_owned(), site: Pos { x, y }, sent_round: sent }
}

#[test]
fn build_plans_close_on_death_completion_conflict_refusal_and_timeout() {
    let observation = frame();
    assert_eq!(plan_finished(&observation, 99, &plan("gatling", 2, 4, None)), Some(false));
    let mut built = frame();
    built.team_our.roles.push(role(30, 2, 4, "gatling", 500));
    assert_eq!(plan_finished(&built, 10, &plan("gatling", 2, 4, None)), Some(false));
    assert_eq!(plan_finished(&built, 10, &plan("railgun", 2, 4, None)), Some(true));
    assert_eq!(plan_finished(&observation, 10, &plan("gatling", 2, 4, None)), None);
    let mut refused = frame();
    refused.round_no = 2;
    refused.last_round_role_action_results.push((10, false));
    assert_eq!(plan_finished(&refused, 10, &plan("gatling", 2, 4, Some(1))), Some(true));
    let mut late = frame();
    late.round_no = 4;
    assert_eq!(plan_finished(&late, 10, &plan("gatling", 2, 4, Some(1))), Some(true));
    late.round_no = 3;
    assert_eq!(plan_finished(&late, 10, &plan("gatling", 2, 4, Some(1))), None);
}

#[test]
fn refresh_drops_finished_plans_and_remembers_bad_sites() {
    let mut observation = frame();
    observation.team_our.roles.push(role(30, 1, 4, "wall", 200));
    let mut plans: SortedMap<i64, BuildPlan> = SortedMap::new();
    plans.insert(10, plan("gatling", 2, 4, None));
    plans.insert(12, plan("railgun", 1, 4, None));
    plans.insert(99, plan("rocket", 4, 5, None));
    let mut bad: Vec<Pos> = Vec::new();
    refresh(&observation, &mut plans, &mut bad);
    assert!(plans.contains_key(&10));
    assert!(!plans.contains_key(&12));
    assert!(!plans.contains_key(&99));
    assert_eq!(bad, vec![Pos { x: 1, y: 4 }]);
    refresh(&observation, &mut plans, &mut bad);
    assert_eq!(bad, vec![Pos { x: 1, y: 4 }]);
}

#[test]
fn weapon_builds_stop_when_the_gold_runs_out() {
    let mut observation = frame();
    observation.team_our.gold_num = Some(2 * WEAPON_BUILD_GOLD);
    observation.team_our.roles.push(role(14, 3, 7, "worker", 100));
    let mut arbiter = Arbiter::new(&observation);
    assert!(arbiter.propose(10, Action::Build { name: "gatling".into(), pos: Pos { x: 2, y: 4 } }));
    assert!(arbiter.propose(12, Action::Build { name: "railgun".into(), pos: Pos { x: 1, y: 4 } }));
    assert!(!arbiter.propose(14, Action::Build { name: "rocket".into(), pos: Pos { x: 4, y: 7 } }));
}

#[test]
fn oversized_bodies_and_broken_worlds_are_refused() {
    assert_eq!(check_body_size(MAX_HTTP_BODY_BYTES + 1), Err(DecodeError::TooLarge));
    assert_eq!(check_body_size(MAX_HTTP_BODY_BYTES), Ok(()));
    let mut observation = frame();
    observation.team_our.team_id = String::new();
    assert_eq!(validate(&observation), Err(DecodeError::InvalidWorld));
    let mut observation = frame();
    observation.round_no = 0;
    assert_eq!(validate(&observation), Err(DecodeError::InvalidWorld));
    let mut observation = frame();
    observation.map_info.width = 2000;
    observation.map_info.height = 2000;
    assert_eq!(validate(&observation), Err(DecodeError::InvalidWorld));
}

#[test]
fn frames_report_mines_gold_challenges_news_and_buildings() {
    let first = frame();
    let mut second = frame();
    second.round_no = 2;
    second.map_info.zones.push(Zone { pos: Pos { x: 2, y: 9 }, neutral_type: "stone".to_owned() });
    second.map_info.zones.push(Zone { pos: Pos { x: 1, y: 9 }, neutral_type: "copper".to_owned() });
    second.map_info.zones.retain(|zone| zone.neutral_type != "iron");
    second.team_our.gold_num = Some(90);
    second.phase_task = "Solve".to_owned();
    second.world_news.official_news = "storm".to_owned();
    second.team_our.roles.push(role(40, 4, 7, "wall", 300));
    let mut world = World::default();
    assert!(world.apply(first));
    assert!(world.apply(second));
    let events = &world.events;
    let appeared: Vec<_> = events.iter().filter_map(|e| match e { WorldEvent::MineAppeared(p) => Some(*p), _ => None }).collect();
    assert_eq!(appeared, vec![Pos { x: 1, y: 9 }, Pos { x: 2, y: 9 }]);
    assert!(events.contains(&WorldEvent::MineDisappeared(Pos { x: 5, y: 5 })));
    assert!(events.contains(&WorldEvent::GoldChanged { previous: 100, current: 90 }));
    assert!(events.contains(&WorldEvent::ChallengeStarted));
    assert!(events.contains(&WorldEvent::NewsChanged));
    assert!(events.contains(&WorldEvent::BuildingChanged(40)));
    assert_eq!(events[0], WorldEvent::RoundStarted(2));
}

#[test]
fn weapon_cooldown_end_and_unit_moves_are_reported() {
    let mut first = frame();
    let mut gatling = role(20, 4, 4, "gatling", 500);
    gatling.cooldown = Some(2);
    first.team_our.roles.push(gatling);
    let mut second = first.clone();
    second.round_no = 2;
    second.team_our.roles[0].pos = Pos { x: 4, y: 5 };
    second.team_our.roles[3].cooldown = Some(0);
    let mut world = World::default();
    world.apply(first);
    world.apply(second);
    assert!(world.events.contains(&WorldEvent::UnitMoved { id: 10, from: Pos { x: 3, y: 4 }, to: Pos { x: 4, y: 5 } }));
    assert!(world.events.contains(&WorldEvent::WeaponReady(20)));
}

#[test]
fn memory_keeps_the_most_recent_enemies_within_the_limit() {
    let mut memory = WorldMemory::default();
    let extra = 6;
    for k in 0..(MAX_REMEMBERED_ENEMIES + extra) {
        let mut observation = frame();
        observation.round_no = 1 + k as i32;
        observation.team_enemy = Some(Robot { roles: vec![role(1000 + k as i64, 5, 5, "worker", 100)] });
        memory.observe(&observation);
    }
    assert_eq!(memory.enemies.len(), MAX_REMEMBERED_ENEMIES);
    assert!(!memory.enemies.contains_key(&1000));
    assert!(!memory.enemies.contains_key(&(1000 + extra as i64 - 1)));
    assert!(memory.enemies.contains_key(&(1000 + extra as i64)));
}

#[test]
fn news_are_kept_once_each_and_trimmed_oldest_first() {
    let mut memory = WorldMemory::default();
    let mut observation = frame();
    observation.world_news.official_news = "storm".to_owned();
    memory.observe(&observation);
    memory.observe(&observation);
    assert_eq!(memory.news.len(), 1);
    assert_eq!(memory.news[0].excerpt, "storm");
    assert!(!memory.news[0].truncated);
    observation.world_news.folk_legends = "x".repeat(300);
    memory.observe(&observation);
    assert_eq!(memory.news.len(), 2);
    assert_eq!(memory.news[0].channel, "folk");
    assert!(memory.news[0].truncated);
    assert_eq!(memory.news[0].excerpt.chars().count(), 280);
    for k in 0..40 {
        observation.world_news.official_news = format!("item {k}");
        memory.observe(&observation);
    }
    assert_eq!(memory.news.len(), MAX_NEWS_RECORDS);
}

#[test]
fn news_hashes_follow_the_full_text() {
    let mut first = WorldMemory::default();
    let mut second = WorldMemory::default();
    let mut other = WorldMemory::default();
    let mut observation = frame();
    let long = "y".repeat(400);
    observation.world_news.official_news = long.clone();
    first.observe(&observation);
    second.observe(&observation);
    observation.world_news.official_news = format!("{long}z");
    other.observe(&observation);
    assert_eq!(first.news[0].hash, second.news[0].hash);
    assert_eq!(first.news[0].excerpt, other.news[0].excerpt);
    assert_ne!(first.news[0].hash, other.news[0].hash);
}

#[test]
fn a_threatened_base_calls_an_emergency() {
    let mut observation = frame();
    observation.round_no = 10;
    observation.team_our.roles[2].health = Some(50);
    observation.robot = Some(Robot { roles: vec![role(50, 4, 5, "largeRobot", 100)] });
    assert_eq!(base_risk(&observation), 100);
    let mut clear = ZERO_COUNTER;
    assert_eq!(advance(&observation, &[], StrategyState::DayDevelop, &mut clear), StrategyState::Emergency);
    assert_eq!(clear, ZERO_COUNTER);
    observation.team_our.roles[2].health = Some(100_000);
    assert_eq!(base_risk(&observation), 1);
}

/// A frame with one worker at the west of an open map and a column of
/// stone across the middle with gaps at its ends.
fn walled_frame() -> Observation {
    let mut o = frame();
    o.map_info.zones = (1..=9).map(|y| Zone { pos: Pos { x: 5, y }, neutral_type: "stone".to_owned() }).collect();
    o.team_our.roles = vec![role(10, 1, 5, "worker", 100)];
    o
}

#[test]
fn path_search_walks_around_a_wall_by_a_shortest_walk() {
    let o = walled_frame();
    let view = WorldView::new(&o);
    let start = Pos { x: 1, y: 5 };
    let goal = Pos { x: 9, y: 5 };
    let path = next_step(&view, 10, start, &[goal]).expect("a way round the wall");
    assert_eq!(path.goal, goal);
    assert_eq!(path.steps, 10);
    assert!(view.can_enter(path.next, 10));
}

#[test]
fn path_search_gives_up_on_an_enclosed_goal() {
    let mut o = walled_frame();
    let goal = Pos { x: 9, y: 5 };
    for dx in -1..=1 {
        for dy in -1..=1 {
            if dx != 0 || dy != 0 {
                o.map_info.zones.push(Zone { pos: Pos { x: goal.x + dx, y: goal.y + dy }, neutral_type: "stone".to_owned() });
            }
        }
    }
    let view = WorldView::new(&o);
    assert!(next_step(&view, 10, Pos { x: 1, y: 5 }, &[goal]).is_none());
}

#[test]
fn path_search_from_a_goal_takes_no_step() {
    let o = walled_frame();
    let view = WorldView::new(&o);
    let start = Pos { x: 1, y: 5 };
    let path = next_step(&view, 10, start, &[start]).expect("already there");
    assert_eq!(path.steps, 0);
    assert_eq!(path.next, start);
}
