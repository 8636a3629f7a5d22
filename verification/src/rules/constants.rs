use vstd::prelude::*;

verus! {

/// The first round of a match (rounds are one-based).
pub const FIRST_ROUND: i32 = 1;
/// Offset that turns a one-based round into a zero-based slot.
pub const ROUND_OFFSET: i32 = 1;
/// Rounds of daylight in one day/night cycle.
pub const DAY_ROUNDS: i32 = 40;
/// Rounds of darkness in one day/night cycle.
pub const NIGHT_ROUNDS: i32 = 20;
/// Last round of a match.
pub const MATCH_ROUNDS: i32 = 240;
/// Rounds between sending an action and observing its result.
pub const MIN_ACTION_ROUNDS: i32 = 1;
pub const ZERO_ROUNDS: i32 = 0;
/// Chebyshev reach of a unit: it interacts with the eight surrounding cells.
pub const NEIGHBOR_RANGE: i32 = 1;
pub const MIN_COORDINATE: i32 = 0;
/// Health at or below which a unit counts as dead.
pub const NO_HEALTH: i32 = 0;
pub const NO_COOLDOWN: i32 = 0;
pub const ZERO_GOLD: i32 = 0;
pub const ZERO_SCORE: i32 = 0;
pub const ZERO_VERSION: u64 = 0;
pub const VERSION_INCREMENT: u64 = 1;
pub const ZERO_COUNTER: u8 = 0;
pub const COUNTER_INCREMENT: u8 = 1;
pub const EMPTY_COUNT: usize = 0;
pub const SINGLE_ITEM: usize = 1;
/// Most weapons a team may own at once.
pub const MAX_WEAPONS: usize = 3;
/// Gold that one weapon build costs.
pub const WEAPON_BUILD_GOLD: i32 = 30;
/// Default number of rejected attempts a mission tolerates.
pub const MAX_LOCAL_REPLANS: u8 = 3;
/// Capacity of the world event log.
pub const MAX_EVENT_LOG_RECORDS: usize = 256;
pub const ANSWER_MARGIN_ROUNDS: i32 = 2;
pub const CHALLENGE_SETUP_ROUNDS: i32 = 2;
pub const ACTION_RESULT_GRACE_ROUNDS: i32 = 2;
pub const DEFAULT_LEVEL: i32 = 1;
pub const NEXT_LEVEL: i32 = 1;
pub const MAX_FIRE_TARGETS: usize = 8;
pub const MAX_PATH_EXPANSIONS: usize = 4096;
pub const PATH_STEP_COST: i32 = 1;
/// Goals this close to the start keep a search's estimates clear of the
/// `i32` limit.
pub const NEAR_GOAL_RANGE: i32 = 0x4000_0000;
pub const GATHER_BATCH_MAX: usize = 5;
pub const MEDICINE_HEAL_THRESHOLD: i32 = 50;
pub const SCORE_SCALE: i32 = 100;
pub const WORKER_MAX_HP: i32 = 100;
pub const PIONEER_MAX_HP: i32 = 100;
pub const ECONOMY_SETUP_ROUNDS: i32 = 2;
pub const POSITION_SETUP_ROUNDS: i32 = 1;
pub const RETURN_MARGIN_ROUNDS: i32 = 2;
pub const BASE_RISK_ENTER: i32 = 60;
pub const BASE_RISK_EXIT: i32 = 30;
pub const EMERGENCY_CLEAR_ROUNDS: u8 = 3;
pub const ENDGAME_WINDOW_ROUNDS: i32 = 10;
pub const MIN_POSITIVE_HP: i32 = 1;
pub const RISK_HORIZON_ROUNDS: i32 = 3;
pub const ROBOT_ATTACK_RANGE: i32 = 1;
pub const ROBOT_STEP_ESTIMATE: i32 = 1;
pub const SMALL_ROBOT_ATTACK: i32 = 10;
pub const MIDDLE_ROBOT_ATTACK: i32 = 20;
pub const LARGE_ROBOT_ATTACK: i32 = 40;
pub const BOSS_ROBOT_ATTACK: i32 = 80;
pub const MAX_REMEMBERED_ENEMIES: usize = 64;
pub const MAX_NEWS_RECORDS: usize = 32;
pub const MAX_NEWS_TEXT_CHARS: usize = 280;
/// An id that no unit carries.
pub const NO_ACTOR_ID: i64 = -1;
pub const MAP_MIN_SIZE: i32 = 1;
pub const MAX_MAP_CELLS: i32 = 1000000;
pub const HTTP_DECISION_TIMEOUT_MS: u64 = 800;
pub const MAX_HTTP_BODY_BYTES: usize = 1048576;

} // verus!
