use vstd::prelude::*;

verus! {

/// A map cell.
#[derive(Clone, Copy, Debug, PartialEq, Eq, Structural, Hash, PartialOrd, Ord)]
pub struct Pos {
    pub x: i32,
    pub y: i32,
}

impl crate::collections::MapKey for Pos {
    open spec fn rank(self) -> int {
        self.x as int * 0x1_0000_0000 + (self.y as int - i32::MIN as int)
    }

    fn rank_lt(&self, other: &Self) -> (r: bool) {
        self.x < other.x || (self.x == other.x && self.y < other.y)
    }

    fn rank_eq(&self, other: &Self) -> (r: bool) {
        self.x == other.x && self.y == other.y
    }

    proof fn rank_injective(a: Self, b: Self) {
    }
}

/// A neutral map feature (mine, vendor, task point).
#[derive(Clone, Debug)]
pub struct Zone {
    pub pos: Pos,
    pub neutral_type: String,
}

#[derive(Clone, Debug)]
pub struct MapInfo {
    pub width: i32,
    pub height: i32,
    pub zones: Vec<Zone>,
}

/// A unit or building as reported by the game.
#[derive(Clone, Debug)]
pub struct Role {
    pub id: i64,
    pub pos: Pos,
    pub role_type: String,
    pub health: Option<i32>,
    pub attack_power: Option<i32>,
    pub attack_range: Option<i32>,
    pub back_pack_capability: Option<usize>,
    pub backpack: Vec<String>,
    pub level: Option<i32>,
    pub cooldown: Option<i32>,
}

#[derive(Clone, Debug)]
pub struct PlayerTask {
    pub task_type: String,
    pub task_position: Pos,
    pub cold_down_rounds: Option<i32>,
    pub score_reward: Option<i32>,
    pub gold_reward: Option<i32>,
    pub is_valid: Option<bool>,
    pub timeout_rounds: Option<i32>,
}

#[derive(Clone, Debug)]
pub struct Team {
    pub faction: String,
    pub team_id: String,
    pub gold_num: Option<i32>,
    pub player_tasks: Vec<PlayerTask>,
    pub roles: Vec<Role>,
}

#[derive(Clone, Debug)]
pub struct Robot {
    pub roles: Vec<Role>,
}

#[derive(Clone, Debug)]
pub struct ShopItem {
    pub name: String,
    pub price: i32,
}

#[derive(Clone, Debug)]
pub struct WorldNews {
    pub official_news: String,
    pub folk_legends: String,
}

/// One frame of the game as sent by the judge. The results of the previous
/// round's actions are keyed by the acting role's id.
#[derive(Clone, Debug)]
pub struct Observation {
    pub round_no: i32,
    pub map_info: MapInfo,
    pub team_our: Team,
    pub team_enemy: Option<Robot>,
    pub robot: Option<Robot>,
    pub phase_task: String,
    pub last_round_role_action_results: Vec<(i64, bool)>,
    pub last_summon_treasure_result: Option<i32>,
    pub llm_resp: String,
    pub last_cmd_result: String,
    pub world_news: WorldNews,
    pub vendor_shop_list: Vec<ShopItem>,
    pub weapon_shop_list: Vec<ShopItem>,
}

/// `i` is the first role with the given id.
pub open spec fn first_role(roles: Seq<Role>, id: i64, i: int) -> bool {
    &&& 0 <= i < roles.len()
    &&& roles[i].id == id
    &&& forall|j: int| 0 <= j < i ==> roles[j].id != id
}

pub open spec fn has_role(roles: Seq<Role>, id: i64) -> bool {
    exists|i: int| 0 <= i < roles.len() && (#[trigger] roles[i]).id == id
}

/// The first role with the given id.
pub open spec fn role_by_id(roles: Seq<Role>, id: i64) -> Option<Role> {
    if has_role(roles, id) {
        Some(roles[choose|i: int| first_role(roles, id, i)])
    } else {
        None
    }
}

/// A role whose health is known and positive.
pub open spec fn is_alive(role: Role) -> bool {
    role.health matches Some(hp) && hp > 0
}

pub proof fn lemma_first_role(roles: Seq<Role>, id: i64, i: int)
    requires
        first_role(roles, id, i),
    ensures
        has_role(roles, id),
        role_by_id(roles, id) == Some(roles[i]),
{
    assert(roles[i].id == id);
    let k = choose|k: int| first_role(roles, id, k);
    if k < i {
        assert(roles[k].id != id);
    } else if k > i {
        assert(roles[i].id != id);
    }
}

/// Index of the first role with the given id.
pub fn find_role(roles: &Vec<Role>, id: i64) -> (r: Option<usize>)
    ensures
        r matches Some(i) ==> first_role(roles@, id, i as int) && role_by_id(roles@, id) == Some(roles@[i as int]),
        r is None <==> !has_role(roles@, id),
        r is None ==> role_by_id(roles@, id) is None,
{
    let mut i: usize = 0;
    while i < roles.len()
        invariant
            i <= roles@.len(),
            forall|j: int| 0 <= j < i ==> roles@[j].id != id,
        decreases roles@.len() - i,
    {
        if roles[i].id == id {
            proof { lemma_first_role(roles@, id, i as int); }
            return Some(i);
        }
        i = i + 1;
    }
    None
}

/// Whether a role's health is known and positive.
pub fn alive(role: &Role) -> (r: bool)
    ensures
        r == is_alive(*role),
{
    match role.health {
        Some(hp) => hp > 0,
        None => false,
    }
}

} // verus!
