use vstd::prelude::*;

use super::{OwnerPath, Pos};
use crate::collections::SortedMap;

verus! {

/// One command a unit or weapon can be given in a round.
#[derive(Debug)]
pub enum Action {
    Move(Pos),
    Collect(Pos),
    Sell { name: String, quantity: i32 },
    Buy { name: String, quantity: i32 },
    Build { name: String, pos: Pos },
    Remove(Pos),
    Attack { controller: i64, targets: Vec<Pos> },
    AcceptTask,
    SubmitAnswer(String),
    SummonTreasure { pos: Pos, items: Vec<String> },
    Use { name: String, pos: Option<Pos> },
    Drop(String),
}

/// The mathematical content of an action.
pub enum ActionView {
    Move(Pos),
    Collect(Pos),
    Sell { name: Seq<char>, quantity: i32 },
    Buy { name: Seq<char>, quantity: i32 },
    Build { name: Seq<char>, pos: Pos },
    Remove(Pos),
    Attack { controller: i64, targets: Seq<Pos> },
    AcceptTask,
    SubmitAnswer(Seq<char>),
    SummonTreasure { pos: Pos, items: Seq<Seq<char>> },
    Use { name: Seq<char>, pos: Option<Pos> },
    Drop(Seq<char>),
}

impl View for Action {
    type V = ActionView;

    open spec fn view(&self) -> ActionView {
        match self {
            Action::Move(p) => ActionView::Move(*p),
            Action::Collect(p) => ActionView::Collect(*p),
            Action::Sell { name, quantity } => ActionView::Sell { name: name@, quantity: *quantity },
            Action::Buy { name, quantity } => ActionView::Buy { name: name@, quantity: *quantity },
            Action::Build { name, pos } => ActionView::Build { name: name@, pos: *pos },
            Action::Remove(p) => ActionView::Remove(*p),
            Action::Attack { controller, targets } => ActionView::Attack { controller: *controller, targets: targets@ },
            Action::AcceptTask => ActionView::AcceptTask,
            Action::SubmitAnswer(a) => ActionView::SubmitAnswer(a@),
            Action::SummonTreasure { pos, items } => ActionView::SummonTreasure {
                pos: *pos,
                items: items@.map_values(|s: String| s@),
            },
            Action::Use { name, pos } => ActionView::Use { name: name@, pos: *pos },
            Action::Drop(n) => ActionView::Drop(n@),
        }
    }
}

fn clone_strings(v: &Vec<String>) -> (r: Vec<String>)
    ensures
        r@.map_values(|s: String| s@) == v@.map_values(|s: String| s@),
{
    let mut r: Vec<String> = Vec::new();
    let mut i: usize = 0;
    while i < v.len()
        invariant
            i <= v@.len(),
            r@.len() == i,
            forall|j: int| 0 <= j < i ==> (#[trigger] r@[j])@ == v@[j]@,
        decreases v@.len() - i,
    {
        r.push(v[i].clone());
        i = i + 1;
    }
    assert(r@.map_values(|s: String| s@) =~= v@.map_values(|s: String| s@));
    r
}

fn clone_positions(v: &Vec<Pos>) -> (r: Vec<Pos>)
    ensures
        r@ == v@,
{
    let mut r: Vec<Pos> = Vec::new();
    let mut i: usize = 0;
    while i < v.len()
        invariant
            i <= v@.len(),
            r@ == v@.subrange(0, i as int),
        decreases v@.len() - i,
    {
        r.push(v[i]);
        assert(r@ =~= v@.subrange(0, i + 1));
        i = i + 1;
    }
    assert(r@ =~= v@);
    r
}

impl Clone for Action {
    fn clone(&self) -> (r: Self)
        ensures
            r@ == self@,
    {
        match self {
            Action::Move(p) => Action::Move(*p),
            Action::Collect(p) => Action::Collect(*p),
            Action::Sell { name, quantity } => Action::Sell { name: name.clone(), quantity: *quantity },
            Action::Buy { name, quantity } => Action::Buy { name: name.clone(), quantity: *quantity },
            Action::Build { name, pos } => Action::Build { name: name.clone(), pos: *pos },
            Action::Remove(p) => Action::Remove(*p),
            Action::Attack { controller, targets } => Action::Attack { controller: *controller, targets: clone_positions(targets) },
            Action::AcceptTask => Action::AcceptTask,
            Action::SubmitAnswer(a) => Action::SubmitAnswer(a.clone()),
            Action::SummonTreasure { pos, items } => Action::SummonTreasure { pos: *pos, items: clone_strings(items) },
            Action::Use { name, pos } => Action::Use { name: name.clone(), pos: *pos },
            Action::Drop(n) => Action::Drop(n.clone()),
        }
    }
}

/// The unit that answers for an action: the controller of an attack, else
/// the actor itself.
pub open spec fn spec_reporter(actor: i64, action: ActionView) -> i64 {
    match action {
        ActionView::Attack { controller, .. } => controller,
        _ => actor,
    }
}

/// The unit that answers for an action.
pub fn action_reporter(actor: i64, action: &Action) -> (r: i64)
    ensures
        r == spec_reporter(actor, action@),
{
    match action {
        Action::Attack { controller, .. } => *controller,
        _ => actor,
    }
}

/// An action of a unit together with the owners it runs for.
#[derive(Debug)]
pub struct ActionProposal {
    actor: i64,
    owner: OwnerPath,
    action: Action,
}

impl ActionProposal {
    pub closed spec fn spec_actor(&self) -> i64 {
        self.actor
    }

    pub closed spec fn spec_owner(&self) -> OwnerPath {
        self.owner
    }

    pub closed spec fn spec_action(&self) -> ActionView {
        self.action@
    }

    pub fn new(actor: i64, owner: OwnerPath, action: Action) -> (r: Self)
        ensures
            r.spec_actor() == actor,
            r.spec_owner() == owner,
            r.spec_action() == action@,
    {
        Self { actor, owner, action }
    }

    pub fn actor(&self) -> (r: i64)
        ensures
            r == self.spec_actor(),
    {
        self.actor
    }

    pub fn owner(&self) -> (r: &OwnerPath)
        ensures
            *r == self.spec_owner(),
    {
        &self.owner
    }

    pub fn action(&self) -> (r: &Action)
        ensures
            r@ == self.spec_action(),
    {
        &self.action
    }

    /// The unit that answers for the action.
    pub fn reporter(&self) -> (r: i64)
        ensures
            r == spec_reporter(self.spec_actor(), self.spec_action()),
    {
        action_reporter(self.actor, &self.action)
    }

    pub fn into_command(self) -> (r: Command)
        ensures
            r.spec_view() == spec_command(self.spec_action()),
    {
        command_for(self.action)
    }
}

/// The wire form of an action.
#[derive(Debug)]
pub struct Command {
    pub action: &'static str,
    pub controller_id: Option<i64>,
    pub target_pos: Option<Vec<Pos>>,
    pub name: Option<String>,
    pub quantity: Option<i32>,
    pub task_answer: Option<String>,
    pub item: Option<Vec<String>>,
}

/// The mathematical content of a command.
pub struct CommandView {
    pub action: Seq<char>,
    pub controller_id: Option<i64>,
    pub target_pos: Option<Seq<Pos>>,
    pub name: Option<Seq<char>>,
    pub quantity: Option<i32>,
    pub task_answer: Option<Seq<char>>,
    pub item: Option<Seq<Seq<char>>>,
}

impl Command {
    pub open spec fn spec_view(&self) -> CommandView {
        CommandView {
            action: self.action@,
            controller_id: self.controller_id,
            target_pos: match self.target_pos { Some(v) => Some(v@), None => None },
            name: match self.name { Some(n) => Some(n@), None => None },
            quantity: self.quantity,
            task_answer: match self.task_answer { Some(a) => Some(a@), None => None },
            item: match self.item { Some(v) => Some(v@.map_values(|s: String| s@)), None => None },
        }
    }
}

pub open spec fn blank_view(action: Seq<char>) -> CommandView {
    CommandView { action, controller_id: None, target_pos: None, name: None, quantity: None, task_answer: None, item: None }
}

/// The command an action is sent as: its wire name, and the fields it uses.
pub open spec fn spec_command(action: ActionView) -> CommandView {
    match action {
        ActionView::Move(p) => CommandView { target_pos: Some(seq![p]), ..blank_view("move"@) },
        ActionView::Collect(p) => CommandView { target_pos: Some(seq![p]), ..blank_view("collect"@) },
        ActionView::Remove(p) => CommandView { target_pos: Some(seq![p]), ..blank_view("remove"@) },
        ActionView::Build { name, pos } => CommandView { target_pos: Some(seq![pos]), name: Some(name), ..blank_view("build"@) },
        ActionView::Sell { name, quantity } => CommandView { name: Some(name), quantity: Some(quantity), ..blank_view("sell"@) },
        ActionView::Buy { name, quantity } => CommandView { name: Some(name), quantity: Some(quantity), ..blank_view("buy"@) },
        ActionView::Use { name, pos } => CommandView {
            name: Some(name),
            target_pos: match pos { Some(p) => Some(seq![p]), None => None },
            ..blank_view("use"@)
        },
        ActionView::Drop(name) => CommandView { name: Some(name), ..blank_view("drop"@) },
        ActionView::Attack { controller, targets } => CommandView {
            controller_id: Some(controller),
            target_pos: Some(targets),
            ..blank_view("attack"@)
        },
        ActionView::AcceptTask => blank_view("acceptTask"@),
        ActionView::SubmitAnswer(answer) => CommandView { task_answer: Some(answer), ..blank_view("submitAnswer"@) },
        ActionView::SummonTreasure { pos, items } => CommandView {
            target_pos: Some(seq![pos]),
            item: Some(items),
            ..blank_view("summonTreasure"@)
        },
    }
}

/// A command carries what its action says: a sale or a purchase names its
/// goods and their quantity, a move, a collection, a removal or a build its
/// cell, an attack its controller and every target, an answer its text;
/// so two trades of different quantities are never sent alike.
pub proof fn law_command_carries_the_action(a: ActionView, b: ActionView)
    ensures
        a matches ActionView::Sell { name, quantity } ==> spec_command(a).action == "sell"@
            && spec_command(a).name == Some(name) && spec_command(a).quantity == Some(quantity),
        a matches ActionView::Buy { name, quantity } ==> spec_command(a).action == "buy"@
            && spec_command(a).name == Some(name) && spec_command(a).quantity == Some(quantity),
        a matches ActionView::Move(p) ==> spec_command(a).target_pos == Some(seq![p]),
        a matches ActionView::Collect(p) ==> spec_command(a).target_pos == Some(seq![p]),
        a matches ActionView::Remove(p) ==> spec_command(a).target_pos == Some(seq![p]),
        a matches ActionView::Build { name, pos } ==> spec_command(a).target_pos == Some(seq![pos]) && spec_command(a).name == Some(name),
        a matches ActionView::Attack { controller, targets } ==> spec_command(a).controller_id == Some(controller)
            && spec_command(a).target_pos == Some(targets),
        a matches ActionView::SubmitAnswer(answer) ==> spec_command(a).task_answer == Some(answer),
        (a matches ActionView::Sell { quantity: qa, .. } && b matches ActionView::Sell { quantity: qb, .. } && qa != qb)
            ==> spec_command(a) != spec_command(b),
        (a matches ActionView::Buy { quantity: qa, .. } && b matches ActionView::Buy { quantity: qb, .. } && qa != qb)
            ==> spec_command(a) != spec_command(b),
{
}

/// Only a move is sent as a move, only a build as a build, and only an
/// attack as an attack.
pub proof fn lemma_command_kinds(a: ActionView)
    ensures
        spec_command(a).action == "move"@ <==> a is Move,
        spec_command(a).action == "build"@ <==> a is Build,
        spec_command(a).action == "attack"@ <==> a is Attack,
{
    reveal_strlit("move");
    reveal_strlit("collect");
    reveal_strlit("remove");
    reveal_strlit("build");
    reveal_strlit("sell");
    reveal_strlit("buy");
    reveal_strlit("use");
    reveal_strlit("drop");
    reveal_strlit("attack");
    reveal_strlit("acceptTask");
    reveal_strlit("submitAnswer");
    reveal_strlit("summonTreasure");
    assert("move"@ != "collect"@) by { assert("move"@[0] != "collect"@[0]); }
    assert("move"@ != "remove"@) by { assert("move"@[0] != "remove"@[0]); }
    assert("move"@ != "build"@) by { assert("move"@[0] != "build"@[0]); }
    assert("move"@ != "sell"@) by { assert("move"@[0] != "sell"@[0]); }
    assert("move"@ != "buy"@) by { assert("move"@[0] != "buy"@[0]); }
    assert("move"@ != "use"@) by { assert("move"@[0] != "use"@[0]); }
    assert("move"@ != "drop"@) by { assert("move"@[0] != "drop"@[0]); }
    assert("move"@ != "attack"@) by { assert("move"@[0] != "attack"@[0]); }
    assert("move"@ != "acceptTask"@) by { assert("move"@[0] != "acceptTask"@[0]); }
    assert("move"@ != "submitAnswer"@) by { assert("move"@[0] != "submitAnswer"@[0]); }
    assert("move"@ != "summonTreasure"@) by { assert("move"@[0] != "summonTreasure"@[0]); }
    assert("build"@ != "move"@) by { assert("build"@[0] != "move"@[0]); }
    assert("build"@ != "collect"@) by { assert("build"@[0] != "collect"@[0]); }
    assert("build"@ != "remove"@) by { assert("build"@[0] != "remove"@[0]); }
    assert("build"@ != "sell"@) by { assert("build"@[0] != "sell"@[0]); }
    assert("build"@ != "buy"@) by { assert("build"@[2] != "buy"@[2]); }
    assert("build"@ != "use"@) by { assert("build"@[0] != "use"@[0]); }
    assert("build"@ != "drop"@) by { assert("build"@[0] != "drop"@[0]); }
    assert("build"@ != "attack"@) by { assert("build"@[0] != "attack"@[0]); }
    assert("build"@ != "acceptTask"@) by { assert("build"@[0] != "acceptTask"@[0]); }
    assert("build"@ != "submitAnswer"@) by { assert("build"@[0] != "submitAnswer"@[0]); }
    assert("build"@ != "summonTreasure"@) by { assert("build"@[0] != "summonTreasure"@[0]); }
    assert("attack"@ != "move"@) by { assert("attack"@[0] != "move"@[0]); }
    assert("attack"@ != "collect"@) by { assert("attack"@[0] != "collect"@[0]); }
    assert("attack"@ != "remove"@) by { assert("attack"@[0] != "remove"@[0]); }
    assert("attack"@ != "build"@) by { assert("attack"@[0] != "build"@[0]); }
    assert("attack"@ != "sell"@) by { assert("attack"@[0] != "sell"@[0]); }
    assert("attack"@ != "buy"@) by { assert("attack"@[0] != "buy"@[0]); }
    assert("attack"@ != "use"@) by { assert("attack"@[0] != "use"@[0]); }
    assert("attack"@ != "drop"@) by { assert("attack"@[0] != "drop"@[0]); }
    assert("attack"@ != "acceptTask"@) by { assert("attack"@[1] != "acceptTask"@[1]); }
    assert("attack"@ != "submitAnswer"@) by { assert("attack"@[0] != "submitAnswer"@[0]); }
    assert("attack"@ != "summonTreasure"@) by { assert("attack"@[0] != "summonTreasure"@[0]); }
}

fn one(p: Pos) -> (v: Vec<Pos>)
    ensures
        v@ == seq![p],
{
    let mut v: Vec<Pos> = Vec::new();
    v.push(p);
    assert(v@ =~= seq![p]);
    v
}

fn blank(action: &'static str) -> (c: Command)
    ensures
        c.spec_view() == blank_view(action@),
{
    Command { action, controller_id: None, target_pos: None, name: None, quantity: None, task_answer: None, item: None }
}

/// The command an action is sent as.
pub fn command_for(action: Action) -> (c: Command)
    ensures
        c.spec_view() == spec_command(action@),
{
    let ghost v = action@;
    match action {
        Action::Move(pos) => Command { target_pos: Some(one(pos)), ..blank("move") },
        Action::Collect(pos) => Command { target_pos: Some(one(pos)), ..blank("collect") },
        Action::Remove(pos) => Command { target_pos: Some(one(pos)), ..blank("remove") },
        Action::Build { name, pos } => Command { target_pos: Some(one(pos)), name: Some(name), ..blank("build") },
        Action::Sell { name, quantity } => Command { name: Some(name), quantity: Some(quantity), ..blank("sell") },
        Action::Buy { name, quantity } => Command { name: Some(name), quantity: Some(quantity), ..blank("buy") },
        Action::Use { name, pos } => {
            let target_pos = match pos {
                Some(p) => Some(one(p)),
                None => None,
            };
            Command { name: Some(name), target_pos, ..blank("use") }
        },
        Action::Drop(name) => Command { name: Some(name), ..blank("drop") },
        Action::Attack { controller, targets } => Command {
            controller_id: Some(controller),
            target_pos: Some(targets),
            ..blank("attack")
        },
        Action::AcceptTask => blank("acceptTask"),
        Action::SubmitAnswer(answer) => Command { task_answer: Some(answer), ..blank("submitAnswer") },
        Action::SummonTreasure { pos, items } => Command {
            target_pos: Some(one(pos)),
            item: Some(items),
            ..blank("summonTreasure")
        },
    }
}

/// The reply to the judge: one command per acting unit, keyed by unit id,
/// a prompt for the language model, and a raw command line.
#[derive(Debug)]
pub struct Response {
    pub role_command_map: SortedMap<i64, Command>,
    pub prompt: String,
    pub execute_cmd: String,
}

impl Default for Response {
    fn default() -> (r: Self)
        ensures
            r.role_command_map.well_formed(),
            r.role_command_map.view() == Map::<i64, Command>::empty(),
            r.prompt@ == Seq::<char>::empty(),
            r.execute_cmd@ == Seq::<char>::empty(),
    {
        Response { role_command_map: SortedMap::new(), prompt: String::new(), execute_cmd: String::new() }
    }
}

} // verus!
