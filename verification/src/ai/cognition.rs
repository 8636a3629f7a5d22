use vstd::prelude::*;

use crate::domain::{Action, ActionView, Observation};
use crate::rules::constants::MIN_ACTION_ROUNDS;
use crate::text::str_eq;

verus! {

/// What the bot remembers of the current challenge: its text, the round
/// its prompt was sent, and the last answer it submitted.
#[derive(Clone, Debug)]
pub struct ChallengeMemory {
    pub task_text: String,
    pub prompt_round: Option<i32>,
    pub submitted_answer: String,
}

impl Default for ChallengeMemory {
    fn default() -> (r: Self)
        ensures
            r.task_text@.len() == 0,
            r.prompt_round is None,
            r.submitted_answer@.len() == 0,
    {
        ChallengeMemory { task_text: String::new(), prompt_round: None, submitted_answer: String::new() }
    }
}

/// The characters `char::is_whitespace` accepts.
pub open spec fn is_space(c: char) -> bool {
    ||| '\u{9}' <= c <= '\u{d}'
    ||| c == ' '
    ||| c == '\u{85}'
    ||| c == '\u{a0}'
    ||| c == '\u{1680}'
    ||| '\u{2000}' <= c <= '\u{200a}'
    ||| c == '\u{2028}'
    ||| c == '\u{2029}'
    ||| c == '\u{202f}'
    ||| c == '\u{205f}'
    ||| c == '\u{3000}'
}

fn space(c: char) -> (r: bool)
    ensures
        r == is_space(c),
{
    ('\u{9}' <= c && c <= '\u{d}') || c == ' ' || c == '\u{85}' || c == '\u{a0}' || c == '\u{1680}'
        || ('\u{2000}' <= c && c <= '\u{200a}') || c == '\u{2028}' || c == '\u{2029}' || c == '\u{202f}'
        || c == '\u{205f}' || c == '\u{3000}'
}

/// `t` is `s` without its leading and trailing white space.
pub open spec fn is_trim_of(t: Seq<char>, s: Seq<char>) -> bool {
    exists|a: int, b: int| #![trigger s.subrange(a, b)]
        0 <= a <= b <= s.len() && t == s.subrange(a, b)
        && (forall|i: int| 0 <= i < a ==> is_space(#[trigger] s[i]))
        && (forall|i: int| b <= i < s.len() ==> is_space(#[trigger] s[i]))
        && (a < b ==> !is_space(s[a]) && !is_space(s[b - 1]))
}

/// The text without its leading and trailing white space.
pub fn trim_text(s: &str) -> (r: String)
    ensures
        is_trim_of(r@, s@),
{
    let n: usize = s.unicode_len();
    let mut a: usize = 0;
    while a < n && space(s.get_char(a))
        invariant
            n == s@.len(),
            a <= n,
            forall|i: int| 0 <= i < a ==> is_space(#[trigger] s@[i]),
        decreases n - a,
    {
        a = a + 1;
    }
    let mut b: usize = n;
    while b > a && space(s.get_char(b - 1))
        invariant
            n == s@.len(),
            a <= b <= n,
            forall|i: int| b <= i < n ==> is_space(#[trigger] s@[i]),
        decreases b,
    {
        b = b - 1;
    }
    let t = s.substring_char(a, b);
    let r = String::from_str(t);
    proof {
        assert(s@.subrange(a as int, b as int) == r@);
    }
    r
}

pub const PROMPT_PREFIX: &'static str = "Solve the competition task. Return only the answer text, preserving its required format. Task:\n";

/// The prompt for the current challenge, sent once per challenge text; an
/// empty string when there is no challenge or its prompt was already sent.
/// A new challenge text resets what is remembered of the old one; no
/// challenge resets the memory entirely.
pub fn prepare_prompt(observation: &Observation, memory: &mut ChallengeMemory) -> (r: String)
    ensures
        observation.phase_task@.len() == 0 ==> r@.len() == 0 && final(memory).task_text@.len() == 0
            && final(memory).prompt_round is None && final(memory).submitted_answer@.len() == 0,
        observation.phase_task@.len() > 0 ==> {
            let fresh = old(memory).task_text@ != observation.phase_task@;
            &&& final(memory).task_text@ == observation.phase_task@
            &&& final(memory).submitted_answer@ == (if fresh { Seq::<char>::empty() } else { old(memory).submitted_answer@ })
            &&& if !fresh && old(memory).prompt_round is Some {
                &&& r@.len() == 0
                &&& final(memory).prompt_round == old(memory).prompt_round
            } else {
                &&& r@ == PROMPT_PREFIX@ + observation.phase_task@
                &&& final(memory).prompt_round == Some(observation.round_no)
            }
        },
{
    if observation.phase_task.as_str().unicode_len() == 0 {
        *memory = ChallengeMemory::default();
        return String::new();
    }
    if !str_eq(memory.task_text.as_str(), observation.phase_task.as_str()) {
        memory.task_text = observation.phase_task.clone();
        memory.prompt_round = None;
        memory.submitted_answer = String::new();
    }
    if memory.prompt_round.is_some() {
        return String::new();
    }
    memory.prompt_round = Some(observation.round_no);
    let mut prompt = String::from_str(PROMPT_PREFIX);
    prompt.append(observation.phase_task.as_str());
    prompt
}

/// The answer the model gave, to submit in the round right after the
/// prompt, when it is non-empty, differs from the last submitted answer,
/// and the challenge has not changed.
pub open spec fn answer_for(o: Observation, memory: ChallengeMemory, answer: Seq<char>) -> bool {
    &&& memory.prompt_round matches Some(round) && round + MIN_ACTION_ROUNDS == o.round_no
    &&& is_trim_of(answer, o.llm_resp@)
    &&& answer.len() > 0
    &&& answer != memory.submitted_answer@
    &&& memory.task_text@ == o.phase_task@
}

pub fn answer_action(observation: &Observation, memory: &ChallengeMemory) -> (r: Option<Action>)
    ensures
        r matches Some(a) ==> (a@ matches ActionView::SubmitAnswer(answer) && answer_for(*observation, *memory, answer)),
        r is None ==> forall|answer: Seq<char>| !answer_for(*observation, *memory, answer),
{
    let prompt_round = match memory.prompt_round {
        Some(round) => round,
        None => return None,
    };
    let expected = match prompt_round.checked_add(MIN_ACTION_ROUNDS) {
        Some(round) => round,
        None => return None,
    };
    if observation.round_no != expected {
        return None;
    }
    let answer = trim_text(observation.llm_resp.as_str());
    proof { lemma_trim_unique(observation.llm_resp@); }
    if answer.as_str().unicode_len() == 0 || str_eq(answer.as_str(), memory.submitted_answer.as_str()) {
        return None;
    }
    if !str_eq(memory.task_text.as_str(), observation.phase_task.as_str()) {
        return None;
    }
    Some(Action::SubmitAnswer(answer))
}

/// Two trims of the same text are equal.
pub proof fn lemma_trim_unique(s: Seq<char>)
    ensures
        forall|t1: Seq<char>, t2: Seq<char>| is_trim_of(t1, s) && is_trim_of(t2, s) ==> t1 == t2,
{
    assert forall|t1: Seq<char>, t2: Seq<char>| is_trim_of(t1, s) && is_trim_of(t2, s) implies t1 == t2 by {
        let (a1, b1) = choose|a: int, b: int| #![trigger s.subrange(a, b)]
            0 <= a <= b <= s.len() && t1 == s.subrange(a, b)
            && (forall|i: int| 0 <= i < a ==> is_space(#[trigger] s[i]))
            && (forall|i: int| b <= i < s.len() ==> is_space(#[trigger] s[i]))
            && (a < b ==> !is_space(s[a]) && !is_space(s[b - 1]));
        let (a2, b2) = choose|a: int, b: int| #![trigger s.subrange(a, b)]
            0 <= a <= b <= s.len() && t2 == s.subrange(a, b)
            && (forall|i: int| 0 <= i < a ==> is_space(#[trigger] s[i]))
            && (forall|i: int| b <= i < s.len() ==> is_space(#[trigger] s[i]))
            && (a < b ==> !is_space(s[a]) && !is_space(s[b - 1]));
        if a1 < b1 && a2 < b2 {
            if a1 < a2 { assert(is_space(s[a1])); }
            if a2 < a1 { assert(is_space(s[a2])); }
            if b1 < b2 { assert(is_space(s[b2 - 1])); }
            if b2 < b1 { assert(is_space(s[b1 - 1])); }
        } else if a1 < b1 {
            assert(!is_space(s[a1]));
            if a1 < a2 {} else if a1 >= b2 {} else {}
            assert(t2.len() == 0);
            if a1 < a2 { assert(is_space(s[a1])); } else { assert(a1 >= b2); assert(is_space(s[a1])); }
        } else if a2 < b2 {
            assert(!is_space(s[a2]));
            if a2 < a1 { assert(is_space(s[a2])); } else { assert(a2 >= b1); assert(is_space(s[a2])); }
        } else {
            assert(t1 =~= t2);
        }
    }
}

/// Remembers the model's answer as the last submitted one.
pub fn record_submission(observation: &Observation, memory: &mut ChallengeMemory)
    ensures
        is_trim_of(final(memory).submitted_answer@, observation.llm_resp@),
        final(memory).task_text == old(memory).task_text,
        final(memory).prompt_round == old(memory).prompt_round,
{
    memory.submitted_answer = trim_text(observation.llm_resp.as_str());
}

} // verus!
