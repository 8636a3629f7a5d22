# technetium_battle_bot

A decision library for a two-phase (day/night) base-defence game, with its
behaviour stated in `requires`/`ensures` contracts and proved by Verus.

Each round the judge sends a frame of the world; the library answers with
at most one command per unit.

- `src/world`: the world as observed: frame-to-frame events, a degradation
  guard for frames that cannot continue the world, and a bounded memory of
  enemies and news.
- `src/event`: the bounded event log and the per-reader delivery cursors.
- `src/domain`: frames, owners (mission/plan/intent paths with
  generations), mission contracts, actions and commands.
- `src/command.rs`: the arbiter that admits only legal commands and keeps
  cells, gold and controllers reserved within a round; every command of a
  reply is legal in the frame it answers.
- `src/ai`: strategy (phase, return and emergency rules), missions (a
  registry with dependencies, deadlines, retries and goals; construction,
  economy and challenge work), tactics (a bounded shortest-walk search,
  defence fire) and the unit-level reconciliation of judged actions.
- `src/runtime.rs`: a session that refuses stale or conflicting frames,
  repeats the reply to an identical frame, and decides new ones.
- `src/protocol.rs`: frame validation.
- `app/`: the HTTP server and the JSON forms of frames and replies.
