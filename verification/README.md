# snek_train

A trainer for Battlesnake agents: self-play, replay, checkpoints, gating, an
evaluation league and a run browser. What can be computed on plain values is a
library verified with Verus; the program around it does the I/O, the nets and
the floating-point arithmetic.

## Layout

- `src/` is the verified library.
  - Games: `board`, `rules`, `tree`, `sample`, `session`.
  - Self-play: `selfplay`, `sparring`, `materialize`, `trajectory`, `batching`.
  - Training data: `replay`, `shards`, `d4`.
  - Runs: `config`, `state`, `trainer`, `metrics`, `gate`, `pretrain`, `bench`.
  - Evaluation: `league`, `rankings`, `registry`, `live`, `pairs`, `arena`,
    `burst`, `stations`, `groups`, `matchup`, `placing`, `bouts`, `heldout`,
    `h2h`.
  - Run browser: `viewer`.
  - Shared: `text`, `lists`, `order`, `chance`.
- `tests/` exercises the library on concrete values.
- `app/` is the server. `app/engine.rs` is the only file that talks to the game
  engine, the search and the nets.

## What is trusted

The library calls `rand`, `rand_xoshiro`, `zstd`, `serde_json` and `base64`
through small wrappers whose contracts are stated and not proved, as are those
of two functions of the standard library; each carries a comment that says what
it claims. Everything else is proved, including the
absence of overflow and of out-of-range indexing.

Numbers that are fractions (policies, values, losses, ratings) are opaque to the
library: it moves and counts them, and never computes with them.
