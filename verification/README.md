# nc2000_bot

The decision-support logic of a Nintendo Cup 2000 (Stadium 2) battle bot,
written in Verus: every function under `src/` carries a `requires` /
`ensures` contract over a mathematical model, and Verus proves it.

## Layout

- `src/` — the verified library.
  - `protocol`, `text` — character-level parsing of protocol lines
    (splitting, fields, prefixes, integer parsing, ids).
  - `tracker` — the protocol tracker: the public battle state accumulated
    line by line, with a model of the whole tracker and one spec per
    protocol command; laws on roster stability and boost ranges.
  - `observe` — the opponent observer (revealed moves, item knowledge) and
    its laws.
  - `belief` — candidate-team filtering and alignment, fallback policy,
    learnset acceptance; the alive set never grows.
  - `import` — request parsing and legal inputs, HP imputation (with its
    round-trip law), total-level accounting.
  - `position` — the position-spec format and its validation.
  - `artifact` — solver artifact fingerprints and shard / merge validation.
  - `corpus` — decision extraction and set evidence from battle logs.
  - `fabricate` — the hidden set a logged mon most plausibly carried.
  - `preview`, `sort`, `agent`, `blind`, `bounds`, `duel`, `rng` — the
    preview action space, verified sorts, the simple agents, search
    bookkeeping, duel scheduling and scoring, SplitMix64.
- `tests/` — tests run against the compiled library.
- `app/` — ordinary Rust around the library: file and JSON I/O (serde
  copies of the library's types), statistics in floating point.
