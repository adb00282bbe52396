# botboard_core

A rules core for heterogeneous fairy chess, written in Verus. Piece types are
composed from atomic movement and ability Bits; at game construction each type
compiles its Bits into leap, ride and hop kernels, and move generation, attack
detection, make/unmake, search and self-play run on those kernels. Chess,
xiangqi and shogi are built from Bits alone and checked by perft.

## Layout

- `src/` — the verified library.
  - `game`, `bits`, `geometry`, `terrain_defs`, `effects`, `move_defs`: the
    game definition, the Bit vocabulary and the compile step (stated by
    `kernels_from` and `lemma_compiled_kernels`).
  - `position`, `start`, `ops`, `zobrist`: the position and the start
    position as a value, the micro-op layer every
    mutation goes through, and the incremental hash (make/unmake identity,
    per-op undo, key equals full recomputation).
  - `attack`: attack detection, stated exactly as a function of the position.
  - `movegen`, `perft`, `fen`: pseudo-legal and legal moves, perft and FEN.
  - `eval`, `nnue`, `search`, `selfplay`, `ffa`, `cost`: evaluation, the
    integer network, alpha-beta search and the match drivers.
  - `belief`, `codex`: the hidden-information belief substrate and its
    written form.
  - `ladder`: the rungs that run in integers (perfect-information search and
    determinized root voting).
  - `variants`: chess, xiangqi, shogi and the Chess-with-different-armies set.
- `tests/` — the test suites.
- `app/` — the command-line program: argument handling, printing, and the
  floating-point parts: the cost model and army generator, the float network
  and its training, the league's Nash averaging, and the ladder's entropy
  gate, sampling rung and policy rung.
