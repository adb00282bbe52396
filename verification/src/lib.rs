//! Botboard core engine: a headless, deterministic, integer-only rules core
//! for heterogeneous fairy chess. Pieces are composed from atomic rule
//! fragments ("Bits"); at game construction each piece type compiles its
//! movement into runtime kernels; the policy layer holds per-variant world
//! rules. Chess, xiangqi and shogi are reconstructed purely from Bits.

pub mod attack;
pub mod belief;
pub mod bits;
pub mod codex;
pub mod cost;
pub mod effects;
pub mod eval;
pub mod fen;
pub mod ffa;
pub mod game;
pub mod geometry;
pub mod ladder;
pub mod move_defs;
pub mod movegen;
pub mod nnue;
pub mod moves;
pub mod ops;
pub mod perft;
pub mod position;
pub mod rng;
pub mod search;
pub mod selfplay;
pub mod start;
pub mod terrain_defs;
pub mod variants;
pub mod zobrist;
