//! The acceptance variants, reconstructed purely from Bits: western chess,
//! xiangqi, shogi, and the chess-with-different-armies family.

pub mod chess;
pub mod cwda;
pub mod shogi;
pub mod xiangqi;
