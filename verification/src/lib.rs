//! A chess engine core: bitboard positions, magic attack tables built from
//! the geometry of the board, legal move generation, a tapered evaluation
//! and the bookkeeping of a Monte Carlo search tree, each with a proved
//! contract.

pub mod attack_laws;
pub mod attacks;
pub mod bits;
pub mod board;
pub mod eval;
pub mod fen;
pub mod fen_laws;
pub mod magic;
pub mod misc;
pub mod move_gen;
pub mod order;
pub mod search;
pub mod text;
pub mod uci;
