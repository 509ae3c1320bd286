//! An 8x8 disc-flipping board game (Othello / Reversi): a bit-parallel board
//! engine, a dense reference board, and negamax search with and without
//! alpha-beta pruning.

pub mod bitboard;
pub mod game;
pub mod bitboardgame;
pub mod default;
pub mod state;
pub mod ai;
pub mod minimax;
pub mod alphabeta;
pub mod immediate;
pub mod random;
pub mod selfplay;
pub mod strategy;
