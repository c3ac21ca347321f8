//! Tic-tac-toe rules and an exhaustive minimax move search with alpha-beta
//! pruning, with contracts over a mathematical model of the board.

pub mod ai;
pub mod game;
