//! A verified Connect Four engine: a bitboard with gravity-respecting
//! placement, a precomputed table of the 69 four-in-a-row line masks,
//! an incremental win-detecting state machine, and a Monte Carlo tree
//! search agent guided by an integer fixed-point UCT rule.

pub mod bits;
pub mod board;
pub mod lines;
pub mod state;
pub mod rng;
pub mod agent;
pub mod uct;
pub mod mcts;
