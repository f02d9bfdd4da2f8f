//! Monte Carlo tree search over abstract turn-based games, with integer
//! statistics so that every bookkeeping rule is stated and proved exactly.

pub mod game;
pub mod chance;
pub mod score;
pub mod node;
pub mod engine;
