//! A sliding-tile puzzle engine (2048 style) with an adversarial
//! depth-bounded minimax search.
//!
//! `game` holds the board model and the shift/merge move engine;
//! `ai` builds the bounded decision/chance tree over board snapshots
//! and searches it with alpha-beta pruning, proved to agree exactly
//! with exhaustive minimax.

pub mod ai;
pub mod game;
