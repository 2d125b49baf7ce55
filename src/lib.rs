//! A game-tree search engine for chess: static evaluation, move ordering,
//! a depth-aware transposition cache and an iterative-deepening
//! negamax/alpha-beta search with quiescence extension.
//!
//! The rules of chess (move generation, applying moves, detecting mate and
//! hashing positions) come from the `chess` crate; the transposition cache is
//! an LRU map of the `hashlru` crate.

pub mod position;
pub mod cache;
pub mod classic;
pub mod evaluation;
pub mod move_ordering;
pub mod score;
pub mod statistics;
pub mod stockwish;
