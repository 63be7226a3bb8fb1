//! Triangular peg solitaire: a bit-packed board with its move engine, a
//! deduplicating tree of explored game states, and the course of a game that
//! a player steers through the tree.

pub mod adapters;
pub mod board;
pub mod gametree;
pub mod session;
pub mod u32set;
pub mod word;
