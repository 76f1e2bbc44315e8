//! Simulation core of a falling-piece match puzzle played on a bounded
//! hexagonal lattice.
//!
//! The crate holds the lattice arithmetic, the board, the falling-piece state
//! machine, the support (gravity) resolver, the directional match detector,
//! the clear/resettle cascade and the per-tick game step. It performs no I/O:
//! a driver feeds it a time delta, a batch of commands and freshly drawn
//! tokens, and reads the resulting state back.

pub mod hex;
pub mod token;
pub mod draw;
pub mod grid;
pub mod settling;
pub mod support;
pub mod matching;
pub mod cascade;
pub mod piece;
pub mod game;
