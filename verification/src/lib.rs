//! A two-player falling-block matching game, and a Monte Carlo solver that
//! picks a move by playing many random games to their end.

pub mod board;
pub mod cascade;
pub mod errors;
pub mod game;
pub mod gravity;
pub mod groups;
pub mod laws;
pub mod player;
pub mod rng;
pub mod solver;
pub mod state;
