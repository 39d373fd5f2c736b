//! Battlesnake game model: board representation, rules of the game and the
//! helpers that a tree search builds on.

pub mod api;
pub mod board;
pub mod config;
pub mod delay;
pub mod game;
pub mod gpu_move;
pub mod random;
pub mod util;
