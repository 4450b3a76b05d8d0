//! Core rules of a falling-block puzzle game: a fixed-size occupancy board,
//! a catalog of seven tetromino shapes, the movement and rotation engine for
//! the active piece, the gravity/lock step, line clearing with row compaction,
//! and game-over detection with a full reset.
//!
//! Rendering, input polling and frame scheduling are left to the host program;
//! the library exposes plain state queries and discrete commands.

pub mod board;
pub mod clear;
pub mod constraint;
pub mod game;
pub mod piece;
pub mod rng;
