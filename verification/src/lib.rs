//! Rules engine for a stacking, connection-based board game on an N x N grid.
//!
//! The crate holds the authoritative game state (board grid plus per-colour
//! piece reserves), decides which moves are legal, applies moves, detects
//! terminal road/win conditions, and enumerates every legal move from a
//! position.  The interactive layers (command-line parsing, printing, the
//! turn loop) are external collaborators and live outside this library.

pub mod player;
pub mod piece;
pub mod position;
pub mod board;
pub mod actions;
pub mod game_over;
pub mod logic;
pub mod analyzer;
