//! A verified engine for a grid-based mine-finding puzzle.
//!
//! The engine owns board construction (random mine placement and
//! adjacency-count precomputation), the flood-fill reveal cascade,
//! flag toggling, and the win/loss state machine. Rendering and
//! input handling belong to an outside collaborator that calls in
//! with already-bounds-checked coordinates and reads the cell
//! display states back out.

pub mod cascade;
pub mod cell;
pub mod counting;
pub mod game;
pub mod reach;
pub mod session;
