//! A minesweeper whose mine layout stays open until the player's reveals pin it down.
//!
//! The board keeps only what has been deduced from the revealed clues. Before a
//! reveal that would hit a mine, the layout is re-drawn among those that agree
//! with everything shown so far and leave the revealed cell empty, if any does.

pub mod accommodate;
pub mod bits;
pub mod board;
pub mod cellbuf;
pub mod components;
pub mod counting;
pub mod grid;
pub mod minefield;
pub mod neighbor_iter;
pub mod propagation;
pub mod random;
pub mod reconcile;
pub mod reconciliation;
pub mod revealing;
pub mod search;
pub mod solver;
