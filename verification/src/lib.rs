//! A verified Minesweeper board-state engine: a rectangular grid of cells,
//! random mine placement, reveal with flood fill and chording, flag toggling,
//! and win/loss detection.

pub mod cell;
pub mod grid;
pub mod game;
