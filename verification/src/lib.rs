//! Rule engine of a grid-based mine-clearing puzzle.
//!
//! The library owns a square grid of tiles, places hidden mines, tracks each
//! tile's revealed/flagged/hidden status, computes adjacency counts, applies
//! player actions and decides loss and victory. Rendering and input mapping
//! live outside it and talk to it through plain integer coordinates.

pub mod game;
pub mod minefield;
pub mod tile;
