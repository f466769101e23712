//! Core of a bead-pattern editor: a dense row-major grid of colored cells,
//! directional grow/shrink/resize, a bead overlay with a derived linear
//! projection, and a reversible undo/redo command log.

pub mod beads_line;
pub mod command;
pub mod entities;
pub mod grid;
pub mod model;
pub mod panel;
