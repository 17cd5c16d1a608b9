//! A transistor-level digital circuit simulator.
//!
//! Circuits are built from software NMOS/PMOS transistors wired between
//! signals; gates and composite units (adders, multiplexers, latches) are
//! assembled from those transistors, and a propagation pass settles the
//! state of every signal. The `render` module computes the drawing of a
//! circuit as plain strokes that a terminal front end can paint.

pub mod sim;
pub mod console;
pub mod render;
