//! Conway's Game of Life on a fixed-size toroidal grid.
//!
//! Cell state is held in a bit-packed buffer; the simulation advances by
//! snapshotting the current generation and rewriting every cell from the
//! snapshot, so neighbor counts never see a half-updated grid.

pub mod bits;
pub mod universe;
