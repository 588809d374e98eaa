//! A sparse Game of Life: an unbounded-looking grid of cells that keeps, for
//! every tracked cell, an incrementally maintained count of its live
//! neighbours, and only ever tracks live cells plus a one-cell halo of dead
//! placeholders around them.
pub mod cell;
pub mod generation;
pub mod grid;
pub mod laws;
pub mod neighborhood;
pub mod timestep;

pub use cell::Cell;
pub use generation::{run_generation, tick_generation, Game, Rules};
pub use grid::{neighbor_coordinates, NeighborID, GRID_STEP};
pub use neighborhood::{Neighbor, Neighborhood};
pub use timestep::{FixedTimestep, DEFAULT_STEP_MICROS};
