//! The cell store's element: one grid position and whether it is alive.
use vstd::prelude::*;

use crate::grid::{neighbor_coordinates, neighbor_coords, NeighborID, GRID_STEP};

verus! {

/// One tracked grid position and its life state.
#[derive(Clone, Copy, Debug, PartialEq, Eq)]
pub struct Cell {
    pub id: NeighborID,
    pub is_alive: bool,
}

impl Cell {
    /// A cell at `id` with the given state.
    pub fn new(id: NeighborID, is_alive: bool) -> (c: Cell)
        ensures
            c.id == id,
            c.is_alive == is_alive,
    {
        Cell { id, is_alive }
    }

    /// Marks the cell alive.
    pub fn revive(&mut self)
        ensures
            final(self).id == old(self).id,
            final(self).is_alive,
    {
        self.is_alive = true;
    }

    /// Marks the cell dead.
    pub fn die(&mut self)
        ensures
            final(self).id == old(self).id,
            !final(self).is_alive,
    {
        self.is_alive = false;
    }

    /// Whether the cell is alive.
    pub fn is_alive(&self) -> (r: bool)
        ensures
            r == self.is_alive,
    {
        self.is_alive
    }

    /// Whether the cell is dead.
    pub fn is_dead(&self) -> (r: bool)
        ensures
            r == !self.is_alive,
    {
        !self.is_alive
    }

    /// The eight neighbours of `id` on the game's grid (step `GRID_STEP`).
    pub fn gen_neighbor_ids(id: NeighborID) -> (ids: [NeighborID; 8])
        ensures
            ids@ == neighbor_coords(id, GRID_STEP),
    {
        neighbor_coordinates(id, GRID_STEP)
    }
}

} // verus!
