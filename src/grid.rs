//! Grid topology: the eight Moore neighbours of a coordinate.
//!
//! Coordinates are pairs of `i32`. Arithmetic on them wraps, so the plane is
//! the torus of all `i32` pairs; neighbour relations are then symmetric and
//! total for every coordinate, with no overflow to guard against.
use vstd::prelude::*;

verus! {

/// A grid coordinate `(x, y)`.
pub type NeighborID = (i32, i32);

/// The distance between two adjacent grid positions used by the game.
pub const GRID_STEP: i32 = 16;

/// `v` brought back into the `i32` range, modulo 2^32.
pub open spec fn wrap(v: int) -> i32 {
    if v > i32::MAX {
        (v - 0x1_0000_0000) as i32
    } else if v < i32::MIN {
        (v + 0x1_0000_0000) as i32
    } else {
        v as i32
    }
}

/// Column offset (in steps) of the neighbour at slot `i`, in row-major order
/// of the 3x3 block around a cell with the centre left out.
pub open spec fn col(i: int) -> int {
    if i == 0 || i == 3 || i == 5 {
        -1
    } else if i == 1 || i == 6 {
        0
    } else {
        1
    }
}

/// Row offset (in steps) of the neighbour at slot `i`.
pub open spec fn row(i: int) -> int {
    if i < 3 {
        -1
    } else if i < 5 {
        0
    } else {
        1
    }
}

/// The coordinate `a` moved by `k` steps (`k` in -1, 0, 1) of size `step`.
pub open spec fn shift(a: i32, k: int, step: i32) -> i32 {
    if k < 0 {
        wrap(a - step)
    } else if k == 0 {
        a
    } else {
        wrap(a + step)
    }
}

/// The neighbour of `c` in slot `i` (0 <= i < 8).
pub open spec fn neighbor_at(c: NeighborID, step: i32, i: int) -> NeighborID {
    (shift(c.0, col(i), step), shift(c.1, row(i), step))
}

/// The eight neighbours of `c`, row by row, left to right.
pub open spec fn neighbor_coords(c: NeighborID, step: i32) -> Seq<NeighborID> {
    Seq::new(8, |i: int| neighbor_at(c, step, i))
}

/// `b` is one of the eight neighbours of `a`.
pub open spec fn is_neighbor(a: NeighborID, b: NeighborID, step: i32) -> bool {
    exists|i: int| 0 <= i < 8 && #[trigger] neighbor_at(a, step, i) == b
}

/// The eight neighbours of `c`, as a set.
pub open spec fn neighbor_set(c: NeighborID, step: i32) -> Set<NeighborID> {
    Set::new(|b: NeighborID| is_neighbor(c, b, step))
}

/// A grid step is usable when it is positive.
pub open spec fn valid_step(step: i32) -> bool {
    step > 0
}

proof fn lemma_shift_back(a: i32, k: int, step: i32)
    requires
        valid_step(step),
        -1 <= k <= 1,
    ensures
        shift(shift(a, k, step), -k, step) == a,
{
}

proof fn lemma_shift_distinct(a: i32, k1: int, k2: int, step: i32)
    requires
        valid_step(step),
        -1 <= k1 <= 1,
        -1 <= k2 <= 1,
        k1 != k2,
    ensures
        shift(a, k1, step) != shift(a, k2, step),
{
}

/// Slot `7 - i` of the neighbour in slot `i` leads back to the cell.
pub proof fn lemma_neighbor_back(c: NeighborID, step: i32, i: int)
    requires
        valid_step(step),
        0 <= i < 8,
    ensures
        neighbor_at(neighbor_at(c, step, i), step, 7 - i) == c,
{
    lemma_shift_back(c.0, col(i), step);
    lemma_shift_back(c.1, row(i), step);
}

/// The eight neighbours of a cell are pairwise distinct and differ from it.
pub proof fn lemma_neighbors_distinct(c: NeighborID, step: i32, i: int, j: int)
    requires
        valid_step(step),
        0 <= i < 8,
        0 <= j < 8,
    ensures
        neighbor_at(c, step, i) != c,
        i != j ==> neighbor_at(c, step, i) != neighbor_at(c, step, j),
{
    if col(i) != 0 {
        lemma_shift_distinct(c.0, col(i), 0, step);
    } else {
        lemma_shift_distinct(c.1, row(i), 0, step);
    }
    if i != j {
        if col(i) != col(j) {
            lemma_shift_distinct(c.0, col(i), col(j), step);
        } else {
            lemma_shift_distinct(c.1, row(i), row(j), step);
        }
    }
}

/// Being neighbours is a symmetric relation.
pub proof fn lemma_is_neighbor_symmetric(a: NeighborID, b: NeighborID, step: i32)
    requires
        valid_step(step),
        is_neighbor(a, b, step),
    ensures
        is_neighbor(b, a, step),
{
    let i = choose|i: int| 0 <= i < 8 && #[trigger] neighbor_at(a, step, i) == b;
    lemma_neighbor_back(a, step, i);
    assert(neighbor_at(b, step, 7 - i) == a);
}

fn step_left(a: i32, step: i32) -> (r: i32)
    requires
        valid_step(step),
    ensures
        r == shift(a, -1, step),
{
    a.wrapping_sub(step)
}

fn step_right(a: i32, step: i32) -> (r: i32)
    requires
        valid_step(step),
    ensures
        r == shift(a, 1, step),
{
    a.wrapping_add(step)
}

/// The eight Moore neighbours of `c` at distance `step`, row by row (lowest
/// `y` first), left to right within a row.
pub fn neighbor_coordinates(c: NeighborID, step: i32) -> (ids: [NeighborID; 8])
    requires
        valid_step(step),
    ensures
        ids@ == neighbor_coords(c, step),
{
    let (x, y) = c;
    let xl = step_left(x, step);
    let xr = step_right(x, step);
    let yl = step_left(y, step);
    let yr = step_right(y, step);
    let ids = [(xl, yl), (x, yl), (xr, yl), (xl, y), (xr, y), (xl, yr), (x, yr), (xr, yr)];
    assert(ids@ =~= neighbor_coords(c, step));
    ids
}

} // verus!
