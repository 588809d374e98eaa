//! The adjacency index: one record per tracked cell, holding the cell, its
//! neighbours' coordinates, links to those neighbours that are tracked, and
//! the number of its neighbours that are alive.
use vstd::prelude::*;

use std::collections::BTreeMap;
use vstd::std_specs::iter::IteratorSpec;

use crate::cell::Cell;
use crate::grid::{
    is_neighbor, lemma_is_neighbor_symmetric, lemma_neighbor_back, lemma_neighbors_distinct,
    neighbor_at, neighbor_coordinates, neighbor_coords, neighbor_set, valid_step, NeighborID, GRID_STEP,
};

verus! {

/// The record kept for one tracked cell.
#[derive(Clone, Copy, Debug, PartialEq, Eq)]
pub struct Neighbor {
    /// The cell this record belongs to.
    pub cell: Cell,
    /// The eight neighbour coordinates, computed once when the record is made.
    pub neighbors_ids: [NeighborID; 8],
    /// For each neighbour slot, a link to that neighbour while it is tracked.
    pub neighbors: [Option<NeighborID>; 8],
    /// How many of the eight neighbours are alive.
    pub neighbor_count: u8,
}

impl Neighbor {
    /// A fresh record for a dead cell at `id`: no links, no live neighbour.
    pub fn new(id: NeighborID, step: i32) -> (r: Neighbor)
        requires
            valid_step(step),
        ensures
            r.cell.id == id,
            !r.cell.is_alive,
            r.neighbors_ids@ == neighbor_coords(id, step),
            forall|i: int| 0 <= i < 8 ==> #[trigger] r.neighbors@[i] == None::<NeighborID>,
            r.neighbor_count == 0,
    {
        Neighbor {
            cell: Cell { id, is_alive: false },
            neighbors_ids: neighbor_coordinates(id, step),
            neighbors: [None, None, None, None, None, None, None, None],
            neighbor_count: 0,
        }
    }
}

/// `c` is tracked in `m` and alive.
pub open spec fn alive_in(m: Map<NeighborID, Neighbor>, c: NeighborID) -> bool {
    m.contains_key(c) && m[c].cell.is_alive
}

/// The coordinates of the live cells of `m`.
pub open spec fn alive_set(m: Map<NeighborID, Neighbor>) -> Set<NeighborID> {
    Set::new(|c: NeighborID| alive_in(m, c))
}

/// How many entries of `ids` belong to `alive`.
pub open spec fn count_alive(ids: Seq<NeighborID>, alive: Set<NeighborID>) -> nat
    decreases ids.len(),
{
    if ids.len() == 0 {
        0
    } else {
        count_alive(ids.drop_last(), alive) + if alive.contains(ids.last()) {
            1nat
        } else {
            0nat
        }
    }
}

/// How many of the eight neighbours of `c` are in `alive`.
pub open spec fn live_neighbors(alive: Set<NeighborID>, c: NeighborID, step: i32) -> nat {
    count_alive(neighbor_coords(c, step), alive)
}

/// The cells adjacent to some cell of `cells`.
pub open spec fn halo(cells: Set<NeighborID>, step: i32) -> Set<NeighborID> {
    Set::new(|b: NeighborID| exists|a: NeighborID| #[trigger] cells.contains(a) && is_neighbor(a, b, step))
}

/// The link expected in slot `i` of the record of `c`: the neighbour itself
/// while it is tracked, nothing otherwise.
pub open spec fn expected_link(m: Map<NeighborID, Neighbor>, c: NeighborID, step: i32, i: int) -> Option<NeighborID> {
    if m.contains_key(neighbor_at(c, step, i)) {
        Some(neighbor_at(c, step, i))
    } else {
        None
    }
}

/// The record of `c` in `m` is consistent with the rest of `m`.
pub open spec fn record_wf(m: Map<NeighborID, Neighbor>, step: i32, c: NeighborID) -> bool {
    let r = m[c];
    &&& r.cell.id == c
    &&& r.neighbors_ids@ == neighbor_coords(c, step)
    &&& forall|i: int| 0 <= i < 8 ==> #[trigger] r.neighbors@[i] == expected_link(m, c, step, i)
    &&& r.neighbor_count == live_neighbors(alive_set(m), c, step)
    &&& r.cell.is_alive ==> forall|i: int| 0 <= i < 8 ==> m.contains_key(#[trigger] neighbor_at(c, step, i))
}

/// Every record of `m` is consistent: keyed by its own cell, linked to exactly
/// its tracked neighbours, counting exactly its live neighbours, and, when
/// alive, surrounded by tracked neighbours.
pub open spec fn records_wf(m: Map<NeighborID, Neighbor>, step: i32) -> bool {
    &&& valid_step(step)
    &&& m.dom().finite()
    &&& forall|c: NeighborID| #[trigger] m.contains_key(c) ==> record_wf(m, step, c)
}

/// A record that may be retired: its cell is dead and has no live neighbour.
pub open spec fn collectable(m: Map<NeighborID, Neighbor>, c: NeighborID) -> bool {
    m.contains_key(c) && !m[c].cell.is_alive && m[c].neighbor_count == 0
}

/// Counting over one more entry adds one exactly when that entry is in `alive`.
pub proof fn lemma_count_alive_take(ids: Seq<NeighborID>, alive: Set<NeighborID>, i: int)
    requires
        0 <= i < ids.len(),
    ensures
        count_alive(ids.take(i + 1), alive) == count_alive(ids.take(i), alive) + if alive.contains(ids[i]) {
            1nat
        } else {
            0nat
        },
{
    assert(ids.take(i + 1).drop_last() =~= ids.take(i));
}

/// The count depends only on which entries of `ids` are in the set.
pub proof fn lemma_count_alive_same(ids: Seq<NeighborID>, a: Set<NeighborID>, b: Set<NeighborID>)
    requires
        forall|j: int| 0 <= j < ids.len() ==> (a.contains(#[trigger] ids[j]) <==> b.contains(ids[j])),
    ensures
        count_alive(ids, a) == count_alive(ids, b),
    decreases ids.len(),
{
    if ids.len() > 0 {
        lemma_count_alive_same(ids.drop_last(), a, b);
    }
}

/// Adding `x` to the set raises the count by one when `x` occurs (once) in
/// `ids` and was not in the set before.
pub proof fn lemma_count_alive_insert(ids: Seq<NeighborID>, a: Set<NeighborID>, x: NeighborID)
    requires
        ids.no_duplicates(),
    ensures
        count_alive(ids, a.insert(x)) == count_alive(ids, a) + if ids.contains(x) && !a.contains(x) {
            1nat
        } else {
            0nat
        },
    decreases ids.len(),
{
    if ids.len() > 0 {
        let d = ids.drop_last();
        assert(d.no_duplicates());
        lemma_count_alive_insert(d, a, x);
        if ids.last() == x {
            assert(!d.contains(x)) by {
                if d.contains(x) {
                    let k = choose|k: int| 0 <= k < d.len() && d[k] == x;
                    assert(ids[k] == ids[ids.len() - 1]);
                }
            }
        }
        assert(ids.contains(x) <==> (d.contains(x) || ids.last() == x)) by {
            if ids.contains(x) {
                let k = choose|k: int| 0 <= k < ids.len() && ids[k] == x;
                if k < ids.len() - 1 {
                    assert(d[k] == x);
                }
            }
            if d.contains(x) {
                let k = choose|k: int| 0 <= k < d.len() && d[k] == x;
                assert(ids[k] == x);
            }
        }
    }
}

/// Removing `x` from the set lowers the count by one when `x` occurs (once)
/// in `ids` and was in the set before.
pub proof fn lemma_count_alive_remove(ids: Seq<NeighborID>, a: Set<NeighborID>, x: NeighborID)
    requires
        ids.no_duplicates(),
    ensures
        count_alive(ids, a.remove(x)) + (if ids.contains(x) && a.contains(x) {
            1nat
        } else {
            0nat
        }) == count_alive(ids, a),
{
    lemma_count_alive_insert(ids, a.remove(x), x);
    if a.contains(x) {
        assert(a.remove(x).insert(x) =~= a);
    } else {
        assert(a.remove(x) =~= a);
        lemma_count_alive_insert(ids, a, x);
        assert(a.insert(x) =~= a.remove(x).insert(x));
    }
}

/// A count over eight entries is at most eight.
pub proof fn lemma_count_alive_bound(ids: Seq<NeighborID>, alive: Set<NeighborID>)
    ensures
        count_alive(ids, alive) <= ids.len(),
    decreases ids.len(),
{
    if ids.len() > 0 {
        lemma_count_alive_bound(ids.drop_last(), alive);
    }
}

/// The neighbour list of a cell has no repeated entry.
pub proof fn lemma_neighbor_coords_no_duplicates(c: NeighborID, step: i32)
    requires
        valid_step(step),
    ensures
        neighbor_coords(c, step).no_duplicates(),
        neighbor_coords(c, step).len() == 8,
{
    assert forall|i: int, j: int| 0 <= i < neighbor_coords(c, step).len() && 0 <= j < neighbor_coords(c, step).len() && i != j
        implies neighbor_coords(c, step)[i] != neighbor_coords(c, step)[j] by {
        lemma_neighbors_distinct(c, step, i, j);
    }
}

/// `x` occurs among the neighbours of `c` exactly when it sits in one slot.
pub proof fn lemma_neighbor_coords_contains(c: NeighborID, step: i32, x: NeighborID)
    ensures
        neighbor_coords(c, step).contains(x) <==> is_neighbor(c, x, step),
{
    if neighbor_coords(c, step).contains(x) {
        let k = choose|k: int| 0 <= k < 8 && neighbor_coords(c, step)[k] == x;
        assert(neighbor_at(c, step, k) == x);
    }
    if is_neighbor(c, x, step) {
        let k = choose|k: int| 0 <= k < 8 && #[trigger] neighbor_at(c, step, k) == x;
        assert(neighbor_coords(c, step)[k] == x);
    }
}

/// A zero count means that no entry of `ids` is in `alive`.
pub proof fn lemma_count_alive_zero(ids: Seq<NeighborID>, alive: Set<NeighborID>, j: int)
    requires
        count_alive(ids, alive) == 0,
        0 <= j < ids.len(),
    ensures
        !alive.contains(ids[j]),
    decreases ids.len(),
{
    if j < ids.len() - 1 {
        assert(ids.drop_last()[j] == ids[j]);
        lemma_count_alive_zero(ids.drop_last(), alive, j);
    }
}

/// The sparse grid: the cell store and its adjacency index, keyed by
/// coordinate.
pub struct Neighborhood {
    map: BTreeMap<NeighborID, Neighbor>,
    step: i32,
}

impl View for Neighborhood {
    type V = Map<NeighborID, Neighbor>;

    closed spec fn view(&self) -> Map<NeighborID, Neighbor> {
        self.map@
    }
}

impl Default for Neighborhood {
    /// An empty grid at the game's step, `GRID_STEP`.
    fn default() -> (n: Neighborhood)
        ensures
            n.wf(),
            n.grid_step() == GRID_STEP,
            n@ == Map::<NeighborID, Neighbor>::empty(),
    {
        Neighborhood::new(GRID_STEP)
    }
}

impl Neighborhood {
    /// The distance between adjacent grid positions.
    pub closed spec fn grid_step(&self) -> i32 {
        self.step
    }

    /// The records are consistent with each other (see `records_wf`).
    pub open spec fn wf(&self) -> bool {
        records_wf(self@, self.grid_step())
    }

    /// An empty grid whose adjacent positions lie `step` apart.
    pub fn new(step: i32) -> (n: Neighborhood)
        requires
            valid_step(step),
        ensures
            n.wf(),
            n.grid_step() == step,
            n@ == Map::<NeighborID, Neighbor>::empty(),
    {
        let n = Neighborhood { map: BTreeMap::new(), step };
        assert(n@.dom() =~= Set::empty());
        n
    }

    /// The distance between adjacent grid positions.
    pub fn step(&self) -> (s: i32)
        ensures
            s == self.grid_step(),
    {
        self.step
    }

    /// Number of tracked cells, live and dead.
    pub fn len(&self) -> (n: usize)
        requires
            self.wf(),
        ensures
            n == self@.len(),
    {
        self.map.len()
    }

    /// The record of `id`, if it is tracked.
    pub fn get(&self, id: NeighborID) -> (r: Option<Neighbor>)
        ensures
            r == (if self@.contains_key(id) { Some(self@[id]) } else { None::<Neighbor> }),
    {
        match self.map.get(&id) {
            Some(rec) => Some(*rec),
            None => None,
        }
    }

    /// Whether the cell at `id` is alive; an untracked position is dead.
    pub fn is_alive(&self, id: NeighborID) -> (b: bool)
        ensures
            b == alive_in(self@, id),
    {
        match self.map.get(&id) {
            Some(rec) => rec.cell.is_alive,
            None => false,
        }
    }
    /// Starts tracking `id` as a dead cell, linked both ways with each of its
    /// tracked neighbours; does nothing if `id` is already tracked. No cell
    /// changes state, so no count changes.
    pub fn add_neighbor(&mut self, id: NeighborID)
        requires
            old(self).wf(),
        ensures
            final(self).wf(),
            final(self).grid_step() == old(self).grid_step(),
            final(self)@.dom() == old(self)@.dom().insert(id),
            alive_set(final(self)@) == alive_set(old(self)@),
            old(self)@.contains_key(id) ==> final(self)@ == old(self)@,
            !final(self)@[id].cell.is_alive || old(self)@.contains_key(id),
            forall|c: NeighborID| #[trigger] old(self)@.contains_key(c) ==> final(self)@[c].cell == old(self)@[c].cell,
    {
        if self.map.contains_key(&id) {
            return;
        }
        let step = self.step;
        let ids = neighbor_coordinates(id, step);
        let mut links: [Option<NeighborID>; 8] = [None, None, None, None, None, None, None, None];
        let mut count: u8 = 0;
        let mut i: usize = 0;
        while i < 8
            invariant
                0 <= i <= 8,
                self.wf(),
                self.step == step,
                !self@.contains_key(id),
                ids@ == neighbor_coords(id, step),
                forall|j: int| 0 <= j < i ==> #[trigger] links@[j] == expected_link(self@, id, step, j),
                forall|j: int| i <= j < 8 ==> #[trigger] links@[j] == None::<NeighborID>,
                count == count_alive(ids@.take(i as int), alive_set(self@)),
                count <= i,
            decreases 8 - i,
        {
            let n = ids[i];
            proof {
                lemma_count_alive_take(ids@, alive_set(self@), i as int);
            }
            match self.map.get(&n) {
                Some(rec) => {
                    links[i] = Some(n);
                    if rec.cell.is_alive {
                        count = count + 1;
                    }
                },
                None => {},
            }
            i = i + 1;
        }
        assert(ids@.take(8) =~= ids@);
        let ghost old_m = self@;
        let mut rec = Neighbor::new(id, step);
        rec.neighbors = links;
        rec.neighbor_count = count;
        self.map.insert(id, rec);
        let mut i: usize = 0;
        while i < 8
            invariant
                0 <= i <= 8,
                self.step == step,
                valid_step(step),
                ids@ == neighbor_coords(id, step),
                !old_m.contains_key(id),
                records_wf(old_m, step),
                self@.dom() == old_m.dom().insert(id),
                self@[id] == rec,
                forall|c: NeighborID| #[trigger] old_m.contains_key(c) ==> {
                    &&& self@[c].cell == old_m[c].cell
                    &&& self@[c].neighbors_ids == old_m[c].neighbors_ids
                    &&& self@[c].neighbor_count == old_m[c].neighbor_count
                    &&& forall|k: int| 0 <= k < 8 ==> #[trigger] self@[c].neighbors@[k] == if neighbor_at(c, step, k) == id && 7 - k < i {
                        Some(id)
                    } else {
                        old_m[c].neighbors@[k]
                    }
                },
            decreases 8 - i,
        {
            let n = ids[i];
            proof {
                lemma_neighbors_distinct(id, step, i as int, i as int);
                lemma_neighbor_back(id, step, i as int);
                assert forall|c: NeighborID, k: int| old_m.contains_key(c) && 0 <= k < 8 && #[trigger] neighbor_at(c, step, k) == id
                    implies c == neighbor_at(id, step, 7 - k) by {
                    lemma_neighbor_back(c, step, k);
                }
            }
            let ghost before = self@;
            match self.map.get(&n) {
                Some(r) => {
                    let mut r2 = *r;
                    r2.neighbors[7 - i] = Some(id);
                    self.map.insert(n, r2);
                    assert(self@[n].neighbors@ == before[n].neighbors@.update(7 - i, Some(id)));
                },
                None => {},
            }
            i = i + 1;
        }
        proof {
            let m = self@;
            assert(alive_set(m) =~= alive_set(old_m));
            assert forall|c: NeighborID| #[trigger] m.contains_key(c) implies record_wf(m, step, c) by {
                if c == id {
                    assert forall|j: int| 0 <= j < 8 implies #[trigger] m[c].neighbors@[j] == expected_link(m, c, step, j) by {
                        lemma_neighbors_distinct(id, step, j, j);
                    }
                } else {
                    assert forall|k: int| 0 <= k < 8 implies #[trigger] m[c].neighbors@[k] == expected_link(m, c, step, k) by {
                        assert(old_m[c].neighbors@[k] == expected_link(old_m, c, step, k));
                    }
                }
            }
        }
    }
    /// Gives the tracked cell `id` the state `alive` and moves the count of
    /// each of its neighbours by one accordingly.
    fn set_state(&mut self, id: NeighborID, alive: bool)
        requires
            old(self).wf(),
            old(self)@.contains_key(id),
            old(self)@[id].cell.is_alive != alive,
            forall|j: int| 0 <= j < 8 ==> old(self)@.contains_key(#[trigger] neighbor_at(id, old(self).grid_step(), j)),
        ensures
            final(self).wf(),
            final(self).grid_step() == old(self).grid_step(),
            final(self)@.dom() == old(self)@.dom(),
            alive_set(final(self)@) == (if alive {
                alive_set(old(self)@).insert(id)
            } else {
                alive_set(old(self)@).remove(id)
            }),
    {
        let step = self.step;
        let ghost old_m = self@;
        let ghost old_alive = alive_set(old_m);
        let ghost new_alive = if alive {
            old_alive.insert(id)
        } else {
            old_alive.remove(id)
        };
        let mut rec = match self.map.get(&id) {
            Some(r) => *r,
            None => {
                return;
            },
        };
        rec.cell.is_alive = alive;
        let ids = rec.neighbors_ids;
        self.map.insert(id, rec);
        proof {
            assert(alive_set(self@) =~= new_alive);
            lemma_neighbors_distinct(id, step, 0, 0);
        }
        let mut i: usize = 0;
        while i < 8
            invariant
                0 <= i <= 8,
                self.step == step,
                records_wf(old_m, step),
                old_alive == alive_set(old_m),
                new_alive == (if alive {
                    old_alive.insert(id)
                } else {
                    old_alive.remove(id)
                }),
                old_m.contains_key(id),
                old_m[id].cell.is_alive != alive,
                forall|j: int| 0 <= j < 8 ==> old_m.contains_key(#[trigger] neighbor_at(id, step, j)),
                ids@ == neighbor_coords(id, step),
                self@.dom() == old_m.dom(),
                alive_set(self@) == new_alive,
                forall|c: NeighborID| #[trigger] old_m.contains_key(c) ==> {
                    &&& self@[c].cell.id == old_m[c].cell.id
                    &&& (c != id ==> self@[c].cell == old_m[c].cell)
                    &&& self@[c].neighbors_ids == old_m[c].neighbors_ids
                    &&& self@[c].neighbors == old_m[c].neighbors
                    &&& (!is_neighbor(id, c, step) ==> self@[c].neighbor_count == old_m[c].neighbor_count)
                },
                forall|j: int| 0 <= j < i ==> #[trigger] self@[neighbor_at(id, step, j)].neighbor_count == live_neighbors(new_alive, neighbor_at(id, step, j), step),
                forall|j: int| i <= j < 8 ==> #[trigger] self@[neighbor_at(id, step, j)].neighbor_count == old_m[neighbor_at(id, step, j)].neighbor_count,
            decreases 8 - i,
        {
            let n = ids[i];
            let ghost before = self@;
            proof {
                lemma_neighbor_back(id, step, i as int);
                lemma_neighbor_coords_no_duplicates(n, step);
                lemma_neighbor_coords_contains(n, step, id);
                assert(is_neighbor(n, id, step)) by {
                    assert(neighbor_at(n, step, 7 - i as int) == id);
                }
                lemma_count_alive_insert(neighbor_coords(n, step), old_alive, id);
                lemma_count_alive_remove(neighbor_coords(n, step), old_alive, id);
                lemma_count_alive_bound(neighbor_coords(n, step), new_alive);
                assert forall|j: int| 0 <= j < 8 && j != i implies neighbor_at(id, step, j) != n by {
                    lemma_neighbors_distinct(id, step, i as int, j);
                }
                assert(is_neighbor(id, n, step));
            }
            let mut r = match self.map.get(&n) {
                Some(r) => *r,
                None => {
                    return;
                },
            };
            if alive {
                r.neighbor_count = r.neighbor_count + 1;
            } else {
                r.neighbor_count = r.neighbor_count - 1;
            }
            self.map.insert(n, r);
            proof {
                assert(alive_set(self@) =~= alive_set(before));
            }
            i = i + 1;
        }
        proof {
            let m = self@;
            assert forall|c: NeighborID| #[trigger] m.contains_key(c) implies record_wf(m, step, c) by {
                assert(record_wf(old_m, step, c));
                assert forall|k: int| 0 <= k < 8 implies #[trigger] m[c].neighbors@[k] == expected_link(m, c, step, k) by {
                    assert(old_m[c].neighbors@[k] == expected_link(old_m, c, step, k));
                }
                if is_neighbor(id, c, step) {
                    let j = choose|j: int| 0 <= j < 8 && #[trigger] neighbor_at(id, step, j) == c;
                    assert(m[neighbor_at(id, step, j)].neighbor_count == live_neighbors(new_alive, neighbor_at(id, step, j), step));
                } else {
                    lemma_neighbor_coords_no_duplicates(c, step);
                    lemma_neighbor_coords_contains(c, step, id);
                    if is_neighbor(c, id, step) {
                        lemma_is_neighbor_symmetric(c, id, step);
                    }
                    lemma_count_alive_insert(neighbor_coords(c, step), old_alive, id);
                    lemma_count_alive_remove(neighbor_coords(c, step), old_alive, id);
                }
                if m[c].cell.is_alive {
                    if c != id {
                        assert(old_m[c].cell.is_alive);
                    }
                }
            }
        }
    }
    /// Brings the cell at `id` to life. An untracked position starts being
    /// tracked; every neighbour that is not tracked yet is tracked as a dead
    /// placeholder; each neighbour's live count goes up by one. Does nothing
    /// if the cell is already alive.
    pub fn toggle_on(&mut self, id: NeighborID)
        requires
            old(self).wf(),
        ensures
            final(self).wf(),
            final(self).grid_step() == old(self).grid_step(),
            alive_set(final(self)@) == alive_set(old(self)@).insert(id),
            final(self)@.dom() == old(self)@.dom().insert(id).union(neighbor_set(id, old(self).grid_step())),
            alive_in(old(self)@, id) ==> final(self)@ == old(self)@,
    {
        if self.is_alive(id) {
            proof {
                assert(alive_set(self@).insert(id) =~= alive_set(self@));
                assert forall|b: NeighborID| neighbor_set(id, self.step).contains(b) implies self@.contains_key(b) by {
                    let j = choose|j: int| 0 <= j < 8 && #[trigger] neighbor_at(id, self.step, j) == b;
                }
                assert(self@.dom().insert(id).union(neighbor_set(id, self.step)) =~= self@.dom());
            }
            return;
        }
        let ghost old_m = self@;
        let step = self.step;
        self.add_neighbor(id);
        let ids = neighbor_coordinates(id, step);
        let mut i: usize = 0;
        while i < 8
            invariant
                0 <= i <= 8,
                self.wf(),
                self.step == step,
                ids@ == neighbor_coords(id, step),
                alive_set(self@) == alive_set(old_m),
                !alive_in(old_m, id),
                self@.contains_key(id),
                !self@[id].cell.is_alive,
                old_m.dom().insert(id).subset_of(self@.dom()),
                self@.dom().subset_of(old_m.dom().insert(id).union(neighbor_set(id, step))),
                forall|j: int| 0 <= j < i ==> self@.contains_key(#[trigger] neighbor_at(id, step, j)),
            decreases 8 - i,
        {
            let ghost before = self@;
            proof {
                assert(is_neighbor(id, neighbor_at(id, step, i as int), step));
                lemma_neighbors_distinct(id, step, i as int, i as int);
            }
            self.add_neighbor(ids[i]);
            proof {
                assert(self@[id].cell == before[id].cell);
            }
            i = i + 1;
        }
        proof {
            assert forall|b: NeighborID| neighbor_set(id, step).contains(b) implies self@.contains_key(b) by {
                let j = choose|j: int| 0 <= j < 8 && #[trigger] neighbor_at(id, step, j) == b;
            }
            assert(self@.dom() =~= old_m.dom().insert(id).union(neighbor_set(id, step)));
        }
        self.set_state(id, true);
    }

    /// Kills the cell at `id`: each neighbour's live count goes down by one.
    /// The record stays (see `collect_garbage`). Does nothing if the cell is
    /// not alive.
    pub fn toggle_off(&mut self, id: NeighborID)
        requires
            old(self).wf(),
        ensures
            final(self).wf(),
            final(self).grid_step() == old(self).grid_step(),
            alive_set(final(self)@) == alive_set(old(self)@).remove(id),
            final(self)@.dom() == old(self)@.dom(),
            !alive_in(old(self)@, id) ==> final(self)@ == old(self)@,
    {
        if !self.is_alive(id) {
            assert(alive_set(self@).remove(id) =~= alive_set(self@));
            return;
        }
        proof {
            assert(record_wf(self@, self.step, id));
        }
        self.set_state(id, false);
    }
    /// The tracked coordinates, each once, in increasing order.
    pub fn existing_coordinates(&self) -> (ids: Vec<NeighborID>)
        ensures
            ids@.no_duplicates(),
            forall|c: NeighborID| ids@.contains(c) <==> self@.contains_key(c),
    {
        let mut ids: Vec<NeighborID> = Vec::new();
        let keys = self.map.keys();
        let ghost s = keys.remaining();
        proof {
            assert(s.unref().to_set() == self@.dom());
            assert(s.no_duplicates());
        }
        for k in it: keys
            invariant
                it.seq() == s,
                ids@ == s.take(it.index()).map_values(|k: &NeighborID| *k),
        {
            ids.push(*k);
        }
        proof {
            assert(ids@ =~= s.map_values(|k: &NeighborID| *k));
            assert(s.unref() =~= s.map_values(|k: &NeighborID| *k));
            assert forall|c: NeighborID| ids@.contains(c) <==> self@.contains_key(c) by {
                assert(s.unref().to_set().contains(c) <==> s.unref().contains(c));
            }
        }
        ids
    }
    /// Stops tracking `id` when its record carries no information (its cell
    /// is dead and has no live neighbour), clearing the links that point to
    /// it, and returns the record. Returns `None`, changing nothing, for any
    /// other position.
    pub fn remove_neighbor(&mut self, id: NeighborID) -> (r: Option<Neighbor>)
        requires
            old(self).wf(),
        ensures
            final(self).wf(),
            final(self).grid_step() == old(self).grid_step(),
            alive_set(final(self)@) == alive_set(old(self)@),
            collectable(old(self)@, id) ==> r == Some(old(self)@[id]) && final(self)@.dom() == old(self)@.dom().remove(id),
            !collectable(old(self)@, id) ==> r.is_none() && final(self)@ == old(self)@,
            forall|c: NeighborID| #[trigger] final(self)@.contains_key(c) ==> final(self)@[c].cell == old(self)@[c].cell
                && final(self)@[c].neighbor_count == old(self)@[c].neighbor_count,
    {
        let removed = match self.map.get(&id) {
            Some(r) => *r,
            None => {
                return None;
            },
        };
        if removed.cell.is_alive || removed.neighbor_count != 0 {
            return None;
        }
        let step = self.step;
        let ghost old_m = self@;
        let ghost alive = alive_set(old_m);
        proof {
            assert(record_wf(old_m, step, id));
            lemma_neighbor_coords_no_duplicates(id, step);
        }
        self.map.remove(&id);
        let ids = removed.neighbors_ids;
        let mut i: usize = 0;
        while i < 8
            invariant
                0 <= i <= 8,
                self.step == step,
                valid_step(step),
                ids@ == neighbor_coords(id, step),
                collectable(old_m, id),
                records_wf(old_m, step),
                alive == alive_set(old_m),
                self@.dom() == old_m.dom().remove(id),
                forall|c: NeighborID| #[trigger] self@.contains_key(c) ==> {
                    &&& self@[c].cell == old_m[c].cell
                    &&& self@[c].neighbors_ids == old_m[c].neighbors_ids
                    &&& self@[c].neighbor_count == old_m[c].neighbor_count
                    &&& forall|k: int| 0 <= k < 8 ==> #[trigger] self@[c].neighbors@[k] == if neighbor_at(c, step, k) == id && 7 - k < i {
                        None
                    } else {
                        old_m[c].neighbors@[k]
                    }
                },
            decreases 8 - i,
        {
            let n = ids[i];
            proof {
                lemma_neighbor_back(id, step, i as int);
                assert forall|c: NeighborID, k: int| self@.contains_key(c) && 0 <= k < 8 && #[trigger] neighbor_at(c, step, k) == id
                    implies c == neighbor_at(id, step, 7 - k) by {
                    lemma_neighbor_back(c, step, k);
                }
            }
            let ghost before = self@;
            match self.map.get(&n) {
                Some(r) => {
                    let mut r2 = *r;
                    r2.neighbors[7 - i] = None;
                    self.map.insert(n, r2);
                    assert(self@[n].neighbors@ == before[n].neighbors@.update(7 - i, None));
                },
                None => {},
            }
            i = i + 1;
        }
        proof {
            let m = self@;
            assert(alive_set(m) =~= alive);
            assert forall|c: NeighborID| #[trigger] m.contains_key(c) implies record_wf(m, step, c) by {
                assert(record_wf(old_m, step, c));
                assert forall|k: int| 0 <= k < 8 implies #[trigger] m[c].neighbors@[k] == expected_link(m, c, step, k) by {
                    assert(old_m[c].neighbors@[k] == expected_link(old_m, c, step, k));
                }
                if m[c].cell.is_alive {
                    assert forall|k: int| 0 <= k < 8 implies m.contains_key(#[trigger] neighbor_at(c, step, k)) by {
                        assert(old_m.contains_key(neighbor_at(c, step, k)));
                        if neighbor_at(c, step, k) == id {
                            lemma_neighbor_back(c, step, k);
                            assert(neighbor_coords(id, step)[7 - k] == c);
                            lemma_count_alive_zero(neighbor_coords(id, step), alive, 7 - k);
                        }
                    }
                }
            }
        }
        Some(removed)
    }

    /// Retires every record whose cell is dead and has no live neighbour, and
    /// returns their coordinates. Live cells and all counts are unchanged.
    pub fn collect_garbage(&mut self) -> (removed: Vec<NeighborID>)
        requires
            old(self).wf(),
        ensures
            final(self).wf(),
            final(self).grid_step() == old(self).grid_step(),
            alive_set(final(self)@) == alive_set(old(self)@),
            final(self)@.dom() == old(self)@.dom().filter(|c: NeighborID| !collectable(old(self)@, c)),
            forall|c: NeighborID| #[trigger] final(self)@.contains_key(c) ==> final(self)@[c].cell == old(self)@[c].cell
                && final(self)@[c].neighbor_count == old(self)@[c].neighbor_count,
            forall|c: NeighborID| !collectable(final(self)@, c),
            forall|c: NeighborID| removed@.contains(c) <==> collectable(old(self)@, c),
    {
        let ghost old_m = self@;
        let ids = self.existing_coordinates();
        let mut removed: Vec<NeighborID> = Vec::new();
        let mut i: usize = 0;
        while i < ids.len()
            invariant
                0 <= i <= ids.len(),
                self.wf(),
                self.grid_step() == old(self).grid_step(),
                old_m == old(self)@,
                ids@.no_duplicates(),
                forall|c: NeighborID| ids@.contains(c) <==> old_m.contains_key(c),
                alive_set(self@) == alive_set(old_m),
                forall|c: NeighborID| #[trigger] self@.contains_key(c) ==> self@[c].cell == old_m[c].cell
                    && self@[c].neighbor_count == old_m[c].neighbor_count,
                forall|c: NeighborID| #[trigger] self@.contains_key(c) <==> (old_m.contains_key(c) && !(collectable(old_m, c)
                    && ids@.take(i as int).contains(c))),
                forall|c: NeighborID| #[trigger] removed@.contains(c) <==> (collectable(old_m, c) && ids@.take(i as int).contains(c)),
            decreases ids.len() - i,
        {
            let c = ids[i];
            proof {
                assert(ids@.take(i + 1) =~= ids@.take(i as int).push(c));
                assert(!ids@.take(i as int).contains(c)) by {
                    if ids@.take(i as int).contains(c) {
                        let j = choose|j: int| 0 <= j < i && ids@.take(i as int)[j] == c;
                        assert(ids@[j] == ids@[i as int]);
                    }
                }
                assert(ids@.contains(c));
                assert(self@.contains_key(c));
                assert(collectable(self@, c) == collectable(old_m, c));
            }
            let ghost before = self@;
            let ghost removed_before = removed@;
            let r = self.remove_neighbor(c);
            if r.is_some() {
                removed.push(c);
                assert(removed@ == removed_before.push(c));
            }
            proof {
                assert forall|x: NeighborID| #[trigger] removed@.contains(x) <==> (collectable(old_m, x) && ids@.take(i + 1).contains(x)) by {
                    vstd::seq_lib::lemma_seq_contains_after_push(removed_before, c, x);
                    vstd::seq_lib::lemma_seq_contains_after_push(ids@.take(i as int), c, x);
                }
                assert forall|x: NeighborID| #[trigger] self@.contains_key(x) <==> (old_m.contains_key(x) && !(collectable(old_m, x)
                    && ids@.take(i + 1).contains(x))) by {
                    vstd::seq_lib::lemma_seq_contains_after_push(ids@.take(i as int), c, x);
                }
            }
            i = i + 1;
        }
        proof {
            assert(ids@.take(ids@.len() as int) =~= ids@);
            assert(self@.dom() =~= old_m.dom().filter(|c: NeighborID| !collectable(old_m, c)));
        }
        removed
    }
    /// The stored live-neighbour count of `id`, if it is tracked.
    pub fn live_neighbor_count(&self, id: NeighborID) -> (r: Option<u8>)
        ensures
            r == (if self@.contains_key(id) { Some(self@[id].neighbor_count) } else { None::<u8> }),
    {
        match self.map.get(&id) {
            Some(rec) => Some(rec.neighbor_count),
            None => None,
        }
    }

    /// Counts the live neighbours of `id` afresh, by looking up each of its
    /// eight neighbour positions in the cell store.
    pub fn count_live_neighbors(&self, id: NeighborID) -> (n: u8)
        requires
            self.wf(),
        ensures
            n == live_neighbors(alive_set(self@), id, self.grid_step()),
    {
        let ids = neighbor_coordinates(id, self.step);
        let ghost a = alive_set(self@);
        let mut n: u8 = 0;
        let mut i: usize = 0;
        while i < 8
            invariant
                0 <= i <= 8,
                ids@ == neighbor_coords(id, self.grid_step()),
                a == alive_set(self@),
                n == count_alive(ids@.take(i as int), a),
                n <= i,
            decreases 8 - i,
        {
            proof {
                lemma_count_alive_take(ids@, a, i as int);
            }
            if self.is_alive(ids[i]) {
                n = n + 1;
            }
            i = i + 1;
        }
        assert(ids@.take(8) =~= ids@);
        n
    }

    /// The tracked cells, in increasing coordinate order.
    pub fn existing_cells(&self) -> (cells: Vec<Cell>)
        requires
            self.wf(),
        ensures
            cells@.len() == self@.len(),
            forall|i: int| 0 <= i < cells@.len() ==> self@.contains_key(#[trigger] cells@[i].id)
                && cells@[i] == self@[cells@[i].id].cell,
            forall|c: NeighborID| self@.contains_key(c) ==> exists|i: int| 0 <= i < cells@.len() && #[trigger] cells@[i].id == c,
    {
        let ids = self.existing_coordinates();
        let mut cells: Vec<Cell> = Vec::new();
        let mut i: usize = 0;
        while i < ids.len()
            invariant
                0 <= i <= ids.len(),
                self.wf(),
                forall|c: NeighborID| ids@.contains(c) <==> self@.contains_key(c),
                cells@.len() == i,
                forall|k: int| 0 <= k < i ==> #[trigger] cells@[k].id == ids@[k] && self@.contains_key(ids@[k])
                    && cells@[k] == self@[ids@[k]].cell,
            decreases ids.len() - i,
        {
            let c = ids[i];
            proof {
                assert(ids@.contains(c));
                assert(record_wf(self@, self.step, c));
            }
            match self.map.get(&c) {
                Some(rec) => {
                    cells.push(rec.cell);
                },
                None => {
                    return cells;
                },
            }
            i = i + 1;
        }
        proof {
            assert(ids@.to_set().len() == ids@.len()) by {
                ids@.unique_seq_to_set();
            }
            assert(ids@.to_set() =~= self@.dom());
            assert forall|c: NeighborID| self@.contains_key(c) implies exists|i: int| 0 <= i < cells@.len() && #[trigger] cells@[i].id == c by {
                assert(ids@.contains(c));
                let k = choose|k: int| 0 <= k < ids@.len() && ids@[k] == c;
                assert(cells@[k].id == c);
            }
        }
        cells
    }
}

} // verus!
