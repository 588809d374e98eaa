//! Facts that hold of every grid the operations can produce.
use vstd::prelude::*;

use vstd::set_lib::{lemma_len_subset, lemma_len_union};

use crate::grid::{
    is_neighbor, lemma_is_neighbor_symmetric, neighbor_at, neighbor_coords, neighbor_set,
    valid_step, NeighborID,
};
use crate::neighborhood::{
    alive_in, alive_set, collectable, count_alive, expected_link, halo, lemma_count_alive_same,
    lemma_neighbor_coords_contains, live_neighbors, record_wf, records_wf, Neighbor, Neighborhood,
};

verus! {

/// Every tracked record's count equals the number of its eight neighbour
/// positions whose cell is currently alive. Every operation that changes a
/// `Neighborhood` keeps it well formed, so this holds after any sequence of
/// toggles, generations and garbage passes.
/// It is also the number of the record's links that are present and lead to
/// a live cell.
pub proof fn law_counts_match_live_neighbors(n: &Neighborhood, c: NeighborID)
    requires
        n.wf(),
        n@.contains_key(c),
    ensures
        n@[c].neighbor_count == live_neighbors(alive_set(n@), c, n.grid_step()),
        n@[c].neighbor_count == count_alive(n@[c].neighbors_ids@, alive_set(n@)),
        n@[c].neighbor_count == count_linked_alive(n@[c].neighbors@, alive_set(n@)),
{
    let m = n@;
    let step = n.grid_step();
    assert(record_wf(m, step, c));
    lemma_links_count(m, step, c, 8);
    assert(m[c].neighbors@.take(8) =~= m[c].neighbors@);
    assert(neighbor_coords(c, step).take(8) =~= neighbor_coords(c, step));
}

/// How many entries of `links` are present and lead into `alive`.
pub open spec fn count_linked_alive(links: Seq<Option<NeighborID>>, alive: Set<NeighborID>) -> nat
    decreases links.len(),
{
    if links.len() == 0 {
        0
    } else {
        count_linked_alive(links.drop_last(), alive) + match links.last() {
            Some(x) => if alive.contains(x) {
                1nat
            } else {
                0nat
            },
            None => 0nat,
        }
    }
}

proof fn lemma_links_count(m: Map<NeighborID, Neighbor>, step: i32, c: NeighborID, k: int)
    requires
        records_wf(m, step),
        m.contains_key(c),
        0 <= k <= 8,
    ensures
        count_linked_alive(m[c].neighbors@.take(k), alive_set(m)) == count_alive(neighbor_coords(c, step).take(k), alive_set(m)),
    decreases k,
{
    assert(record_wf(m, step, c));
    if k > 0 {
        lemma_links_count(m, step, c, k - 1);
        assert(m[c].neighbors@.take(k).drop_last() =~= m[c].neighbors@.take(k - 1));
        assert(neighbor_coords(c, step).take(k).drop_last() =~= neighbor_coords(c, step).take(k - 1));
        assert(m[c].neighbors@[k - 1] == expected_link(m, c, step, k - 1));
    }
}

/// The live cells together with their neighbours.
pub open spec fn closure(cells: Set<NeighborID>, step: i32) -> Set<NeighborID> {
    cells.union(halo(cells, step))
}

proof fn lemma_neighbor_set_len(c: NeighborID, step: i32)
    ensures
        neighbor_set(c, step).finite(),
        neighbor_set(c, step).len() <= 8,
{
    assert forall|b: NeighborID| neighbor_set(c, step).contains(b) <==> neighbor_coords(c, step).to_set().contains(b) by {
        lemma_neighbor_coords_contains(c, step, b);
    }
    assert(neighbor_set(c, step) =~= neighbor_coords(c, step).to_set());
    neighbor_coords(c, step).lemma_cardinality_of_set();
}

proof fn lemma_closure_len(cells: Set<NeighborID>, step: i32)
    requires
        cells.finite(),
    ensures
        closure(cells, step).finite(),
        closure(cells, step).len() <= 9 * cells.len(),
    decreases cells.len(),
{
    if cells.len() == 0 {
        assert(cells =~= Set::empty());
        assert(closure(cells, step) =~= Set::empty());
    } else {
        let x = cells.choose();
        let rest = cells.remove(x);
        lemma_closure_len(rest, step);
        lemma_neighbor_set_len(x, step);
        let around = neighbor_set(x, step).insert(x);
        assert forall|b: NeighborID| closure(cells, step).contains(b) <==> closure(rest, step).union(around).contains(b) by {
            if halo(cells, step).contains(b) {
                let a = choose|a: NeighborID| #[trigger] cells.contains(a) && is_neighbor(a, b, step);
                if a != x {
                    assert(rest.contains(a));
                }
            }
            if halo(rest, step).contains(b) {
                let a = choose|a: NeighborID| #[trigger] rest.contains(a) && is_neighbor(a, b, step);
                assert(cells.contains(a));
            }
        }
        assert(closure(cells, step) =~= closure(rest, step).union(around));
        lemma_len_union(closure(rest, step), around);
    }
}

/// Once no record is collectable (as after `collect_garbage`), every dead
/// tracked cell has a live neighbour, and there are at most nine tracked
/// cells per live cell.
pub proof fn law_bounded_after_gc(n: &Neighborhood)
    requires
        n.wf(),
        forall|c: NeighborID| !collectable(n@, c),
    ensures
        forall|c: NeighborID| #[trigger] n@.contains_key(c) && !n@[c].cell.is_alive ==> n@[c].neighbor_count > 0,
        n@.len() <= 9 * alive_set(n@).len(),
{
    let m = n@;
    let step = n.grid_step();
    let alive = alive_set(m);
    assert forall|c: NeighborID| #[trigger] m.contains_key(c) && !m[c].cell.is_alive implies m[c].neighbor_count > 0 by {
        assert(!collectable(m, c));
    }
    assert(alive.subset_of(m.dom()));
    lemma_len_subset(alive, m.dom());
    assert forall|c: NeighborID| m.contains_key(c) implies #[trigger] closure(alive, step).contains(c) by {
        if !alive.contains(c) {
            assert(!collectable(m, c));
            assert(record_wf(m, step, c));
            assert(exists|i: int| 0 <= i < 8 && alive.contains(#[trigger] neighbor_at(c, step, i))) by {
                if !exists|i: int| 0 <= i < 8 && alive.contains(#[trigger] neighbor_at(c, step, i)) {
                    lemma_count_alive_same(neighbor_coords(c, step), alive, Set::empty());
                    lemma_count_alive_empty(neighbor_coords(c, step));
                }
            }
            let i = choose|i: int| 0 <= i < 8 && alive.contains(#[trigger] neighbor_at(c, step, i));
            let a = neighbor_at(c, step, i);
            assert(is_neighbor(c, a, step));
            lemma_is_neighbor_symmetric(c, a, step);
        }
    }
    lemma_closure_len(alive, step);
    lemma_len_subset(m.dom(), closure(alive, step));
}

proof fn lemma_count_alive_empty(ids: Seq<NeighborID>)
    ensures
        count_alive(ids, Set::empty()) == 0,
    decreases ids.len(),
{
    if ids.len() > 0 {
        lemma_count_alive_empty(ids.drop_last());
    }
}

/// Bringing a cell to life and killing it again before any generation
/// leaves no new live cell and every count that existed before as it was;
/// the only trace is the records of its neighbourhood, dead.
pub proof fn law_toggle_on_then_off(
    before: Map<NeighborID, Neighbor>,
    on: Map<NeighborID, Neighbor>,
    off: Map<NeighborID, Neighbor>,
    step: i32,
    id: NeighborID,
)
    requires
        records_wf(before, step),
        records_wf(on, step),
        records_wf(off, step),
        !alive_in(before, id),
        alive_set(on) == alive_set(before).insert(id),
        on.dom() == before.dom().insert(id).union(neighbor_set(id, step)),
        alive_set(off) == alive_set(on).remove(id),
        off.dom() == on.dom(),
    ensures
        alive_set(off) == alive_set(before),
        !alive_in(off, id),
        before.dom().subset_of(off.dom()),
        forall|c: NeighborID| #[trigger] before.contains_key(c) ==> off[c].neighbor_count == before[c].neighbor_count,
{
    assert(alive_set(off) =~= alive_set(before));
    assert(!alive_set(off).contains(id));
    assert forall|c: NeighborID| #[trigger] before.contains_key(c) implies off[c].neighbor_count == before[c].neighbor_count by {
        assert(record_wf(before, step, c));
        assert(off.contains_key(c));
        assert(record_wf(off, step, c));
    }
}

} // verus!
