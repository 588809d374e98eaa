//! The generation engine: the rule ranges, the running flag, and one
//! synchronous step of the automaton over the tracked cells.
use vstd::prelude::*;

use std::ops::RangeInclusive;

use crate::grid::{is_neighbor, neighbor_at, neighbor_set, NeighborID};
use crate::neighborhood::{alive_in, alive_set, collectable, halo, live_neighbors, record_wf, Neighbor, Neighborhood};

verus! {

/// Inclusive bounds on the live-neighbour count: an alive cell stays alive
/// when its count is in `survive`, a dead cell comes alive when its count is
/// in `revive`.
pub struct Rules {
    pub survive: RangeInclusive<u8>,
    pub revive: RangeInclusive<u8>,
}

impl Rules {
    /// Conway's rules: survive on 2 or 3 live neighbours, revive on 3.
    pub fn classic() -> (r: Rules)
        ensures
            r.survive@.start == 2 && r.survive@.end == 3 && !r.survive@.exhausted,
            r.revive@.start == 3 && r.revive@.end == 3 && !r.revive@.exhausted,
    {
        Rules { survive: RangeInclusive::new(2, 3), revive: RangeInclusive::new(3, 3) }
    }
}

/// The simulation's configuration: whether generations advance, and by which
/// rules.
pub struct Game {
    pub running: bool,
    pub rules: Rules,
}

impl Game {
    /// A paused game with the given rules.
    pub fn new(rules: Rules) -> (g: Game)
        ensures
            !g.running,
            g.rules == rules,
    {
        Game { running: false, rules }
    }

    /// Starts or pauses the generations.
    pub fn set_running(&mut self, running: bool)
        ensures
            final(self).running == running,
            final(self).rules == old(self).rules,
    {
        self.running = running;
    }

    /// Flips between running and paused.
    pub fn toggle_running(&mut self)
        ensures
            final(self).running == !old(self).running,
            final(self).rules == old(self).rules,
    {
        self.running = !self.running;
    }
}

/// `k` lies in the range `r` (as `RangeInclusive::contains` decides).
pub open spec fn range_contains(r: RangeInclusive<u8>, k: int) -> bool {
    &&& r@.start <= k
    &&& if r@.exhausted {
        k < r@.end
    } else {
        k <= r@.end
    }
}

/// Whether a tracked cell of `m` at `c` is alive in the next generation.
pub open spec fn lives_next(m: Map<NeighborID, Neighbor>, rules: Rules, step: i32, c: NeighborID) -> bool {
    let n = live_neighbors(alive_set(m), c, step) as int;
    &&& m.contains_key(c)
    &&& if m[c].cell.is_alive {
        range_contains(rules.survive, n)
    } else {
        range_contains(rules.revive, n)
    }
}

/// The live cells after one generation: every tracked cell decides from the
/// counts of the current generation.
pub open spec fn next_alive(m: Map<NeighborID, Neighbor>, rules: Rules, step: i32) -> Set<NeighborID> {
    Set::new(|c: NeighborID| lives_next(m, rules, step, c))
}

fn in_range(r: &RangeInclusive<u8>, k: u8) -> (b: bool)
    ensures
        b == range_contains(*r, k as int),
{
    r.contains(&k)
}

/// Advances the tracked cells by one generation when `game.running`, and
/// does nothing otherwise. All decisions are taken from the counts before
/// the step; the transitions are then applied one by one, each moving its
/// neighbours' counts, and every cell born gets its full neighbourhood
/// tracked.
pub fn run_generation(game: &Game, neighborhood: &mut Neighborhood)
    requires
        old(neighborhood).wf(),
    ensures
        final(neighborhood).wf(),
        final(neighborhood).grid_step() == old(neighborhood).grid_step(),
        !game.running ==> final(neighborhood)@ == old(neighborhood)@,
        game.running ==> alive_set(final(neighborhood)@) == next_alive(old(neighborhood)@, game.rules, old(neighborhood).grid_step()),
        game.running ==> final(neighborhood)@.dom() == old(neighborhood)@.dom().union(
            halo(next_alive(old(neighborhood)@, game.rules, old(neighborhood).grid_step()), old(neighborhood).grid_step()),
        ),
{
    if !game.running {
        return;
    }
    let ghost m = neighborhood@;
    let ghost a = alive_set(m);
    let ghost step = neighborhood.grid_step();
    let ids = neighborhood.existing_coordinates();
    let mut births: Vec<NeighborID> = Vec::new();
    let mut deaths: Vec<NeighborID> = Vec::new();
    let mut i: usize = 0;
    while i < ids.len()
        invariant
            0 <= i <= ids.len(),
            neighborhood@ == m,
            neighborhood.grid_step() == step,
            neighborhood.wf(),
            forall|c: NeighborID| ids@.contains(c) <==> m.contains_key(c),
            forall|c: NeighborID| #[trigger] births@.contains(c) <==> (ids@.take(i as int).contains(c) && m.contains_key(c)
                && !m[c].cell.is_alive && lives_next(m, game.rules, step, c)),
            forall|c: NeighborID| #[trigger] deaths@.contains(c) <==> (ids@.take(i as int).contains(c) && alive_in(m, c)
                && !lives_next(m, game.rules, step, c)),
        decreases ids.len() - i,
    {
        let c = ids[i];
        let ghost births_before = births@;
        let ghost deaths_before = deaths@;
        proof {
            assert(ids@.take(i + 1) =~= ids@.take(i as int).push(c));
            assert(ids@.contains(c));
            assert(record_wf(m, step, c));
        }
        match neighborhood.get(c) {
            Some(rec) => {
                if rec.cell.is_alive {
                    if !in_range(&game.rules.survive, rec.neighbor_count) {
                        deaths.push(c);
                    }
                } else if in_range(&game.rules.revive, rec.neighbor_count) {
                    births.push(c);
                }
            },
            None => {},
        }
        proof {
            assert forall|x: NeighborID| #[trigger] births@.contains(x) <==> (ids@.take(i + 1).contains(x) && m.contains_key(x)
                && !m[x].cell.is_alive && lives_next(m, game.rules, step, x)) by {
                vstd::seq_lib::lemma_seq_contains_after_push(births_before, c, x);
                vstd::seq_lib::lemma_seq_contains_after_push(ids@.take(i as int), c, x);
            }
            assert forall|x: NeighborID| #[trigger] deaths@.contains(x) <==> (ids@.take(i + 1).contains(x) && alive_in(m, x)
                && !lives_next(m, game.rules, step, x)) by {
                vstd::seq_lib::lemma_seq_contains_after_push(deaths_before, c, x);
                vstd::seq_lib::lemma_seq_contains_after_push(ids@.take(i as int), c, x);
            }
        }
        i = i + 1;
    }
    proof {
        assert(ids@.take(ids@.len() as int) =~= ids@);
    }
    let mut j: usize = 0;
    while j < deaths.len()
        invariant
            0 <= j <= deaths.len(),
            neighborhood.wf(),
            neighborhood.grid_step() == step,
            neighborhood@.dom() == m.dom(),
            a == alive_set(m),
            forall|c: NeighborID| #[trigger] alive_set(neighborhood@).contains(c) <==> (a.contains(c) && !deaths@.take(j as int).contains(c)),
        decreases deaths.len() - j,
    {
        let d = deaths[j];
        proof {
            assert(deaths@.take(j + 1) =~= deaths@.take(j as int).push(d));
            assert forall|x: NeighborID| deaths@.take(j + 1).contains(x) <==> (deaths@.take(j as int).contains(x) || x == d) by {
                vstd::seq_lib::lemma_seq_contains_after_push(deaths@.take(j as int), d, x);
            }
        }
        let ghost prev = alive_set(neighborhood@);
        neighborhood.toggle_off(d);
        proof {
            assert forall|x: NeighborID| #[trigger] alive_set(neighborhood@).contains(x) <==> (a.contains(x) && !deaths@.take(j + 1).contains(x)) by {
                assert(alive_set(neighborhood@).contains(x) <==> prev.contains(x) && x != d);
            }
        }
        j = j + 1;
    }
    proof {
        assert(deaths@.take(deaths@.len() as int) =~= deaths@);
    }
    let ghost m1 = neighborhood@;
    let mut j: usize = 0;
    while j < births.len()
        invariant
            0 <= j <= births.len(),
            neighborhood.wf(),
            neighborhood.grid_step() == step,
            forall|c: NeighborID| #[trigger] births@.contains(c) ==> m.contains_key(c),
            forall|c: NeighborID| #[trigger] alive_set(neighborhood@).contains(c) <==> ((a.contains(c) && !deaths@.contains(c))
                || births@.take(j as int).contains(c)),
            forall|b: NeighborID| #[trigger] neighborhood@.contains_key(b) <==> (m.contains_key(b) || exists|k: int|
                0 <= k < j && #[trigger] is_neighbor(births@[k], b, step)),
        decreases births.len() - j,
    {
        let c = births[j];
        proof {
            assert(births@.take(j + 1) =~= births@.take(j as int).push(c));
            assert forall|x: NeighborID| births@.take(j + 1).contains(x) <==> (births@.take(j as int).contains(x) || x == c) by {
                vstd::seq_lib::lemma_seq_contains_after_push(births@.take(j as int), c, x);
            }
            assert(births@.contains(c));
        }
        let ghost prev = alive_set(neighborhood@);
        neighborhood.toggle_on(c);
        proof {
            assert forall|x: NeighborID| #[trigger] alive_set(neighborhood@).contains(x) <==> ((a.contains(x) && !deaths@.contains(x))
                || births@.take(j + 1).contains(x)) by {
                assert(alive_set(neighborhood@).contains(x) <==> prev.contains(x) || x == c);
            }
            assert forall|b: NeighborID| #[trigger] neighborhood@.contains_key(b) <==> (m.contains_key(b) || exists|k: int|
                0 <= k < j + 1 && #[trigger] is_neighbor(births@[k], b, step)) by {
                if neighbor_set(c, step).contains(b) {
                    assert(is_neighbor(births@[j as int], b, step));
                }
                if exists|k: int| 0 <= k < j + 1 && #[trigger] is_neighbor(births@[k], b, step) {
                    let k = choose|k: int| 0 <= k < j + 1 && #[trigger] is_neighbor(births@[k], b, step);
                    if k == j {
                        assert(neighbor_set(c, step).contains(b));
                    }
                }
            }
        }
        j = j + 1;
    }
    proof {
        assert(births@.take(births@.len() as int) =~= births@);
        let n = next_alive(m, game.rules, step);
        assert forall|c: NeighborID| alive_set(neighborhood@).contains(c) <==> n.contains(c) by {
            if m.contains_key(c) {
                assert(ids@.contains(c));
            }
        }
        assert(alive_set(neighborhood@) =~= n);
        assert forall|b: NeighborID| neighborhood@.contains_key(b) <==> m.dom().union(halo(n, step)).contains(b) by {
            if exists|k: int| 0 <= k < births@.len() && #[trigger] is_neighbor(births@[k], b, step) {
                let k = choose|k: int| 0 <= k < births@.len() && #[trigger] is_neighbor(births@[k], b, step);
                assert(births@.contains(births@[k]));
                assert(n.contains(births@[k]));
            }
            if halo(n, step).contains(b) && !m.contains_key(b) {
                let x = choose|x: NeighborID| #[trigger] n.contains(x) && is_neighbor(x, b, step);
                let i = choose|i: int| 0 <= i < 8 && #[trigger] neighbor_at(x, step, i) == b;
                if births@.contains(x) {
                    let k = choose|k: int| 0 <= k < births@.len() && births@[k] == x;
                    assert(is_neighbor(births@[k], b, step));
                } else {
                    assert(record_wf(m, step, x));
                    assert(m.contains_key(neighbor_at(x, step, i)));
                }
            }
        }
        assert(neighborhood@.dom() =~= m.dom().union(halo(n, step)));
    }
}

/// The live cells after a tick of `game` on `m`.
pub open spec fn alive_after_tick(m: Map<NeighborID, Neighbor>, game: Game, step: i32) -> Set<NeighborID> {
    if game.running {
        next_alive(m, game.rules, step)
    } else {
        alive_set(m)
    }
}

/// The tracked cells after a tick of `game` on `m`: those tracked before or
/// around a newborn cell, less those left dead with no live neighbour.
pub open spec fn tracked_after_tick(m: Map<NeighborID, Neighbor>, game: Game, step: i32) -> Set<NeighborID> {
    let alive = alive_after_tick(m, game, step);
    Set::new(
        |c: NeighborID|
            (m.contains_key(c) || (game.running && halo(alive, step).contains(c))) && (alive.contains(c)
                || live_neighbors(alive, c, step) > 0),
    )
}

/// `c` is tracked before the garbage pass of a tick of `game` on `m`, and
/// that pass retires it.
pub open spec fn retired_by_tick(m: Map<NeighborID, Neighbor>, game: Game, step: i32, c: NeighborID) -> bool {
    let alive = alive_after_tick(m, game, step);
    &&& m.contains_key(c) || (game.running && halo(alive, step).contains(c))
    &&& !alive.contains(c)
    &&& live_neighbors(alive, c, step) == 0
}

/// One tick of the fixed-step schedule: a generation (when the game runs),
/// then the garbage pass, which runs whether or not the game is paused.
/// Returns the coordinates that stopped being tracked.
pub fn tick_generation(game: &Game, neighborhood: &mut Neighborhood) -> (removed: Vec<NeighborID>)
    requires
        old(neighborhood).wf(),
    ensures
        final(neighborhood).wf(),
        final(neighborhood).grid_step() == old(neighborhood).grid_step(),
        alive_set(final(neighborhood)@) == alive_after_tick(old(neighborhood)@, *game, old(neighborhood).grid_step()),
        final(neighborhood)@.dom() == tracked_after_tick(old(neighborhood)@, *game, old(neighborhood).grid_step()),
        forall|c: NeighborID| !collectable(final(neighborhood)@, c),
        forall|c: NeighborID| #[trigger] removed@.contains(c) <==> retired_by_tick(old(neighborhood)@, *game, old(neighborhood).grid_step(), c),
{
    let ghost m = neighborhood@;
    let ghost step = neighborhood.grid_step();
    run_generation(game, neighborhood);
    let ghost m1 = neighborhood@;
    let removed = neighborhood.collect_garbage();
    proof {
        let alive = alive_after_tick(m, *game, step);
        assert(alive_set(m1) == alive);
        assert forall|c: NeighborID| neighborhood@.contains_key(c) <==> tracked_after_tick(m, *game, step).contains(c) by {
            if m1.contains_key(c) {
                assert(record_wf(m1, step, c));
            }
            if !game.running {
                assert(m1 == m);
            }
        }
        assert(neighborhood@.dom() =~= tracked_after_tick(m, *game, step));
        assert forall|c: NeighborID| #[trigger] removed@.contains(c) <==> retired_by_tick(m, *game, step, c) by {
            if m1.contains_key(c) {
                assert(record_wf(m1, step, c));
            }
            if !game.running {
                assert(m1 == m);
            }
        }
    }
    removed
}

} // verus!
