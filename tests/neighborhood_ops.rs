use sparse_life::{Neighbor, NeighborID, Neighborhood};

fn check_counts(n: &Neighborhood) {
    for id in n.existing_coordinates() {
        assert_eq!(n.live_neighbor_count(id), Some(n.count_live_neighbors(id)), "count of {:?}", id);
    }
}

fn alive_cells(n: &Neighborhood) -> Vec<NeighborID> {
    n.existing_cells().into_iter().filter(|c| c.is_alive).map(|c| c.id).collect()
}

#[test]
fn empty_grid() {
    let n = Neighborhood::new(1);
    assert_eq!(n.len(), 0);
    assert_eq!(n.step(), 1);
    assert!(!n.is_alive((0, 0)));
    assert_eq!(n.get((0, 0)), None);
    assert_eq!(n.live_neighbor_count((0, 0)), None);
    assert_eq!(n.count_live_neighbors((0, 0)), 0);
}

#[test]
fn default_grid_uses_the_game_step() {
    let mut n = Neighborhood::default();
    assert_eq!(n.step(), 16);
    assert_eq!(n.len(), 0);
    n.toggle_on((32, 48));
    assert_eq!(n.live_neighbor_count((48, 64)), Some(1));
    assert_eq!(n.live_neighbor_count((33, 48)), None);
}

#[test]
fn toggle_on_materializes_the_halo() {
    let mut n = Neighborhood::new(1);
    n.toggle_on((0, 0));
    assert_eq!(n.len(), 9);
    assert!(n.is_alive((0, 0)));
    assert_eq!(n.live_neighbor_count((0, 0)), Some(0));
    for id in neighbor_ids((0, 0)) {
        assert!(!n.is_alive(id));
        assert_eq!(n.live_neighbor_count(id), Some(1));
    }
    check_counts(&n);
}

fn neighbor_ids(c: NeighborID) -> [NeighborID; 8] {
    sparse_life::neighbor_coordinates(c, 1)
}

#[test]
fn records_link_to_tracked_neighbours() {
    let mut n = Neighborhood::new(1);
    n.toggle_on((0, 0));
    let rec = n.get((0, 0)).unwrap();
    assert_eq!(rec.cell.id, (0, 0));
    assert_eq!(rec.neighbors_ids, neighbor_ids((0, 0)));
    for i in 0..8 {
        assert_eq!(rec.neighbors[i], Some(rec.neighbors_ids[i]));
    }
    // (1, 1) is a ghost: of its neighbours only (0, 0), (1, 0) and (0, 1) are tracked
    let ghost = n.get((1, 1)).unwrap();
    let linked: Vec<NeighborID> = ghost.neighbors.iter().filter_map(|x| *x).collect();
    assert_eq!(linked, vec![(0, 0), (1, 0), (0, 1)]);
    assert_eq!(ghost.neighbors[0], Some((0, 0)));
    assert_eq!(ghost.neighbors[7], None);
}

#[test]
fn counts_follow_a_sequence_of_toggles() {
    let mut n = Neighborhood::new(1);
    let moves: [(i32, i32, bool); 12] = [
        (0, 0, true), (1, 0, true), (1, 1, true), (5, 5, true), (0, 0, false), (2, 1, true),
        (1, 0, false), (6, 5, true), (0, 0, true), (1, 1, false), (9, 9, false), (2, 2, true),
    ];
    for (x, y, on) in moves {
        if on {
            n.toggle_on((x, y));
        } else {
            n.toggle_off((x, y));
        }
        check_counts(&n);
    }
    let mut alive = alive_cells(&n);
    alive.sort();
    assert_eq!(alive, vec![(0, 0), (2, 1), (2, 2), (5, 5), (6, 5)]);
    assert_eq!(n.live_neighbor_count((1, 1)), Some(3));
    assert_eq!(n.live_neighbor_count((2, 1)), Some(1));
}

#[test]
fn toggle_on_twice_is_a_no_op() {
    let mut n = Neighborhood::new(1);
    n.toggle_on((0, 0));
    n.toggle_on((1, 0));
    let before: Vec<Neighbor> = n.existing_coordinates().into_iter().map(|c| n.get(c).unwrap()).collect();
    n.toggle_on((1, 0));
    let after: Vec<Neighbor> = n.existing_coordinates().into_iter().map(|c| n.get(c).unwrap()).collect();
    assert_eq!(before, after);
}

#[test]
fn toggle_off_on_a_dead_or_missing_cell_is_a_no_op() {
    let mut n = Neighborhood::new(1);
    n.toggle_on((0, 0));
    let before: Vec<Neighbor> = n.existing_coordinates().into_iter().map(|c| n.get(c).unwrap()).collect();
    n.toggle_off((1, 1));
    n.toggle_off((40, 40));
    let after: Vec<Neighbor> = n.existing_coordinates().into_iter().map(|c| n.get(c).unwrap()).collect();
    assert_eq!(before, after);
    assert_eq!(n.len(), 9);
}

#[test]
fn toggle_on_then_off_restores_counts() {
    let mut n = Neighborhood::new(1);
    n.toggle_on((0, 0));
    n.toggle_on((3, 0));
    let ids = n.existing_coordinates();
    let counts: Vec<Option<u8>> = ids.iter().map(|c| n.live_neighbor_count(*c)).collect();
    n.toggle_on((2, 0));
    n.toggle_off((2, 0));
    assert!(!n.is_alive((2, 0)));
    let again: Vec<Option<u8>> = ids.iter().map(|c| n.live_neighbor_count(*c)).collect();
    assert_eq!(counts, again);
    let mut alive = alive_cells(&n);
    alive.sort();
    assert_eq!(alive, vec![(0, 0), (3, 0)]);
    // the records created on the way stay, dead, until a garbage pass
    assert!(n.get((2, 0)).is_some());
    assert!(n.get((1, 1)).is_some());
    check_counts(&n);
}

#[test]
fn add_neighbor_tracks_a_dead_cell_linked_both_ways() {
    let mut n = Neighborhood::new(1);
    n.toggle_on((0, 0));
    n.toggle_on((2, 2));
    assert!(n.get((3, 0)).is_none());
    n.add_neighbor((3, 0));
    let rec = n.get((3, 0)).unwrap();
    assert!(!rec.cell.is_alive);
    // an untracked position never has a live neighbour
    assert_eq!(rec.neighbor_count, 0);
    let linked: Vec<NeighborID> = rec.neighbors.iter().filter_map(|x| *x).collect();
    assert_eq!(linked, vec![(2, 1), (3, 1)]);
    assert_eq!(rec.neighbors[5], Some((2, 1)));
    // and (2, 1) now links back to (3, 0), in its slot up and to the right
    assert_eq!(n.get((2, 1)).unwrap().neighbors[2], Some((3, 0)));
    let len = n.len();
    n.add_neighbor((3, 0));
    n.add_neighbor((1, 1));
    assert_eq!(n.len(), len);
    check_counts(&n);
}

#[test]
fn remove_neighbor_only_retires_empty_records() {
    let mut n = Neighborhood::new(1);
    n.toggle_on((0, 0));
    assert_eq!(n.remove_neighbor((0, 0)), None);
    assert_eq!(n.remove_neighbor((1, 0)), None);
    assert_eq!(n.remove_neighbor((7, 7)), None);
    n.toggle_off((0, 0));
    let removed = n.remove_neighbor((1, 0)).unwrap();
    assert_eq!(removed.cell.id, (1, 0));
    assert!(n.get((1, 0)).is_none());
    // the links that pointed at (1, 0) are gone
    let centre = n.get((0, 0)).unwrap();
    assert_eq!(centre.neighbors[4], None);
    assert_eq!(centre.neighbors[3], Some((-1, 0)));
    check_counts(&n);
}

#[test]
fn garbage_pass_keeps_the_halo_of_live_cells() {
    let mut n = Neighborhood::new(1);
    n.toggle_on((0, 0));
    n.toggle_on((10, 10));
    n.toggle_off((10, 10));
    assert_eq!(n.len(), 18);
    let mut removed = n.collect_garbage();
    removed.sort();
    let mut expected: Vec<NeighborID> = neighbor_ids((10, 10)).to_vec();
    expected.push((10, 10));
    expected.sort();
    assert_eq!(removed, expected);
    assert_eq!(n.len(), 9);
    assert!(n.is_alive((0, 0)));
    assert!(n.collect_garbage().is_empty());
    check_counts(&n);
}

#[test]
fn after_garbage_pass_every_dead_record_has_a_live_neighbour() {
    let mut n = Neighborhood::new(1);
    for id in [(0, 0), (1, 0), (4, 4), (9, 0), (9, 1)] {
        n.toggle_on(id);
    }
    n.toggle_off((4, 4));
    n.toggle_off((9, 1));
    n.collect_garbage();
    let cells = n.existing_cells();
    let alive = cells.iter().filter(|c| c.is_alive).count();
    assert!(cells.len() <= 9 * alive);
    for c in &cells {
        if c.is_dead() {
            assert!(n.live_neighbor_count(c.id).unwrap() > 0);
        }
    }
    check_counts(&n);
}

#[test]
fn large_step_near_the_edge() {
    let mut n = Neighborhood::new(16);
    n.toggle_on((i32::MAX - 15, 0));
    assert!(n.is_alive((i32::MAX - 15, 0)));
    // one step to the right wraps to the far left of the plane
    assert_eq!(n.live_neighbor_count((i32::MIN, 0)), Some(1));
    check_counts(&n);
}
