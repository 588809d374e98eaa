use sparse_life::{neighbor_coordinates, Cell, GRID_STEP};

#[test]
fn neighbor_ids_row_major_with_game_step() {
    let ids = Cell::gen_neighbor_ids((0, 0));
    assert_eq!(
        ids,
        [(-16, -16), (0, -16), (16, -16), (-16, 0), (16, 0), (-16, 16), (0, 16), (16, 16)]
    );
    assert_eq!(GRID_STEP, 16);
}

#[test]
fn neighbor_ids_with_unit_step() {
    let ids = neighbor_coordinates((5, -3), 1);
    assert_eq!(ids, [(4, -4), (5, -4), (6, -4), (4, -3), (6, -3), (4, -2), (5, -2), (6, -2)]);
}

#[test]
fn neighbor_ids_wrap_at_the_edge_of_the_plane() {
    let ids = neighbor_coordinates((i32::MAX, i32::MIN), 1);
    assert_eq!(ids[0], (i32::MAX - 1, i32::MAX));
    assert_eq!(ids[4], (i32::MIN, i32::MIN));
    assert_eq!(ids[7], (i32::MIN, i32::MIN + 1));
    // the neighbour in slot 7 - i of the neighbour in slot i is the cell itself
    for i in 0..8 {
        let back = neighbor_coordinates(ids[i], 1)[7 - i];
        assert_eq!(back, (i32::MAX, i32::MIN));
    }
}

#[test]
fn neighbor_ids_are_distinct() {
    let ids = neighbor_coordinates((100, 200), 16);
    for i in 0..8 {
        assert_ne!(ids[i], (100, 200));
        for j in 0..8 {
            if i != j {
                assert_ne!(ids[i], ids[j]);
            }
        }
    }
}

#[test]
fn cell_state_changes() {
    let mut c = Cell::new((3, 4), false);
    assert!(c.is_dead());
    assert!(!c.is_alive());
    c.revive();
    assert!(c.is_alive());
    assert!(!c.is_dead());
    assert_eq!(c.id, (3, 4));
    c.die();
    assert!(c.is_dead());
    assert_eq!(c, Cell::new((3, 4), false));
}
