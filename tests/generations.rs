use sparse_life::{run_generation, tick_generation, FixedTimestep, Game, NeighborID, Neighborhood, Rules, DEFAULT_STEP_MICROS};

fn classic_running() -> Game {
    let mut g = Game::new(Rules::classic());
    g.set_running(true);
    g
}

fn alive_cells(n: &Neighborhood) -> Vec<NeighborID> {
    let mut v: Vec<NeighborID> = n.existing_cells().into_iter().filter(|c| c.is_alive).map(|c| c.id).collect();
    v.sort();
    v
}

fn check_counts(n: &Neighborhood) {
    for id in n.existing_coordinates() {
        assert_eq!(n.live_neighbor_count(id), Some(n.count_live_neighbors(id)));
    }
}

#[test]
fn lone_cell_dies() {
    let game = classic_running();
    let mut n = Neighborhood::new(1);
    n.toggle_on((0, 0));
    tick_generation(&game, &mut n);
    assert!(!n.is_alive((0, 0)));
    assert_eq!(n.len(), 0);
}

#[test]
fn l_shape_grows_into_a_block() {
    let game = classic_running();
    let mut n = Neighborhood::new(1);
    for id in [(0, 0), (1, 0), (0, 1)] {
        n.toggle_on(id);
    }
    assert_eq!(n.live_neighbor_count((0, 0)), Some(2));
    assert_eq!(n.live_neighbor_count((1, 1)), Some(3));
    tick_generation(&game, &mut n);
    assert!(n.is_alive((0, 0)));
    assert!(n.is_alive((1, 1)));
    assert_eq!(alive_cells(&n), vec![(0, 0), (0, 1), (1, 0), (1, 1)]);
    check_counts(&n);
}

#[test]
fn block_is_still() {
    let game = classic_running();
    let mut n = Neighborhood::new(1);
    for id in [(0, 0), (1, 0), (0, 1), (1, 1)] {
        n.toggle_on(id);
    }
    for _ in 0..6 {
        tick_generation(&game, &mut n);
        assert_eq!(alive_cells(&n), vec![(0, 0), (0, 1), (1, 0), (1, 1)]);
        for id in [(0, 0), (1, 0), (0, 1), (1, 1)] {
            assert_eq!(n.live_neighbor_count(id), Some(3));
        }
        check_counts(&n);
    }
    assert_eq!(n.len(), 16);
}

#[test]
fn blinker_oscillates() {
    let game = classic_running();
    let mut n = Neighborhood::new(16);
    for id in [(-16, 0), (0, 0), (16, 0)] {
        n.toggle_on(id);
    }
    tick_generation(&game, &mut n);
    assert_eq!(alive_cells(&n), vec![(0, -16), (0, 0), (0, 16)]);
    tick_generation(&game, &mut n);
    assert_eq!(alive_cells(&n), vec![(-16, 0), (0, 0), (16, 0)]);
    check_counts(&n);
}

#[test]
fn dead_neighbours_are_collected_together() {
    let game = classic_running();
    let mut n = Neighborhood::new(1);
    n.toggle_on((0, 0));
    n.toggle_on((1, 0));
    n.toggle_off((0, 0));
    n.collect_garbage();
    // (0, 0) is dead but still has a live neighbour
    assert!(n.get((0, 0)).is_some());
    n.toggle_off((1, 0));
    let removed = n.collect_garbage();
    assert!(removed.contains(&(0, 0)));
    assert!(removed.contains(&(1, 0)));
    assert_eq!(n.len(), 0);
    // a pair of cells also dies out under the rules and leaves nothing behind
    n.toggle_on((5, 5));
    n.toggle_on((6, 5));
    tick_generation(&game, &mut n);
    assert_eq!(n.len(), 0);
}

#[test]
fn paused_game_keeps_cells_but_collects_garbage() {
    let mut game = Game::new(Rules::classic());
    assert!(!game.running);
    let mut n = Neighborhood::new(1);
    n.toggle_on((0, 0));
    n.toggle_on((8, 8));
    n.toggle_off((8, 8));
    run_generation(&game, &mut n);
    assert_eq!(n.len(), 18);
    let removed = tick_generation(&game, &mut n);
    assert_eq!(removed.len(), 9);
    assert!(n.is_alive((0, 0)));
    game.toggle_running();
    assert!(game.running);
    tick_generation(&game, &mut n);
    assert!(!n.is_alive((0, 0)));
    game.toggle_running();
    assert!(!game.running);
}

#[test]
fn decisions_use_the_counts_before_the_step() {
    // a row of three: the ends die and the middle's vertical neighbours are
    // born, whatever order the cells are visited in
    let game = classic_running();
    let mut n = Neighborhood::new(1);
    for id in [(2, 0), (0, 0), (1, 0)] {
        n.toggle_on(id);
    }
    run_generation(&game, &mut n);
    assert_eq!(alive_cells(&n), vec![(1, -1), (1, 0), (1, 1)]);
    check_counts(&n);
}

#[test]
fn custom_rules_keep_a_lone_cell() {
    let game = Game { running: true, rules: Rules { survive: 0..=8, revive: 9..=9 } };
    let mut n = Neighborhood::new(1);
    n.toggle_on((0, 0));
    tick_generation(&game, &mut n);
    assert!(n.is_alive((0, 0)));
    assert_eq!(n.len(), 9);
}

#[test]
fn glider_moves_one_cell_diagonally_in_four_generations() {
    let game = classic_running();
    let mut n = Neighborhood::new(1);
    let glider = [(1, 0), (2, 1), (0, 2), (1, 2), (2, 2)];
    for id in glider {
        n.toggle_on(id);
    }
    for _ in 0..4 {
        tick_generation(&game, &mut n);
        check_counts(&n);
        let cells = n.existing_cells();
        let alive = cells.iter().filter(|c| c.is_alive).count();
        assert!(cells.len() <= 9 * alive);
    }
    let mut moved: Vec<NeighborID> = glider.iter().map(|(x, y)| (x + 1, y + 1)).collect();
    moved.sort();
    assert_eq!(alive_cells(&n), moved);
}

#[test]
fn timestep_hands_out_whole_steps() {
    let mut t = FixedTimestep::new(DEFAULT_STEP_MICROS);
    assert_eq!(t.step(), 200_000);
    assert_eq!(t.advance(450_000), 2);
    assert_eq!(t.accumulated(), 50_000);
    assert_eq!(t.advance(100_000), 0);
    assert_eq!(t.accumulated(), 150_000);
    assert_eq!(t.advance(50_000), 1);
    assert_eq!(t.accumulated(), 0);
    assert_eq!(t.advance(0), 0);
}

#[test]
fn timestep_with_huge_elapsed_time() {
    let mut t = FixedTimestep::new(3);
    assert_eq!(t.advance(2), 0);
    assert_eq!(t.advance(u64::MAX), u64::MAX / 3);
    assert_eq!(t.accumulated(), 2);
    assert_eq!(t.advance(u64::MAX - 1), u64::MAX / 3);
    assert_eq!(t.accumulated(), 1);
}
