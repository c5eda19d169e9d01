use game_of_life::{tick, GameOfLife, TickOutcome};

fn sorted(mut v: Vec<(i32, i32)>) -> Vec<(i32, i32)> {
    v.sort();
    v
}

fn alive_in(gol: &GameOfLife, area: (i32, i32, i32, i32)) -> Vec<(i32, i32)> {
    sorted(gol.data_as_vec(area))
}

#[test]
fn isolated_cell_dies() {
    let mut gol = GameOfLife::new();
    gol.change_cell_status(5, -7);
    assert_eq!(gol.count_alive_neighbours(5, -7), 0);
    gol.step();
    assert_eq!(gol.count_alive_cells(), 0);
}

#[test]
fn cell_with_one_neighbour_dies() {
    let mut gol = GameOfLife::new();
    gol.change_cell_status(0, 0);
    gol.change_cell_status(1, 1);
    gol.step();
    assert_eq!(gol.count_alive_cells(), 0);
}

#[test]
fn cell_with_two_or_three_neighbours_survives() {
    // an L of three cells: the corner has two neighbours
    let mut gol = GameOfLife::new();
    gol.change_cell_status(0, 0);
    gol.change_cell_status(1, 0);
    gol.change_cell_status(0, 1);
    assert_eq!(gol.count_alive_neighbours(0, 0), 2);
    gol.step();
    assert_eq!(alive_in(&gol, (0, 0, 0, 0)), vec![(0, 0)]);

    // a 2x2 block: every cell has three neighbours and stays
    let mut block = GameOfLife::new();
    for (x, y) in [(0, 0), (0, 1), (1, 0), (1, 1)] {
        block.add_alive_cell(x, y);
    }
    assert_eq!(block.count_alive_neighbours(1, 1), 3);
    block.step();
    assert_eq!(alive_in(&block, (-5, -5, 5, 5)), vec![(0, 0), (0, 1), (1, 0), (1, 1)]);
}

#[test]
fn cell_with_four_neighbours_dies() {
    let mut gol = GameOfLife::new();
    for (x, y) in [(0, 0), (1, 1), (-1, 1), (1, -1), (-1, -1)] {
        gol.change_cell_status(x, y);
    }
    assert_eq!(gol.count_alive_neighbours(0, 0), 4);
    gol.step();
    assert!(alive_in(&gol, (0, 0, 0, 0)).is_empty());
}

#[test]
fn dead_cell_with_three_neighbours_is_born() {
    let mut gol = GameOfLife::new();
    gol.change_cell_status(-1, 0);
    gol.change_cell_status(1, 0);
    gol.change_cell_status(0, 1);
    assert_eq!(gol.count_alive_neighbours(0, 0), 3);
    gol.step();
    assert_eq!(alive_in(&gol, (0, 0, 0, 0)), vec![(0, 0)]);
}

#[test]
fn plus_shape_center_dies_and_arms_live() {
    let mut gol = GameOfLife::new();
    for (x, y) in [(2, 2), (1, 2), (2, 1), (3, 2), (2, 3)] {
        gol.add_alive_cell(x, y);
    }
    assert_eq!(gol.count_alive_neighbours(2, 2), 4);
    gol.step();
    let after = alive_in(&gol, (1, 1, 3, 3));
    assert!(!after.contains(&(2, 2)));
    for arm in [(1, 2), (2, 1), (3, 2), (2, 3)] {
        assert!(after.contains(&arm));
    }
}

#[test]
fn blinker_oscillates() {
    let mut gol = GameOfLife::new();
    for y in -1..=1 {
        gol.add_alive_cell(0, y);
    }
    gol.step();
    assert_eq!(alive_in(&gol, (-3, -3, 3, 3)), vec![(-1, 0), (0, 0), (1, 0)]);
    gol.step();
    assert_eq!(alive_in(&gol, (-3, -3, 3, 3)), vec![(0, -1), (0, 0), (0, 1)]);
}

#[test]
fn generation_counts_steps_and_clear_resets() {
    let mut gol = GameOfLife::new();
    assert_eq!(gol.get_steps_count(), 0);
    gol.change_cell_status(0, 0);
    for n in 1..=7u32 {
        gol.step();
        assert_eq!(gol.get_steps_count(), n);
    }
    gol.add_alive_cell(3, 3);
    gol.clear_cells();
    assert_eq!(gol.get_steps_count(), 0);
    assert_eq!(gol.count_alive_cells(), 0);
}

#[test]
fn window_returns_exactly_the_cells_inside() {
    let mut gol = GameOfLife::new();
    for (x, y) in [(0, 0), (2, 3), (-4, 1), (5, 5), (3, -2), (2, 4)] {
        gol.add_alive_cell(x, y);
    }
    assert_eq!(alive_in(&gol, (0, 0, 3, 3)), vec![(0, 0), (2, 3)]);
    // bounds in either order give the same window
    assert_eq!(alive_in(&gol, (3, 3, 0, 0)), vec![(0, 0), (2, 3)]);
    assert_eq!(alive_in(&gol, (-4, -2, 5, 5)), vec![(-4, 1), (0, 0), (2, 3), (2, 4), (3, -2), (5, 5)]);
    assert!(alive_in(&gol, (10, 10, 20, 20)).is_empty());
    assert_eq!(alive_in(&gol, (5, 5, 5, 5)), vec![(5, 5)]);
}

#[test]
fn window_at_the_edges_of_the_lattice() {
    let mut gol = GameOfLife::new();
    gol.add_alive_cell(i32::MIN, i32::MAX);
    gol.add_alive_cell(i32::MAX, i32::MIN);
    gol.add_alive_cell(0, 0);
    assert_eq!(gol.count_alive_cells(), 3);
    assert_eq!(
        alive_in(&gol, (i32::MIN, i32::MIN, i32::MAX, i32::MAX)),
        vec![(i32::MIN, i32::MAX), (0, 0), (i32::MAX, i32::MIN)]
    );
    assert_eq!(alive_in(&gol, (i32::MIN, 0, 0, i32::MAX)), vec![(i32::MIN, i32::MAX), (0, 0)]);
    assert_eq!(gol.count_alive_neighbours(i32::MIN, i32::MAX), 0);
    assert_eq!(gol.count_alive_neighbours(i32::MIN + 1, i32::MAX - 1), 1);
}

#[test]
fn snapshot_reads_one_state() {
    let mut gol = GameOfLife::new();
    for y in -1..=1 {
        gol.add_alive_cell(0, y);
    }
    gol.add_alive_cell(40, 40);
    gol.step();
    let (cells, generation, population) = gol.snapshot((-2, -2, 2, 2));
    assert_eq!(sorted(cells), vec![(-1, 0), (0, 0), (1, 0)]);
    assert_eq!(generation, 1);
    assert_eq!(population, 3);
}

#[test]
fn toggle_twice_restores_membership() {
    let mut gol = GameOfLife::new();
    gol.add_alive_cell(1, 1);
    gol.change_cell_status(1, 1);
    gol.change_cell_status(1, 1);
    assert_eq!(alive_in(&gol, (1, 1, 1, 1)), vec![(1, 1)]);
    gol.change_cell_status(-9, 4);
    gol.change_cell_status(-9, 4);
    assert!(alive_in(&gol, (-9, 4, -9, 4)).is_empty());
    assert_eq!(gol.count_alive_cells(), 1);
}

#[test]
fn add_alive_cell_is_idempotent() {
    let mut gol = GameOfLife::new();
    gol.add_alive_cell(2, 2);
    gol.add_alive_cell(2, 2);
    assert_eq!(gol.count_alive_cells(), 1);
}

#[test]
fn text_of_a_wide_window() {
    let mut gol = GameOfLife::new();
    gol.add_alive_cell(0, 0);
    gol.add_alive_cell(1, 2);
    // one line per x from 1 down to 0, one glyph per y from 0 to 3
    assert_eq!(gol.data_as_str(0, 1, 0, 3), "⬛⬛⬜⬛\n⬜⬛⬛⬛\n");
    assert_eq!(gol.data_as_str(1, 0, 3, 0), "⬛⬛⬜⬛\n⬜⬛⬛⬛\n");
}

#[test]
fn text_report() {
    let mut gol = GameOfLife::new();
    gol.add_alive_cell(2, 2);
    gol.add_alive_cell(9, 9);
    assert_eq!(gol.to_string(), "⬛⬛⬛\n⬛⬜⬛\n⬛⬛⬛\n\n\nSTEP: 0\tALIVE CELLS: 2");
    for _ in 0..12 {
        gol.step();
    }
    assert_eq!(gol.to_string(), "⬛⬛⬛\n⬛⬛⬛\n⬛⬛⬛\n\n\nSTEP: 12\tALIVE CELLS: 0");
}

#[test]
fn seed_column_adds_the_marked_cells() {
    let mut gol = GameOfLife::new();
    gol.add_alive_cell(4, 0);
    gol.seed_column(4, -1, &vec![true, false, false, true, true]);
    assert_eq!(alive_in(&gol, (-10, -10, 10, 10)), vec![(4, -1), (4, 0), (4, 2), (4, 3)]);
    assert_eq!(gol.get_steps_count(), 0);
}

#[test]
fn randomize_stays_inside_the_area_and_only_adds() {
    let mut gol = GameOfLife::new();
    gol.add_alive_cell(100, 100);
    gol.randomize_area(5, 5, -5, -5);
    let all = alive_in(&gol, (-200, -200, 200, 200));
    assert!(all.contains(&(100, 100)));
    for &(x, y) in &all {
        assert!((x, y) == (100, 100) || ((-5..=5).contains(&x) && (-5..=5).contains(&y)));
    }
    assert_eq!(gol.count_alive_cells(), all.len());
    assert_eq!(gol.get_steps_count(), 0);
}

#[test]
fn can_step_refuses_cells_at_the_edge() {
    let mut gol = GameOfLife::new();
    gol.add_alive_cell(0, 0);
    assert!(gol.can_step());
    gol.add_alive_cell(i32::MAX, 0);
    assert!(!gol.can_step());
    gol.change_cell_status(i32::MAX, 0);
    gol.add_alive_cell(i32::MAX - 1, i32::MIN + 1);
    assert!(gol.can_step());
}

#[test]
fn tick_outcomes() {
    let mut gol = GameOfLife::new();
    for y in -1..=1 {
        gol.add_alive_cell(0, y);
    }
    assert_eq!(tick(&mut gol, false, false), TickOutcome::Stopped);
    assert_eq!(tick(&mut gol, true, true), TickOutcome::Paused);
    assert_eq!(gol.get_steps_count(), 0);
    assert_eq!(tick(&mut gol, true, false), TickOutcome::Stepped);
    assert_eq!(gol.get_steps_count(), 1);
    assert_eq!(alive_in(&gol, (-2, -2, 2, 2)), vec![(-1, 0), (0, 0), (1, 0)]);
    gol.add_alive_cell(i32::MIN, 0);
    assert_eq!(tick(&mut gol, true, false), TickOutcome::Blocked);
    assert_eq!(gol.get_steps_count(), 1);
}

#[test]
fn births_at_the_edge_of_the_lattice() {
    // three cells one step inside the corner give birth next to the corner
    let mut gol = GameOfLife::new();
    let m = i32::MAX - 1;
    gol.add_alive_cell(m, m);
    gol.add_alive_cell(m - 1, m);
    gol.add_alive_cell(m, m - 1);
    assert!(gol.can_step());
    gol.step();
    assert_eq!(
        alive_in(&gol, (m - 2, m - 2, i32::MAX, i32::MAX)),
        vec![(m - 1, m - 1), (m - 1, m), (m, m - 1), (m, m)]
    );
}
