use battleships::board::{fire_shot, init_grid, is_game_over, Cell, Grid, ShotResult, GRID_SIZE};
use battleships::game::{
    play_probability, play_random, probability_game, random_shots_game, run_series, total_shots,
    Strategy,
};
use battleships::placement::{can_place, first_fit, place_ship, place_ships, ship_sizes, Placement};
use battleships::probability::{
    calculate_probability_grid, highest_probability_coords, init_probability_grid,
};
use rand::rngs::StdRng;
use rand::SeedableRng;

fn count_cells(grid: &Grid, c: Cell) -> usize {
    let mut n = 0;
    for x in 0..GRID_SIZE {
        for y in 0..GRID_SIZE {
            if grid.cell_state(x, y) == c {
                n += 1;
            }
        }
    }
    n
}

fn one_ship_board() -> Grid {
    let mut grid = init_grid();
    place_ship(&mut grid, Placement { x: 2, y: 2, len: 3, horizontal: false });
    grid
}

fn placed_board(seed_byte: u8) -> Grid {
    let mut rng = StdRng::from_seed([seed_byte; 32]);
    let mut grid = init_grid();
    place_ships(&mut grid, &mut rng);
    grid
}

#[test]
fn fresh_board_is_empty() {
    let grid = init_grid();
    assert_eq!(count_cells(&grid, Cell::Empty), 100);
    assert!(is_game_over(&grid));
}

#[test]
fn fresh_probability_grid_is_zero() {
    let pg = init_probability_grid();
    for x in 0..GRID_SIZE {
        for y in 0..GRID_SIZE {
            assert_eq!(pg.weight_at(x, y), 0);
        }
    }
}

#[test]
fn fleet_lengths() {
    assert_eq!(ship_sizes(), vec![5, 4, 3, 3, 2]);
}

#[test]
fn placed_fleet_has_seventeen_paired_ship_cells() {
    for seed_byte in [0u8, 1, 7, 42, 200] {
        let grid = placed_board(seed_byte);
        assert_eq!(count_cells(&grid, Cell::Ship), 17);
        assert_eq!(count_cells(&grid, Cell::Empty), 83);
        for x in 0..GRID_SIZE {
            for y in 0..GRID_SIZE {
                if grid.cell_state(x, y) == Cell::Ship {
                    let mut neighbours = 0;
                    if x + 1 < GRID_SIZE && grid.cell_state(x + 1, y) == Cell::Ship {
                        neighbours += 1;
                    }
                    if x > 0 && grid.cell_state(x - 1, y) == Cell::Ship {
                        neighbours += 1;
                    }
                    if y + 1 < GRID_SIZE && grid.cell_state(x, y + 1) == Cell::Ship {
                        neighbours += 1;
                    }
                    if y > 0 && grid.cell_state(x, y - 1) == Cell::Ship {
                        neighbours += 1;
                    }
                    assert!(neighbours >= 1);
                }
            }
        }
    }
}

#[test]
fn place_ship_marks_its_run() {
    let grid = one_ship_board();
    assert_eq!(grid.cell_state(2, 2), Cell::Ship);
    assert_eq!(grid.cell_state(2, 3), Cell::Ship);
    assert_eq!(grid.cell_state(2, 4), Cell::Ship);
    assert_eq!(grid.cell_state(2, 5), Cell::Empty);
    assert_eq!(grid.cell_state(3, 2), Cell::Empty);
    assert_eq!(count_cells(&grid, Cell::Ship), 3);
}

#[test]
fn can_place_rejects_overlap_and_overhang() {
    let grid = one_ship_board();
    assert!(!can_place(&grid, Placement { x: 0, y: 3, len: 5, horizontal: true }));
    assert!(can_place(&grid, Placement { x: 0, y: 5, len: 5, horizontal: true }));
    assert!(!can_place(&grid, Placement { x: 6, y: 0, len: 5, horizontal: true }));
    assert!(can_place(&grid, Placement { x: 5, y: 0, len: 5, horizontal: true }));
    assert!(!can_place(&grid, Placement { x: 9, y: 7, len: 4, horizontal: false }));
    assert!(!can_place(&grid, Placement { x: 10, y: 0, len: 1, horizontal: false }));
    assert!(!can_place(&grid, Placement { x: 0, y: 0, len: 0, horizontal: false }));
}

#[test]
fn first_fit_takes_scan_order() {
    let grid = init_grid();
    assert_eq!(first_fit(&grid, 5), Placement { x: 0, y: 0, len: 5, horizontal: true });
    let mut grid = init_grid();
    place_ship(&mut grid, Placement { x: 3, y: 0, len: 2, horizontal: true });
    assert_eq!(first_fit(&grid, 5), Placement { x: 0, y: 0, len: 5, horizontal: false });
}

#[test]
fn fire_hits_then_already_taken() {
    let mut grid = one_ship_board();
    assert_eq!(fire_shot(&mut grid, 2, 3), ShotResult::Hit);
    assert_eq!(grid.cell_state(2, 3), Cell::Hit);
    assert_eq!(fire_shot(&mut grid, 2, 3), ShotResult::AlreadyTaken);
    assert_eq!(grid.cell_state(2, 3), Cell::Hit);
    assert_eq!(count_cells(&grid, Cell::Ship), 2);
}

#[test]
fn fire_misses_then_already_taken() {
    let mut grid = one_ship_board();
    assert_eq!(fire_shot(&mut grid, 0, 0), ShotResult::Miss);
    assert_eq!(grid.cell_state(0, 0), Cell::Miss);
    assert_eq!(fire_shot(&mut grid, 0, 0), ShotResult::AlreadyTaken);
    assert_eq!(grid.cell_state(0, 0), Cell::Miss);
    assert_eq!(count_cells(&grid, Cell::Miss), 1);
}

#[test]
fn game_over_only_after_every_ship_cell_is_hit() {
    let mut grid = placed_board(42);
    assert!(!is_game_over(&grid));
    let mut hits = 0;
    for x in 0..GRID_SIZE {
        for y in 0..GRID_SIZE {
            if grid.cell_state(x, y) == Cell::Ship {
                assert!(!is_game_over(&grid));
                assert_eq!(fire_shot(&mut grid, x, y), ShotResult::Hit);
                hits += 1;
            }
        }
    }
    assert_eq!(hits, 17);
    assert!(is_game_over(&grid));
}

#[test]
fn probability_weights_one_ship_board() {
    let grid = one_ship_board();
    let pg = calculate_probability_grid(&grid);
    assert_eq!(pg.weight_at(2, 2), 28);
    assert_eq!(pg.weight_at(2, 3), 30);
    assert_eq!(pg.weight_at(2, 4), 31);
    assert_eq!(pg.weight_at(0, 0), 10);
    assert_eq!(pg.weight_at(9, 9), 10);
    assert_eq!(pg.weight_at(4, 4), 34);
}

#[test]
fn probability_weight_zero_where_no_run_fits() {
    let mut grid = one_ship_board();
    assert_eq!(fire_shot(&mut grid, 1, 0), ShotResult::Miss);
    assert_eq!(fire_shot(&mut grid, 0, 1), ShotResult::Miss);
    let pg = calculate_probability_grid(&grid);
    assert_eq!(pg.weight_at(0, 0), 0);
    assert_eq!(pg.weight_at(1, 0), 0);
    assert_eq!(pg.weight_at(0, 1), 0);
    assert_eq!(pg.weight_at(0, 2), 10);
    assert_eq!(pg.weight_at(2, 0), 10);
}

#[test]
fn highest_weight_first_in_row_major_order() {
    let grid = one_ship_board();
    let pg = calculate_probability_grid(&grid);
    assert_eq!(highest_probability_coords(&pg, &grid), (4, 4));
}

#[test]
fn highest_weight_skips_hit_cells() {
    let mut grid = init_grid();
    place_ship(&mut grid, Placement { x: 4, y: 4, len: 2, horizontal: true });
    place_ship(&mut grid, Placement { x: 4, y: 5, len: 2, horizontal: true });
    for (x, y) in [(4, 4), (4, 5), (5, 4), (5, 5)] {
        assert_eq!(fire_shot(&mut grid, x, y), ShotResult::Hit);
    }
    let pg = calculate_probability_grid(&grid);
    assert_eq!(pg.weight_at(4, 4), 34);
    assert_eq!(highest_probability_coords(&pg, &grid), (3, 4));
}

#[test]
fn highest_weight_defaults_to_origin() {
    let mut grid = init_grid();
    for x in 0..GRID_SIZE {
        for y in 0..GRID_SIZE {
            assert_eq!(fire_shot(&mut grid, x, y), ShotResult::Miss);
        }
    }
    let pg = calculate_probability_grid(&grid);
    assert_eq!(pg.weight_at(4, 4), 0);
    assert_eq!(highest_probability_coords(&pg, &grid), (0, 0));
}

#[test]
fn random_play_sinks_fleet() {
    let mut rng = StdRng::from_seed([3; 32]);
    let mut grid = init_grid();
    place_ships(&mut grid, &mut rng);
    let score = play_random(&mut grid, &mut rng);
    assert!(is_game_over(&grid));
    assert_eq!(count_cells(&grid, Cell::Hit), 17);
    assert_eq!(score as usize, 17 + count_cells(&grid, Cell::Miss));
    assert!((17..=100).contains(&score));
}

#[test]
fn probability_play_sinks_fleet() {
    let mut grid = placed_board(5);
    let score = play_probability(&mut grid);
    assert!(is_game_over(&grid));
    assert_eq!(count_cells(&grid, Cell::Hit), 17);
    assert_eq!(score as usize, 17 + count_cells(&grid, Cell::Miss));
    assert!((17..=100).contains(&score));
}

#[test]
fn probability_play_on_one_ship() {
    let mut grid = one_ship_board();
    let score = play_probability(&mut grid);
    assert!(is_game_over(&grid));
    assert_eq!(count_cells(&grid, Cell::Hit), 3);
    assert_eq!(score as usize, 3 + count_cells(&grid, Cell::Miss));
    assert_eq!(score, 30);
    assert_eq!(grid.cell_state(0, 4), Cell::Miss);
    assert_eq!(grid.cell_state(1, 2), Cell::Miss);
    assert_eq!(grid.cell_state(0, 0), Cell::Empty);
}

#[test]
fn cell_symbols() {
    assert_eq!(Cell::Empty.symbol(), '.');
    assert_eq!(Cell::Ship.symbol(), 'S');
    assert_eq!(Cell::Hit.symbol(), 'H');
    assert_eq!(Cell::Miss.symbol(), 'M');
}

#[test]
fn games_stay_within_bounds() {
    let mut rng = StdRng::from_seed([9; 32]);
    for _ in 0..20 {
        let mut grid = init_grid();
        let r = random_shots_game(&mut grid, &mut rng);
        assert!((17..=100).contains(&r));
        assert!(is_game_over(&grid));
        assert_eq!(count_cells(&grid, Cell::Hit), 17);
        assert_eq!(r as usize, 17 + count_cells(&grid, Cell::Miss));
        let mut grid = init_grid();
        let p = probability_game(&mut grid, &mut rng);
        assert!((17..=100).contains(&p));
        assert!(is_game_over(&grid));
        assert_eq!(count_cells(&grid, Cell::Hit), 17);
        assert_eq!(p as usize, 17 + count_cells(&grid, Cell::Miss));
    }
}

#[test]
fn random_series_is_deterministic() {
    let a = run_series(1000, Strategy::Random, [42; 32]);
    let b = run_series(1000, Strategy::Random, [42; 32]);
    assert_eq!(a.len(), 1000);
    assert_eq!(a, b);
    assert_eq!(total_shots(&a), total_shots(&b));
    let avg_a = total_shots(&a) as f64 / 1000.0;
    let avg_b = total_shots(&b) as f64 / 1000.0;
    assert_eq!(avg_a.to_bits(), avg_b.to_bits());
    assert!(a.iter().all(|s| (17..=100).contains(s)));
}

#[test]
fn probability_series_is_deterministic() {
    let a = run_series(100, Strategy::Probability, [42; 32]);
    let b = run_series(100, Strategy::Probability, [42; 32]);
    assert_eq!(a.len(), 100);
    assert_eq!(a, b);
    assert_eq!(total_shots(&a), total_shots(&b));
    assert!(a.iter().all(|s| (17..=100).contains(s)));
}

#[test]
fn series_differ_by_seed() {
    let a = run_series(50, Strategy::Random, [42; 32]);
    let b = run_series(50, Strategy::Random, [43; 32]);
    assert_ne!(a, b);
}

#[test]
fn empty_series() {
    let a = run_series(0, Strategy::Probability, [42; 32]);
    assert!(a.is_empty());
    assert_eq!(total_shots(&a), 0);
}

#[test]
fn total_of_shot_counts() {
    assert_eq!(total_shots(&vec![17, 40, 100]), 157);
    assert_eq!(total_shots(&vec![]), 0);
}
