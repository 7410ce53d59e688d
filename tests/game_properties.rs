use conways_game_of_life::cell::Cell;
use conways_game_of_life::game::Game;

fn sorted_positions(game: &Game) -> Vec<(i32, i32)> {
    let mut v = game.live_cells_positions();
    v.sort();
    v
}

#[test]
fn empty_game_stays_empty() {
    let mut game = Game::new_with_seed(vec![]);
    game.update_game();
    assert_eq!(game.live_cells_amount(), 0);
    assert!(game.live_cells_positions().is_empty());
}

#[test]
fn blinker_oscillates_with_period_two() {
    let mut game = Game::new_with_seed(vec![(1, 1), (1, 2), (1, 3)]);
    game.update_game();
    assert_eq!(sorted_positions(&game), vec![(0, 2), (1, 2), (2, 2)]);
    game.update_game();
    assert_eq!(sorted_positions(&game), vec![(1, 1), (1, 2), (1, 3)]);
}

#[test]
fn ring_becomes_diamond() {
    let mut game =
        Game::new_with_seed(vec![(1, 1), (1, 2), (1, 3), (2, 1), (2, 3), (3, 1), (3, 2), (3, 3)]);
    game.update_game();
    let mut expected = vec![(2, 0), (1, 1), (0, 2), (1, 3), (2, 4), (3, 3), (4, 2), (3, 1)];
    expected.sort();
    assert_eq!(sorted_positions(&game), expected);
}

#[test]
fn lone_cell_and_pair_die() {
    let mut game = Game::new_with_seed(vec![(5, 5), (10, 10), (10, 11)]);
    game.update_game();
    assert_eq!(game.live_cells_amount(), 0);
}

#[test]
fn block_is_still_life() {
    let mut game = Game::new_with_seed(vec![(-1, -1), (-1, 0), (0, -1), (0, 0)]);
    game.update_game();
    assert_eq!(sorted_positions(&game), vec![(-1, -1), (-1, 0), (0, -1), (0, 0)]);
}

#[test]
fn crowded_centre_dies() {
    // The centre of a plus sign has four live neighbours.
    let mut game = Game::new_with_seed(vec![(0, 0), (0, 1), (0, -1), (1, 0), (-1, 0)]);
    game.update_game();
    assert!(!game.is_cell_alive(0, 0));
    assert!(game.is_cell_alive(1, 1));
    assert!(game.is_cell_alive(-1, -1));
    assert!(game.is_cell_alive(0, 1));
    assert_eq!(game.live_cells_amount(), 8);
}

#[test]
fn duplicate_seed_coordinates_count_once() {
    let game = Game::new_with_seed(vec![(3, 4), (3, 4), (7, -2), (3, 4)]);
    assert_eq!(game.live_cells_amount(), 2);
    assert_eq!(sorted_positions(&game), vec![(3, 4), (7, -2)]);
}

#[test]
fn new_game_holds_vertical_triple() {
    let game = Game::new();
    assert_eq!(sorted_positions(&game), vec![(1, 1), (1, 2), (1, 3)]);
}

#[test]
fn add_then_remove_restores_set() {
    let mut game = Game::new_with_seed(vec![(0, 0), (2, 3)]);
    let before = sorted_positions(&game);
    game.add_cell(9, -9);
    assert!(game.is_cell_alive(9, -9));
    game.remove_cell(9, -9);
    assert!(!game.is_cell_alive(9, -9));
    assert_eq!(sorted_positions(&game), before);
}

#[test]
fn add_existing_cell_keeps_one_entry() {
    let mut game = Game::new_with_seed(vec![(4, 4)]);
    game.add_cell(4, 4);
    assert_eq!(game.live_cells_amount(), 1);
    assert!(game.is_cell_alive(4, 4));
}

#[test]
fn remove_absent_cell_changes_nothing() {
    let mut game = Game::new_with_seed(vec![(4, 4), (5, 5)]);
    game.remove_cell(6, 6);
    assert_eq!(sorted_positions(&game), vec![(4, 4), (5, 5)]);
    game.remove_cell(4, 4);
    assert_eq!(sorted_positions(&game), vec![(5, 5)]);
    assert!(!game.contains(&Cell::new(4, 4)));
}

#[test]
fn membership_distinguishes_far_coordinates() {
    let game = Game::new_with_seed(vec![(i32::MIN, i32::MAX), (i32::MAX, i32::MIN), (0, -1)]);
    assert!(game.is_cell_alive(i32::MIN, i32::MAX));
    assert!(game.is_cell_alive(i32::MAX, i32::MIN));
    assert!(game.is_cell_alive(0, -1));
    assert!(!game.is_cell_alive(-1, 0));
    assert!(!game.is_cell_alive(i32::MIN, i32::MIN));
    assert!(!game.is_cell_alive(0, 0));
}

#[test]
fn generation_at_the_edge_of_the_range() {
    // A horizontal blinker on the top row of the range would put a cell
    // beyond it; only the cells that fit remain.
    let m = i32::MAX;
    let mut game = Game::new_with_seed(vec![(0, m), (1, m), (2, m)]);
    game.update_game();
    assert_eq!(sorted_positions(&game), vec![(1, m - 1), (1, m)]);
}

#[test]
fn positions_list_each_live_cell_once() {
    let game = Game::new_with_seed(vec![(1, 1), (2, 2), (1, 1), (3, 3)]);
    let positions = game.live_cells_positions();
    assert_eq!(positions, vec![(1, 1), (2, 2), (3, 3)]);
}
