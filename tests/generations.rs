use conways_game_of_life::cell::Cell;
use conways_game_of_life::game::Game;

#[test]
fn game_basic_seed() {
    let mut game = Game::new_with_seed(vec![(1, 3), (1, 2), (1, 1)]);
    println!("LIVE CELLS 0 {:?}", game.live_cells_positions());
    game.update_game();
    println!("LIVE CELLS 1 {:?}", game.live_cells_positions());
    assert_eq!(game.live_cells_amount(), 3);
    assert!(game.is_cell_alive(0, 2));
    assert!(game.is_cell_alive(1, 2));
    assert!(game.is_cell_alive(2, 2));
}

#[test]
fn game_second_iteration_should_return_to_original_state() {
    let mut game = Game::new_with_seed(vec![(1, 3), (1, 2), (1, 1)]);
    game.update_game();
    game.update_game();
    assert_eq!(game.live_cells_amount(), 3);
    assert!(game.is_cell_alive(1, 1));
    assert!(game.is_cell_alive(1, 2));
    assert!(game.is_cell_alive(1, 3));
}

#[test]
fn game_new_more_complex_seed() {
    let mut game = Game::new_with_seed(vec![(1, 1), (1, 2), (1, 3), (2, 1), (2, 3), (3, 1), (3, 2), (3, 3)]);
    game.update_game();
    assert_eq!(game.live_cells_amount(), 8);
    assert!(game.is_cell_alive(2, 0));
    assert!(game.is_cell_alive(1, 1));
    assert!(game.is_cell_alive(0, 2));
    assert!(game.is_cell_alive(1, 3));
    assert!(game.is_cell_alive(2, 4));
    assert!(game.is_cell_alive(3, 3));
    assert!(game.is_cell_alive(4, 2));
    assert!(game.is_cell_alive(3, 1));
}

#[test]
fn game_complex_seed_second_iteration() {
    let mut game = Game::new_with_seed(vec![(1, 1), (1, 2), (1, 3), (2, 1), (2, 3), (3, 1), (3, 2), (3, 3)]);
    game.update_game();
    game.update_game();
    assert_eq!(game.live_cells_amount(), 12);
    assert!(game.is_cell_alive(2, 0));
    assert!(game.is_cell_alive(1, 1));
    assert!(game.is_cell_alive(0, 2));
    assert!(game.is_cell_alive(1, 3));
    assert!(game.is_cell_alive(2, 4));
    assert!(game.is_cell_alive(3, 3));
    assert!(game.is_cell_alive(4, 2));
    assert!(game.is_cell_alive(3, 1));
    assert!(game.is_cell_alive(2, 1));
    assert!(game.is_cell_alive(1, 2));
    assert!(game.is_cell_alive(2, 3));
    assert!(game.is_cell_alive(3, 2));
}

#[test]
fn game_complex_seed_third_iteration() {
    let mut game = Game::new_with_seed(vec![(1, 1), (1, 2), (1, 3), (2, 1), (2, 3), (3, 1), (3, 2), (3, 3)]);
    game.update_game();
    game.update_game();
    game.update_game();
    assert_eq!(game.live_cells_amount(), 12);
    assert!(game.is_cell_alive(0, 1));
    assert!(game.is_cell_alive(0, 2));
    assert!(game.is_cell_alive(0, 3));
    assert!(game.is_cell_alive(1, 4));
    assert!(game.is_cell_alive(2, 4));
    assert!(game.is_cell_alive(3, 4));
    assert!(game.is_cell_alive(4, 3));
    assert!(game.is_cell_alive(4, 2));
    assert!(game.is_cell_alive(4, 1));
    assert!(game.is_cell_alive(1, 0));
    assert!(game.is_cell_alive(2, 0));
    assert!(game.is_cell_alive(3, 0));
}

#[test]
fn mod_basic_seed() {
    let mut game = Game::new();
    println!("LIVE CELLS 0 {:?}", game.live_cells_positions());
    game.update_game();
    println!("LIVE CELLS 1 {:?}", game.live_cells_positions());
    assert_eq!(game.live_cells_amount(), 3);
    assert!(game.contains(&Cell::new(0, 2)));
    assert!(game.contains(&Cell::new(1, 2)));
    assert!(game.contains(&Cell::new(2, 2)));
}

#[test]
fn mod_second_iteration_should_return_to_original_state() {
    let mut game = Game::new();
    game.update_game();
    game.update_game();
    assert_eq!(game.live_cells_amount(), 3);
    assert!(game.contains(&Cell::new(1, 1)));
    assert!(game.contains(&Cell::new(1, 2)));
    assert!(game.contains(&Cell::new(1, 3)));
}

#[test]
fn mod_new_more_complex_seed() {
    let mut game = Game::new_with_seed(vec![(1, 1), (1, 2), (1, 3), (2, 1), (2, 3), (3, 1), (3, 2), (3, 3)]);
    game.update_game();
    assert_eq!(game.live_cells_amount(), 8);
    assert!(game.contains(&Cell::new(2, 0)));
    assert!(game.contains(&Cell::new(1, 1)));
    assert!(game.contains(&Cell::new(0, 2)));
    assert!(game.contains(&Cell::new(1, 3)));
    assert!(game.contains(&Cell::new(2, 4)));
    assert!(game.contains(&Cell::new(3, 3)));
    assert!(game.contains(&Cell::new(4, 2)));
    assert!(game.contains(&Cell::new(3, 1)));
}

#[test]
fn mod_complex_seed_second_iteration() {
    let mut game = Game::new_with_seed(vec![(1, 1), (1, 2), (1, 3), (2, 1), (2, 3), (3, 1), (3, 2), (3, 3)]);
    game.update_game();
    game.update_game();
    assert_eq!(game.live_cells_amount(), 12);
    assert!(game.contains(&Cell::new(2, 0)));
    assert!(game.contains(&Cell::new(1, 1)));
    assert!(game.contains(&Cell::new(0, 2)));
    assert!(game.contains(&Cell::new(1, 3)));
    assert!(game.contains(&Cell::new(2, 4)));
    assert!(game.contains(&Cell::new(3, 3)));
    assert!(game.contains(&Cell::new(4, 2)));
    assert!(game.contains(&Cell::new(3, 1)));
    assert!(game.contains(&Cell::new(2, 1)));
    assert!(game.contains(&Cell::new(1, 2)));
    assert!(game.contains(&Cell::new(2, 3)));
    assert!(game.contains(&Cell::new(3, 2)));
}

#[test]
fn mod_complex_seed_third_iteration() {
    let mut game = Game::new_with_seed(vec![(1, 1), (1, 2), (1, 3), (2, 1), (2, 3), (3, 1), (3, 2), (3, 3)]);
    game.update_game();
    game.update_game();
    game.update_game();
    assert_eq!(game.live_cells_amount(), 12);
    assert!(game.contains(&Cell::new(0, 1)));
    assert!(game.contains(&Cell::new(0, 2)));
    assert!(game.contains(&Cell::new(0, 3)));
    assert!(game.contains(&Cell::new(1, 4)));
    assert!(game.contains(&Cell::new(2, 4)));
    assert!(game.contains(&Cell::new(3, 4)));
    assert!(game.contains(&Cell::new(4, 3)));
    assert!(game.contains(&Cell::new(4, 2)));
    assert!(game.contains(&Cell::new(4, 1)));
    assert!(game.contains(&Cell::new(1, 0)));
    assert!(game.contains(&Cell::new(2, 0)));
    assert!(game.contains(&Cell::new(3, 0)));
}
