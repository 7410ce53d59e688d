use conways_game_of_life::controls::{
    next_mode, random_seed, restart_game_with_random_seed, toggle_cell_on_grid, SQUARES,
};
use conways_game_of_life::game::Game;

#[test]
fn space_toggles_pause() {
    assert_eq!(next_mode(false, false, true, false), (true, false));
    assert_eq!(next_mode(true, false, true, false), (false, false));
    assert_eq!(next_mode(true, true, false, false), (true, true));
}

#[test]
fn edit_key_pauses_a_running_game() {
    assert_eq!(next_mode(false, false, false, true), (true, true));
    assert_eq!(next_mode(true, true, false, true), (true, false));
    assert_eq!(next_mode(true, false, true, true), (true, true));
}

#[test]
fn click_toggles_cell_on_grid() {
    let mut game = Game::new_with_seed(vec![(3, 3)]);
    toggle_cell_on_grid(&mut game, 3, 3);
    assert!(!game.is_cell_alive(3, 3));
    toggle_cell_on_grid(&mut game, 0, SQUARES - 1);
    assert!(game.is_cell_alive(0, SQUARES - 1));
    assert_eq!(game.live_cells_amount(), 1);
}

#[test]
fn click_off_grid_changes_nothing() {
    let mut game = Game::new_with_seed(vec![(3, 3)]);
    toggle_cell_on_grid(&mut game, -1, 3);
    toggle_cell_on_grid(&mut game, 3, SQUARES);
    assert_eq!(game.live_cells_positions(), vec![(3, 3)]);
}

#[test]
fn random_seed_stays_on_grid() {
    for _ in 0..20 {
        let seed = random_seed();
        assert!(!seed.is_empty());
        assert!(seed.len() <= (SQUARES * SQUARES) as usize);
        for &(x, y) in &seed {
            assert!((0..SQUARES).contains(&x) && (0..SQUARES).contains(&y));
        }
    }
}

#[test]
fn restart_gives_a_nonempty_game_on_grid() {
    let mut game = Game::new();
    restart_game_with_random_seed(&mut game);
    let positions = game.live_cells_positions();
    assert!(!positions.is_empty());
    for (x, y) in positions {
        assert!((0..SQUARES).contains(&x) && (0..SQUARES).contains(&y));
    }
}
