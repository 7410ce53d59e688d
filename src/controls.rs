use vstd::prelude::*;

use crate::game::Game;

verus! {

/// Width and height, in cells, of the grid that the interface shows.
pub const SQUARES: i32 = 32;

/// `(x, y)` lies on the grid that the interface shows.
pub open spec fn on_grid(x: int, y: int) -> bool {
    0 <= x < SQUARES && 0 <= y < SQUARES
}

/// Relies on rand's `thread_rng` and `Rng::gen_range`: a value drawn from
/// `lo..hi`, which panics on an empty range.
#[verifier::external_body]
fn draw(lo: i32, hi: i32) -> (r: i32)
    requires
        lo < hi,
    ensures
        lo <= r < hi,
{
    rand::Rng::gen_range(&mut rand::thread_rng(), lo..hi)
}

/// The interface mode after a frame's keys: the space key toggles the pause;
/// the edit key toggles editing, and pauses the game if it was running.
/// Returns `(paused, editing)`.
pub fn next_mode(paused: bool, editing: bool, space: bool, edit_key: bool) -> (r: (bool, bool))
    ensures
        r.0 == ((paused != space) || edit_key),
        r.1 == (editing != edit_key),
{
    let mut paused = paused;
    let mut editing = editing;
    if space {
        paused = !paused;
    }
    if edit_key {
        if paused {
            editing = !editing;
        } else {
            paused = !paused;
            editing = !editing;
        }
    }
    (paused, editing)
}

/// A click in edit mode on grid square `(x, y)`: a live cell there dies, a
/// dead one comes alive. Clicks off the grid change nothing.
pub fn toggle_cell_on_grid(game: &mut Game, x: i32, y: i32)
    requires
        old(game).wf(),
    ensures
        final(game).wf(),
        on_grid(x as int, y as int) && old(game)@.contains((x as int, y as int)) ==> final(game)@
            == old(game)@.remove((x as int, y as int)),
        on_grid(x as int, y as int) && !old(game)@.contains((x as int, y as int)) ==> final(game)@
            == old(game)@.insert((x as int, y as int)),
        !on_grid(x as int, y as int) ==> final(game)@ == old(game)@,
{
    if x >= 0 && x < SQUARES && y >= 0 && y < SQUARES {
        if game.is_cell_alive(x, y) {
            game.remove_cell(x, y);
        } else {
            game.add_cell(x, y);
        }
    }
}

/// A random seed for the grid: between one and `SQUARES * SQUARES`
/// coordinates, each on the grid.
pub fn random_seed() -> (r: Vec<(i32, i32)>)
    ensures
        1 <= r@.len() <= SQUARES * SQUARES,
        forall|j: int| 0 <= j < r@.len() ==> on_grid(#[trigger] r@[j].0 as int, r@[j].1 as int),
{
    let num_cells = draw(1, SQUARES * SQUARES + 1);
    let mut seed: Vec<(i32, i32)> = Vec::new();
    let mut i: i32 = 0;
    while i < num_cells
        invariant
            1 <= num_cells <= SQUARES * SQUARES,
            0 <= i <= num_cells,
            seed@.len() == i,
            forall|j: int| 0 <= j < seed@.len() ==> on_grid(#[trigger] seed@[j].0 as int, seed@[j].1 as int),
        decreases num_cells - i,
    {
        let x = draw(0, SQUARES);
        let y = draw(0, SQUARES);
        seed.push((x, y));
        i = i + 1;
    }
    seed
}

/// Replaces the game with one seeded at random: at least one live cell, and
/// every live cell on the grid.
pub fn restart_game_with_random_seed(game: &mut Game)
    ensures
        final(game).wf(),
        final(game)@.len() > 0,
        forall|p: (int, int)| #[trigger] final(game)@.contains(p) ==> on_grid(p.0, p.1),
{
    let seed = random_seed();
    let next = Game::new_with_seed(seed);
    proof {
        let p0 = (seed@[0].0 as int, seed@[0].1 as int);
        assert(next@.contains(p0));
        next.lemma_finite();
        vstd::set_lib::lemma_set_empty_equivalency_len(next@);
    }
    *game = next;
}

} // verus!
