//! Whole games under each targeting strategy, and series of games drawn from
//! one seeded random stream.

use crate::board::{
    fire_all, fired_until_over, lemma_fired_until_over_step, shots_on_board, count, fire_outcome, fire_shot, fired, game_over, in_grid, index_of, init_grid, is_game_over,
    lemma_count_none, lemma_count_pair_bound, lemma_fire_counts, unfired, Cell, Grid, ShotResult,
    CELL_COUNT, GRID_SIZE,
};
use crate::placement::{fleet_placed, lemma_fire_keeps_paired, place_ships, ships_paired};
use crate::probability::{
    board_weights, calculate_probability_grid, candidate, grid_weights, highest_probability_coords,
    is_best, lemma_best_unique, lemma_miss_weight_zero, lemma_partnered_weight_positive,
    no_candidate, probability_target, weight, weight_of_index,
};
use crate::rng::{random_below, seeded_rng};
use vstd::prelude::*;

verus! {

/// How the next shot is chosen.
#[derive(Clone, Copy, Debug, PartialEq, Eq, Structural)]
pub enum Strategy {
    /// A uniformly random coordinate, fired cells included.
    Random,
    /// The unhit cell of highest weight in the probability grid.
    Probability,
}

/// Random shots drawn in one game before the remaining cells are swept in
/// row-major order; far beyond what a game needs, it only bounds the loop.
pub const MAX_RANDOM_DRAWS: u32 = 1000000;

/// Unfired cells and fired cells together make up the board.
proof fn lemma_board_bounds(cells: Seq<Cell>)
    requires
        cells.len() == CELL_COUNT,
    ensures
        unfired(cells) <= CELL_COUNT,
        fired(cells) <= CELL_COUNT,
{
    lemma_count_pair_bound(cells, Cell::Empty, Cell::Ship, CELL_COUNT as int);
    lemma_count_pair_bound(cells, Cell::Hit, Cell::Miss, CELL_COUNT as int);
}

/// Fires one shot and adds it to `score` when it hits or misses.
fn take_shot(grid: &mut Grid, x: usize, y: usize, score: &mut i32) -> (r: ShotResult)
    requires
        old(grid).wf(),
        in_grid(x as int, y as int),
        fired(old(grid)@) <= CELL_COUNT,
        *old(score) as int <= fired(old(grid)@),
    ensures
        final(grid).wf(),
        (final(grid)@, r) == fire_outcome(old(grid)@, x as int, y as int),
        *final(score) as int == *old(score) as int + if r == ShotResult::AlreadyTaken { 0int } else { 1int },
        unfired(final(grid)@) + (*final(score) as int) == unfired(old(grid)@) + (*old(score) as int),
        fired(final(grid)@) - (*final(score) as int) == fired(old(grid)@) - (*old(score) as int),
        count(final(grid)@, Cell::Hit) + count(final(grid)@, Cell::Ship) == count(old(grid)@, Cell::Hit) + count(old(grid)@, Cell::Ship),
{
    proof {
        lemma_fire_counts(grid@, x as int, y as int);
        lemma_board_bounds(fire_outcome(grid@, x as int, y as int).0);
    }
    let r = fire_shot(grid, x, y);
    match r {
        ShotResult::Hit | ShotResult::Miss => {
            *score = *score + 1;
        },
        ShotResult::AlreadyTaken => {},
    }
    r
}

/// Plays the board out with random shots: each turn draws `x`, then `y`, and
/// fires there; shots at fired cells are not counted. Returns the number of
/// counted shots. Should `MAX_RANDOM_DRAWS` be reached, the remaining cells
/// are fired at in row-major order.
pub fn play_random(grid: &mut Grid, rng: &mut rand::rngs::StdRng) -> (score: i32)
    requires
        old(grid).wf(),
    ensures
        final(grid).wf(),
        game_over(final(grid)@),
        fired_until_over(old(grid)@, final(grid)@),
        score as int == fired(final(grid)@) - fired(old(grid)@),
        count(final(grid)@, Cell::Hit) == count(old(grid)@, Cell::Hit) + count(old(grid)@, Cell::Ship),
{
    let ghost start = grid@;
    let ghost mut shots: Seq<(int, int)> = Seq::empty();
    proof {
        lemma_board_bounds(grid@);
    }
    let mut score: i32 = 0;
    let mut draws: u32 = 0;
    while draws < MAX_RANDOM_DRAWS && !is_game_over(grid)
        invariant
            grid.wf(),
            0 <= score <= fired(grid@),
            fired(grid@) <= CELL_COUNT,
            fired(grid@) - score == fired(start),
            count(grid@, Cell::Hit) + count(grid@, Cell::Ship) == count(start, Cell::Hit) + count(start, Cell::Ship),
            shots_on_board(shots),
            grid@ == fire_all(start, shots),
            forall|k: int| 0 <= k < shots.len() ==> !game_over(#[trigger] fire_all(start, shots.take(k))),
        decreases MAX_RANDOM_DRAWS - draws,
    {
        let x = random_below(rng, GRID_SIZE);
        let y = random_below(rng, GRID_SIZE);
        proof {
            lemma_fired_until_over_step(start, shots, (x as int, y as int));
            shots = shots.push((x as int, y as int));
        }
        take_shot(grid, x, y, &mut score);
        proof {
            lemma_board_bounds(grid@);
        }
        draws = draws + 1;
    }
    let mut i: usize = 0;
    while i < CELL_COUNT && !is_game_over(grid)
        invariant
            grid.wf(),
            i <= CELL_COUNT,
            0 <= score <= fired(grid@),
            fired(grid@) <= CELL_COUNT,
            fired(grid@) - score == fired(start),
            count(grid@, Cell::Hit) + count(grid@, Cell::Ship) == count(start, Cell::Hit) + count(start, Cell::Ship),
            forall|j: int| 0 <= j < i ==> grid@[j] != Cell::Ship,
            shots_on_board(shots),
            grid@ == fire_all(start, shots),
            forall|k: int| 0 <= k < shots.len() ==> !game_over(#[trigger] fire_all(start, shots.take(k))),
        decreases CELL_COUNT - i,
    {
        let x = i / GRID_SIZE;
        let y = i % GRID_SIZE;
        assert(index_of(x as int, y as int) == i);
        proof {
            lemma_fired_until_over_step(start, shots, (x as int, y as int));
            shots = shots.push((x as int, y as int));
        }
        take_shot(grid, x, y, &mut score);
        proof {
            lemma_board_bounds(grid@);
        }
        i = i + 1;
    }
    proof {
        lemma_count_none(grid@, Cell::Ship, CELL_COUNT as int);
        assert(fired_until_over(start, grid@));
    }
    score
}

/// On a board still in play whose ship cells all have partners, the cell
/// chosen from the computed weights is the strategy's target and unfired.
proof fn lemma_probability_turn(cells: Seq<Cell>, weights: Seq<u32>, x: i32, y: i32)
    requires
        cells.len() == CELL_COUNT,
        weights.len() == CELL_COUNT,
        ships_paired(cells),
        !game_over(cells),
        forall|x2: int, y2: int| #[trigger] in_grid(x2, y2) ==> weights[index_of(x2, y2)] as int == weight(cells, x2, y2),
        0 <= x < 10 && 0 <= y < 10,
        !no_candidate(grid_weights(weights), cells) ==> is_best(grid_weights(weights), cells, index_of(x as int, y as int)),
    ensures
        probability_target(cells) == index_of(x as int, y as int),
        probability_target(cells) / 10 == x && probability_target(cells) % 10 == y,
        cells[index_of(x as int, y as int)] == Cell::Empty || cells[index_of(x as int, y as int)] == Cell::Ship,
{
    let i = choose|i: int| 0 <= i < cells.len() && cells[i] == Cell::Ship;
    let sx = i / 10;
    let sy = i % 10;
    assert(index_of(sx, sy) == i);
    assert(in_grid(sx, sy));
    lemma_partnered_weight_positive(cells, sx, sy);
    assert(weights[index_of(sx, sy)] as int == weight(cells, sx, sy));
    assert(candidate(cells, i));
    assert((grid_weights(weights))(i) > 0);
    assert(!no_candidate(grid_weights(weights), cells));
    let b = index_of(x as int, y as int);
    assert(in_grid(x as int, y as int));
    if cells[b] == Cell::Miss {
        lemma_miss_weight_zero(cells, x as int, y as int);
    }
    assert forall|j: int| 0 <= j < CELL_COUNT implies weights[j] as int == #[trigger] weight_of_index(cells, j) by {
        assert(in_grid(j / 10, j % 10));
        assert(index_of(j / 10, j % 10) == j);
    }
    assert(is_best(board_weights(cells), cells, b));
    lemma_best_unique(board_weights(cells), cells, b, probability_target(cells));
    assert(b / 10 == x && b % 10 == y);
}

/// The board after the probability strategy has fired up to `shots` times,
/// stopping once the game is over.
pub open spec fn probability_playout(cells: Seq<Cell>, shots: nat) -> Seq<Cell>
    decreases shots,
{
    if shots == 0 || game_over(cells) {
        cells
    } else {
        let b = probability_target(cells);
        probability_playout(fire_outcome(cells, b / 10, b % 10).0, (shots - 1) as nat)
    }
}

/// Plays the board out with the probability strategy: each turn weighs the
/// cells and fires at the unhit cell of highest weight. Every such shot lands
/// on an unfired cell, so each counts and the game ends.
#[verifier::rlimit(30)]
pub fn play_probability(grid: &mut Grid) -> (score: i32)
    requires
        old(grid).wf(),
        ships_paired(old(grid)@),
    ensures
        final(grid).wf(),
        final(grid)@ == probability_playout(old(grid)@, unfired(old(grid)@)),
        game_over(final(grid)@),
        score as int == fired(final(grid)@) - fired(old(grid)@),
        score as int == unfired(old(grid)@) - unfired(final(grid)@),
        count(final(grid)@, Cell::Hit) == count(old(grid)@, Cell::Hit) + count(old(grid)@, Cell::Ship),
{
    let ghost start = grid@;
    proof {
        lemma_board_bounds(grid@);
    }
    let mut score: i32 = 0;
    while !is_game_over(grid)
        invariant
            grid.wf(),
            ships_paired(grid@),
            0 <= score <= fired(grid@),
            fired(grid@) <= CELL_COUNT,
            fired(grid@) - score == fired(start),
            count(grid@, Cell::Hit) + count(grid@, Cell::Ship) == count(start, Cell::Hit) + count(start, Cell::Ship),
            unfired(grid@) + score == unfired(start),
            probability_playout(grid@, unfired(grid@)) == probability_playout(start, unfired(start)),
        decreases unfired(grid@),
    {
        let probability_grid = calculate_probability_grid(grid);
        let (x, y) = highest_probability_coords(&probability_grid, grid);
        proof {
            lemma_probability_turn(grid@, probability_grid@, x, y);
        }
        proof {
            lemma_fire_keeps_paired(grid@, x as int, y as int);
        }
        take_shot(grid, x as usize, y as usize, &mut score);
        proof {
            lemma_board_bounds(grid@);
        }
    }
    proof {
        lemma_count_none(grid@, Cell::Ship, CELL_COUNT as int);
    }
    score
}


/// One game of random shots: places the fleet on the empty `grid`, then
/// fires random shots until every ship cell is hit. Returns the number of
/// counted shots: the fleet's 17 hits and the misses.
pub fn random_shots_game(grid: &mut Grid, rng: &mut rand::rngs::StdRng) -> (r: i32)
    requires
        old(grid).wf(),
        forall|i: int| 0 <= i < CELL_COUNT ==> old(grid)@[i] == Cell::Empty,
    ensures
        final(grid).wf(),
        game_over(final(grid)@),
        count(final(grid)@, Cell::Hit) == 17,
        r as int == 17 + count(final(grid)@, Cell::Miss),
        17 <= r <= 100,
        exists|placed: Seq<Cell>| #[trigger] fleet_placed(placed) && fired_until_over(placed, final(grid)@),
{
    place_ships(grid, rng);
    let ghost placed = grid@;
    let score = play_random(grid, rng);
    proof {
        lemma_board_bounds(grid@);
        assert(fleet_placed(placed));
    }
    score
}

/// One game of the probability strategy: places the fleet on the empty
/// `grid`, then plays it out with the probability strategy. Returns the
/// number of counted shots: the fleet's 17 hits and the misses.
pub fn probability_game(grid: &mut Grid, rng: &mut rand::rngs::StdRng) -> (r: i32)
    requires
        old(grid).wf(),
        forall|i: int| 0 <= i < CELL_COUNT ==> old(grid)@[i] == Cell::Empty,
    ensures
        final(grid).wf(),
        game_over(final(grid)@),
        count(final(grid)@, Cell::Hit) == 17,
        r as int == 17 + count(final(grid)@, Cell::Miss),
        17 <= r <= 100,
        exists|placed: Seq<Cell>| #[trigger] fleet_placed(placed)
            && final(grid)@ == probability_playout(placed, unfired(placed)),
{
    place_ships(grid, rng);
    let ghost placed = grid@;
    let score = play_probability(grid);
    proof {
        lemma_board_bounds(grid@);
        assert(fleet_placed(placed));
    }
    score
}

/// Plays `num_games` games under `strategy`, all drawing from one random
/// stream seeded once with `seed`, and returns each game's counted shots.
pub fn run_series(num_games: u32, strategy: Strategy, seed: [u8; 32]) -> (scores: Vec<i32>)
    ensures
        scores@.len() == num_games,
        forall|i: int| 0 <= i < scores@.len() ==> 17 <= #[trigger] scores@[i] <= 100,
{
    let mut rng = seeded_rng(seed);
    let mut scores: Vec<i32> = Vec::new();
    let mut n: u32 = 0;
    while n < num_games
        invariant
            n <= num_games,
            scores@.len() == n,
            forall|i: int| 0 <= i < scores@.len() ==> 17 <= #[trigger] scores@[i] <= 100,
        decreases num_games - n,
    {
        let mut grid = init_grid();
        let shots = match strategy {
            Strategy::Random => random_shots_game(&mut grid, &mut rng),
            Strategy::Probability => probability_game(&mut grid, &mut rng),
        };
        scores.push(shots);
        n = n + 1;
    }
    scores
}

/// Sum of a sequence of shot counts.
pub open spec fn sum_shots(scores: Seq<i32>) -> int
    decreases scores.len(),
{
    if scores.len() == 0 {
        0
    } else {
        sum_shots(scores.drop_last()) + scores.last()
    }
}

/// The total of the shot counts.
pub fn total_shots(scores: &Vec<i32>) -> (r: i128)
    ensures
        r == sum_shots(scores@),
{
    let mut total: i128 = 0;
    let mut i: usize = 0;
    while i < scores.len()
        invariant
            i <= scores@.len(),
            total == sum_shots(scores@.take(i as int)),
            -(i as int) * 0x8000_0000 <= total <= (i as int) * 0x8000_0000,
        decreases scores@.len() - i,
    {
        proof {
            assert(scores@.take(i + 1).drop_last() =~= scores@.take(i as int));
        }
        total = total + scores[i] as i128;
        i = i + 1;
    }
    proof {
        assert(scores@.take(i as int) =~= scores@);
    }
    total
}

} // verus!
