//! The board: a square grid of cells, the shot resolver and the game-over test.

use vstd::prelude::*;

verus! {

/// Side length of the square board.
pub const GRID_SIZE: usize = 10;

/// Number of cells on the board.
pub const CELL_COUNT: usize = 100;

/// State of one cell of the board.
#[derive(Clone, Copy, Debug, PartialEq, Eq, Structural)]
pub enum Cell {
    Empty,
    Ship,
    Hit,
    Miss,
}

/// The character that shows a cell state in a printed board.
pub open spec fn symbol_of(c: Cell) -> char {
    match c {
        Cell::Empty => '.',
        Cell::Ship => 'S',
        Cell::Hit => 'H',
        Cell::Miss => 'M',
    }
}

impl Cell {
    /// The character that shows this state: `.`, `S`, `H` or `M`.
    pub fn symbol(self) -> (r: char)
        ensures
            r == symbol_of(self),
    {
        match self {
            Cell::Empty => '.',
            Cell::Ship => 'S',
            Cell::Hit => 'H',
            Cell::Miss => 'M',
        }
    }
}

/// Outcome of firing at a cell.
#[derive(Clone, Copy, Debug, PartialEq, Eq, Structural)]
pub enum ShotResult {
    Hit,
    Miss,
    AlreadyTaken,
}

/// A board, stored row by row: cell `(x, y)` sits at index `x * GRID_SIZE + y`.
pub struct Grid {
    cells: Vec<Cell>,
}

impl View for Grid {
    type V = Seq<Cell>;

    closed spec fn view(&self) -> Seq<Cell> {
        self.cells@
    }
}

impl Grid {
    /// A well-formed board has exactly one cell per coordinate.
    pub open spec fn wf(&self) -> bool {
        self@.len() == CELL_COUNT
    }

    /// The state of cell `(x, y)`.
    pub fn cell_state(&self, x: usize, y: usize) -> (r: Cell)
        requires
            self.wf(),
            in_grid(x as int, y as int),
        ensures
            r == cell_at(self@, x as int, y as int),
    {
        self.cells[index(x, y)]
    }

    /// Overwrites cell `(x, y)`; kept to this crate so that cells change only
    /// by placement and by shots.
    pub(crate) fn set_cell(&mut self, x: usize, y: usize, c: Cell)
        requires
            old(self).wf(),
            in_grid(x as int, y as int),
        ensures
            final(self)@ == old(self)@.update(index_of(x as int, y as int), c),
    {
        let i = index(x, y);
        self.cells.set(i, c);
    }
}

/// `(x, y)` lies on the board.
pub open spec fn in_grid(x: int, y: int) -> bool {
    0 <= x < 10 && 0 <= y < 10
}

/// Position of cell `(x, y)` in the row-by-row layout.
pub open spec fn index_of(x: int, y: int) -> int {
    x * 10 + y
}

/// The state of cell `(x, y)` of a board.
pub open spec fn cell_at(cells: Seq<Cell>, x: int, y: int) -> Cell {
    cells[index_of(x, y)]
}

pub(crate) fn index(x: usize, y: usize) -> (r: usize)
    requires
        in_grid(x as int, y as int),
    ensures
        r as int == index_of(x as int, y as int),
        r < CELL_COUNT,
{
    x * GRID_SIZE + y
}

/// Number of cells among the first `n` that hold `c`.
pub open spec fn count_in(cells: Seq<Cell>, c: Cell, n: int) -> nat
    decreases n,
{
    if n <= 0 {
        0
    } else {
        count_in(cells, c, n - 1) + if cells[n - 1] == c {
            1nat
        } else {
            0nat
        }
    }
}

/// Number of cells of the board that hold `c`.
pub open spec fn count(cells: Seq<Cell>, c: Cell) -> nat {
    count_in(cells, c, cells.len() as int)
}

/// Cells not yet fired upon.
pub open spec fn unfired(cells: Seq<Cell>) -> nat {
    count(cells, Cell::Empty) + count(cells, Cell::Ship)
}

/// Cells already fired upon.
pub open spec fn fired(cells: Seq<Cell>) -> nat {
    count(cells, Cell::Hit) + count(cells, Cell::Miss)
}

/// The game is over when no cell holds an unhit ship.
pub open spec fn game_over(cells: Seq<Cell>) -> bool {
    forall|i: int| 0 <= i < cells.len() ==> cells[i] != Cell::Ship
}

/// The board after a shot at `(x, y)`, and the shot's outcome.
pub open spec fn fire_outcome(cells: Seq<Cell>, x: int, y: int) -> (Seq<Cell>, ShotResult) {
    let i = index_of(x, y);
    match cells[i] {
        Cell::Ship => (cells.update(i, Cell::Hit), ShotResult::Hit),
        Cell::Empty => (cells.update(i, Cell::Miss), ShotResult::Miss),
        _ => (cells, ShotResult::AlreadyTaken),
    }
}

/// A fresh board with every cell `Empty`.
pub fn init_grid() -> (r: Grid)
    ensures
        r.wf(),
        forall|i: int| 0 <= i < CELL_COUNT ==> r@[i] == Cell::Empty,
{
    let mut cells: Vec<Cell> = Vec::new();
    let mut i: usize = 0;
    while i < CELL_COUNT
        invariant
            i <= CELL_COUNT,
            cells@.len() == i,
            forall|j: int| 0 <= j < i ==> cells@[j] == Cell::Empty,
        decreases CELL_COUNT - i,
    {
        cells.push(Cell::Empty);
        i = i + 1;
    }
    Grid { cells }
}

/// Fires at `(x, y)`: a ship cell becomes `Hit`, an empty one `Miss`, and a
/// cell already fired upon is left alone.
pub fn fire_shot(grid: &mut Grid, x: usize, y: usize) -> (r: ShotResult)
    requires
        old(grid).wf(),
        in_grid(x as int, y as int),
    ensures
        final(grid).wf(),
        (final(grid)@, r) == fire_outcome(old(grid)@, x as int, y as int),
{
    match grid.cell_state(x, y) {
        Cell::Ship => {
            grid.set_cell(x, y, Cell::Hit);
            ShotResult::Hit
        },
        Cell::Empty => {
            grid.set_cell(x, y, Cell::Miss);
            ShotResult::Miss
        },
        _ => ShotResult::AlreadyTaken,
    }
}

/// Whether every ship cell has been hit.
pub fn is_game_over(grid: &Grid) -> (r: bool)
    requires
        grid.wf(),
    ensures
        r == game_over(grid@),
{
    let mut i: usize = 0;
    while i < CELL_COUNT
        invariant
            grid.wf(),
            i <= CELL_COUNT,
            forall|j: int| 0 <= j < i ==> grid@[j] != Cell::Ship,
        decreases CELL_COUNT - i,
    {
        if grid.cells[i] == Cell::Ship {
            return false;
        }
        i = i + 1;
    }
    true
}


/// Changing one cell changes the count of each state by at most that cell.
pub proof fn lemma_count_update(cells: Seq<Cell>, i: int, v: Cell, c: Cell, n: int)
    requires
        0 <= i < cells.len(),
        0 <= n <= cells.len(),
    ensures
        count_in(cells.update(i, v), c, n) as int == if i < n {
            count_in(cells, c, n) as int - (if cells[i] == c { 1int } else { 0int }) + (if v == c { 1int } else { 0int })
        } else {
            count_in(cells, c, n) as int
        },
    decreases n,
{
    if n > 0 {
        lemma_count_update(cells, i, v, c, n - 1);
    }
}

/// Two distinct states together fill at most the cells counted.
pub proof fn lemma_count_pair_bound(cells: Seq<Cell>, c: Cell, d: Cell, n: int)
    requires
        c != d,
        0 <= n <= cells.len(),
    ensures
        count_in(cells, c, n) + count_in(cells, d, n) <= n,
    decreases n,
{
    if n > 0 {
        lemma_count_pair_bound(cells, c, d, n - 1);
    }
}

/// A state held by every cell counted is counted for each of them.
pub proof fn lemma_count_all(cells: Seq<Cell>, c: Cell, n: int)
    requires
        0 <= n <= cells.len(),
        forall|i: int| 0 <= i < n ==> cells[i] == c,
    ensures
        count_in(cells, c, n) == n,
    decreases n,
{
    if n > 0 {
        lemma_count_all(cells, c, n - 1);
    }
}

/// A positive count has a witness.
pub proof fn lemma_count_witness(cells: Seq<Cell>, c: Cell, n: int)
    requires
        0 <= n <= cells.len(),
        count_in(cells, c, n) > 0,
    ensures
        exists|i: int| 0 <= i < n && cells[i] == c,
    decreases n,
{
    if cells[n - 1] != c {
        lemma_count_witness(cells, c, n - 1);
    }
}

/// Without a witness the count is zero.
pub proof fn lemma_count_none(cells: Seq<Cell>, c: Cell, n: int)
    requires
        0 <= n <= cells.len(),
        forall|i: int| 0 <= i < n ==> cells[i] != c,
    ensures
        count_in(cells, c, n) == 0,
    decreases n,
{
    if n > 0 {
        lemma_count_none(cells, c, n - 1);
    }
}

/// A shot turns a ship cell into a hit or an empty cell into a miss, so the
/// unfired cells lose one exactly when the outcome counts.
pub proof fn lemma_fire_counts(cells: Seq<Cell>, x: int, y: int)
    requires
        cells.len() == CELL_COUNT,
        in_grid(x, y),
    ensures
        ({
            let (after, r) = fire_outcome(cells, x, y);
            &&& after.len() == CELL_COUNT
            &&& r == ShotResult::Hit ==> count(after, Cell::Ship) + 1 == count(cells, Cell::Ship)
                && count(after, Cell::Hit) == count(cells, Cell::Hit) + 1
                && count(after, Cell::Empty) == count(cells, Cell::Empty)
                && count(after, Cell::Miss) == count(cells, Cell::Miss)
            &&& r == ShotResult::Miss ==> count(after, Cell::Empty) + 1 == count(cells, Cell::Empty)
                && count(after, Cell::Miss) == count(cells, Cell::Miss) + 1
                && count(after, Cell::Ship) == count(cells, Cell::Ship)
                && count(after, Cell::Hit) == count(cells, Cell::Hit)
            &&& r == ShotResult::AlreadyTaken ==> after == cells
        }),
{
    let i = index_of(x, y);
    let n = CELL_COUNT as int;
    lemma_count_update(cells, i, Cell::Hit, Cell::Ship, n);
    lemma_count_update(cells, i, Cell::Hit, Cell::Hit, n);
    lemma_count_update(cells, i, Cell::Hit, Cell::Empty, n);
    lemma_count_update(cells, i, Cell::Hit, Cell::Miss, n);
    lemma_count_update(cells, i, Cell::Miss, Cell::Ship, n);
    lemma_count_update(cells, i, Cell::Miss, Cell::Hit, n);
    lemma_count_update(cells, i, Cell::Miss, Cell::Empty, n);
    lemma_count_update(cells, i, Cell::Miss, Cell::Miss, n);
}

/// Firing twice at one cell: the first shot hits or misses and changes that
/// cell, the second is classified as already taken and changes nothing.
pub proof fn lemma_fire_twice(cells: Seq<Cell>, x: int, y: int)
    requires
        cells.len() == CELL_COUNT,
        in_grid(x, y),
        cell_at(cells, x, y) == Cell::Empty || cell_at(cells, x, y) == Cell::Ship,
    ensures
        ({
            let (first, r1) = fire_outcome(cells, x, y);
            let (second, r2) = fire_outcome(first, x, y);
            &&& r1 == ShotResult::Hit || r1 == ShotResult::Miss
            &&& first != cells
            &&& r2 == ShotResult::AlreadyTaken
            &&& second == first
        }),
{
    let i = index_of(x, y);
    let (first, r1) = fire_outcome(cells, x, y);
    assert(first[i] != cells[i]);
}

/// The board after firing at each coordinate of `shots` in turn.
pub open spec fn fire_all(cells: Seq<Cell>, shots: Seq<(int, int)>) -> Seq<Cell>
    decreases shots.len(),
{
    if shots.len() == 0 {
        cells
    } else {
        fire_all(fire_outcome(cells, shots[0].0, shots[0].1).0, shots.drop_first())
    }
}

/// Some shot of `shots` lands on the cell at position `i`.
pub open spec fn targeted(shots: Seq<(int, int)>, i: int) -> bool {
    exists|k: int| 0 <= k < shots.len() && in_grid(shots[k].0, shots[k].1)
        && #[trigger] index_of(shots[k].0, shots[k].1) == i
}

/// Every coordinate of `shots` lies on the board.
pub open spec fn shots_on_board(shots: Seq<(int, int)>) -> bool {
    forall|k: int| 0 <= k < shots.len() ==> in_grid(#[trigger] shots[k].0, shots[k].1)
}

/// `after` is `before` after a run of shots on the board, each fired while
/// the game was not yet over.
pub open spec fn fired_until_over(before: Seq<Cell>, after: Seq<Cell>) -> bool {
    exists|shots: Seq<(int, int)>|
        #[trigger] shots_on_board(shots) && after == fire_all(before, shots) && forall|k: int|
            0 <= k < shots.len() ==> !game_over(#[trigger] fire_all(before, shots.take(k)))
}

/// Firing one more shot after a run of shots.
pub proof fn lemma_fire_all_push(cells: Seq<Cell>, shots: Seq<(int, int)>, p: (int, int))
    ensures
        fire_all(cells, shots.push(p)) == fire_outcome(fire_all(cells, shots), p.0, p.1).0,
    decreases shots.len(),
{
    if shots.len() == 0 {
        assert(shots.push(p).drop_first() =~= Seq::<(int, int)>::empty());
        assert(shots.push(p)[0] == p);
        assert(fire_all(cells, shots) == cells);
        assert(fire_all(fire_outcome(cells, p.0, p.1).0, Seq::<(int, int)>::empty()) == fire_outcome(cells, p.0, p.1).0);
    } else {
        assert(shots.push(p).drop_first() =~= shots.drop_first().push(p));
        assert(shots.push(p)[0] == shots[0]);
        lemma_fire_all_push(fire_outcome(cells, shots[0].0, shots[0].1).0, shots.drop_first(), p);
    }
}

/// A run of shots extended by one shot fired before the game was over.
pub proof fn lemma_fired_until_over_step(before: Seq<Cell>, shots: Seq<(int, int)>, p: (int, int))
    requires
        shots_on_board(shots),
        in_grid(p.0, p.1),
        forall|k: int| 0 <= k < shots.len() ==> !game_over(#[trigger] fire_all(before, shots.take(k))),
        !game_over(fire_all(before, shots)),
    ensures
        shots_on_board(shots.push(p)),
        fire_all(before, shots.push(p)) == fire_outcome(fire_all(before, shots), p.0, p.1).0,
        forall|k: int| 0 <= k < shots.push(p).len() ==> !game_over(#[trigger] fire_all(before, shots.push(p).take(k))),
{
    lemma_fire_all_push(before, shots, p);
    let next = shots.push(p);
    assert forall|k: int| 0 <= k < next.len() implies in_grid(#[trigger] next[k].0, next[k].1) by {
        if k < shots.len() {
            assert(next[k] == shots[k]);
        }
    }
    assert forall|k: int| 0 <= k < next.len() implies !game_over(#[trigger] fire_all(before, next.take(k))) by {
        if k < shots.len() {
            assert(next.take(k) =~= shots.take(k));
        } else {
            assert(next.take(k) =~= shots);
        }
    }
}

/// A board that still holds ship cells is not over.
pub proof fn lemma_afloat_not_over(cells: Seq<Cell>)
    requires
        count(cells, Cell::Ship) > 0,
    ensures
        !game_over(cells),
{
    lemma_count_witness(cells, Cell::Ship, cells.len() as int);
}

/// Once every ship cell has been fired upon, one shot each, the game is over.
pub proof fn lemma_all_ships_hit_ends_game(cells: Seq<Cell>, shots: Seq<(int, int)>)
    requires
        cells.len() == CELL_COUNT,
        forall|k: int| 0 <= k < shots.len() ==> in_grid(shots[k].0, shots[k].1),
        forall|i: int| 0 <= i < CELL_COUNT && cells[i] == Cell::Ship ==> targeted(shots, i),
    ensures
        game_over(fire_all(cells, shots)),
    decreases shots.len(),
{
    if shots.len() == 0 {
        assert forall|i: int| 0 <= i < cells.len() implies cells[i] != Cell::Ship by {
            if cells[i] == Cell::Ship {
                assert(targeted(shots, i));
            }
        }
    } else {
        let (x0, y0) = shots[0];
        let next = fire_outcome(cells, x0, y0).0;
        let rest = shots.drop_first();
        assert forall|i: int| 0 <= i < CELL_COUNT && next[i] == Cell::Ship implies targeted(rest, i) by {
            assert(cells[i] == Cell::Ship);
            assert(i != index_of(x0, y0));
            assert(targeted(shots, i));
            let k = choose|k: int| 0 <= k < shots.len() && in_grid(shots[k].0, shots[k].1)
                && #[trigger] index_of(shots[k].0, shots[k].1) == i;
            assert(k != 0);
            assert(rest[k - 1] == shots[k]);
        }
        assert forall|k: int| 0 <= k < rest.len() implies in_grid(rest[k].0, rest[k].1) by {
            assert(rest[k] == shots[k + 1]);
        }
        lemma_all_ships_hit_ends_game(next, rest);
    }
}

} // verus!
