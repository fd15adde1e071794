//! Ship placement: straight runs of ship cells, laid out without overlap.

use crate::board::{
    cell_at, count, count_in, fire_outcome, in_grid, index_of, lemma_count_all, lemma_count_none,
    lemma_count_update, Cell, Grid, CELL_COUNT, GRID_SIZE,
};
use crate::rng::{random_below, random_coin};
use vstd::prelude::*;

verus! {

/// A ship of `len` cells whose first cell is `(x, y)`. A horizontal ship
/// extends along `x`, a vertical one along `y`.
#[derive(Clone, Copy, Debug, PartialEq, Eq, Structural)]
pub struct Placement {
    pub x: usize,
    pub y: usize,
    pub len: usize,
    pub horizontal: bool,
}

/// Random placement attempts made for one ship before falling back to the
/// first free spot in scan order.
pub const MAX_PLACEMENT_ATTEMPTS: u32 = 100000;

/// The fleet's ship lengths, in placement order.
pub open spec fn fleet() -> Seq<usize> {
    seq![5usize, 4usize, 3usize, 3usize, 2usize]
}

/// Sum of a sequence of lengths.
pub open spec fn total(lens: Seq<usize>) -> nat
    decreases lens.len(),
{
    if lens.len() == 0 {
        0
    } else {
        total(lens.drop_last()) + lens.last() as nat
    }
}

/// x-coordinate of the `i`-th cell of `p`.
pub open spec fn run_x(p: Placement, i: int) -> int {
    if p.horizontal {
        p.x + i
    } else {
        p.x as int
    }
}

/// y-coordinate of the `i`-th cell of `p`.
pub open spec fn run_y(p: Placement, i: int) -> int {
    if p.horizontal {
        p.y as int
    } else {
        p.y + i
    }
}

/// `(x, y)` is among the first `n` cells of `p`.
pub open spec fn covers_upto(p: Placement, n: int, x: int, y: int) -> bool {
    if p.horizontal {
        y == p.y && p.x <= x < p.x + n
    } else {
        x == p.x && p.y <= y < p.y + n
    }
}

/// `(x, y)` is a cell of `p`.
pub open spec fn covers(p: Placement, x: int, y: int) -> bool {
    covers_upto(p, p.len as int, x, y)
}

/// All of `p` lies on the board.
pub open spec fn within_grid(p: Placement) -> bool {
    &&& p.len >= 1
    &&& in_grid(p.x as int, p.y as int)
    &&& in_grid(run_x(p, p.len - 1), run_y(p, p.len - 1))
}

/// `p` lies on the board and every cell of it is empty.
pub open spec fn clear_for(cells: Seq<Cell>, p: Placement) -> bool {
    &&& within_grid(p)
    &&& forall|x: int, y: int| in_grid(x, y) && covers(p, x, y) ==> #[trigger] cell_at(cells, x, y) == Cell::Empty
}

/// Some ship of `ships` has a cell at `(x, y)`.
pub open spec fn covered(ships: Seq<Placement>, x: int, y: int) -> bool {
    exists|k: int| 0 <= k < ships.len() && #[trigger] covers(ships[k], x, y)
}

/// `ships` are ships of the lengths `lens`, in order, on the board, no two
/// sharing a cell.
pub open spec fn valid_layout(ships: Seq<Placement>, lens: Seq<usize>) -> bool {
    &&& ships.len() == lens.len()
    &&& forall|k: int| 0 <= k < ships.len() ==> (#[trigger] ships[k]).len == lens[k] && within_grid(ships[k])
    &&& forall|k1: int, k2: int, x: int, y: int|
        0 <= k1 < ships.len() && 0 <= k2 < ships.len() && k1 != k2
            ==> !(#[trigger] covers(ships[k1], x, y) && #[trigger] covers(ships[k2], x, y))
}

/// The board holds ship cells exactly where `ships` lie, and nothing else.
pub open spec fn shows_layout(cells: Seq<Cell>, ships: Seq<Placement>) -> bool {
    &&& cells.len() == CELL_COUNT
    &&& forall|x: int, y: int| #[trigger] in_grid(x, y) ==> cell_at(cells, x, y) == if covered(ships, x, y) {
        Cell::Ship
    } else {
        Cell::Empty
    }
}

/// The board holds the fleet, laid out validly, and nothing else.
pub open spec fn fleet_placed(cells: Seq<Cell>) -> bool {
    exists|ships: Seq<Placement>| valid_layout(ships, fleet()) && #[trigger] shows_layout(cells, ships)
}

/// A cell that is or was part of a ship.
pub open spec fn afloat_or_hit(c: Cell) -> bool {
    c == Cell::Ship || c == Cell::Hit
}

/// Cell `(x, y)` has a neighbour on the board that is or was a ship cell.
pub open spec fn has_partner(cells: Seq<Cell>, x: int, y: int) -> bool {
    ||| in_grid(x + 1, y) && afloat_or_hit(cell_at(cells, x + 1, y))
    ||| in_grid(x - 1, y) && afloat_or_hit(cell_at(cells, x - 1, y))
    ||| in_grid(x, y + 1) && afloat_or_hit(cell_at(cells, x, y + 1))
    ||| in_grid(x, y - 1) && afloat_or_hit(cell_at(cells, x, y - 1))
}

/// Every ship cell has a neighbour that is or was a ship cell, as holds when
/// every ship is at least two cells long.
pub open spec fn ships_paired(cells: Seq<Cell>) -> bool {
    forall|x: int, y: int| in_grid(x, y) && #[trigger] cell_at(cells, x, y) == Cell::Ship ==> has_partner(cells, x, y)
}

/// `after` is `before` with the cells of `p` turned into ship cells.
pub open spec fn painted(before: Seq<Cell>, after: Seq<Cell>, p: Placement) -> bool {
    &&& after.len() == CELL_COUNT
    &&& forall|x: int, y: int| in_grid(x, y) ==> #[trigger] cell_at(after, x, y) == if covers(p, x, y) {
        Cell::Ship
    } else {
        cell_at(before, x, y)
    }
}

/// The fleet's ship lengths, in placement order: 5, 4, 3, 3 and 2.
pub fn ship_sizes() -> (r: Vec<usize>)
    ensures
        r@ == fleet(),
{
    let r: Vec<usize> = vec![5, 4, 3, 3, 2];
    assert(r@ =~= fleet());
    r
}

/// Whether `p` lies on the board over empty cells only.
pub fn can_place(grid: &Grid, p: Placement) -> (r: bool)
    requires
        grid.wf(),
    ensures
        r == clear_for(grid@, p),
{
    if p.len == 0 || p.x >= GRID_SIZE || p.y >= GRID_SIZE {
        return false;
    }
    if p.horizontal {
        if p.len > GRID_SIZE - p.x {
            return false;
        }
    } else {
        if p.len > GRID_SIZE - p.y {
            return false;
        }
    }
    let mut i: usize = 0;
    while i < p.len
        invariant
            grid.wf(),
            within_grid(p),
            i <= p.len,
            forall|j: int| 0 <= j < i ==> cell_at(grid@, run_x(p, j), run_y(p, j)) == Cell::Empty,
        decreases p.len - i,
    {
        let (x, y) = if p.horizontal {
            (p.x + i, p.y)
        } else {
            (p.x, p.y + i)
        };
        if grid.cell_state(x, y) != Cell::Empty {
            assert(covers(p, x as int, y as int));
            return false;
        }
        i = i + 1;
    }
    assert forall|x: int, y: int| in_grid(x, y) && covers(p, x, y) implies #[trigger] cell_at(grid@, x, y) == Cell::Empty by {
        let j = if p.horizontal { x - p.x } else { y - p.y };
        assert(run_x(p, j) == x && run_y(p, j) == y);
    }
    true
}


/// Lays ship `p` on the board: its cells become `Ship` and all others stay.
pub fn place_ship(grid: &mut Grid, p: Placement)
    requires
        old(grid).wf(),
        clear_for(old(grid)@, p),
    ensures
        final(grid).wf(),
        painted(old(grid)@, final(grid)@, p),
        count(final(grid)@, Cell::Ship) == count(old(grid)@, Cell::Ship) + p.len,
        count(final(grid)@, Cell::Hit) == count(old(grid)@, Cell::Hit),
        count(final(grid)@, Cell::Miss) == count(old(grid)@, Cell::Miss),
        count(final(grid)@, Cell::Empty) + p.len == count(old(grid)@, Cell::Empty),
        p.len >= 2 && ships_paired(old(grid)@) ==> ships_paired(final(grid)@),
{
    let ghost before = grid@;
    let mut i: usize = 0;
    while i < p.len
        invariant
            grid.wf(),
            clear_for(before, p),
            i <= p.len,
            forall|x: int, y: int| #[trigger] in_grid(x, y) ==> cell_at(grid@, x, y) == if covers_upto(p, i as int, x, y) {
                Cell::Ship
            } else {
                cell_at(before, x, y)
            },
            count(grid@, Cell::Ship) == count(before, Cell::Ship) + i,
            count(grid@, Cell::Empty) + i == count(before, Cell::Empty),
            count(grid@, Cell::Hit) == count(before, Cell::Hit),
            count(grid@, Cell::Miss) == count(before, Cell::Miss),
        decreases p.len - i,
    {
        let (x, y) = if p.horizontal {
            (p.x + i, p.y)
        } else {
            (p.x, p.y + i)
        };
        assert(in_grid(x as int, y as int));
        assert(covers(p, x as int, y as int));
        assert(cell_at(grid@, x as int, y as int) == Cell::Empty);
        proof {
            let k = index_of(x as int, y as int);
            lemma_count_update(grid@, k, Cell::Ship, Cell::Ship, CELL_COUNT as int);
            lemma_count_update(grid@, k, Cell::Ship, Cell::Empty, CELL_COUNT as int);
            lemma_count_update(grid@, k, Cell::Ship, Cell::Hit, CELL_COUNT as int);
            lemma_count_update(grid@, k, Cell::Ship, Cell::Miss, CELL_COUNT as int);
        }
        grid.set_cell(x, y, Cell::Ship);
        i = i + 1;
    }
    proof {
        let after = grid@;
        if p.len >= 2 && ships_paired(before) {
            assert forall|x: int, y: int| in_grid(x, y) && #[trigger] cell_at(after, x, y) == Cell::Ship implies has_partner(after, x, y) by {
                assert(in_grid(x, y));
                if covers(p, x, y) {
                    if p.horizontal {
                        if x + 1 < p.x + p.len {
                            assert(in_grid(x + 1, y));
                        } else {
                            assert(in_grid(x - 1, y));
                        }
                    } else {
                        if y + 1 < p.y + p.len {
                            assert(in_grid(x, y + 1));
                        } else {
                            assert(in_grid(x, y - 1));
                        }
                    }
                } else {
                    assert(cell_at(before, x, y) == Cell::Ship);
                    assert(has_partner(before, x, y));
                    if in_grid(x + 1, y) {
                        assert(afloat_or_hit(cell_at(before, x + 1, y)) ==> afloat_or_hit(cell_at(after, x + 1, y)));
                    }
                    if in_grid(x - 1, y) {
                        assert(afloat_or_hit(cell_at(before, x - 1, y)) ==> afloat_or_hit(cell_at(after, x - 1, y)));
                    }
                    if in_grid(x, y + 1) {
                        assert(afloat_or_hit(cell_at(before, x, y + 1)) ==> afloat_or_hit(cell_at(after, x, y + 1)));
                    }
                    if in_grid(x, y - 1) {
                        assert(afloat_or_hit(cell_at(before, x, y - 1)) ==> afloat_or_hit(cell_at(after, x, y - 1)));
                    }
                }
            }
        }
    }
}


/// Cells `5 * j` to `5 * j + 4`, half of row `j / 2`, are all empty.
pub open spec fn segment_free(cells: Seq<Cell>, j: int) -> bool {
    forall|i: int| 5 * j <= i < 5 * j + 5 ==> cells[i] == Cell::Empty
}

proof fn lemma_count_growth(cells: Seq<Cell>, c: Cell, n: int, m: int)
    requires
        0 <= n,
        0 <= m,
        n + m <= cells.len(),
    ensures
        count_in(cells, c, n + m) <= count_in(cells, c, n) + m,
    decreases m,
{
    if m > 0 {
        lemma_count_growth(cells, c, n, m - 1);
    }
}

proof fn lemma_count_gap(cells: Seq<Cell>, c: Cell, n: int, m: int, t: int)
    requires
        0 <= n <= t < n + m <= cells.len(),
        cells[t] != c,
    ensures
        count_in(cells, c, n + m) + 1 <= count_in(cells, c, n) + m,
    decreases m,
{
    if t == n + m - 1 {
        lemma_count_growth(cells, c, n, m - 1);
    } else {
        lemma_count_gap(cells, c, n, m - 1, t);
    }
}

proof fn lemma_blocked_segments(cells: Seq<Cell>, k: int)
    requires
        cells.len() == CELL_COUNT,
        0 <= k <= 20,
        forall|j: int| 0 <= j < 20 ==> !segment_free(cells, j),
    ensures
        count_in(cells, Cell::Empty, 5 * k) <= 4 * k,
    decreases k,
{
    if k > 0 {
        lemma_blocked_segments(cells, k - 1);
        let j = k - 1;
        assert(!segment_free(cells, j));
        let t = choose|t: int| 5 * j <= t < 5 * j + 5 && cells[t] != Cell::Empty;
        lemma_count_gap(cells, Cell::Empty, 5 * j, 5, t);
    }
}

/// With more than 80 empty cells, some half row is wholly empty: each half
/// row that holds a non-empty cell costs the count one.
pub proof fn lemma_free_segment(cells: Seq<Cell>)
    requires
        cells.len() == CELL_COUNT,
        count(cells, Cell::Empty) > 80,
    ensures
        exists|j: int| 0 <= j < 20 && segment_free(cells, j),
{
    if forall|j: int| 0 <= j < 20 ==> !segment_free(cells, j) {
        lemma_blocked_segments(cells, 20);
    }
}

/// `q` comes before `r` in scan order: by `x`, then `y`, horizontal first.
pub open spec fn scanned_before(q: Placement, r: Placement) -> bool {
    ||| q.x < r.x
    ||| q.x == r.x && q.y < r.y
    ||| q.x == r.x && q.y == r.y && q.horizontal && !r.horizontal
}

/// The first placement of length `len`, in scan order, that fits on empty
/// cells. One exists whenever more than 80 cells are empty.
pub fn first_fit(grid: &Grid, len: usize) -> (r: Placement)
    requires
        grid.wf(),
        1 <= len <= 5,
        count(grid@, Cell::Empty) > 80,
    ensures
        r.len == len,
        clear_for(grid@, r),
        forall|q: Placement| q.len == len && scanned_before(q, r) ==> !#[trigger] clear_for(grid@, q),
{
    let mut x: usize = 0;
    while x < GRID_SIZE
        invariant
            grid.wf(),
            x <= GRID_SIZE,
            forall|q: Placement| q.len == len && q.x < x ==> !#[trigger] clear_for(grid@, q),
        decreases GRID_SIZE - x,
    {
        let mut y: usize = 0;
        while y < GRID_SIZE
            invariant
                grid.wf(),
                x < GRID_SIZE,
                y <= GRID_SIZE,
                forall|q: Placement| q.len == len && (q.x < x || (q.x == x && q.y < y)) ==> !#[trigger] clear_for(grid@, q),
            decreases GRID_SIZE - y,
        {
            let h = Placement { x, y, len, horizontal: true };
            if can_place(grid, h) {
                return h;
            }
            let v = Placement { x, y, len, horizontal: false };
            if can_place(grid, v) {
                return v;
            }
            y = y + 1;
        }
        x = x + 1;
    }
    proof {
        lemma_free_segment(grid@);
        let j = choose|j: int| 0 <= j < 20 && segment_free(grid@, j);
        let qx = j / 2;
        let qy = 5 * (j % 2);
        assert(j == 2 * qx + j % 2);
        let q = Placement { x: qx as usize, y: qy as usize, len, horizontal: false };
        assert forall|x: int, y: int| in_grid(x, y) && covers(q, x, y) implies #[trigger] cell_at(grid@, x, y) == Cell::Empty by {
            assert(5 * j <= index_of(x, y) < 5 * j + 5);
        }
        assert(clear_for(grid@, q));
    }
    Placement { x: 0, y: 0, len, horizontal: false }
}

/// Places one ship of length `len` at random: draws an orientation, then
/// `x`, then `y`, until the ship fits on empty cells. After
/// `MAX_PLACEMENT_ATTEMPTS` draws it takes the first spot that fits.
pub fn place_ship_randomly(grid: &mut Grid, len: usize, rng: &mut rand::rngs::StdRng) -> (r: Placement)
    requires
        old(grid).wf(),
        1 <= len <= 5,
        count(old(grid)@, Cell::Empty) > 80,
    ensures
        r.len == len,
        clear_for(old(grid)@, r),
        final(grid).wf(),
        painted(old(grid)@, final(grid)@, r),
        count(final(grid)@, Cell::Ship) == count(old(grid)@, Cell::Ship) + len,
        count(final(grid)@, Cell::Empty) + len == count(old(grid)@, Cell::Empty),
        count(final(grid)@, Cell::Hit) == count(old(grid)@, Cell::Hit),
        count(final(grid)@, Cell::Miss) == count(old(grid)@, Cell::Miss),
        len >= 2 && ships_paired(old(grid)@) ==> ships_paired(final(grid)@),
{
    let mut attempts: u32 = 0;
    while attempts < MAX_PLACEMENT_ATTEMPTS
        invariant
            grid.wf(),
            grid@ == old(grid)@,
        decreases MAX_PLACEMENT_ATTEMPTS - attempts,
    {
        let horizontal = random_coin(rng);
        let x = random_below(rng, GRID_SIZE);
        let y = random_below(rng, GRID_SIZE);
        let p = Placement { x, y, len, horizontal };
        if can_place(grid, p) {
            place_ship(grid, p);
            return p;
        }
        attempts = attempts + 1;
    }
    let p = first_fit(grid, len);
    place_ship(grid, p);
    p
}


pub proof fn lemma_total_step(lens: Seq<usize>, k: int)
    requires
        0 <= k < lens.len(),
    ensures
        total(lens.take(k + 1)) == total(lens.take(k)) + lens[k],
{
    assert(lens.take(k + 1).drop_last() =~= lens.take(k));
}

pub proof fn lemma_total_prefix_le(lens: Seq<usize>, k: int)
    requires
        0 <= k <= lens.len(),
    ensures
        total(lens.take(k)) <= total(lens),
    decreases lens.len() - k,
{
    if k == lens.len() {
        assert(lens.take(k) =~= lens);
    } else {
        lemma_total_step(lens, k);
        lemma_total_prefix_le(lens, k + 1);
    }
}

/// The fleet has 17 ship cells, every ship two to five cells long.
pub proof fn lemma_fleet_facts()
    ensures
        fleet().len() == 5,
        total(fleet()) == 17,
        forall|k: int| 0 <= k < 5 ==> 2 <= #[trigger] fleet()[k] <= 5,
{
    let s0 = Seq::<usize>::empty();
    let s1 = s0.push(5);
    let s2 = s1.push(4);
    let s3 = s2.push(3);
    let s4 = s3.push(3);
    let s5 = s4.push(2);
    assert(s5 =~= fleet());
    assert(s1.drop_last() =~= s0);
    assert(s2.drop_last() =~= s1);
    assert(s3.drop_last() =~= s2);
    assert(s4.drop_last() =~= s3);
    assert(s5.drop_last() =~= s4);
    assert(total(s0) == 0);
    assert(s1.len() == 1 && s1.last() == 5);
    assert(total(s1) == total(s1.drop_last()) + s1.last());
    assert(total(s1) == 5);
    assert(total(s2) == 9);
    assert(total(s3) == 12);
    assert(total(s4) == 15);
    assert(total(s5) == 17);
}

/// Places the fleet on an empty board, ship by ship in fleet order. The board
/// then holds the fleet's 17 ship cells in straight runs on the board, no
/// two ships sharing a cell, and every other cell empty.
pub fn place_ships(grid: &mut Grid, rng: &mut rand::rngs::StdRng)
    requires
        old(grid).wf(),
        forall|i: int| 0 <= i < CELL_COUNT ==> old(grid)@[i] == Cell::Empty,
    ensures
        final(grid).wf(),
        fleet_placed(final(grid)@),
        count(final(grid)@, Cell::Ship) == total(fleet()),
        count(final(grid)@, Cell::Ship) == 17,
        count(final(grid)@, Cell::Empty) == 83,
        count(final(grid)@, Cell::Hit) == 0,
        count(final(grid)@, Cell::Miss) == 0,
        ships_paired(final(grid)@),
{
    let sizes = ship_sizes();
    let ghost mut ships: Seq<Placement> = Seq::empty();
    proof {
        lemma_fleet_facts();
        lemma_count_all(grid@, Cell::Empty, CELL_COUNT as int);
        lemma_count_none(grid@, Cell::Ship, CELL_COUNT as int);
        lemma_count_none(grid@, Cell::Hit, CELL_COUNT as int);
        lemma_count_none(grid@, Cell::Miss, CELL_COUNT as int);
        assert(fleet().take(0) =~= Seq::<usize>::empty());
    }
    let mut k: usize = 0;
    while k < sizes.len()
        invariant
            grid.wf(),
            sizes@ == fleet(),
            fleet().len() == 5,
            total(fleet()) == 17,
            forall|k: int| 0 <= k < 5 ==> 2 <= #[trigger] fleet()[k] <= 5,
            k <= 5,
            valid_layout(ships, fleet().take(k as int)),
            shows_layout(grid@, ships),
            count(grid@, Cell::Ship) == total(fleet().take(k as int)),
            count(grid@, Cell::Empty) + total(fleet().take(k as int)) == 100,
            count(grid@, Cell::Hit) == 0,
            count(grid@, Cell::Miss) == 0,
            ships_paired(grid@),
        decreases 5 - k,
    {
        let len = sizes[k];
        proof {
            lemma_total_step(fleet(), k as int);
            lemma_total_prefix_le(fleet(), k + 1);
        }
        let ghost before = grid@;
        let p = place_ship_randomly(grid, len, rng);
        proof {
            let old_ships = ships;
            let new_ships = old_ships.push(p);
            let lens = fleet().take(k + 1);
            assert(lens.drop_last() =~= fleet().take(k as int));
            assert forall|j: int| 0 <= j < new_ships.len() implies (#[trigger] new_ships[j]).len == lens[j] && within_grid(new_ships[j]) by {
                if j < k {
                    assert(new_ships[j] == old_ships[j]);
                    assert(lens[j] == fleet().take(k as int)[j]);
                }
            }
            assert forall|k1: int, k2: int, x: int, y: int|
                0 <= k1 < new_ships.len() && 0 <= k2 < new_ships.len() && k1 != k2
                    implies !(#[trigger] covers(new_ships[k1], x, y) && #[trigger] covers(new_ships[k2], x, y)) by {
                if k1 < k && k2 < k {
                    assert(new_ships[k1] == old_ships[k1]);
                    assert(new_ships[k2] == old_ships[k2]);
                } else if covers(new_ships[k1], x, y) && covers(new_ships[k2], x, y) {
                    let other = if k1 < k { k1 } else { k2 };
                    assert(new_ships[other] == old_ships[other]);
                    assert(covers(p, x, y));
                    assert(in_grid(x, y));
                    assert(covered(old_ships, x, y));
                    assert(cell_at(before, x, y) == Cell::Ship);
                }
            }
            assert forall|x: int, y: int| #[trigger] in_grid(x, y) implies cell_at(grid@, x, y) == if covered(new_ships, x, y) {
                Cell::Ship
            } else {
                Cell::Empty
            } by {
                if covers(p, x, y) {
                    assert(covers(new_ships[k as int], x, y));
                } else if covered(old_ships, x, y) {
                    let k1 = choose|k1: int| 0 <= k1 < old_ships.len() && #[trigger] covers(old_ships[k1], x, y);
                    assert(new_ships[k1] == old_ships[k1]);
                } else if covered(new_ships, x, y) {
                    let k1 = choose|k1: int| 0 <= k1 < new_ships.len() && #[trigger] covers(new_ships[k1], x, y);
                    if k1 < k {
                        assert(new_ships[k1] == old_ships[k1]);
                    }
                }
            }
            ships = new_ships;
        }
        k = k + 1;
    }
    proof {
        assert(fleet().take(5) =~= fleet());
        assert(shows_layout(grid@, ships));
    }
}


/// A shot keeps every ship cell next to a ship or hit cell: it only turns
/// ship cells into hits and empty cells into misses.
pub proof fn lemma_fire_keeps_paired(cells: Seq<Cell>, x: int, y: int)
    requires
        cells.len() == CELL_COUNT,
        in_grid(x, y),
        ships_paired(cells),
    ensures
        ships_paired(fire_outcome(cells, x, y).0),
{
    let after = fire_outcome(cells, x, y).0;
    assert forall|a: int, b: int| in_grid(a, b) && #[trigger] cell_at(after, a, b) == Cell::Ship implies has_partner(after, a, b) by {
        assert(cell_at(cells, a, b) == Cell::Ship);
        assert(has_partner(cells, a, b));
        if in_grid(a + 1, b) {
            assert(afloat_or_hit(cell_at(cells, a + 1, b)) ==> afloat_or_hit(cell_at(after, a + 1, b)));
        }
        if in_grid(a - 1, b) {
            assert(afloat_or_hit(cell_at(cells, a - 1, b)) ==> afloat_or_hit(cell_at(after, a - 1, b)));
        }
        if in_grid(a, b + 1) {
            assert(afloat_or_hit(cell_at(cells, a, b + 1)) ==> afloat_or_hit(cell_at(after, a, b + 1)));
        }
        if in_grid(a, b - 1) {
            assert(afloat_or_hit(cell_at(cells, a, b - 1)) ==> afloat_or_hit(cell_at(after, a, b - 1)));
        }
    }
}

} // verus!
