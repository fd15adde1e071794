//! The probability-density heuristic: each cell is weighted by the number of
//! ship runs, over the fleet's lengths and both orientations, that cover it
//! and hold no miss.

use crate::board::{cell_at, in_grid, index_of, Cell, Grid, CELL_COUNT, GRID_SIZE};
use crate::placement::{
    afloat_or_hit, covers, fleet, has_partner, lemma_fleet_facts, lemma_total_prefix_le,
    lemma_total_step, ship_sizes, total, within_grid, Placement,
};
use vstd::prelude::*;

verus! {

/// `p` lies on the board and none of its cells is a miss.
pub open spec fn run_open(cells: Seq<Cell>, p: Placement) -> bool {
    &&& within_grid(p)
    &&& forall|x: int, y: int| in_grid(x, y) && covers(p, x, y) ==> #[trigger] cell_at(cells, x, y) != Cell::Miss
}

/// The run of length `len` whose `i`-th cell is `(x, y)`.
pub open spec fn run_back(x: int, y: int, len: usize, horizontal: bool, i: int) -> Placement {
    if horizontal {
        Placement { x: (x - i) as usize, y: y as usize, len, horizontal }
    } else {
        Placement { x: x as usize, y: (y - i) as usize, len, horizontal }
    }
}

/// That run starts on the board and holds no miss.
pub open spec fn open_run_back(cells: Seq<Cell>, x: int, y: int, len: usize, horizontal: bool, i: int) -> bool {
    &&& (if horizontal { x - i >= 0 } else { y - i >= 0 })
    &&& run_open(cells, run_back(x, y, len, horizontal, i))
}

/// Number of open runs of length `len` in one orientation that cover
/// `(x, y)` as their `i`-th cell, for `i < n`.
pub open spec fn runs_through(cells: Seq<Cell>, x: int, y: int, len: usize, horizontal: bool, n: int) -> nat
    decreases n,
{
    if n <= 0 {
        0
    } else {
        runs_through(cells, x, y, len, horizontal, n - 1) + if open_run_back(cells, x, y, len, horizontal, n - 1) {
            1nat
        } else {
            0nat
        }
    }
}

/// Number of open runs of length `len`, in either orientation, covering `(x, y)`.
pub open spec fn length_weight(cells: Seq<Cell>, x: int, y: int, len: usize) -> nat {
    runs_through(cells, x, y, len, true, len as int) + runs_through(cells, x, y, len, false, len as int)
}

/// Sum of `length_weight` over the lengths `lens`.
pub open spec fn weight_over(cells: Seq<Cell>, x: int, y: int, lens: Seq<usize>) -> nat
    decreases lens.len(),
{
    if lens.len() == 0 {
        0
    } else {
        weight_over(cells, x, y, lens.drop_last()) + length_weight(cells, x, y, lens.last())
    }
}

/// The weight of cell `(x, y)`: open runs covering it, over the fleet.
pub open spec fn weight(cells: Seq<Cell>, x: int, y: int) -> nat {
    weight_over(cells, x, y, fleet())
}

/// Weights of all cells, laid out as the board is.
pub struct ProbabilityGrid {
    weights: Vec<u32>,
}

impl View for ProbabilityGrid {
    type V = Seq<u32>;

    closed spec fn view(&self) -> Seq<u32> {
        self.weights@
    }
}

impl ProbabilityGrid {
    /// One weight per cell.
    pub open spec fn wf(&self) -> bool {
        self@.len() == CELL_COUNT
    }

    /// The weight of cell `(x, y)`.
    pub fn weight_at(&self, x: usize, y: usize) -> (r: u32)
        requires
            self.wf(),
            in_grid(x as int, y as int),
        ensures
            r == self@[index_of(x as int, y as int)],
    {
        self.weights[x * GRID_SIZE + y]
    }
}

/// A grid of weights, all zero.
pub fn init_probability_grid() -> (r: ProbabilityGrid)
    ensures
        r.wf(),
        forall|i: int| 0 <= i < CELL_COUNT ==> r@[i] == 0,
{
    let mut weights: Vec<u32> = Vec::new();
    let mut i: usize = 0;
    while i < CELL_COUNT
        invariant
            i <= CELL_COUNT,
            weights@.len() == i,
            forall|j: int| 0 <= j < i ==> weights@[j] == 0,
        decreases CELL_COUNT - i,
    {
        weights.push(0);
        i = i + 1;
    }
    ProbabilityGrid { weights }
}

/// Whether `p` lies on the board without covering a miss.
pub fn is_run_open(grid: &Grid, p: Placement) -> (r: bool)
    requires
        grid.wf(),
    ensures
        r == run_open(grid@, p),
{
    if p.len == 0 || p.x >= GRID_SIZE || p.y >= GRID_SIZE {
        return false;
    }
    if p.horizontal {
        if p.len > GRID_SIZE - p.x {
            return false;
        }
    } else {
        if p.len > GRID_SIZE - p.y {
            return false;
        }
    }
    let mut i: usize = 0;
    while i < p.len
        invariant
            grid.wf(),
            within_grid(p),
            i <= p.len,
            forall|x: int, y: int| in_grid(x, y) && covers(p, x, y) && (if p.horizontal { x < p.x + i } else { y < p.y + i })
                ==> #[trigger] cell_at(grid@, x, y) != Cell::Miss,
        decreases p.len - i,
    {
        let (x, y) = if p.horizontal {
            (p.x + i, p.y)
        } else {
            (p.x, p.y + i)
        };
        if grid.cell_state(x, y) == Cell::Miss {
            assert(covers(p, x as int, y as int));
            return false;
        }
        i = i + 1;
    }
    true
}


fn count_runs_through(grid: &Grid, x: usize, y: usize, len: usize, horizontal: bool) -> (r: u32)
    requires
        grid.wf(),
        in_grid(x as int, y as int),
        len <= 5,
    ensures
        r == runs_through(grid@, x as int, y as int, len, horizontal, len as int),
        r <= len,
{
    let mut n: u32 = 0;
    let mut i: usize = 0;
    while i < len
        invariant
            grid.wf(),
            in_grid(x as int, y as int),
            len <= 5,
            i <= len,
            n == runs_through(grid@, x as int, y as int, len, horizontal, i as int),
            n <= i,
        decreases len - i,
    {
        let starts_on_board = if horizontal {
            i <= x
        } else {
            i <= y
        };
        if starts_on_board {
            let p = if horizontal {
                Placement { x: x - i, y, len, horizontal }
            } else {
                Placement { x, y: y - i, len, horizontal }
            };
            assert(p == run_back(x as int, y as int, len, horizontal, i as int));
            if is_run_open(grid, p) {
                n = n + 1;
            }
        }
        i = i + 1;
    }
    n
}

fn cell_weight(grid: &Grid, sizes: &Vec<usize>, x: usize, y: usize) -> (r: u32)
    requires
        grid.wf(),
        sizes@ == fleet(),
        in_grid(x as int, y as int),
    ensures
        r == weight(grid@, x as int, y as int),
{
    proof {
        lemma_fleet_facts();
        assert(fleet().take(0) =~= Seq::<usize>::empty());
    }
    let mut w: u32 = 0;
    let mut k: usize = 0;
    while k < sizes.len()
        invariant
            grid.wf(),
            sizes@ == fleet(),
            in_grid(x as int, y as int),
            fleet().len() == 5,
            total(fleet()) == 17,
            forall|k: int| 0 <= k < 5 ==> 2 <= #[trigger] fleet()[k] <= 5,
            k <= 5,
            w == weight_over(grid@, x as int, y as int, fleet().take(k as int)),
            w <= 2 * total(fleet().take(k as int)),
        decreases 5 - k,
    {
        proof {
            lemma_total_step(fleet(), k as int);
            lemma_total_prefix_le(fleet(), k + 1);
            assert(fleet().take(k + 1).drop_last() =~= fleet().take(k as int));
        }
        let len = sizes[k];
        let a = count_runs_through(grid, x, y, len, true);
        let b = count_runs_through(grid, x, y, len, false);
        w = w + a + b;
        k = k + 1;
    }
    proof {
        assert(fleet().take(5) =~= fleet());
    }
    w
}

/// Weights every cell by the open runs covering it: for each fleet length,
/// each start cell and each orientation, a run that lies on the board and
/// holds no miss adds one to each of its cells. Hits count as open.
pub fn calculate_probability_grid(grid: &Grid) -> (r: ProbabilityGrid)
    requires
        grid.wf(),
    ensures
        r.wf(),
        forall|x: int, y: int| #[trigger] in_grid(x, y) ==> r@[index_of(x, y)] as int == weight(grid@, x, y),
{
    let sizes = ship_sizes();
    let mut weights: Vec<u32> = Vec::new();
    let mut x: usize = 0;
    while x < GRID_SIZE
        invariant
            grid.wf(),
            sizes@ == fleet(),
            x <= GRID_SIZE,
            weights@.len() == x * 10,
            forall|x2: int, y2: int| #[trigger] in_grid(x2, y2) && x2 < x ==> weights@[index_of(x2, y2)] as int == weight(grid@, x2, y2),
        decreases GRID_SIZE - x,
    {
        let mut y: usize = 0;
        while y < GRID_SIZE
            invariant
                grid.wf(),
                sizes@ == fleet(),
                x < GRID_SIZE,
                y <= GRID_SIZE,
                weights@.len() == x * 10 + y,
                forall|x2: int, y2: int| #[trigger] in_grid(x2, y2) && (x2 < x || (x2 == x && y2 < y)) ==> weights@[index_of(x2, y2)] as int == weight(grid@, x2, y2),
            decreases GRID_SIZE - y,
        {
            let w = cell_weight(grid, &sizes, x, y);
            weights.push(w);
            y = y + 1;
        }
        x = x + 1;
    }
    ProbabilityGrid { weights }
}


/// Cell `i` may still be chosen: it has not been hit.
pub open spec fn candidate(cells: Seq<Cell>, i: int) -> bool {
    cells[i] != Cell::Hit
}

/// Cell `b` is the first, in row-major order, of the unhit cells of highest
/// weight under `weights`, and that weight is positive.
pub open spec fn is_best(weights: spec_fn(int) -> int, cells: Seq<Cell>, b: int) -> bool {
    &&& 0 <= b < CELL_COUNT
    &&& candidate(cells, b)
    &&& weights(b) > 0
    &&& forall|j: int| 0 <= j < CELL_COUNT && candidate(cells, j) ==> weights(j) <= weights(b)
    &&& forall|j: int| 0 <= j < b && candidate(cells, j) ==> weights(j) < weights(b)
}

/// Every unhit cell has weight zero under `weights`.
pub open spec fn no_candidate(weights: spec_fn(int) -> int, cells: Seq<Cell>) -> bool {
    forall|j: int| 0 <= j < CELL_COUNT && candidate(cells, j) ==> weights(j) == 0
}

/// The weights held by a probability grid, by cell position.
pub open spec fn grid_weights(weights: Seq<u32>) -> spec_fn(int) -> int {
    |i: int| weights[i] as int
}

/// The weight of the cell at position `i`.
pub open spec fn weight_of_index(cells: Seq<Cell>, i: int) -> int {
    weight(cells, i / 10, i % 10) as int
}

/// The weights of all cells of a board, by cell position.
pub open spec fn board_weights(cells: Seq<Cell>) -> spec_fn(int) -> int {
    |i: int| weight_of_index(cells, i)
}

/// The position the probability strategy fires at on `cells`.
pub open spec fn probability_target(cells: Seq<Cell>) -> int {
    choose|b: int| is_best(board_weights(cells), cells, b)
}

/// At most one cell is the first of highest weight.
pub proof fn lemma_best_unique(weights: spec_fn(int) -> int, cells: Seq<Cell>, b1: int, b2: int)
    requires
        is_best(weights, cells, b1),
        is_best(weights, cells, b2),
    ensures
        b1 == b2,
{
}

/// The unhit cell of highest weight, the first in row-major order (lowest
/// `x`, then lowest `y`) among equals; `(0, 0)` when every unhit cell weighs
/// zero.
pub fn highest_probability_coords(probability_grid: &ProbabilityGrid, grid: &Grid) -> (r: (i32, i32))
    requires
        probability_grid.wf(),
        grid.wf(),
    ensures
        0 <= r.0 < 10 && 0 <= r.1 < 10,
        no_candidate(grid_weights(probability_grid@), grid@) ==> r == (0i32, 0i32),
        !no_candidate(grid_weights(probability_grid@), grid@) ==> is_best(grid_weights(probability_grid@), grid@, index_of(r.0 as int, r.1 as int)),
{
    let ghost w = probability_grid@;
    let ghost cells = grid@;
    let mut best_x: usize = 0;
    let mut best_y: usize = 0;
    let mut best: u32 = 0;
    let mut x: usize = 0;
    while x < GRID_SIZE
        invariant
            probability_grid.wf(),
            grid.wf(),
            w == probability_grid@,
            cells == grid@,
            x <= GRID_SIZE,
            in_grid(best_x as int, best_y as int),
            best == 0 ==> best_x == 0 && best_y == 0 && forall|j: int| 0 <= j < x * 10 && candidate(cells, j) ==> w[j] == 0,
            best > 0 ==> ({
                let b = index_of(best_x as int, best_y as int);
                &&& b < x * 10
                &&& candidate(cells, b)
                &&& w[b] == best
                &&& forall|j: int| 0 <= j < x * 10 && candidate(cells, j) ==> w[j] <= best
                &&& forall|j: int| 0 <= j < b && candidate(cells, j) ==> w[j] < best
            }),
        decreases GRID_SIZE - x,
    {
        let mut y: usize = 0;
        while y < GRID_SIZE
            invariant
                probability_grid.wf(),
                grid.wf(),
                w == probability_grid@,
                cells == grid@,
                x < GRID_SIZE,
                y <= GRID_SIZE,
                in_grid(best_x as int, best_y as int),
                best == 0 ==> best_x == 0 && best_y == 0 && forall|j: int| 0 <= j < x * 10 + y && candidate(cells, j) ==> w[j] == 0,
                best > 0 ==> ({
                    let b = index_of(best_x as int, best_y as int);
                    &&& b < x * 10 + y
                    &&& candidate(cells, b)
                    &&& w[b] == best
                    &&& forall|j: int| 0 <= j < x * 10 + y && candidate(cells, j) ==> w[j] <= best
                    &&& forall|j: int| 0 <= j < b && candidate(cells, j) ==> w[j] < best
                }),
            decreases GRID_SIZE - y,
        {
            let v = probability_grid.weight_at(x, y);
            if v > best && grid.cell_state(x, y) != Cell::Hit {
                best = v;
                best_x = x;
                best_y = y;
            }
            y = y + 1;
        }
        x = x + 1;
    }
    (best_x as i32, best_y as i32)
}

proof fn lemma_miss_runs_closed(cells: Seq<Cell>, x: int, y: int, len: usize, horizontal: bool, n: int)
    requires
        in_grid(x, y),
        cell_at(cells, x, y) == Cell::Miss,
        n <= len,
    ensures
        runs_through(cells, x, y, len, horizontal, n) == 0,
    decreases n,
{
    if n > 0 {
        lemma_miss_runs_closed(cells, x, y, len, horizontal, n - 1);
        let p = run_back(x, y, len, horizontal, n - 1);
        if open_run_back(cells, x, y, len, horizontal, n - 1) {
            assert(covers(p, x, y));
        }
    }
}

proof fn lemma_miss_weight_over(cells: Seq<Cell>, x: int, y: int, lens: Seq<usize>)
    requires
        in_grid(x, y),
        cell_at(cells, x, y) == Cell::Miss,
    ensures
        weight_over(cells, x, y, lens) == 0,
    decreases lens.len(),
{
    if lens.len() > 0 {
        lemma_miss_weight_over(cells, x, y, lens.drop_last());
        lemma_miss_runs_closed(cells, x, y, lens.last(), true, lens.last() as int);
        lemma_miss_runs_closed(cells, x, y, lens.last(), false, lens.last() as int);
    }
}

/// A miss weighs nothing: every run through it holds a miss.
pub proof fn lemma_miss_weight_zero(cells: Seq<Cell>, x: int, y: int)
    requires
        in_grid(x, y),
        cell_at(cells, x, y) == Cell::Miss,
    ensures
        weight(cells, x, y) == 0,
{
    lemma_miss_weight_over(cells, x, y, fleet());
}


proof fn lemma_pair_open(cells: Seq<Cell>, x: int, y: int, horizontal: bool, i: int)
    requires
        0 <= i <= 1,
        in_grid(x, y),
        ({
            let p = run_back(x, y, 2, horizontal, i);
            &&& (if horizontal { x - i >= 0 } else { y - i >= 0 })
            &&& within_grid(p)
            &&& forall|x2: int, y2: int| covers(p, x2, y2) ==> afloat_or_hit(#[trigger] cell_at(cells, x2, y2))
        }),
    ensures
        runs_through(cells, x, y, 2, horizontal, 2) >= 1,
{
    let p = run_back(x, y, 2, horizontal, i);
    assert forall|x2: int, y2: int| in_grid(x2, y2) && covers(p, x2, y2) implies #[trigger] cell_at(cells, x2, y2) != Cell::Miss by {
        assert(afloat_or_hit(cell_at(cells, x2, y2)));
    }
    assert(open_run_back(cells, x, y, 2, horizontal, i));
    assert(runs_through(cells, x, y, 2, horizontal, 1) == runs_through(cells, x, y, 2, horizontal, 0) + if open_run_back(cells, x, y, 2, horizontal, 0) { 1nat } else { 0nat });
}

/// A ship cell next to another ship or hit cell has positive weight: the
/// two-cell run over both holds no miss.
pub proof fn lemma_partnered_weight_positive(cells: Seq<Cell>, x: int, y: int)
    requires
        in_grid(x, y),
        cell_at(cells, x, y) == Cell::Ship,
        has_partner(cells, x, y),
    ensures
        weight(cells, x, y) > 0,
{
    lemma_fleet_facts();
    let f = fleet();
    assert(f.last() == 2);
    if in_grid(x + 1, y) && afloat_or_hit(cell_at(cells, x + 1, y)) {
        lemma_pair_open(cells, x, y, true, 0);
    } else if in_grid(x - 1, y) && afloat_or_hit(cell_at(cells, x - 1, y)) {
        lemma_pair_open(cells, x, y, true, 1);
    } else if in_grid(x, y + 1) && afloat_or_hit(cell_at(cells, x, y + 1)) {
        lemma_pair_open(cells, x, y, false, 0);
    } else {
        lemma_pair_open(cells, x, y, false, 1);
    }
    assert(length_weight(cells, x, y, 2) >= 1);
}


proof fn lemma_runs_through_pos(cells: Seq<Cell>, x: int, y: int, len: usize, horizontal: bool, n: int, i: int)
    requires
        0 <= i < n,
        open_run_back(cells, x, y, len, horizontal, i),
    ensures
        runs_through(cells, x, y, len, horizontal, n) >= 1,
    decreases n,
{
    if i < n - 1 {
        lemma_runs_through_pos(cells, x, y, len, horizontal, n - 1, i);
    }
}

proof fn lemma_runs_through_witness(cells: Seq<Cell>, x: int, y: int, len: usize, horizontal: bool, n: int)
    requires
        runs_through(cells, x, y, len, horizontal, n) > 0,
    ensures
        exists|i: int| 0 <= i < n && open_run_back(cells, x, y, len, horizontal, i),
    decreases n,
{
    if n > 0 && !open_run_back(cells, x, y, len, horizontal, n - 1) {
        lemma_runs_through_witness(cells, x, y, len, horizontal, n - 1);
    }
}

proof fn lemma_weight_over_pos(cells: Seq<Cell>, x: int, y: int, lens: Seq<usize>, k: int)
    requires
        0 <= k < lens.len(),
        length_weight(cells, x, y, lens[k]) >= 1,
    ensures
        weight_over(cells, x, y, lens) >= 1,
    decreases lens.len(),
{
    if k < lens.len() - 1 {
        assert(lens.drop_last()[k] == lens[k]);
        lemma_weight_over_pos(cells, x, y, lens.drop_last(), k);
    }
}

proof fn lemma_weight_over_witness(cells: Seq<Cell>, x: int, y: int, lens: Seq<usize>)
    requires
        weight_over(cells, x, y, lens) > 0,
    ensures
        exists|k: int| 0 <= k < lens.len() && length_weight(cells, x, y, #[trigger] lens[k]) > 0,
    decreases lens.len(),
{
    if length_weight(cells, x, y, lens.last()) == 0 {
        lemma_weight_over_witness(cells, x, y, lens.drop_last());
        let k = choose|k: int| 0 <= k < lens.drop_last().len() && length_weight(cells, x, y, #[trigger] lens.drop_last()[k]) > 0;
        assert(lens.drop_last()[k] == lens[k]);
    } else {
        assert(length_weight(cells, x, y, lens[lens.len() - 1]) > 0);
    }
}

/// `p` has one of the fleet's lengths, covers `(x, y)`, lies on the board
/// and holds no miss.
pub open spec fn open_fleet_run(cells: Seq<Cell>, p: Placement, x: int, y: int) -> bool {
    &&& fleet().contains(p.len)
    &&& covers(p, x, y)
    &&& run_open(cells, p)
}

/// A cell weighs zero exactly when no run of a fleet length that covers it
/// lies on the board without a miss.
pub proof fn lemma_weight_zero_iff_no_open_run(cells: Seq<Cell>, x: int, y: int)
    requires
        in_grid(x, y),
    ensures
        weight(cells, x, y) == 0 <==> !exists|p: Placement| #[trigger] open_fleet_run(cells, p, x, y),
{
    if weight(cells, x, y) > 0 {
        lemma_weight_over_witness(cells, x, y, fleet());
        let k = choose|k: int| 0 <= k < fleet().len() && length_weight(cells, x, y, #[trigger] fleet()[k]) > 0;
        let len = fleet()[k];
        let h = runs_through(cells, x, y, len, true, len as int) > 0;
        lemma_runs_through_witness(cells, x, y, len, h, len as int);
        let i = choose|i: int| 0 <= i < len && open_run_back(cells, x, y, len, h, i);
        let p = run_back(x, y, len, h, i);
        assert(covers(p, x, y));
        assert(fleet().contains(len));
        assert(open_fleet_run(cells, p, x, y));
    }
    if exists|p: Placement| #[trigger] open_fleet_run(cells, p, x, y) {
        let p = choose|p: Placement| #[trigger] open_fleet_run(cells, p, x, y);
        let j = choose|j: int| 0 <= j < fleet().len() && fleet()[j] == p.len;
        let h = p.horizontal;
        let i = if h { x - p.x } else { y - p.y };
        assert(run_back(x, y, p.len, h, i) == p);
        assert(open_run_back(cells, x, y, p.len, h, i));
        lemma_runs_through_pos(cells, x, y, p.len, h, p.len as int, i);
        assert(length_weight(cells, x, y, fleet()[j]) >= 1);
        lemma_weight_over_pos(cells, x, y, fleet(), j);
    }
}

} // verus!
