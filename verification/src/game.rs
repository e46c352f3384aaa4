use rand::Rng;
use vstd::prelude::*;
use crate::cell::{Cell, CellDisplay};
use crate::counting::{count_mines, count_revealed, count_flagged_hidden, lemma_counts_le_len,
    lemma_counts_push, lemma_counts_update, lemma_counts_take_step, lemma_take_all};

verus! {

/// The board and the per-game flags. The grid is stored row by row in one
/// flat vector: the cell at column `x`, row `y` sits at index
/// `y * width + x`. `mines_left` is the player-facing counter: it is the
/// mine total minus the number of flagged hidden cells, and may go negative
/// when the player over-flags.
#[derive(Clone, Debug, PartialEq)]
pub struct GameState {
    pub grid: Vec<Cell>,
    pub game_over: bool,
    pub game_won: bool,
    pub width: usize,
    pub height: usize,
    pub mines_count: usize,
    pub mines_left: i32,
}

/// The one rejected input: a board configuration whose mine count does not
/// leave at least one safe cell, or whose area does not fit the counters.
#[derive(Clone, Copy, Debug, PartialEq, Eq, Structural)]
pub enum ConfigError {
    InvalidConfiguration,
}

/// A configuration can be built exactly when at least one cell stays free
/// and the cell total fits the signed 32-bit counters.
pub open spec fn valid_config(width: int, height: int, mines: int) -> bool {
    mines < width * height && width * height <= i32::MAX
}

pub open spec fn in_bounds(s: GameState, x: int, y: int) -> bool {
    0 <= x < s.width && 0 <= y < s.height
}

pub open spec fn gidx(s: GameState, x: int, y: int) -> int {
    y * s.width + x
}

pub open spec fn cell_at(s: GameState, x: int, y: int) -> Cell {
    s.grid@[gidx(s, x, y)]
}

/// The cell at column `x`, row `y` of a row-major grid of width `w`.
pub open spec fn cell_in(g: Seq<Cell>, w: int, x: int, y: int) -> Cell {
    g[y * w + x]
}

/// 1 when the cell at column `x`, row `y` of a `w` by `h` grid is a mine,
/// 0 when it is empty or the coordinates leave the grid.
pub open spec fn mine_at(g: Seq<Cell>, w: int, h: int, x: int, y: int) -> nat {
    if 0 <= x < w && 0 <= y < h && g[y * w + x].is_mine {
        1nat
    } else {
        0nat
    }
}

/// The true number of mines among the up-to-8 neighbors (Chebyshev
/// distance 1) of the cell at column `x`, row `y`.
pub open spec fn spec_adjacent(g: Seq<Cell>, w: int, h: int, x: int, y: int) -> nat {
    mine_at(g, w, h, x - 1, y - 1) + mine_at(g, w, h, x, y - 1) + mine_at(g, w, h, x + 1, y - 1)
        + mine_at(g, w, h, x - 1, y) + mine_at(g, w, h, x + 1, y) + mine_at(g, w, h, x - 1, y + 1)
        + mine_at(g, w, h, x, y + 1) + mine_at(g, w, h, x + 1, y + 1)
}

/// Structural soundness of a state: the grid has `width * height` cells,
/// exactly `mines_count` of them are mines, every adjacency cache is the
/// true neighbor count, and the player-facing counter agrees with the
/// flags. All constructors establish this and every operation keeps it.
pub open spec fn wf(s: GameState) -> bool {
    &&& s.width * s.height <= i32::MAX
    &&& s.grid@.len() == s.width * s.height
    &&& count_mines(s.grid@) == s.mines_count
    &&& forall|x: int, y: int|
        in_bounds(s, x, y) ==> (#[trigger] cell_at(s, x, y)).adjacent_mines as int
            == spec_adjacent(s.grid@, s.width as int, s.height as int, x, y)
    &&& s.mines_left == s.mines_count - count_flagged_hidden(s.grid@)
}

/// Distinct cells within Chebyshev distance 1 of each other.
pub open spec fn adjacent8(x1: int, y1: int, x2: int, y2: int) -> bool {
    !(x1 == x2 && y1 == y2) && -1 <= x2 - x1 <= 1 && -1 <= y2 - y1 <= 1
}

/// A cell through which the reveal cascade keeps going: in bounds, not a
/// mine, and with no mine among its neighbors.
pub open spec fn expands(s: GameState, x: int, y: int) -> bool {
    in_bounds(s, x, y) && !cell_at(s, x, y).is_mine && cell_at(s, x, y).adjacent_mines == 0
}

pub open spec fn neighbors_revealed(s: GameState, x: int, y: int) -> bool {
    forall|a: int, b: int|
        adjacent8(x, y, a, b) && in_bounds(s, a, b) ==> (#[trigger] cell_at(s, a, b)).is_revealed
}

/// No reveal cascade has been left half done: whenever a revealed cell
/// would keep the cascade going, its neighbors are revealed too. Fresh
/// boards satisfy this vacuously and `reveal_cell` restores it.
pub open spec fn closed(s: GameState) -> bool {
    forall|x: int, y: int|
        #[trigger] expands(s, x, y) && cell_at(s, x, y).is_revealed ==> neighbors_revealed(s, x, y)
}

/// A board as construction hands it out: the asked-for dimensions and mine
/// total, everything hidden and unflagged, the game still running.
pub open spec fn fresh_board(s: GameState, width: int, height: int, mines: int) -> bool {
    &&& wf(s)
    &&& closed(s)
    &&& s.width == width
    &&& s.height == height
    &&& s.mines_count == mines
    &&& !s.game_over
    &&& !s.game_won
    &&& s.mines_left == mines
    &&& forall|i: int|
        0 <= i < s.grid@.len() ==> !(#[trigger] s.grid@[i]).is_revealed && !s.grid@[i].is_flagged
}

/// In a `w` by `h` grid, row-major indexing keeps in-bounds coordinates
/// inside the cell total.
pub proof fn lemma_gidx_in_grid(x: int, y: int, w: int, h: int)
    by (nonlinear_arith)
    requires
        0 <= x < w,
        0 <= y < h,
    ensures
        0 <= y * w + x < w * h,
        y * w + x <= (h - 1) * w + (w - 1),
{
}

/// Distinct in-bounds coordinates occupy distinct flat indices.
pub proof fn lemma_gidx_injective(x1: int, y1: int, x2: int, y2: int, w: int, h: int)
    by (nonlinear_arith)
    requires
        0 <= x1 < w,
        0 <= y1 < h,
        0 <= x2 < w,
        0 <= y2 < h,
        !(x1 == x2 && y1 == y2),
    ensures
        y1 * w + x1 != y2 * w + x2,
{
}

/// The neighbor count reads only the mine bits: two grids that agree on
/// every cell's `is_mine` agree on every neighbor count.
pub proof fn lemma_adjacent_same_mines(g1: Seq<Cell>, g2: Seq<Cell>, w: int, h: int, x: int, y: int)
    requires
        g1.len() == g2.len(),
        forall|i: int| 0 <= i < g1.len() ==> (#[trigger] g1[i]).is_mine == g2[i].is_mine,
        g1.len() == w * h,
        0 <= w,
        0 <= h,
    ensures
        spec_adjacent(g1, w, h, x, y) == spec_adjacent(g2, w, h, x, y),
{
    assert forall|a: int, b: int| mine_at(g1, w, h, a, b) == mine_at(g2, w, h, a, b) by {
        if 0 <= a < w && 0 <= b < h {
            lemma_gidx_in_grid(a, b, w, h);
            assert(g1[b * w + a].is_mine == g2[b * w + a].is_mine);
        }
    }
}

/// Soundness of a state does not read the two game flags: it carries over
/// to any state with the same board and counters.
pub proof fn lemma_wf_same_board(s1: GameState, s2: GameState)
    requires
        s1.grid@ == s2.grid@,
        s1.width == s2.width,
        s1.height == s2.height,
        s1.mines_count == s2.mines_count,
        s1.mines_left == s2.mines_left,
        wf(s1),
    ensures
        wf(s2),
{
    assert forall|x: int, y: int|
        in_bounds(s2, x, y) implies (#[trigger] cell_at(s2, x, y)).adjacent_mines as int
        == spec_adjacent(s2.grid@, s2.width as int, s2.height as int, x, y) by {
        assert(cell_at(s2, x, y) == cell_at(s1, x, y));
        assert(in_bounds(s1, x, y));
    }
}

/// Closedness of a state does not read the two game flags either.
pub proof fn lemma_closed_same_board(s1: GameState, s2: GameState)
    requires
        s1.grid@ == s2.grid@,
        s1.width == s2.width,
        s1.height == s2.height,
        closed(s1),
    ensures
        closed(s2),
{
    assert forall|x: int, y: int|
        #[trigger] expands(s2, x, y) && cell_at(s2, x, y).is_revealed implies neighbors_revealed(
        s2,
        x,
        y,
    ) by {
        assert(cell_at(s2, x, y) == cell_at(s1, x, y));
        assert(expands(s1, x, y));
        assert(neighbors_revealed(s1, x, y));
        assert forall|a: int, b: int|
            adjacent8(x, y, a, b) && in_bounds(s2, a, b) implies (#[trigger] cell_at(
            s2,
            a,
            b,
        )).is_revealed by {
            assert(cell_at(s1, a, b).is_revealed);
        }
    }
}

/// Relies on rand::Rng::gen_range, called on rand::thread_rng with the
/// half-open range `0..n`: for a non-empty range it returns a uniformly
/// drawn value inside the range, and panics only on an empty one.
#[verifier::external_body]
fn random_below(n: usize) -> (r: usize)
    requires
        n > 0,
    ensures
        r < n,
{
    rand::thread_rng().gen_range(0..n)
}

/// The index of the cell holding the `r`-th (0-based) non-mine cell of the
/// grid, in row-major order.
fn nth_free_index(grid: &Vec<Cell>, r: usize) -> (idx: usize)
    requires
        r + count_mines(grid@) < grid@.len(),
    ensures
        idx < grid@.len(),
        !grid@[idx as int].is_mine,
        idx as int - count_mines(grid@.take(idx as int)) == r,
{
    let n: usize = grid.len();
    let mut i: usize = 0;
    let mut seen: usize = 0;
    while i < n
        invariant
            i <= n,
            n == grid@.len(),
            seen <= r,
            r + count_mines(grid@) < n,
            seen as int == i - count_mines(grid@.take(i as int)),
        decreases n - i,
    {
        proof {
            lemma_counts_take_step(grid@, i as int);
        }
        if !grid[i].is_mine {
            if seen == r {
                return i;
            }
            seen = seen + 1;
        }
        i = i + 1;
    }
    proof {
        lemma_take_all(grid@);
    }
    vstd::pervasive::unreached()
}

impl GameState {
    /// Counts the mines among the up-to-8 in-bounds neighbors of the cell
    /// at column `x`, row `y`; the grid is read row-major.
    pub fn count_adjacent_mines(grid: &Vec<Cell>, x: usize, y: usize, width: usize, height: usize) -> (r: u8)
        requires
            grid@.len() == width * height,
            x < width,
            y < height,
        ensures
            r as int == spec_adjacent(grid@, width as int, height as int, x as int, y as int),
    {
        let _grid_len: usize = grid.len();
        proof {
            let w: int = width as int;
            let h: int = height as int;
            let xx: int = x as int;
            let yy: int = y as int;
            lemma_gidx_in_grid(xx, yy, w, h);
            if xx > 0 && yy > 0 {
                lemma_gidx_in_grid(xx - 1, yy - 1, w, h);
            }
            if yy > 0 {
                lemma_gidx_in_grid(xx, yy - 1, w, h);
            }
            if xx + 1 < w && yy > 0 {
                lemma_gidx_in_grid(xx + 1, yy - 1, w, h);
            }
            if xx > 0 {
                lemma_gidx_in_grid(xx - 1, yy, w, h);
            }
            if xx + 1 < w {
                lemma_gidx_in_grid(xx + 1, yy, w, h);
            }
            if xx > 0 && yy + 1 < h {
                lemma_gidx_in_grid(xx - 1, yy + 1, w, h);
            }
            if yy + 1 < h {
                lemma_gidx_in_grid(xx, yy + 1, w, h);
            }
            if xx + 1 < w && yy + 1 < h {
                lemma_gidx_in_grid(xx + 1, yy + 1, w, h);
            }
        }
        let mut count: u8 = 0;
        if x > 0 && y > 0 && grid[(y - 1) * width + (x - 1)].is_mine {
            count = count + 1;
        }
        if y > 0 && grid[(y - 1) * width + x].is_mine {
            count = count + 1;
        }
        if x + 1 < width && y > 0 && grid[(y - 1) * width + (x + 1)].is_mine {
            count = count + 1;
        }
        if x > 0 && grid[y * width + (x - 1)].is_mine {
            count = count + 1;
        }
        if x + 1 < width && grid[y * width + (x + 1)].is_mine {
            count = count + 1;
        }
        if x > 0 && y + 1 < height && grid[(y + 1) * width + (x - 1)].is_mine {
            count = count + 1;
        }
        if y + 1 < height && grid[(y + 1) * width + x].is_mine {
            count = count + 1;
        }
        if x + 1 < width && y + 1 < height && grid[(y + 1) * width + (x + 1)].is_mine {
            count = count + 1;
        }
        count
    }

    /// Builds a fresh board: a `width` by `height` grid of hidden, unflagged
    /// cells, `mines_count` mines placed by uniform random sampling over the
    /// cells still free, and every adjacency count precomputed in one pass.
    pub fn new(width: usize, height: usize, mines_count: usize) -> (s: GameState)
        requires
            valid_config(width as int, height as int, mines_count as int),
        ensures
            fresh_board(s, width as int, height as int, mines_count as int),
    {
        let total: usize = width * height;
        let blank = Cell { is_mine: false, is_flagged: false, is_revealed: false, adjacent_mines: 0 };
        let mut grid: Vec<Cell> = Vec::new();
        let mut k: usize = 0;
        while k < total
            invariant
                k <= total,
                blank == (Cell { is_mine: false, is_flagged: false, is_revealed: false, adjacent_mines: 0u8 }),
                grid@.len() == k,
                count_mines(grid@) == 0,
                count_revealed(grid@) == 0,
                count_flagged_hidden(grid@) == 0,
                forall|i: int|
                    0 <= i < k ==> !(#[trigger] grid@[i]).is_revealed && !grid@[i].is_flagged
                        && !grid@[i].is_mine,
            decreases total - k,
        {
            let ghost g0 = grid@;
            proof {
                lemma_counts_push(grid@, blank);
            }
            grid.push(blank);
            proof {
                assert forall|i: int|
                    0 <= i < k + 1 implies !(#[trigger] grid@[i]).is_revealed
                    && !grid@[i].is_flagged && !grid@[i].is_mine by {
                    let c = if i < k { g0[i] } else { blank };
                    assert(grid@[i] == c);
                }
            }
            k = k + 1;
        }

        let mut placed: usize = 0;
        while placed < mines_count
            invariant
                placed <= mines_count,
                mines_count < total,
                grid@.len() == total,
                count_mines(grid@) == placed,
                count_revealed(grid@) == 0,
                count_flagged_hidden(grid@) == 0,
                forall|i: int|
                    0 <= i < grid@.len() ==> !(#[trigger] grid@[i]).is_revealed
                        && !grid@[i].is_flagged,
            decreases mines_count - placed,
        {
            let r: usize = random_below(total - placed);
            let idx: usize = nth_free_index(&grid, r);
            let mut c: Cell = grid[idx];
            c.is_mine = true;
            proof {
                lemma_counts_update(grid@, idx as int, c);
            }
            grid.set(idx, c);
            placed = placed + 1;
        }

        let ghost mined = grid@;
        let mut y: usize = 0;
        let mut k2: usize = 0;
        while y < height
            invariant
                y <= height,
                k2 == y * width,
                k2 <= total,
                total == width * height,
                grid@.len() == total,
                grid@.len() == mined.len(),
                count_mines(grid@) == mines_count,
                count_revealed(grid@) == 0,
                count_flagged_hidden(grid@) == 0,
                forall|i: int| 0 <= i < grid@.len() ==> (#[trigger] grid@[i]).is_mine == mined[i].is_mine,
                forall|i: int|
                    0 <= i < grid@.len() ==> !(#[trigger] grid@[i]).is_revealed
                        && !grid@[i].is_flagged,
                forall|a: int, b: int|
                    0 <= a < width && 0 <= b < height && b * width + a < k2
                        ==> (#[trigger] cell_in(grid@, width as int, a, b)).adjacent_mines as int
                            == spec_adjacent(grid@, width as int, height as int, a, b),
            decreases height - y,
        {
            let mut x: usize = 0;
            while x < width
                invariant
                    x <= width,
                    y < height,
                    k2 == y * width + x,
                    k2 <= total,
                    total == width * height,
                    grid@.len() == total,
                    grid@.len() == mined.len(),
                    count_mines(grid@) == mines_count,
                    count_revealed(grid@) == 0,
                    count_flagged_hidden(grid@) == 0,
                    forall|i: int| 0 <= i < grid@.len() ==> (#[trigger] grid@[i]).is_mine == mined[i].is_mine,
                    forall|i: int|
                        0 <= i < grid@.len() ==> !(#[trigger] grid@[i]).is_revealed
                            && !grid@[i].is_flagged,
                    forall|a: int, b: int|
                        0 <= a < width && 0 <= b < height && b * width + a < k2
                            ==> (#[trigger] cell_in(grid@, width as int, a, b)).adjacent_mines as int
                                == spec_adjacent(grid@, width as int, height as int, a, b),
                decreases width - x,
            {
                proof {
                    lemma_gidx_in_grid(x as int, y as int, width as int, height as int);
                }
                let adj: u8 = Self::count_adjacent_mines(&grid, x, y, width, height);
                let mut c: Cell = grid[k2];
                c.adjacent_mines = adj;
                proof {
                    lemma_counts_update(grid@, k2 as int, c);
                }
                let ghost before = grid@;
                grid.set(k2, c);
                proof {
                    assert forall|a: int, b: int|
                        0 <= a < width && 0 <= b < height implies spec_adjacent(grid@,
                        width as int, height as int, a, b) == spec_adjacent(before, width as int,
                        height as int, a, b) by {
                        lemma_adjacent_same_mines(grid@, before, width as int, height as int, a, b);
                    }
                    assert forall|a: int, b: int|
                        0 <= a < width && 0 <= b < height && b * width + a < k2 + 1 implies (
                    #[trigger] cell_in(grid@, width as int, a, b)).adjacent_mines as int
                        == spec_adjacent(grid@, width as int, height as int, a, b) by {
                        lemma_gidx_in_grid(a, b, width as int, height as int);
                        if b * width + a < k2 {
                            lemma_gidx_injective(a, b, x as int, y as int, width as int, height as int);
                            assert(cell_in(grid@, width as int, a, b) == cell_in(before, width as int, a, b));
                        } else {
                            assert(b * width + a == k2);
                            if !(a == x as int && b == y as int) {
                                lemma_gidx_injective(a, b, x as int, y as int, width as int,
                                    height as int);
                                assert(false);
                            }
                        }
                    }
                }
                k2 = k2 + 1;
                x = x + 1;
            }
            proof {
                assert(y * width + width == (y + 1) * width) by (nonlinear_arith);
            }
            y = y + 1;
        }

        let s = GameState {
            grid,
            game_over: false,
            game_won: false,
            width,
            height,
            mines_count,
            mines_left: mines_count as i32,
        };
        proof {
            assert((height as int) * (width as int) == (width as int) * (height as int))
                by (nonlinear_arith);
            assert forall|a: int, b: int| in_bounds(s, a, b) implies (#[trigger] cell_at(s, a, b)).adjacent_mines as int
                == spec_adjacent(s.grid@, s.width as int, s.height as int, a, b) by {
                lemma_gidx_in_grid(a, b, width as int, height as int);
                assert(b * width + a < k2);
                assert(cell_at(s, a, b) == cell_in(s.grid@, width as int, a, b));
            }
            assert forall|a: int, b: int|
                #[trigger] expands(s, a, b) && cell_at(s, a, b).is_revealed implies neighbors_revealed(s, a, b) by {
                lemma_gidx_in_grid(a, b, width as int, height as int);
            }
        }
        s
    }

    /// Checks the configuration and builds a fresh board, rejecting a mine
    /// count that does not leave at least one free cell (such a board could
    /// never be filled) and an area beyond the signed 32-bit counters.
    pub fn try_new(width: usize, height: usize, mines_count: usize) -> (r: Result<GameState, ConfigError>)
        ensures
            r is Ok <==> valid_config(width as int, height as int, mines_count as int),
            r is Ok ==> fresh_board(r->Ok_0, width as int, height as int, mines_count as int),
            r is Err ==> r->Err_0 == ConfigError::InvalidConfiguration,
    {
        proof {
            assert((width as u128) * (height as u128) == (width as int) * (height as int)
                && (width as u128) * (height as u128) <= u128::MAX) by (nonlinear_arith)
                requires width <= u64::MAX, height <= u64::MAX;
        }
        if (width as u128) * (height as u128) > i32::MAX as u128 {
            return Err(ConfigError::InvalidConfiguration);
        }
        let total: usize = width * height;
        if mines_count >= total {
            return Err(ConfigError::InvalidConfiguration);
        }
        Ok(Self::new(width, height, mines_count))
    }

    /// Counts the revealed cells of the whole grid.
    pub fn count_revealed_cells(&self) -> (r: usize)
        ensures
            r == count_revealed(self.grid@),
    {
        let n: usize = self.grid.len();
        let mut i: usize = 0;
        let mut seen: usize = 0;
        while i < n
            invariant
                i <= n,
                n == self.grid@.len(),
                seen == count_revealed(self.grid@.take(i as int)),
            decreases n - i,
        {
            proof {
                lemma_counts_take_step(self.grid@, i as int);
                lemma_counts_le_len(self.grid@.take(i as int));
            }
            if self.grid[i].is_revealed {
                seen = seen + 1;
            }
            i = i + 1;
        }
        proof {
            lemma_take_all(self.grid@);
        }
        seen
    }

    /// What the rendering layer should draw for the cell at column `x`,
    /// row `y`.
    pub fn cell_display(&self, x: usize, y: usize) -> (r: CellDisplay)
        requires
            wf(*self),
            x < self.width,
            y < self.height,
        ensures
            r == spec_display(cell_at(*self, x as int, y as int)),
    {
        proof {
            lemma_gidx_in_grid(x as int, y as int, self.width as int, self.height as int);
        }
        let _grid_len: usize = self.grid.len();
        let c: Cell = self.grid[y * self.width + x];
        if c.is_revealed {
            if c.is_mine {
                CellDisplay::RevealedMine
            } else {
                CellDisplay::RevealedNumber(c.adjacent_mines)
            }
        } else if c.is_flagged {
            CellDisplay::HiddenFlagged
        } else {
            CellDisplay::HiddenUnflagged
        }
    }

    /// Sets or clears the flag on the hidden cell at column `x`, row `y`
    /// and moves the remaining-mines counter the other way. A revealed
    /// cell, or a game already won or lost, is left untouched.
    pub fn toggle_flag(&mut self, x: usize, y: usize)
        requires
            wf(*old(self)),
            closed(*old(self)),
            x < old(self).width,
            y < old(self).height,
        ensures
            wf(*final(self)),
            closed(*final(self)),
            toggle_rel(*old(self), *final(self), x as int, y as int),
    {
        let ghost pre = *self;
        proof {
            lemma_gidx_in_grid(x as int, y as int, self.width as int, self.height as int);
            lemma_counts_le_len(self.grid@);
        }
        if self.game_over || self.game_won {
            return;
        }
        let _grid_len: usize = self.grid.len();
        let ci: usize = y * self.width + x;
        let mut c: Cell = self.grid[ci];
        if c.is_revealed {
            return;
        }
        let was_flagged: bool = c.is_flagged;
        c.is_flagged = !was_flagged;
        let ghost gb = self.grid@;
        proof {
            lemma_counts_update(gb, ci as int, c);
        }
        self.grid.set(ci, c);
        proof {
            lemma_counts_le_len(self.grid@);
        }
        if was_flagged {
            self.mines_left = self.mines_left + 1;
        } else {
            self.mines_left = self.mines_left - 1;
        }
        proof {
            let w: int = pre.width as int;
            let h: int = pre.height as int;
            assert forall|a: int, b: int|
                in_bounds(*self, a, b) implies (#[trigger] cell_at(*self, a, b)).adjacent_mines as int
                == spec_adjacent(self.grid@, w, h, a, b) by {
                lemma_gidx_in_grid(a, b, w, h);
                lemma_adjacent_same_mines(self.grid@, pre.grid@, w, h, a, b);
                assert(cell_at(pre, a, b).adjacent_mines as int == spec_adjacent(pre.grid@, w, h, a, b));
            }
            assert(wf(*self));
            assert forall|a: int, b: int|
                #[trigger] expands(*self, a, b) && cell_at(*self, a, b).is_revealed
                implies neighbors_revealed(*self, a, b) by {
                lemma_gidx_in_grid(a, b, w, h);
                assert(cell_at(*self, a, b) == cell_at(pre, a, b) || cell_at(*self, a, b) == c);
                assert(expands(pre, a, b) && cell_at(pre, a, b).is_revealed);
                assert(neighbors_revealed(pre, a, b));
                assert forall|e: int, f: int|
                    adjacent8(a, b, e, f) && in_bounds(*self, e, f) implies (#[trigger] cell_at(
                    *self,
                    e,
                    f,
                )).is_revealed by {
                    lemma_gidx_in_grid(e, f, w, h);
                    assert(cell_at(pre, e, f).is_revealed);
                }
            }
        }
    }

    /// Recomputes from the raw cells everything `wf` and `closed` state —
    /// the mine total, every neighbor count, the counter, and that no
    /// cascade is half done — and says whether the state passes. Meant for
    /// a state restored from the outside: operations may only be called on
    /// a state this accepts.
    pub fn is_well_formed(&self) -> (r: bool)
        ensures
            r == (wf(*self) && closed(*self)),
    {
        let w: usize = self.width;
        let h: usize = self.height;
        proof {
            assert((w as u128) * (h as u128) == (w as int) * (h as int) && (w as u128) * (
            h as u128) <= u128::MAX) by (nonlinear_arith)
                requires w <= u64::MAX, h <= u64::MAX;
        }
        if (w as u128) * (h as u128) > i32::MAX as u128 {
            return false;
        }
        let total: usize = w * h;
        if self.grid.len() != total {
            return false;
        }
        let mut i: usize = 0;
        let mut mines: usize = 0;
        let mut flagged_hidden: usize = 0;
        while i < total
            invariant
                i <= total,
                total == self.grid@.len(),
                mines == count_mines(self.grid@.take(i as int)),
                flagged_hidden == count_flagged_hidden(self.grid@.take(i as int)),
            decreases total - i,
        {
            proof {
                lemma_counts_take_step(self.grid@, i as int);
                lemma_counts_le_len(self.grid@.take(i as int));
            }
            let c: Cell = self.grid[i];
            if c.is_mine {
                mines = mines + 1;
            }
            if c.is_flagged && !c.is_revealed {
                flagged_hidden = flagged_hidden + 1;
            }
            i = i + 1;
        }
        proof {
            lemma_take_all(self.grid@);
            lemma_counts_le_len(self.grid@);
        }
        if mines != self.mines_count {
            return false;
        }
        if self.mines_left != self.mines_count as i32 - flagged_hidden as i32 {
            return false;
        }
        let mut y: usize = 0;
        while y < h
            invariant
                y <= h,
                w == self.width,
                h == self.height,
                total == self.grid@.len(),
                total == w * h,
                forall|a: int, b: int|
                    0 <= a < w && 0 <= b < y ==> (#[trigger] cell_in(self.grid@, w as int, a, b)).adjacent_mines as int
                        == spec_adjacent(self.grid@, w as int, h as int, a, b),
            decreases h - y,
        {
            let mut x: usize = 0;
            while x < w
                invariant
                    x <= w,
                    y < h,
                    w == self.width,
                    h == self.height,
                    total == self.grid@.len(),
                    total == w * h,
                    forall|a: int, b: int|
                        0 <= a < w && 0 <= b < y ==> (#[trigger] cell_in(self.grid@, w as int, a, b)).adjacent_mines as int
                            == spec_adjacent(self.grid@, w as int, h as int, a, b),
                    forall|a: int|
                        0 <= a < x ==> (#[trigger] cell_in(self.grid@, w as int, a, y as int)).adjacent_mines as int
                            == spec_adjacent(self.grid@, w as int, h as int, a, y as int),
                decreases w - x,
            {
                proof {
                    lemma_gidx_in_grid(x as int, y as int, w as int, h as int);
                }
                let expect: u8 = Self::count_adjacent_mines(&self.grid, x, y, w, h);
                if self.grid[y * w + x].adjacent_mines != expect {
                    proof {
                        assert(cell_at(*self, x as int, y as int).adjacent_mines as int
                            != spec_adjacent(self.grid@, w as int, h as int, x as int, y as int));
                    }
                    return false;
                }
                x = x + 1;
            }
            y = y + 1;
        }
        proof {
            assert forall|a: int, b: int|
                in_bounds(*self, a, b) implies (#[trigger] cell_at(*self, a, b)).adjacent_mines as int
                == spec_adjacent(self.grid@, w as int, h as int, a, b) by {
                assert(cell_at(*self, a, b) == cell_in(self.grid@, w as int, a, b));
            }
            assert(wf(*self));
        }
        let mut y2: usize = 0;
        while y2 < h
            invariant
                y2 <= h,
                w == self.width,
                h == self.height,
                total == self.grid@.len(),
                total == w * h,
                wf(*self),
                forall|a: int, b: int|
                    0 <= a < w && 0 <= b < y2 && #[trigger] expands(*self, a, b) && cell_at(
                        *self,
                        a,
                        b,
                    ).is_revealed ==> neighbors_revealed(*self, a, b),
            decreases h - y2,
        {
            let mut x2: usize = 0;
            while x2 < w
                invariant
                    x2 <= w,
                    y2 < h,
                    w == self.width,
                    h == self.height,
                    total == self.grid@.len(),
                    total == w * h,
                    wf(*self),
                    forall|a: int, b: int|
                        0 <= a < w && 0 <= b < y2 && #[trigger] expands(*self, a, b) && cell_at(
                            *self,
                            a,
                            b,
                        ).is_revealed ==> neighbors_revealed(*self, a, b),
                    forall|a: int|
                        0 <= a < x2 && #[trigger] expands(*self, a, y2 as int) && cell_at(
                            *self,
                            a,
                            y2 as int,
                        ).is_revealed ==> neighbors_revealed(*self, a, y2 as int),
                decreases w - x2,
            {
                proof {
                    lemma_gidx_in_grid(x2 as int, y2 as int, w as int, h as int);
                }
                let c: Cell = self.grid[y2 * w + x2];
                if c.is_revealed && !c.is_mine && c.adjacent_mines == 0 {
                    if !self.neighbors_all_revealed(x2, y2) {
                        proof {
                            assert(expands(*self, x2 as int, y2 as int));
                            assert(cell_at(*self, x2 as int, y2 as int).is_revealed);
                        }
                        return false;
                    }
                } else {
                    proof {
                        assert(!expands(*self, x2 as int, y2 as int) || !cell_at(
                            *self,
                            x2 as int,
                            y2 as int,
                        ).is_revealed);
                    }
                }
                x2 = x2 + 1;
            }
            y2 = y2 + 1;
        }
        true
    }

    /// Checks that every in-bounds neighbor of the cell at column `x`,
    /// row `y` is revealed.
    fn neighbors_all_revealed(&self, x: usize, y: usize) -> (r: bool)
        requires
            wf(*self),
            x < self.width,
            y < self.height,
        ensures
            r == neighbors_revealed(*self, x as int, y as int),
    {
        let w: usize = self.width;
        let h: usize = self.height;
        let _grid_len: usize = self.grid.len();
        proof {
            let ww: int = w as int;
            let hh: int = h as int;
            let xx: int = x as int;
            let yy: int = y as int;
            lemma_gidx_in_grid(xx, yy, ww, hh);
            if xx > 0 && yy > 0 {
                lemma_gidx_in_grid(xx - 1, yy - 1, ww, hh);
            }
            if yy > 0 {
                lemma_gidx_in_grid(xx, yy - 1, ww, hh);
            }
            if xx + 1 < ww && yy > 0 {
                lemma_gidx_in_grid(xx + 1, yy - 1, ww, hh);
            }
            if xx > 0 {
                lemma_gidx_in_grid(xx - 1, yy, ww, hh);
            }
            if xx + 1 < ww {
                lemma_gidx_in_grid(xx + 1, yy, ww, hh);
            }
            if xx > 0 && yy + 1 < hh {
                lemma_gidx_in_grid(xx - 1, yy + 1, ww, hh);
            }
            if yy + 1 < hh {
                lemma_gidx_in_grid(xx, yy + 1, ww, hh);
            }
            if xx + 1 < ww && yy + 1 < hh {
                lemma_gidx_in_grid(xx + 1, yy + 1, ww, hh);
            }
        }
        if x > 0 && y > 0 && !self.grid[(y - 1) * w + (x - 1)].is_revealed {
            proof {
                assert(!cell_at(*self, x as int - 1, y as int - 1).is_revealed);
            }
            return false;
        }
        if y > 0 && !self.grid[(y - 1) * w + x].is_revealed {
            proof {
                assert(!cell_at(*self, x as int, y as int - 1).is_revealed);
            }
            return false;
        }
        if x + 1 < w && y > 0 && !self.grid[(y - 1) * w + (x + 1)].is_revealed {
            proof {
                assert(!cell_at(*self, x as int + 1, y as int - 1).is_revealed);
            }
            return false;
        }
        if x > 0 && !self.grid[y * w + (x - 1)].is_revealed {
            proof {
                assert(!cell_at(*self, x as int - 1, y as int).is_revealed);
            }
            return false;
        }
        if x + 1 < w && !self.grid[y * w + (x + 1)].is_revealed {
            proof {
                assert(!cell_at(*self, x as int + 1, y as int).is_revealed);
            }
            return false;
        }
        if x > 0 && y + 1 < h && !self.grid[(y + 1) * w + (x - 1)].is_revealed {
            proof {
                assert(!cell_at(*self, x as int - 1, y as int + 1).is_revealed);
            }
            return false;
        }
        if y + 1 < h && !self.grid[(y + 1) * w + x].is_revealed {
            proof {
                assert(!cell_at(*self, x as int, y as int + 1).is_revealed);
            }
            return false;
        }
        if x + 1 < w && y + 1 < h && !self.grid[(y + 1) * w + (x + 1)].is_revealed {
            proof {
                assert(!cell_at(*self, x as int + 1, y as int + 1).is_revealed);
            }
            return false;
        }
        proof {
            assert forall|a: int, b: int|
                adjacent8(x as int, y as int, a, b) && in_bounds(*self, a, b)
                implies (#[trigger] cell_at(*self, a, b)).is_revealed by {
                lemma_gidx_in_grid(a, b, w as int, h as int);
            }
        }
        true
    }
}

/// The flag bit flipped, everything else kept.
pub open spec fn flip_flag(c: Cell) -> Cell {
    Cell { is_flagged: !c.is_flagged, ..c }
}

/// How a flag toggle at column `x`, row `y` turns the state `pre` into
/// `post`: a no-op once the game is over or won or on a revealed cell;
/// otherwise exactly the one flag bit flips and the remaining-mines
/// counter moves a step the other way.
pub open spec fn toggle_rel(pre: GameState, post: GameState, x: int, y: int) -> bool {
    &&& post.width == pre.width
    &&& post.height == pre.height
    &&& post.mines_count == pre.mines_count
    &&& post.game_over == pre.game_over
    &&& post.game_won == pre.game_won
    &&& if pre.game_over || pre.game_won || cell_at(pre, x, y).is_revealed {
        post.grid@ == pre.grid@ && post.mines_left == pre.mines_left
    } else {
        post.grid@ == pre.grid@.update(gidx(pre, x, y), flip_flag(cell_at(pre, x, y)))
            && post.mines_left == pre.mines_left + (if cell_at(pre, x, y).is_flagged {
            1int
        } else {
            -1int
        })
    }
}

/// What the rendering layer is told to draw for one cell.
pub open spec fn spec_display(c: Cell) -> CellDisplay {
    if c.is_revealed {
        if c.is_mine {
            CellDisplay::RevealedMine
        } else {
            CellDisplay::RevealedNumber(c.adjacent_mines)
        }
    } else if c.is_flagged {
        CellDisplay::HiddenFlagged
    } else {
        CellDisplay::HiddenUnflagged
    }
}

impl Default for GameState {
    /// The empty state a snapshot with no board decodes to: a zero-sized
    /// grid with no mines and the game still running.
    fn default() -> (s: GameState)
        ensures
            fresh_board(s, 0, 0, 0),
            s.grid@.len() == 0,
    {
        GameState {
            grid: Vec::new(),
            game_over: false,
            game_won: false,
            width: 0,
            height: 0,
            mines_count: 0,
            mines_left: 0,
        }
    }
}

} // verus!
