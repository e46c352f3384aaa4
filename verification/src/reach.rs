use vstd::prelude::*;
use crate::game::{GameState, adjacent8, cell_at, closed, expands, in_bounds, mine_at,
    neighbors_revealed, spec_adjacent, wf, lemma_gidx_in_grid};

verus! {

/// Cells the cascade started at column `x0`, row `y0` can arrive at in at
/// most `n` expansion steps: the starting cell itself, and every in-bounds
/// neighbor of an already-arrived-at cell through which the cascade keeps
/// going (in bounds, no mine, zero adjacency).
pub open spec fn reach_n(s: GameState, x0: int, y0: int, x: int, y: int, n: nat) -> bool
    decreases n,
{
    if n == 0 {
        x == x0 && y == y0
    } else {
        reach_n(s, x0, y0, x, y, (n - 1) as nat) || exists|c: int, d: int|
            reach_n(s, x0, y0, c, d, (n - 1) as nat) && #[trigger] expands(s, c, d) && adjacent8(
                c,
                d,
                x,
                y,
            ) && in_bounds(s, x, y)
    }
}

/// The region a reveal of column `x0`, row `y0` uncovers: the clicked cell
/// plus the connected zero-adjacency cells around it and their bordering
/// numbered cells.
pub open spec fn reach(s: GameState, x0: int, y0: int, x: int, y: int) -> bool {
    exists|n: nat| reach_n(s, x0, y0, x, y, n)
}

/// The clicked cell belongs to its own region.
pub proof fn lemma_reach_here(s: GameState, x0: int, y0: int)
    ensures
        reach(s, x0, y0, x0, y0),
{
    assert(reach_n(s, x0, y0, x0, y0, 0));
}

/// The region grows across any cell that keeps the cascade going: every
/// in-bounds neighbor of such a cell in the region is in the region.
pub proof fn lemma_reach_step(s: GameState, x0: int, y0: int, c: int, d: int, x: int, y: int)
    requires
        reach(s, x0, y0, c, d),
        expands(s, c, d),
        adjacent8(c, d, x, y),
        in_bounds(s, x, y),
    ensures
        reach(s, x0, y0, x, y),
{
    let n = choose|n: nat| reach_n(s, x0, y0, c, d, n);
    assert(reach_n(s, x0, y0, c, d, n) && expands(s, c, d) && adjacent8(c, d, x, y) && in_bounds(
        s,
        x,
        y,
    ));
    assert(reach_n(s, x0, y0, x, y, n + 1));
}

proof fn lemma_reach_n_in_closed(s: GameState, x0: int, y0: int, x: int, y: int, n: nat)
    requires
        closed(s),
        in_bounds(s, x0, y0),
        cell_at(s, x0, y0).is_revealed,
        reach_n(s, x0, y0, x, y, n),
    ensures
        in_bounds(s, x, y),
        cell_at(s, x, y).is_revealed,
    decreases n,
{
    if n == 0 {
    } else if reach_n(s, x0, y0, x, y, (n - 1) as nat) {
        lemma_reach_n_in_closed(s, x0, y0, x, y, (n - 1) as nat);
    } else {
        let (c, d) = choose|c: int, d: int|
            reach_n(s, x0, y0, c, d, (n - 1) as nat) && #[trigger] expands(s, c, d) && adjacent8(
                c,
                d,
                x,
                y,
            ) && in_bounds(s, x, y);
        lemma_reach_n_in_closed(s, x0, y0, c, d, (n - 1) as nat);
        assert(expands(s, c, d) && cell_at(s, c, d).is_revealed);
        assert(neighbors_revealed(s, c, d));
        assert(cell_at(s, x, y).is_revealed);
    }
}

/// Flood-fill completeness: in a state where no cascade is half done, once
/// a cell is revealed its whole region is revealed. Together with
/// `reveal_cell`'s contract — the clicked cell is revealed afterwards, the
/// state stays closed, and nothing outside the old revealed set and the
/// region is touched — this pins the revealed set after a reveal exactly.
pub proof fn lemma_flood_fill_complete(s: GameState, x0: int, y0: int, x: int, y: int)
    requires
        closed(s),
        in_bounds(s, x0, y0),
        cell_at(s, x0, y0).is_revealed,
        reach(s, x0, y0, x, y),
    ensures
        in_bounds(s, x, y),
        cell_at(s, x, y).is_revealed,
{
    let n = choose|n: nat| reach_n(s, x0, y0, x, y, n);
    lemma_reach_n_in_closed(s, x0, y0, x, y, n);
}

proof fn lemma_reach_n_safe(s: GameState, x0: int, y0: int, x: int, y: int, n: nat)
    requires
        wf(s),
        reach_n(s, x0, y0, x, y, n),
    ensures
        (x == x0 && y == y0) || (in_bounds(s, x, y) && !cell_at(s, x, y).is_mine),
    decreases n,
{
    if n == 0 {
    } else if reach_n(s, x0, y0, x, y, (n - 1) as nat) {
        lemma_reach_n_safe(s, x0, y0, x, y, (n - 1) as nat);
    } else {
        let (c, d) = choose|c: int, d: int|
            reach_n(s, x0, y0, c, d, (n - 1) as nat) && #[trigger] expands(s, c, d) && adjacent8(
                c,
                d,
                x,
                y,
            ) && in_bounds(s, x, y);
        let w = s.width as int;
        let h = s.height as int;
        assert(cell_at(s, c, d).adjacent_mines as int == spec_adjacent(s.grid@, w, h, c, d));
        assert(spec_adjacent(s.grid@, w, h, c, d) == 0);
        assert(mine_at(s.grid@, w, h, x, y) == 0);
        lemma_gidx_in_grid(x, y, w, h);
        assert(!s.grid@[y * w + x].is_mine);
    }
}

/// Beyond the clicked cell itself, the region a reveal uncovers holds no
/// mine: a cell next to a zero-adjacency cell cannot be mined, so the
/// cascade stops short of every mine.
pub proof fn lemma_region_holds_no_mine(s: GameState, x0: int, y0: int, x: int, y: int)
    requires
        wf(s),
        reach(s, x0, y0, x, y),
        !(x == x0 && y == y0),
    ensures
        in_bounds(s, x, y),
        !cell_at(s, x, y).is_mine,
{
    let n = choose|n: nat| reach_n(s, x0, y0, x, y, n);
    lemma_reach_n_safe(s, x0, y0, x, y, n);
}

/// Two states with the same dimensions, mine layout, and adjacency counts
/// have the same regions: the reveal flags play no part in where a cascade
/// can go.
pub open spec fn same_layout(s1: GameState, s2: GameState) -> bool {
    &&& s1.width == s2.width
    &&& s1.height == s2.height
    &&& s1.grid@.len() == s2.grid@.len()
    &&& s1.grid@.len() == s1.width * s1.height
    &&& forall|i: int|
        0 <= i < s1.grid@.len() ==> (#[trigger] s1.grid@[i]).is_mine == s2.grid@[i].is_mine
            && s1.grid@[i].adjacent_mines == s2.grid@[i].adjacent_mines
}

proof fn lemma_expands_same_layout(s1: GameState, s2: GameState, c: int, d: int)
    requires
        same_layout(s1, s2),
        expands(s1, c, d),
    ensures
        expands(s2, c, d),
{
    lemma_gidx_in_grid(c, d, s1.width as int, s1.height as int);
    assert(s1.grid@[d * s1.width + c].is_mine == s2.grid@[d * s1.width + c].is_mine);
    assert(s1.grid@[d * s1.width + c].adjacent_mines == s2.grid@[d * s1.width + c].adjacent_mines);
}

proof fn lemma_reach_n_same_layout(s1: GameState, s2: GameState, x0: int, y0: int, x: int, y: int, n: nat)
    requires
        same_layout(s1, s2),
        reach_n(s1, x0, y0, x, y, n),
    ensures
        reach_n(s2, x0, y0, x, y, n),
    decreases n,
{
    if n == 0 {
    } else if reach_n(s1, x0, y0, x, y, (n - 1) as nat) {
        lemma_reach_n_same_layout(s1, s2, x0, y0, x, y, (n - 1) as nat);
        assert(reach_n(s2, x0, y0, x, y, (n - 1) as nat));
    } else {
        let (c, d) = choose|c: int, d: int|
            reach_n(s1, x0, y0, c, d, (n - 1) as nat) && #[trigger] expands(s1, c, d) && adjacent8(
                c,
                d,
                x,
                y,
            ) && in_bounds(s1, x, y);
        lemma_reach_n_same_layout(s1, s2, x0, y0, c, d, (n - 1) as nat);
        lemma_expands_same_layout(s1, s2, c, d);
        assert(reach_n(s2, x0, y0, c, d, (n - 1) as nat) && expands(s2, c, d) && adjacent8(
            c,
            d,
            x,
            y,
        ) && in_bounds(s2, x, y));
    }
}

/// Carries a region across a state change that leaves the layout alone.
pub proof fn lemma_reach_same_layout(s1: GameState, s2: GameState, x0: int, y0: int, x: int, y: int)
    requires
        same_layout(s1, s2),
        reach(s1, x0, y0, x, y),
    ensures
        reach(s2, x0, y0, x, y),
{
    let n = choose|n: nat| reach_n(s1, x0, y0, x, y, n);
    lemma_reach_n_same_layout(s1, s2, x0, y0, x, y, n);
}

} // verus!
