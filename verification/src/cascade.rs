use vstd::prelude::*;
use crate::cell::Cell;
use crate::game::{GameState, adjacent8, cell_at, closed, expands, in_bounds, neighbors_revealed,
    wf, lemma_gidx_in_grid, lemma_gidx_injective, lemma_adjacent_same_mines, spec_adjacent};
use crate::counting::{count_mines, count_revealed, count_flagged_hidden, lemma_counts_update,
    lemma_counts_le_len};
use crate::reach::{reach, lemma_reach_here, lemma_reach_step, lemma_flood_fill_complete,
    lemma_reach_same_layout};

verus! {

/// Membership of a coordinate pair in the pending worklist.
pub open spec fn in_stack(st: Seq<(usize, usize)>, c: int, d: int) -> bool {
    exists|k: int| 0 <= k < st.len() && (#[trigger] st[k]).0 == c && st[k].1 == d
}

/// Every pending entry is in bounds and inside the region of the clicked
/// cell.
#[verifier::opaque]
pub open spec fn stack_ok(pre: GameState, st: Seq<(usize, usize)>, x: int, y: int) -> bool {
    forall|k: int|
        0 <= k < st.len() ==> (#[trigger] st[k]).0 < pre.width && st[k].1 < pre.height && reach(
            pre,
            x,
            y,
            st[k].0 as int,
            st[k].1 as int,
        )
}

/// What holds at every turn of the reveal worklist, `pre` being the state
/// when the reveal began: the mine layout, adjacency counts and flag bits
/// are untouched; revealed cells stay revealed; the clicked cell is
/// revealed or pending; every newly revealed cell lies inside the clicked
/// cell's region; and every revealed cell that keeps the cascade going has
/// each neighbor either revealed or pending.
#[verifier::opaque]
pub open spec fn cascade_inv(pre: GameState, s: GameState, st: Seq<(usize, usize)>, x: int, y: int) -> bool {
    &&& forall|i: int|
        0 <= i < pre.grid@.len() ==> (#[trigger] s.grid@[i]).is_mine == pre.grid@[i].is_mine
            && s.grid@[i].adjacent_mines == pre.grid@[i].adjacent_mines && s.grid@[i].is_flagged
            == pre.grid@[i].is_flagged
    &&& forall|i: int|
        0 <= i < pre.grid@.len() && (#[trigger] pre.grid@[i]).is_revealed ==> s.grid@[i].is_revealed
    &&& (cell_at(s, x, y).is_revealed || in_stack(st, x, y))
    &&& forall|a: int, b: int|
        in_bounds(pre, a, b) && (#[trigger] cell_at(s, a, b)).is_revealed ==> cell_at(
            pre,
            a,
            b,
        ).is_revealed || reach(pre, x, y, a, b)
    &&& forall|a: int, b: int|
        #[trigger] expands(pre, a, b) && cell_at(s, a, b).is_revealed ==> (forall|c: int, d: int|
            adjacent8(a, b, c, d) && in_bounds(pre, c, d) ==> (#[trigger] cell_at(
                s,
                c,
                d,
            )).is_revealed || in_stack(st, c, d))
}

proof fn lemma_in_stack_push(st: Seq<(usize, usize)>, v: (usize, usize))
    ensures
        forall|c: int, d: int| in_stack(st, c, d) ==> in_stack(st.push(v), c, d),
        in_stack(st.push(v), v.0 as int, v.1 as int),
{
    assert(st.push(v)[st.len() as int] == v);
    assert forall|c: int, d: int| in_stack(st, c, d) implies in_stack(st.push(v), c, d) by {
        let k = choose|k: int| 0 <= k < st.len() && (#[trigger] st[k]).0 == c && st[k].1 == d;
        assert(st.push(v)[k] == st[k]);
    }
}

proof fn lemma_in_stack_pop(st: Seq<(usize, usize)>)
    requires
        st.len() > 0,
    ensures
        forall|c: int, d: int|
            in_stack(st, c, d) ==> in_stack(st.subrange(0, st.len() - 1), c, d) || (st[st.len()
                - 1].0 == c && st[st.len() - 1].1 == d),
{
    assert forall|c: int, d: int|
        in_stack(st, c, d) implies in_stack(st.subrange(0, st.len() - 1), c, d) || (st[st.len()
        - 1].0 == c && st[st.len() - 1].1 == d) by {
        let k = choose|k: int| 0 <= k < st.len() && (#[trigger] st[k]).0 == c && st[k].1 == d;
        if k < st.len() - 1 {
            assert(st.subrange(0, st.len() - 1)[k] == st[k]);
        }
    }
}

proof fn lemma_stack_ok_last(pre: GameState, st: Seq<(usize, usize)>, x: int, y: int)
    requires
        stack_ok(pre, st, x, y),
        st.len() > 0,
    ensures
        st[st.len() - 1].0 < pre.width,
        st[st.len() - 1].1 < pre.height,
        reach(pre, x, y, st[st.len() - 1].0 as int, st[st.len() - 1].1 as int),
{
    reveal(stack_ok);
}

proof fn lemma_stack_ok_pop(pre: GameState, st: Seq<(usize, usize)>, x: int, y: int)
    requires
        stack_ok(pre, st, x, y),
        st.len() > 0,
    ensures
        stack_ok(pre, st.subrange(0, st.len() - 1), x, y),
{
    reveal(stack_ok);
    assert forall|k: int|
        0 <= k < st.len() - 1 implies (#[trigger] st.subrange(0, st.len() - 1)[k]).0 < pre.width
        && st.subrange(0, st.len() - 1)[k].1 < pre.height && reach(
        pre,
        x,
        y,
        st.subrange(0, st.len() - 1)[k].0 as int,
        st.subrange(0, st.len() - 1)[k].1 as int,
    ) by {
        assert(st.subrange(0, st.len() - 1)[k] == st[k]);
    }
}

proof fn lemma_stack_ok_push(pre: GameState, st: Seq<(usize, usize)>, v: (usize, usize), x: int, y: int)
    requires
        stack_ok(pre, st, x, y),
        v.0 < pre.width,
        v.1 < pre.height,
        reach(pre, x, y, v.0 as int, v.1 as int),
    ensures
        stack_ok(pre, st.push(v), x, y),
{
    reveal(stack_ok);
    assert forall|k: int|
        0 <= k < st.push(v).len() implies (#[trigger] st.push(v)[k]).0 < pre.width && st.push(
        v,
    )[k].1 < pre.height && reach(pre, x, y, st.push(v)[k].0 as int, st.push(v)[k].1 as int) by {
        if k < st.len() {
            assert(st.push(v)[k] == st[k]);
        } else {
            assert(st.push(v)[k] == v);
        }
    }
}

proof fn lemma_inv_init(pre: GameState, s: GameState, st: Seq<(usize, usize)>, x: int, y: int)
    requires
        wf(pre),
        closed(pre),
        0 <= x < pre.width,
        0 <= y < pre.height,
        !cell_at(pre, x, y).is_revealed,
        s.width == pre.width,
        s.height == pre.height,
        s.grid@ == pre.grid@,
        st.len() == 1,
        st[0].0 as int == x,
        st[0].1 as int == y,
    ensures
        cascade_inv(pre, s, st, x, y),
        stack_ok(pre, st, x, y),
{
    reveal(stack_ok);
    reveal(cascade_inv);
    lemma_reach_here(pre, x, y);
    assert(in_stack(st, x, y));
    assert forall|a: int, b: int|
        #[trigger] expands(pre, a, b) && cell_at(s, a, b).is_revealed implies (forall|
        c: int,
        d: int,
    |
        adjacent8(a, b, c, d) && in_bounds(pre, c, d) ==> (#[trigger] cell_at(
            s,
            c,
            d,
        )).is_revealed || in_stack(st, c, d)) by {
        assert(cell_at(pre, a, b).is_revealed);
        assert(neighbors_revealed(pre, a, b));
        assert forall|c: int, d: int|
            adjacent8(a, b, c, d) && in_bounds(pre, c, d) implies (#[trigger] cell_at(
            s,
            c,
            d,
        )).is_revealed || in_stack(st, c, d) by {
            assert(cell_at(pre, c, d).is_revealed);
        }
    }
}

proof fn lemma_inv_cell_static(pre: GameState, s: GameState, st: Seq<(usize, usize)>, x: int, y: int, i: int)
    requires
        cascade_inv(pre, s, st, x, y),
        0 <= i < pre.grid@.len(),
    ensures
        s.grid@[i].is_mine == pre.grid@[i].is_mine,
        s.grid@[i].adjacent_mines == pre.grid@[i].adjacent_mines,
        s.grid@[i].is_flagged == pre.grid@[i].is_flagged,
        pre.grid@[i].is_revealed ==> s.grid@[i].is_revealed,
{
    reveal(cascade_inv);
}

proof fn lemma_inv_pop_revealed(pre: GameState, s: GameState, st0: Seq<(usize, usize)>, x: int, y: int, cx: usize, cy: usize)
    requires
        wf(pre),
        s.width == pre.width,
        s.height == pre.height,
        s.grid@.len() == pre.grid@.len(),
        cascade_inv(pre, s, st0, x, y),
        st0.len() > 0,
        st0[st0.len() - 1].0 == cx,
        st0[st0.len() - 1].1 == cy,
        cx < pre.width,
        cy < pre.height,
        cell_at(s, cx as int, cy as int).is_revealed,
    ensures
        cascade_inv(pre, s, st0.subrange(0, st0.len() - 1), x, y),
{
    reveal(cascade_inv);
    lemma_in_stack_pop(st0);
    let st1 = st0.subrange(0, st0.len() - 1);
    assert forall|a: int, b: int|
        #[trigger] expands(pre, a, b) && cell_at(s, a, b).is_revealed implies (forall|
        c: int,
        d: int,
    |
        adjacent8(a, b, c, d) && in_bounds(pre, c, d) ==> (#[trigger] cell_at(
            s,
            c,
            d,
        )).is_revealed || in_stack(st1, c, d)) by {
        assert forall|c: int, d: int|
            adjacent8(a, b, c, d) && in_bounds(pre, c, d) implies (#[trigger] cell_at(
            s,
            c,
            d,
        )).is_revealed || in_stack(st1, c, d) by {
            if !cell_at(s, c, d).is_revealed && !in_stack(st1, c, d) {
                assert(in_stack(st0, c, d));
                assert(c == cx as int && d == cy as int);
                assert(cell_at(s, c, d).is_revealed);
            }
        }
    }
    if !cell_at(s, x, y).is_revealed {
        assert(in_stack(st0, x, y));
        if x == cx as int && y == cy as int {
            assert(false);
        }
        assert(in_stack(st1, x, y));
    }
}

proof fn lemma_inv_reveal(pre: GameState, s0: GameState, s1: GameState, st0: Seq<(usize, usize)>,
    st1: Seq<(usize, usize)>, x: int, y: int, cx: usize, cy: usize, nc: Cell, expand: bool)
    requires
        wf(pre),
        0 <= x < pre.width,
        0 <= y < pre.height,
        s0.width == pre.width,
        s0.height == pre.height,
        s0.grid@.len() == pre.grid@.len(),
        s1.width == pre.width,
        s1.height == pre.height,
        cascade_inv(pre, s0, st0, x, y),
        st0.len() > 0,
        st0[st0.len() - 1].0 == cx,
        st0[st0.len() - 1].1 == cy,
        cx < pre.width,
        cy < pre.height,
        reach(pre, x, y, cx as int, cy as int),
        !cell_at(s0, cx as int, cy as int).is_revealed,
        s1.grid@ == s0.grid@.update(cy as int * pre.width + cx as int, nc),
        nc.is_mine == cell_at(s0, cx as int, cy as int).is_mine,
        nc.adjacent_mines == cell_at(s0, cx as int, cy as int).adjacent_mines,
        nc.is_flagged == cell_at(s0, cx as int, cy as int).is_flagged,
        nc.is_revealed,
        expand == expands(pre, cx as int, cy as int),
        !expand ==> st1 == st0.subrange(0, st0.len() - 1),
        expand ==> (forall|c: int, d: int|
            in_stack(st0.subrange(0, st0.len() - 1), c, d) ==> in_stack(st1, c, d)),
        expand ==> (forall|c: int, d: int|
            adjacent8(cx as int, cy as int, c, d) && in_bounds(pre, c, d) ==> in_stack(st1, c, d)),
    ensures
        cascade_inv(pre, s1, st1, x, y),
{
    reveal(cascade_inv);
    lemma_in_stack_pop(st0);
    let w = pre.width as int;
    let h = pre.height as int;
    let ci = cy as int * w + cx as int;
    lemma_gidx_in_grid(cx as int, cy as int, w, h);
    let stp = st0.subrange(0, st0.len() - 1);
    assert forall|c: int, d: int| in_stack(stp, c, d) implies in_stack(st1, c, d) by {}
    assert forall|i: int|
        0 <= i < pre.grid@.len() implies (#[trigger] s1.grid@[i]).is_mine == pre.grid@[i].is_mine
        && s1.grid@[i].adjacent_mines == pre.grid@[i].adjacent_mines && s1.grid@[i].is_flagged
        == pre.grid@[i].is_flagged by {
        if i != ci {
            assert(s1.grid@[i] == s0.grid@[i]);
        } else {
            assert(s1.grid@[i] == nc);
        }
    }
    assert forall|i: int|
        0 <= i < pre.grid@.len() && (#[trigger] pre.grid@[i]).is_revealed
        implies s1.grid@[i].is_revealed by {
        if i != ci {
            assert(s1.grid@[i] == s0.grid@[i]);
        }
    }
    if !cell_at(s1, x, y).is_revealed {
        lemma_gidx_in_grid(x, y, w, h);
        if y * w + x == ci {
            assert(cell_at(s1, x, y) == nc);
            assert(false);
        }
        assert(cell_at(s1, x, y) == cell_at(s0, x, y));
        assert(in_stack(st0, x, y));
        if x == cx as int && y == cy as int {
            assert(false);
        }
        assert(in_stack(stp, x, y));
        assert(in_stack(st1, x, y));
    }
    assert forall|a: int, b: int|
        in_bounds(pre, a, b) && (#[trigger] cell_at(s1, a, b)).is_revealed implies cell_at(
        pre,
        a,
        b,
    ).is_revealed || reach(pre, x, y, a, b) by {
        lemma_gidx_in_grid(a, b, w, h);
        if b * w + a != ci {
            assert(cell_at(s1, a, b) == cell_at(s0, a, b));
        } else {
            if !(a == cx as int && b == cy as int) {
                lemma_gidx_injective(a, b, cx as int, cy as int, w, h);
                assert(false);
            }
        }
    }
    assert forall|a: int, b: int|
        #[trigger] expands(pre, a, b) && cell_at(s1, a, b).is_revealed implies (forall|
        c: int,
        d: int,
    |
        adjacent8(a, b, c, d) && in_bounds(pre, c, d) ==> (#[trigger] cell_at(
            s1,
            c,
            d,
        )).is_revealed || in_stack(st1, c, d)) by {
        lemma_gidx_in_grid(a, b, w, h);
        if b * w + a == ci {
            if !(a == cx as int && b == cy as int) {
                lemma_gidx_injective(a, b, cx as int, cy as int, w, h);
                assert(false);
            }
            assert(expand);
            assert forall|c: int, d: int|
                adjacent8(a, b, c, d) && in_bounds(pre, c, d) implies (#[trigger] cell_at(
                s1,
                c,
                d,
            )).is_revealed || in_stack(st1, c, d) by {
                assert(in_stack(st1, c, d));
            }
        } else {
            assert(cell_at(s1, a, b) == cell_at(s0, a, b));
            assert forall|c: int, d: int|
                adjacent8(a, b, c, d) && in_bounds(pre, c, d) implies (#[trigger] cell_at(
                s1,
                c,
                d,
            )).is_revealed || in_stack(st1, c, d) by {
                lemma_gidx_in_grid(c, d, w, h);
                if !cell_at(s0, c, d).is_revealed {
                    assert(in_stack(st0, c, d));
                    if c == cx as int && d == cy as int {
                        assert(cell_at(s1, c, d) == nc);
                    } else {
                        assert(in_stack(stp, c, d));
                        assert(in_stack(st1, c, d));
                    }
                } else {
                    if d * w + c == ci {
                        assert(cell_at(s1, c, d) == nc);
                    } else {
                        assert(cell_at(s1, c, d) == cell_at(s0, c, d));
                    }
                }
            }
        }
    }
}

proof fn lemma_inv_finish(pre: GameState, s: GameState, st: Seq<(usize, usize)>, x: int, y: int)
    requires
        wf(pre),
        closed(pre),
        0 <= x < pre.width,
        0 <= y < pre.height,
        s.width == pre.width,
        s.height == pre.height,
        s.grid@.len() == pre.grid@.len(),
        cascade_inv(pre, s, st, x, y),
        st.len() == 0,
    ensures
        closed(s),
        cell_at(s, x, y).is_revealed,
        forall|i: int|
            0 <= i < pre.grid@.len() ==> (#[trigger] s.grid@[i]).is_mine == pre.grid@[i].is_mine
                && s.grid@[i].adjacent_mines == pre.grid@[i].adjacent_mines
                && s.grid@[i].is_flagged == pre.grid@[i].is_flagged,
        forall|i: int|
            0 <= i < pre.grid@.len() && (#[trigger] pre.grid@[i]).is_revealed
                ==> s.grid@[i].is_revealed,
        forall|a: int, b: int|
            in_bounds(pre, a, b) && (#[trigger] cell_at(s, a, b)).is_revealed ==> cell_at(
                pre,
                a,
                b,
            ).is_revealed || reach(pre, x, y, a, b),
        forall|a: int, b: int|
            in_bounds(pre, a, b) && #[trigger] reach(pre, x, y, a, b) ==> cell_at(
                s,
                a,
                b,
            ).is_revealed,
        forall|a: int, b: int|
            in_bounds(pre, a, b) ==> (#[trigger] cell_at(s, a, b)).adjacent_mines as int
                == spec_adjacent(s.grid@, pre.width as int, pre.height as int, a, b),
{
    reveal(cascade_inv);
    let w = pre.width as int;
    let h = pre.height as int;
    assert forall|a: int, b: int|
        #[trigger] expands(s, a, b) && cell_at(s, a, b).is_revealed implies neighbors_revealed(
        s,
        a,
        b,
    ) by {
        lemma_gidx_in_grid(a, b, w, h);
        assert(expands(pre, a, b));
        assert forall|c: int, d: int|
            adjacent8(a, b, c, d) && in_bounds(s, c, d) implies (#[trigger] cell_at(
            s,
            c,
            d,
        )).is_revealed by {
            assert(in_bounds(pre, c, d));
            assert(cell_at(s, c, d).is_revealed || in_stack(st, c, d));
        }
    }
    assert forall|a: int, b: int|
        in_bounds(pre, a, b) implies (#[trigger] cell_at(s, a, b)).adjacent_mines as int
        == spec_adjacent(s.grid@, w, h, a, b) by {
        lemma_gidx_in_grid(a, b, w, h);
        lemma_adjacent_same_mines(s.grid@, pre.grid@, w, h, a, b);
        assert(cell_at(pre, a, b).adjacent_mines as int == spec_adjacent(pre.grid@, w, h, a, b));
    }
    assert forall|a: int, b: int|
        in_bounds(pre, a, b) && #[trigger] reach(pre, x, y, a, b) implies cell_at(
        s,
        a,
        b,
    ).is_revealed by {
        lemma_reach_same_layout(pre, s, x, y, a, b);
        lemma_flood_fill_complete(s, x, y, a, b);
    }
}

/// Puts every in-bounds neighbor of the cell at column `cx`, row `cy` on
/// the worklist.
fn push_neighbors(stack: &mut Vec<(usize, usize)>, cx: usize, cy: usize, w: usize, h: usize,
    Ghost(pre): Ghost<GameState>, Ghost(x): Ghost<int>, Ghost(y): Ghost<int>)
    requires
        w == pre.width,
        h == pre.height,
        cx < w,
        cy < h,
        reach(pre, x, y, cx as int, cy as int),
        expands(pre, cx as int, cy as int),
        stack_ok(pre, old(stack)@, x, y),
    ensures
        stack_ok(pre, final(stack)@, x, y),
        final(stack)@.len() <= old(stack)@.len() + 8,
        forall|c: int, d: int| in_stack(old(stack)@, c, d) ==> in_stack(final(stack)@, c, d),
        forall|c: int, d: int|
            adjacent8(cx as int, cy as int, c, d) && in_bounds(pre, c, d) ==> in_stack(
                final(stack)@,
                c,
                d,
            ),
{
    if cx > 0 && cy > 0 {
        let v: (usize, usize) = (cx - 1, cy - 1);
        proof {
            lemma_in_stack_push(stack@, v);
            lemma_reach_step(pre, x, y, cx as int, cy as int, cx as int - 1, cy as int - 1);
            lemma_stack_ok_push(pre, stack@, v, x, y);
        }
        stack.push(v);
    }
    if cy > 0 {
        let v: (usize, usize) = (cx, cy - 1);
        proof {
            lemma_in_stack_push(stack@, v);
            lemma_reach_step(pre, x, y, cx as int, cy as int, cx as int, cy as int - 1);
            lemma_stack_ok_push(pre, stack@, v, x, y);
        }
        stack.push(v);
    }
    if cx + 1 < w && cy > 0 {
        let v: (usize, usize) = (cx + 1, cy - 1);
        proof {
            lemma_in_stack_push(stack@, v);
            lemma_reach_step(pre, x, y, cx as int, cy as int, cx as int + 1, cy as int - 1);
            lemma_stack_ok_push(pre, stack@, v, x, y);
        }
        stack.push(v);
    }
    if cx > 0 {
        let v: (usize, usize) = (cx - 1, cy);
        proof {
            lemma_in_stack_push(stack@, v);
            lemma_reach_step(pre, x, y, cx as int, cy as int, cx as int - 1, cy as int);
            lemma_stack_ok_push(pre, stack@, v, x, y);
        }
        stack.push(v);
    }
    if cx + 1 < w {
        let v: (usize, usize) = (cx + 1, cy);
        proof {
            lemma_in_stack_push(stack@, v);
            lemma_reach_step(pre, x, y, cx as int, cy as int, cx as int + 1, cy as int);
            lemma_stack_ok_push(pre, stack@, v, x, y);
        }
        stack.push(v);
    }
    if cx > 0 && cy + 1 < h {
        let v: (usize, usize) = (cx - 1, cy + 1);
        proof {
            lemma_in_stack_push(stack@, v);
            lemma_reach_step(pre, x, y, cx as int, cy as int, cx as int - 1, cy as int + 1);
            lemma_stack_ok_push(pre, stack@, v, x, y);
        }
        stack.push(v);
    }
    if cy + 1 < h {
        let v: (usize, usize) = (cx, cy + 1);
        proof {
            lemma_in_stack_push(stack@, v);
            lemma_reach_step(pre, x, y, cx as int, cy as int, cx as int, cy as int + 1);
            lemma_stack_ok_push(pre, stack@, v, x, y);
        }
        stack.push(v);
    }
    if cx + 1 < w && cy + 1 < h {
        let v: (usize, usize) = (cx + 1, cy + 1);
        proof {
            lemma_in_stack_push(stack@, v);
            lemma_reach_step(pre, x, y, cx as int, cy as int, cx as int + 1, cy as int + 1);
            lemma_stack_ok_push(pre, stack@, v, x, y);
        }
        stack.push(v);
    }
    proof {
        assert forall|c: int, d: int|
            adjacent8(cx as int, cy as int, c, d) && in_bounds(pre, c, d) implies in_stack(
            stack@,
            c,
            d,
        ) by {
            if c == cx as int - 1 && d == cy as int - 1 {
                assert(in_stack(stack@, c, d));
            } else if c == cx as int && d == cy as int - 1 {
                assert(in_stack(stack@, c, d));
            } else if c == cx as int + 1 && d == cy as int - 1 {
                assert(in_stack(stack@, c, d));
            } else if c == cx as int - 1 && d == cy as int {
                assert(in_stack(stack@, c, d));
            } else if c == cx as int + 1 && d == cy as int {
                assert(in_stack(stack@, c, d));
            } else if c == cx as int - 1 && d == cy as int + 1 {
                assert(in_stack(stack@, c, d));
            } else if c == cx as int && d == cy as int + 1 {
                assert(in_stack(stack@, c, d));
            } else if c == cx as int + 1 && d == cy as int + 1 {
                assert(in_stack(stack@, c, d));
            }
        }
    }
}

/// How a reveal of column `x`, row `y` turns the state `pre` into `post`.
/// The dimensions, the mine layout, the adjacency counts and the flag bits
/// stay; revealed cells stay revealed; the clicked cell ends up revealed; a
/// reveal of an already-revealed cell changes nothing; the game is lost
/// exactly on a direct click on a hidden mine; and the cells that flip to
/// revealed all lie inside the region of the clicked cell, which is
/// revealed whole.
pub open spec fn reveal_rel(pre: GameState, post: GameState, x: int, y: int, clicked: bool) -> bool {
    &&& post.width == pre.width
    &&& post.height == pre.height
    &&& post.mines_count == pre.mines_count
    &&& post.grid@.len() == pre.grid@.len()
    &&& forall|i: int|
        0 <= i < pre.grid@.len() ==> (#[trigger] post.grid@[i]).is_mine == pre.grid@[i].is_mine
            && post.grid@[i].adjacent_mines == pre.grid@[i].adjacent_mines
            && post.grid@[i].is_flagged == pre.grid@[i].is_flagged
    &&& forall|i: int|
        0 <= i < pre.grid@.len() && (#[trigger] pre.grid@[i]).is_revealed
            ==> post.grid@[i].is_revealed
    &&& cell_at(post, x, y).is_revealed
    &&& cell_at(pre, x, y).is_revealed ==> post.grid@ == pre.grid@ && post.game_over
        == pre.game_over && post.mines_left == pre.mines_left
    &&& post.game_over == (pre.game_over || (clicked && cell_at(pre, x, y).is_mine && !cell_at(
        pre,
        x,
        y,
    ).is_revealed))
    &&& forall|a: int, b: int|
        in_bounds(pre, a, b) && (#[trigger] cell_at(post, a, b)).is_revealed ==> cell_at(
            pre,
            a,
            b,
        ).is_revealed || reach(pre, x, y, a, b)
    &&& forall|a: int, b: int|
        in_bounds(pre, a, b) && #[trigger] reach(pre, x, y, a, b) ==> cell_at(
            post,
            a,
            b,
        ).is_revealed
}

/// The reveal relation does not read the won flag of the new state: it
/// carries over to any state with the same board, loss flag and counter.
pub proof fn lemma_reveal_rel_same_board(pre: GameState, s1: GameState, s2: GameState, x: int,
    y: int, clicked: bool)
    requires
        reveal_rel(pre, s1, x, y, clicked),
        s2.grid@ == s1.grid@,
        s2.width == s1.width,
        s2.height == s1.height,
        s2.mines_count == s1.mines_count,
        s2.mines_left == s1.mines_left,
        s2.game_over == s1.game_over,
    ensures
        reveal_rel(pre, s2, x, y, clicked),
{
    assert(cell_at(s2, x, y) == cell_at(s1, x, y));
    assert forall|a: int, b: int|
        in_bounds(pre, a, b) && (#[trigger] cell_at(s2, a, b)).is_revealed implies cell_at(
        pre,
        a,
        b,
    ).is_revealed || reach(pre, x, y, a, b) by {
        assert(cell_at(s2, a, b) == cell_at(s1, a, b));
    }
    assert forall|a: int, b: int|
        in_bounds(pre, a, b) && #[trigger] reach(pre, x, y, a, b) implies cell_at(
        s2,
        a,
        b,
    ).is_revealed by {
        assert(cell_at(s2, a, b) == cell_at(s1, a, b));
    }
}

/// Revealing is idempotent: once a reveal of column `x`, row `y` has run,
/// a second reveal of the same cell leaves the board, the loss flag and
/// the mine counter exactly as the first left them.
pub proof fn lemma_reveal_idempotent(s1: GameState, s2: GameState, s3: GameState, x: int, y: int,
    clicked: bool, clicked2: bool)
    requires
        reveal_rel(s1, s2, x, y, clicked),
        reveal_rel(s2, s3, x, y, clicked2),
    ensures
        s3.grid@ == s2.grid@,
        s3.game_over == s2.game_over,
        s3.mines_left == s2.mines_left,
{
}

impl GameState {
    /// Reveals the cell at column `x`, row `y`. An already-revealed cell is
    /// left alone. A direct click (`clicked`) on a mine loses the game; the
    /// mine is still marked revealed. Revealing a flagged cell gives its
    /// flag's count back to `mines_left` while the flag bit itself stays
    /// set. A cell with no mine among its neighbors cascades: the whole
    /// connected zero-adjacency region around it and its numbered border
    /// are revealed, by a worklist in place of a call per cell.
    pub fn reveal_cell(&mut self, x: usize, y: usize, clicked: bool)
        requires
            wf(*old(self)),
            closed(*old(self)),
            x < old(self).width,
            y < old(self).height,
        ensures
            wf(*final(self)),
            closed(*final(self)),
            final(self).game_won == old(self).game_won,
            reveal_rel(*old(self), *final(self), x as int, y as int, clicked),
    {
        let ghost pre = *self;
        let _grid_len: usize = self.grid.len();
        proof {
            lemma_gidx_in_grid(x as int, y as int, pre.width as int, pre.height as int);
            lemma_counts_le_len(self.grid@);
        }
        let i0: usize = y * self.width + x;
        if self.grid[i0].is_revealed {
            proof {
                assert forall|a: int, b: int|
                    in_bounds(pre, a, b) && #[trigger] reach(pre, x as int, y as int, a, b)
                    implies cell_at(*self, a, b).is_revealed by {
                    lemma_flood_fill_complete(pre, x as int, y as int, a, b);
                }
            }
            return;
        }
        if clicked && self.grid[i0].is_mine {
            self.game_over = true;
        }
        let mut stack: Vec<(usize, usize)> = Vec::new();
        stack.push((x, y));
        proof {
            lemma_inv_init(pre, *self, stack@, x as int, y as int);
        }
        while stack.len() > 0
            invariant
                wf(pre),
                closed(pre),
                x < pre.width,
                y < pre.height,
                !cell_at(pre, x as int, y as int).is_revealed,
                self.width == pre.width,
                self.height == pre.height,
                self.mines_count == pre.mines_count,
                self.game_won == pre.game_won,
                self.game_over == (pre.game_over || (clicked && cell_at(
                    pre,
                    x as int,
                    y as int,
                ).is_mine)),
                self.grid@.len() == pre.grid@.len(),
                count_mines(self.grid@) == self.mines_count,
                self.mines_left == self.mines_count - count_flagged_hidden(self.grid@),
                cascade_inv(pre, *self, stack@, x as int, y as int),
                stack_ok(pre, stack@, x as int, y as int),
            decreases 9 * (self.grid@.len() - count_revealed(self.grid@)) + stack@.len(),
        {
            let ghost st0 = stack@;
            let ghost s0 = *self;
            proof {
                lemma_stack_ok_last(pre, st0, x as int, y as int);
                lemma_stack_ok_pop(pre, st0, x as int, y as int);
                lemma_counts_le_len(self.grid@);
            }
            let popped: (usize, usize) = stack.pop().unwrap();
            let cx: usize = popped.0;
            let cy: usize = popped.1;
            let _grid_len2: usize = self.grid.len();
            proof {
                lemma_gidx_in_grid(cx as int, cy as int, pre.width as int, pre.height as int);
            }
            let ci: usize = cy * self.width + cx;
            if !self.grid[ci].is_revealed {
                let mut cell: Cell = self.grid[ci];
                cell.is_revealed = true;
                let ghost gb = self.grid@;
                proof {
                    lemma_counts_update(gb, ci as int, cell);
                    lemma_inv_cell_static(pre, s0, st0, x as int, y as int, ci as int);
                }
                self.grid.set(ci, cell);
                proof {
                    lemma_counts_le_len(self.grid@);
                }
                if cell.is_flagged {
                    self.mines_left = self.mines_left + 1;
                }
                if !cell.is_mine && cell.adjacent_mines == 0 {
                    proof {
                        assert(expands(pre, cx as int, cy as int));
                    }
                    let w: usize = self.width;
                    let h: usize = self.height;
                    push_neighbors(&mut stack, cx, cy, w, h, Ghost(pre), Ghost(x as int),
                        Ghost(y as int));
                    proof {
                        lemma_inv_reveal(pre, s0, *self, st0, stack@, x as int, y as int, cx, cy,
                            cell, true);
                    }
                } else {
                    proof {
                        assert(!expands(pre, cx as int, cy as int));
                        lemma_inv_reveal(pre, s0, *self, st0, stack@, x as int, y as int, cx, cy,
                            cell, false);
                    }
                }
            } else {
                proof {
                    lemma_inv_pop_revealed(pre, s0, st0, x as int, y as int, cx, cy);
                }
            }
        }
        proof {
            lemma_inv_finish(pre, *self, stack@, x as int, y as int);
            assert(wf(*self));
            assert(reveal_rel(pre, *self, x as int, y as int, clicked));
        }
    }
}

} // verus!
