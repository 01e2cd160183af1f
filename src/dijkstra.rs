use vstd::prelude::*;

use crate::grids::Grid;
use crate::pos::{chebyshev, inside, lemma_nbrs8_complete, lemma_nbrs8_inside, nbrs8, Pos};

verus! {

/// The in-grid king-step neighbours of `p`.
pub open spec fn nb(g: Grid<i32>, p: Pos) -> Seq<Pos> {
    nbrs8(p, g.width as int, g.height as int, 8)
}

pub open spec fn val(g: Grid<i32>, p: Pos) -> int {
    g.cell(p.x as int, p.y as int) as int
}

pub open spec fn in_grid(g: Grid<i32>, p: Pos) -> bool {
    inside(p, g.width as int, g.height as int)
}

/// A step cost that can be asked of every position, is never negative and
/// always gives the same answer for the same position.
pub open spec fn cost_ok<F: Fn(Pos) -> i32>(cost: F) -> bool {
    &&& forall|p: Pos| cost.requires((p,))
    &&& forall|p: Pos, c: i32| cost.ensures((p,), c) ==> c >= 0
    &&& forall|p: Pos, c1: i32, c2: i32| cost.ensures((p,), c1) && cost.ensures((p,), c2) ==> c1 == c2
}

pub open spec fn cost_ok_at<F: Fn(Pos) -> i32>(cost: &F) -> bool {
    cost_ok(*cost)
}

/// `c` is what `cost` answers for `p`.
pub open spec fn cost_gives<F: Fn(Pos) -> i32>(cost: &F, p: Pos, c: i32) -> bool {
    (*cost).ensures((p,), c)
}

/// The cost of entering `p`.
pub open spec fn cost_at<F: Fn(Pos) -> i32>(cost: F, p: Pos) -> int {
    if exists|c: i32| cost.ensures((p,), c) {
        (choose|c: i32| cost.ensures((p,), c)) as int
    } else {
        0
    }
}

/// No neighbour of `p` is worth more than the value of `p` plus the cost of `p`.
pub open spec fn settled<F: Fn(Pos) -> i32>(g: Grid<i32>, cost: F, p: Pos) -> bool {
    forall|q: Pos| #[trigger] nb(g, p).contains(q) ==> val(g, q) <= val(g, p) + cost_at(cost, p)
}

/// `p` is a seed or a neighbour of one.
pub open spec fn near_seed(g: Grid<i32>, seeds: Seq<Pos>, p: Pos) -> bool {
    exists|i: int| 0 <= i < seeds.len() && (seeds[i] == p || nb(g, #[trigger] seeds[i]).contains(p))
}

pub open spec fn seq_max(s: Seq<i32>) -> int
    decreases s.len(),
{
    if s.len() == 0 {
        0
    } else {
        let m = seq_max(s.drop_last());
        if s.last() > m { s.last() as int } else { m }
    }
}

/// How far the values of `s` are, in total, below `m`.
pub open spec fn deficit(s: Seq<i32>, m: int) -> int
    decreases s.len(),
{
    if s.len() == 0 {
        0
    } else {
        deficit(s.drop_last(), m) + (m - s.last())
    }
}

proof fn lemma_seq_max(s: Seq<i32>)
    ensures
        forall|i: int| 0 <= i < s.len() ==> s[i] <= seq_max(s),
    decreases s.len(),
{
    if s.len() > 0 {
        lemma_seq_max(s.drop_last());
        assert forall|i: int| 0 <= i < s.len() implies s[i] <= seq_max(s) by {
            if i < s.len() - 1 {
                assert(s[i] == s.drop_last()[i]);
            }
        }
    }
}

/// A bound of all values bounds their maximum.
pub proof fn lemma_seq_max_le(s: Seq<i32>, m: int)
    requires
        0 <= m,
        forall|i: int| 0 <= i < s.len() ==> s[i] <= m,
    ensures
        seq_max(s) <= m,
    decreases s.len(),
{
    if s.len() > 0 {
        lemma_seq_max_le(s.drop_last(), m);
    }
}

proof fn lemma_deficit_nonneg(s: Seq<i32>, m: int)
    requires
        forall|i: int| 0 <= i < s.len() ==> s[i] <= m,
    ensures
        deficit(s, m) >= 0,
    decreases s.len(),
{
    if s.len() > 0 {
        lemma_deficit_nonneg(s.drop_last(), m);
    }
}

proof fn lemma_deficit_update(s: Seq<i32>, m: int, i: int, v: i32)
    requires
        0 <= i < s.len(),
    ensures
        deficit(s.update(i, v), m) == deficit(s, m) - (v - s[i]),
    decreases s.len(),
{
    let t = s.update(i, v);
    if i == s.len() - 1 {
        assert(t.drop_last() =~= s.drop_last());
    } else {
        assert(t.drop_last() =~= s.drop_last().update(i, v));
        lemma_deficit_update(s.drop_last(), m, i, v);
    }
}

/// Setting one cell leaves every other cell as it was.
proof fn lemma_val_after_set(g0: Grid<i32>, g1: Grid<i32>, pos: Pos, v: i32, q: Pos)
    requires
        g0.wf(),
        g1.width == g0.width,
        g1.height == g0.height,
        in_grid(g0, pos),
        in_grid(g0, q),
        g1.data@ == g0.data@.update(pos.x + pos.y * g0.width, v),
    ensures
        val(g1, q) == if q == pos { v as int } else { val(g0, q) },
{
    let w = g0.width as int;
    let h = g0.height as int;
    crate::grids::lemma_cell_index(w, h, pos.x as int, pos.y as int);
    crate::grids::lemma_cell_index(w, h, q.x as int, q.y as int);
    if q.x + q.y * w == pos.x + pos.y * w {
        crate::grids::lemma_cell_index_unique(w, q.x as int, q.y as int, pos.x as int, pos.y as int);
    }
}

/// Being neighbours is symmetric.
proof fn lemma_nb_symmetric(g: Grid<i32>, p: Pos, q: Pos)
    requires
        g.wf(),
        in_grid(g, p),
        in_grid(g, q),
    ensures
        nb(g, p).contains(q) <==> nb(g, q).contains(p),
        !nb(g, p).contains(p),
{
    lemma_nbrs8_complete(p, g.width as int, g.height as int, q);
    lemma_nbrs8_complete(q, g.width as int, g.height as int, p);
    lemma_nbrs8_complete(p, g.width as int, g.height as int, p);
}

/// Leaving the front of the queue behind.
proof fn lemma_tail_contains(s: Seq<Pos>, i: int, p: Pos)
    requires
        0 <= i < s.len(),
        s.subrange(i, s.len() as int).contains(p),
        s[i] != p,
    ensures
        s.subrange(i + 1, s.len() as int).contains(p),
{
    let t = choose|t: int| 0 <= t < s.len() - i && s.subrange(i, s.len() as int)[t] == p;
    assert(t != 0);
    assert(s.subrange(i + 1, s.len() as int)[t - 1] == p);
}

proof fn lemma_cost_at<F: Fn(Pos) -> i32>(cost: F, p: Pos, c: i32)
    requires
        cost_ok(cost),
        cost.ensures((p,), c),
    ensures
        cost_at(cost, p) == c,
{
}

/// Neighbours in 8 directions that lie inside the grid.
pub fn get_neighbors<T>(pos: Pos, grid: &Grid<T>) -> (r: Vec<Pos>)
    ensures
        r@ == nbrs8(pos, grid.width as int, grid.height as int, 8),
{
    pos.neighbors(grid)
}

/// A cell keeps its old value or takes the value of a neighbour minus its own cost.
pub open spec fn derived<F: Fn(Pos) -> i32>(g: Grid<i32>, old_g: Grid<i32>, cost: F, p: Pos) -> bool {
    val(g, p) == val(old_g, p) || exists|q: Pos| #[trigger] nb(g, p).contains(q) && val(g, q) == val(g, p) + cost_at(cost, p)
}

/// Like `derived`, with the neighbour worth at least the cell plus its cost.
spec fn derived_up<F: Fn(Pos) -> i32>(g: Grid<i32>, old_g: Grid<i32>, cost: F, p: Pos) -> bool {
    val(g, p) == val(old_g, p) || exists|q: Pos| #[trigger] nb(g, p).contains(q) && val(g, q) >= val(g, p) + cost_at(cost, p)
}

/// Spreads values out from the seeds: the value of every cell is raised to the
/// best value of its neighbours minus the cost of the cell, until no cell can
/// be raised any more. The seeds are meant to hold their values beforehand;
/// away from the seeds and their neighbours no cell may be raisable yet.
/// At the end every cell holds the larger of its old value and its best
/// neighbour's value minus its cost: it is settled, and it kept its value or
/// took it from a neighbour. The cost of every cell is asked once.
pub fn dijkstra<F: Fn(Pos) -> i32>(grid: &mut Grid<i32>, seed: &[Pos], cost: F)
    requires
        old(grid).wf(),
        cost_ok(cost),
        forall|i: int| 0 <= i < seed@.len() ==> in_grid(*old(grid), #[trigger] seed@[i]),
        forall|p: Pos|
            in_grid(*old(grid), p) && !near_seed(*old(grid), seed@, p) ==> #[trigger] settled(*old(grid), cost, p),
    ensures
        final(grid).wf(),
        final(grid).width == old(grid).width,
        final(grid).height == old(grid).height,
        forall|p: Pos| in_grid(*final(grid), p) ==> #[trigger] settled(*final(grid), cost, p),
        forall|p: Pos| in_grid(*final(grid), p) ==> #[trigger] derived(*final(grid), *old(grid), cost, p),
        forall|p: Pos| in_grid(*final(grid), p) ==> #[trigger] cost.ensures((p,), cost_at(cost, p) as i32),
        flooded(*final(grid), *old(grid), cost),
        forall|i: int|
            0 <= i < old(grid).data@.len() ==> old(grid).data@[i] <= #[trigger] final(grid).data@[i] <= seq_max(
                old(grid).data@,
            ),
{
    let ghost g_init = *grid;
    let ghost w = grid.width as int;
    let ghost h = grid.height as int;
    let ghost init = grid.data@;
    let ghost m = seq_max(init);
    proof {
        lemma_seq_max(init);
    }
    let mut next: Vec<Pos> = Vec::new();
    let mut si: usize = 0;
    while si < seed.len()
        invariant
            si <= seed@.len(),
            grid.wf(),
            grid.width == w,
            grid.height == h,
            forall|i: int| 0 <= i < seed@.len() ==> in_grid(*grid, #[trigger] seed@[i]),
            forall|k: int| 0 <= k < next@.len() ==> in_grid(*grid, #[trigger] next@[k]),
            forall|j: int, q: Pos| 0 <= j < si && #[trigger] nb(*grid, seed@[j]).contains(q) ==> next@.contains(q),
        decreases seed@.len() - si,
    {
        let ns = get_neighbors(seed[si], grid);
        proof {
            lemma_nbrs8_inside(seed@[si as int], w, h, 8);
        }
        let mut k: usize = 0;
        while k < ns.len()
            invariant
                k <= ns@.len(),
                si < seed@.len(),
                ns@ == nb(*grid, seed@[si as int]),
                grid.wf(),
                grid.width == w,
                grid.height == h,
                forall|i: int| 0 <= i < ns@.len() ==> in_grid(*grid, #[trigger] ns@[i]),
                forall|k: int| 0 <= k < next@.len() ==> in_grid(*grid, #[trigger] next@[k]),
                forall|j: int, q: Pos| 0 <= j < si && #[trigger] nb(*grid, seed@[j]).contains(q) ==> next@.contains(q),
                forall|i: int| 0 <= i < k ==> next@.contains(#[trigger] ns@[i]),
            decreases ns@.len() - k,
        {
            let ghost before = next@;
            next.push(ns[k]);
            proof {
                assert(next@[before.len() as int] == ns@[k as int]);
                assert forall|q: Pos| before.contains(q) implies next@.contains(q) by {
                    let t = choose|t: int| 0 <= t < before.len() && before[t] == q;
                    assert(next@[t] == q);
                }
            }
            k += 1;
        }
        proof {
            assert forall|j: int, q: Pos| 0 <= j < si + 1 && #[trigger] nb(*grid, seed@[j]).contains(q) implies next@.contains(q) by {
                if j == si {
                    let t = choose|t: int| 0 <= t < ns@.len() && ns@[t] == q;
                }
            }
        }
        si += 1;
    }
    let mut si: usize = 0;
    while si < seed.len()
        invariant
            si <= seed@.len(),
            grid.wf(),
            grid.width == w,
            grid.height == h,
            forall|i: int| 0 <= i < seed@.len() ==> in_grid(*grid, #[trigger] seed@[i]),
            forall|k: int| 0 <= k < next@.len() ==> in_grid(*grid, #[trigger] next@[k]),
            forall|j: int, q: Pos| 0 <= j < seed@.len() && #[trigger] nb(*grid, seed@[j]).contains(q) ==> next@.contains(q),
            forall|j: int| 0 <= j < si ==> next@.contains(#[trigger] seed@[j]),
        decreases seed@.len() - si,
    {
        let ghost before = next@;
        next.push(seed[si]);
        proof {
            assert(next@[before.len() as int] == seed@[si as int]);
            assert forall|q: Pos| before.contains(q) implies next@.contains(q) by {
                let t = choose|t: int| 0 <= t < before.len() && before[t] == q;
                assert(next@[t] == q);
            }
        }
        si += 1;
    }
    proof {
        assert forall|p: Pos| in_grid(*grid, p) implies #[trigger] settled(*grid, cost, p) || next@.contains(p) by {
            if near_seed(*grid, seed@, p) {
                let i = choose|i: int| 0 <= i < seed@.len() && (seed@[i] == p || nb(*grid, #[trigger] seed@[i]).contains(p));
            }
        }
    }

    let cost_ref = &cost;
    let cost_of = (|x: i32, y: i32| -> (c: i32)
        requires
            cost_ok_at(cost_ref),
        ensures
            cost_gives(cost_ref, (Pos { x, y }), c),
        { cost_ref(Pos::new(x, y)) });
    let costs = Grid::filled_with(grid.width, grid.height, cost_of);
    proof {
        assert forall|p: Pos| in_grid(*grid, p) implies #[trigger] cost.ensures((p,), costs.cell(p.x as int, p.y as int)) by {
            assert(costs.cell(p.x as int, p.y as int) == costs.cell(p.x as int, p.y as int));
        }
    }
    proof {
        assert forall|p: Pos| in_grid(*grid, p) implies #[trigger] derived_up(*grid, g_init, cost, p) by {}
    }
    while next.len() > 0
        invariant
            costs.wf(),
            costs.width == w,
            costs.height == h,
            forall|p: Pos| in_grid(*grid, p) ==> #[trigger] cost.ensures((p,), costs.cell(p.x as int, p.y as int)),
            forall|p: Pos| in_grid(*grid, p) ==> #[trigger] derived_up(*grid, g_init, cost, p),
            g_init.width == w,
            g_init.height == h,
            grid.wf(),
            grid.width == w,
            grid.height == h,
            cost_ok(cost),
            init.len() == grid.data@.len(),
            forall|i: int| 0 <= i < init.len() ==> init[i] <= m,
            forall|i: int| 0 <= i < init.len() ==> init[i] <= #[trigger] grid.data@[i] <= m,
            forall|k: int| 0 <= k < next@.len() ==> in_grid(*grid, #[trigger] next@[k]),
            forall|p: Pos| in_grid(*grid, p) ==> #[trigger] settled(*grid, cost, p) || next@.contains(p),
        decreases deficit(grid.data@, m), next@.len(),
    {
        let buffer = next;
        next = Vec::new();
        let ghost start = grid.data@;
        let ghost mut changed = false;
        let mut i: usize = 0;
        assert(buffer@.subrange(0, buffer@.len() as int) =~= buffer@);
        while i < buffer.len()
            invariant
                costs.wf(),
                costs.width == w,
                costs.height == h,
                forall|p: Pos| in_grid(*grid, p) ==> #[trigger] cost.ensures((p,), costs.cell(p.x as int, p.y as int)),
                forall|p: Pos| in_grid(*grid, p) ==> #[trigger] derived_up(*grid, g_init, cost, p),
                g_init.width == w,
                g_init.height == h,
                i <= buffer@.len(),
                buffer@.len() > 0,
                grid.wf(),
                grid.width == w,
                grid.height == h,
                cost_ok(cost),
                init.len() == grid.data@.len(),
                forall|i: int| 0 <= i < init.len() ==> init[i] <= #[trigger] grid.data@[i] <= m,
                forall|k: int| 0 <= k < buffer@.len() ==> in_grid(*grid, #[trigger] buffer@[k]),
                forall|k: int| 0 <= k < next@.len() ==> in_grid(*grid, #[trigger] next@[k]),
                forall|p: Pos|
                    in_grid(*grid, p) ==> #[trigger] settled(*grid, cost, p) || next@.contains(p)
                        || buffer@.subrange(i as int, buffer@.len() as int).contains(p),
                !changed ==> grid.data@ == start && next@.len() == 0,
                changed ==> deficit(grid.data@, m) < deficit(start, m),
            decreases buffer@.len() - i,
        {
            let pos = buffer[i];
            let ghost g0 = *grid;
            let ns = get_neighbors(pos, grid);
            proof {
                lemma_nbrs8_inside(pos, w, h, 8);
            }
            if ns.len() > 0 {
                let mut nm = *grid.get(ns[0].x, ns[0].y);
                let mut k: usize = 1;
                while k < ns.len()
                    invariant
                        1 <= k <= ns@.len(),
                        ns@ == nb(*grid, pos),
                        grid.wf(),
                        forall|j: int| 0 <= j < ns@.len() ==> in_grid(*grid, #[trigger] ns@[j]),
                        forall|j: int| 0 <= j < k ==> val(*grid, #[trigger] ns@[j]) <= nm,
                        exists|j: int| 0 <= j < k && val(*grid, #[trigger] ns@[j]) == nm,
                    decreases ns@.len() - k,
                {
                    let v = *grid.get(ns[k].x, ns[k].y);
                    if v > nm {
                        nm = v;
                    }
                    k += 1;
                }
                proof {
                    assert forall|q: Pos| #[trigger] ns@.contains(q) implies val(*grid, q) <= nm by {
                        let t = choose|t: int| 0 <= t < ns@.len() && ns@[t] == q;
                        assert(val(*grid, ns@[t]) <= nm);
                    }
                }
                let v = *grid.get(pos.x, pos.y);
                let c = *costs.get(pos.x, pos.y);
                proof {
                    lemma_cost_at(cost, pos, c);
                }
                if nm as i64 > v as i64 + c as i64 {
                    let new_val = nm - c;
                    proof {
                        crate::grids::lemma_cell_index(w, h, pos.x as int, pos.y as int);
                        lemma_deficit_update(grid.data@, m, pos.x + pos.y * w, new_val);
                        let jm = choose|j: int| 0 <= j < ns@.len() && val(*grid, #[trigger] ns@[j]) == nm;
                        let qm = ns@[jm];
                        crate::grids::lemma_cell_index(w, h, qm.x as int, qm.y as int);
                        assert(nm <= m);
                    }
                    *grid.get_mut(pos.x, pos.y) = new_val;
                    proof {
                        changed = true;
                    }
                    let ghost g1 = *grid;
                    let ghost next_before = next@;
                    let mut k: usize = 0;
                    while k < ns.len()
                        invariant
                            costs.wf(),
                            costs.width == w,
                            costs.height == h,
                            grid.width == w,
                            grid.height == h,
                            forall|p: Pos| in_grid(*grid, p) ==> #[trigger] cost.ensures((p,), costs.cell(p.x as int, p.y as int)),
                            k <= ns@.len(),
                            ns@ == nb(*grid, pos),
                            grid.wf(),
                            *grid == g1,
                            cost_ok(cost),
                            forall|j: int| 0 <= j < ns@.len() ==> in_grid(*grid, #[trigger] ns@[j]),
                            forall|k: int| 0 <= k < next@.len() ==> in_grid(*grid, #[trigger] next@[k]),
                            forall|q: Pos| #[trigger] next_before.contains(q) ==> next@.contains(q),
                            forall|j: int|
                                0 <= j < k && val(*grid, #[trigger] ns@[j]) + cost_at(cost, ns@[j]) < new_val
                                    ==> next@.contains(ns@[j]),
                        decreases ns@.len() - k,
                    {
                        let q = ns[k];
                        let cq = *costs.get(q.x, q.y);
                        proof {
                            lemma_cost_at(cost, q, cq);
                        }
                        if (*grid.get(q.x, q.y) as i64) < new_val as i64 - cq as i64 {
                            let ghost before = next@;
                            next.push(q);
                            proof {
                                assert(next@[before.len() as int] == q);
                                assert forall|r: Pos| before.contains(r) implies next@.contains(r) by {
                                    let t = choose|t: int| 0 <= t < before.len() && before[t] == r;
                                    assert(next@[t] == r);
                                }
                            }
                        }
                        k += 1;
                    }
                    proof {
                        assert forall|p: Pos| in_grid(*grid, p) implies #[trigger] derived_up(*grid, g_init, cost, p) by {
                            lemma_val_after_set(g0, g1, pos, new_val, p);
                            if p == pos {
                                let jm = choose|j: int| 0 <= j < ns@.len() && val(g0, #[trigger] ns@[j]) == nm;
                                let qm = ns@[jm];
                                lemma_nbrs8_inside(pos, w, h, 8);
                                assert(in_grid(g0, qm));
                                lemma_nb_symmetric(g0, pos, qm);
                                lemma_val_after_set(g0, g1, pos, new_val, qm);
                                assert(nb(g1, p).contains(qm));
                            } else if val(g0, p) != val(g_init, p) {
                                assert(derived_up(g0, g_init, cost, p));
                                let q = choose|q: Pos| #[trigger] nb(g0, p).contains(q) && val(g0, q) >= val(g0, p) + cost_at(cost, p);
                                lemma_nbrs8_inside(p, w, h, 8);
                                let t = choose|t: int| 0 <= t < nb(g0, p).len() && nb(g0, p)[t] == q;
                                assert(in_grid(g0, nb(g0, p)[t]));
                                lemma_val_after_set(g0, g1, pos, new_val, q);
                                assert(nb(g1, p).contains(q));
                            }
                        }
                        assert forall|p: Pos| in_grid(*grid, p) implies #[trigger] settled(*grid, cost, p)
                            || next@.contains(p) || buffer@.subrange(i + 1, buffer@.len() as int).contains(p) by {
                            lemma_nb_symmetric(g0, pos, p);
                            lemma_val_after_set(g0, g1, pos, new_val, p);
                            if p == pos {
                                assert forall|q: Pos| #[trigger] nb(g1, pos).contains(q) implies val(g1, q) <= val(g1, pos)
                                    + cost_at(cost, pos) by {
                                    lemma_nbrs8_inside(pos, w, h, 8);
                                    let t = choose|t: int| 0 <= t < ns@.len() && ns@[t] == q;
                                    assert(in_grid(g0, ns@[t]));
                                    lemma_nb_symmetric(g0, pos, q);
                                    lemma_val_after_set(g0, g1, pos, new_val, q);
                                }
                            } else if !settled(g1, cost, p) && !next@.contains(p) {
                                if !settled(g0, cost, p) {
                                    if !next_before.contains(p) {
                                        lemma_tail_contains(buffer@, i as int, p);
                                    }
                                } else {
                                    let q = choose|q: Pos| #[trigger] nb(g1, p).contains(q) && !(val(g1, q) <= val(g1, p)
                                        + cost_at(cost, p));
                                    lemma_nbrs8_inside(p, w, h, 8);
                                    let t = choose|t: int| 0 <= t < nb(g1, p).len() && nb(g1, p)[t] == q;
                                    assert(in_grid(g0, nb(g1, p)[t]));
                                    lemma_val_after_set(g0, g1, pos, new_val, q);
                                    assert(q == pos);
                                    let j = choose|j: int| 0 <= j < ns@.len() && ns@[j] == p;
                                    assert(val(*grid, ns@[j]) + cost_at(cost, ns@[j]) < new_val);
                                }
                            }
                        }
                    }
                } else {
                    proof {
                        assert(settled(*grid, cost, pos));
                        assert forall|p: Pos| in_grid(*grid, p) implies #[trigger] settled(*grid, cost, p)
                            || next@.contains(p) || buffer@.subrange(i + 1, buffer@.len() as int).contains(p) by {
                            if p != pos && !settled(*grid, cost, p) && !next@.contains(p) {
                                lemma_tail_contains(buffer@, i as int, p);
                            }
                        }
                    }
                }
            } else {
                proof {
                    assert(settled(*grid, cost, pos));
                    assert forall|p: Pos| in_grid(*grid, p) implies #[trigger] settled(*grid, cost, p)
                        || next@.contains(p) || buffer@.subrange(i + 1, buffer@.len() as int).contains(p) by {
                        if p != pos && !settled(*grid, cost, p) && !next@.contains(p) {
                            lemma_tail_contains(buffer@, i as int, p);
                        }
                    }
                }
            }
            i += 1;
        }
        proof {
            lemma_deficit_nonneg(grid.data@, m);
            lemma_deficit_nonneg(start, m);
            assert forall|p: Pos| in_grid(*grid, p) implies #[trigger] settled(*grid, cost, p) || next@.contains(p) by {
                assert(buffer@.subrange(buffer@.len() as int, buffer@.len() as int) =~= Seq::<Pos>::empty());
            }
        }
    }
    proof {
        assert forall|p: Pos| in_grid(*grid, p) implies #[trigger] cost.ensures((p,), cost_at(cost, p) as i32) by {
            lemma_cost_at(cost, p, costs.cell(p.x as int, p.y as int));
        }
        assert forall|p: Pos| in_grid(*grid, p) implies val(g_init, p) <= #[trigger] val(*grid, p) by {
            crate::grids::lemma_cell_index(w, h, p.x as int, p.y as int);
        }
        assert forall|p: Pos| in_grid(*grid, p) implies #[trigger] derived(*grid, g_init, cost, p) by {
            assert(derived_up(*grid, g_init, cost, p));
            assert(settled(*grid, cost, p));
            if val(*grid, p) != val(g_init, p) {
                let q = choose|q: Pos| #[trigger] nb(*grid, p).contains(q) && val(*grid, q) >= val(*grid, p) + cost_at(cost, p);
                assert(val(*grid, q) <= val(*grid, p) + cost_at(cost, p));
            }
        }
    }
}

/// The neighbour a path steps to: the last one, in visiting order, of greatest value.
pub open spec fn best_nbr(g: Grid<i32>, ns: Seq<Pos>) -> Pos
    decreases ns.len(),
{
    if ns.len() <= 1 {
        ns[0]
    } else {
        let b = best_nbr(g, ns.drop_last());
        if val(g, ns.last()) >= val(g, b) {
            ns.last()
        } else {
            b
        }
    }
}

/// Where a path may start: inside the grid, on a positive value.
pub open spec fn path_start_ok(g: Grid<i32>, start: Pos) -> bool {
    &&& 0 <= start.x < g.width
    &&& 0 <= start.y < g.height
    &&& val(g, start) > 0
}

pub proof fn lemma_best_nbr(g: Grid<i32>, ns: Seq<Pos>)
    requires
        ns.len() >= 1,
    ensures
        ns.contains(best_nbr(g, ns)),
        forall|i: int| 0 <= i < ns.len() ==> val(g, #[trigger] ns[i]) <= val(g, best_nbr(g, ns)),
    decreases ns.len(),
{
    if ns.len() > 1 {
        lemma_best_nbr(g, ns.drop_last());
        let b = best_nbr(g, ns.drop_last());
        let t = choose|t: int| 0 <= t < ns.len() - 1 && ns.drop_last()[t] == b;
        assert(ns[t] == b);
        assert forall|i: int| 0 <= i < ns.len() implies val(g, #[trigger] ns[i]) <= val(g, best_nbr(g, ns)) by {
            if i < ns.len() - 1 {
                assert(ns[i] == ns.drop_last()[i]);
            }
        }
    } else {
        assert(ns[0] == best_nbr(g, ns));
    }
}

/// In a grid of at least two cells every cell has a neighbour.
proof fn lemma_has_nbr(g: Grid<i32>, p: Pos)
    requires
        g.wf(),
        in_grid(g, p),
        g.height >= 2 || g.width >= 2,
    ensures
        nb(g, p).len() > 0,
{
    let q = if g.height >= 2 {
        if p.y > 0 { Pos { x: p.x, y: (p.y - 1) as i32 } } else { Pos { x: p.x, y: (p.y + 1) as i32 } }
    } else {
        if p.x > 0 { Pos { x: (p.x - 1) as i32, y: p.y } } else { Pos { x: (p.x + 1) as i32, y: p.y } }
    };
    lemma_nbrs8_complete(p, g.width as int, g.height as int, q);
}

/// Follows increasing values from `start` to a local maximum: each step goes to
/// the best neighbour while that one is strictly better. The path is empty when
/// `start` lies outside the grid or holds no positive value.
pub fn dijkstra_path(grid: &Grid<i32>, start: Pos) -> (path: Vec<Pos>)
    requires
        grid.wf(),
    ensures
        path@.len() == 0 <==> !path_start_ok(*grid, start),
        path@.len() > 0 ==> path@[0] == start,
        forall|i: int| 0 <= i < path@.len() ==> in_grid(*grid, #[trigger] path@[i]),
        forall|i: int|
            0 <= i < path@.len() - 1 ==> path@[i + 1] == best_nbr(*grid, nb(*grid, #[trigger] path@[i])),
        forall|i: int| 0 <= i < path@.len() - 1 ==> val(*grid, #[trigger] path@[i]) < val(*grid, path@[i + 1]),
        forall|i: int| 0 <= i < path@.len() - 1 ==> nb(*grid, #[trigger] path@[i]).contains(path@[i + 1]),
        path@.len() > 0 ==> forall|q: Pos| #[trigger] nb(*grid, path@.last()).contains(q) ==> val(*grid, q) <= val(*grid, path@.last()),
{
    let mut path: Vec<Pos> = Vec::new();
    if start.x < 0 || start.y < 0 || start.x >= grid.width || start.y >= grid.height {
        return path;
    }
    let mut pos = start;
    let mut v = *grid.get(pos.x, pos.y);
    if v <= 0 {
        return path;
    }
    path.push(start);
    if grid.width == 1 && grid.height == 1 {
        // a single cell has no neighbour: it is its own maximum
        proof {
            assert(nb(*grid, start).len() == 0) by {
                crate::pos::lemma_nbrs8_inside(start, 1, 1, 8);
                if nb(*grid, start).len() > 0 {
                    let q = nb(*grid, start)[0];
                    assert(inside(q, 1, 1) && chebyshev(start, q) == 1);
                }
            }
        }
        return path;
    }
    loop
        invariant
            grid.wf(),
            grid.height >= 2 || grid.width >= 2,
            path_start_ok(*grid, start),
            path@.len() > 0,
            path@[0] == start,
            pos == path@.last(),
            in_grid(*grid, pos),
            v == val(*grid, pos),
            forall|i: int| 0 <= i < path@.len() ==> in_grid(*grid, #[trigger] path@[i]),
            forall|i: int|
                0 <= i < path@.len() - 1 ==> path@[i + 1] == best_nbr(*grid, nb(*grid, #[trigger] path@[i])),
            forall|i: int| 0 <= i < path@.len() - 1 ==> val(*grid, #[trigger] path@[i]) < val(*grid, path@[i + 1]),
            forall|i: int| 0 <= i < path@.len() - 1 ==> nb(*grid, #[trigger] path@[i]).contains(path@[i + 1]),
        ensures
            path@.len() > 0,
            path@[0] == start,
            forall|i: int| 0 <= i < path@.len() ==> in_grid(*grid, #[trigger] path@[i]),
            forall|i: int|
                0 <= i < path@.len() - 1 ==> path@[i + 1] == best_nbr(*grid, nb(*grid, #[trigger] path@[i])),
            forall|i: int| 0 <= i < path@.len() - 1 ==> val(*grid, #[trigger] path@[i]) < val(*grid, path@[i + 1]),
            forall|i: int| 0 <= i < path@.len() - 1 ==> nb(*grid, #[trigger] path@[i]).contains(path@[i + 1]),
            forall|q: Pos| #[trigger] nb(*grid, path@.last()).contains(q) ==> val(*grid, q) <= val(*grid, path@.last()),
        decreases i32::MAX - v,
    {
        let ns = get_neighbors(pos, grid);
        proof {
            lemma_has_nbr(*grid, pos);
            lemma_nbrs8_inside(pos, grid.width as int, grid.height as int, 8);
        }
        let mut best = ns[0];
        let mut best_v = *grid.get(best.x, best.y);
        let mut k: usize = 1;
        while k < ns.len()
            invariant
                1 <= k <= ns@.len(),
                grid.wf(),
                forall|j: int| 0 <= j < ns@.len() ==> in_grid(*grid, #[trigger] ns@[j]),
                best == best_nbr(*grid, ns@.subrange(0, k as int)),
                best_v == val(*grid, best),
            decreases ns@.len() - k,
        {
            let cand = ns[k];
            let cv = *grid.get(cand.x, cand.y);
            proof {
                assert(ns@.subrange(0, k + 1).drop_last() =~= ns@.subrange(0, k as int));
            }
            if cv >= best_v {
                best = cand;
                best_v = cv;
            }
            k += 1;
        }
        proof {
            assert(ns@.subrange(0, ns@.len() as int) =~= ns@);
            lemma_best_nbr(*grid, ns@);
        }
        if best_v > v {
            let ghost before = path@;
            path.push(best);
            proof {
                let t = choose|t: int| 0 <= t < ns@.len() && ns@[t] == best;
                assert(in_grid(*grid, ns@[t]));
                assert forall|i: int| 0 <= i < path@.len() - 1 implies path@[i + 1] == best_nbr(*grid, nb(*grid, #[trigger] path@[i])) by {
                    if i < before.len() - 1 {
                        assert(path@[i] == before[i] && path@[i + 1] == before[i + 1]);
                    } else {
                        assert(path@[i] == pos);
                    }
                }
                assert forall|i: int| 0 <= i < path@.len() - 1 implies val(*grid, #[trigger] path@[i]) < val(*grid, path@[i + 1]) by {
                    if i < before.len() - 1 {
                        assert(path@[i] == before[i] && path@[i + 1] == before[i + 1]);
                    }
                }
                assert(ns@.contains(best));
                assert forall|i: int| 0 <= i < path@.len() - 1 implies nb(*grid, #[trigger] path@[i]).contains(path@[i + 1]) by {
                    if i < before.len() - 1 {
                        assert(path@[i] == before[i] && path@[i + 1] == before[i + 1]);
                    } else {
                        assert(path@[i] == pos);
                    }
                }
            }
            pos = best;
            v = best_v;
        } else {
            proof {
                assert forall|q: Pos| #[trigger] nb(*grid, path@.last()).contains(q) implies val(*grid, q) <= val(*grid, path@.last()) by {
                    let t = choose|t: int| 0 <= t < ns@.len() && ns@[t] == q;
                    assert(val(*grid, ns@[t]) <= val(*grid, best));
                }
            }
            break;
        }
    }
    path
}


/// `f` is largest at `i` among the indices below `n`.
spec fn is_argmax(f: spec_fn(int) -> int, n: int, i: int) -> bool {
    0 <= i < n && forall|j: int| 0 <= j < n ==> #[trigger] f(j) <= f(i)
}

/// Some index below `n` maximises `f`.
proof fn lemma_argmax(f: spec_fn(int) -> int, n: int)
    requires
        n >= 1,
    ensures
        exists|i: int| #[trigger] is_argmax(f, n, i),
    decreases n,
{
    if n > 1 {
        lemma_argmax(f, n - 1);
        let i = choose|i: int| #[trigger] is_argmax(f, n - 1, i);
        if f(n - 1) > f(i) {
            assert(is_argmax(f, n, n - 1));
        } else {
            assert(is_argmax(f, n, i));
        }
    } else {
        assert(is_argmax(f, n, 0));
    }
}

/// `g` is a flood fill of `old_g` under `cost`: same shape, no value lowered,
/// every cell settled and derived.
pub open spec fn flooded<F: Fn(Pos) -> i32>(g: Grid<i32>, old_g: Grid<i32>, cost: F) -> bool {
    &&& g.wf()
    &&& g.width == old_g.width
    &&& g.height == old_g.height
    &&& forall|p: Pos| in_grid(g, p) ==> #[trigger] settled(g, cost, p)
    &&& forall|p: Pos| in_grid(g, p) ==> #[trigger] derived(g, old_g, cost, p)
    &&& forall|p: Pos| in_grid(g, p) ==> val(old_g, p) <= #[trigger] val(g, p)
}

proof fn lemma_no_larger<F: Fn(Pos) -> i32>(g1: Grid<i32>, g2: Grid<i32>, old_g: Grid<i32>, cost: F)
    requires
        flooded(g1, old_g, cost),
        flooded(g2, old_g, cost),
        forall|p: Pos| in_grid(g1, p) ==> #[trigger] cost_at(cost, p) >= 1,
        g1.data@.len() > 0,
    ensures
        forall|p: Pos| in_grid(g1, p) ==> #[trigger] val(g1, p) <= val(g2, p),
{
    let w = g1.width as int;
    let h = g1.height as int;
    let n = g1.data@.len() as int;
    let big: int = 0x1_0000_0000;
    let key = |i: int| (g1.data@[i] - g2.data@[i]) * big + g1.data@[i];
    lemma_argmax(key, n);
    let i = choose|i: int| #[trigger] is_argmax(key, n, i);
    crate::grids::lemma_index_cell(w, h, i);
    let p = crate::grids::storage_pos(i, w);
    assert(in_grid(g1, p));
    assert(val(g1, p) == g1.data@[i] && val(g2, p) == g2.data@[i]);
    if g1.data@[i] > g2.data@[i] {
        assert(val(g1, p) != val(old_g, p));
        assert(derived(g1, old_g, cost, p));
        let q = choose|q: Pos| #[trigger] nb(g1, p).contains(q) && val(g1, q) == val(g1, p) + cost_at(cost, p);
        crate::pos::lemma_nbrs8_inside(p, w, h, 8);
        let t = choose|t: int| 0 <= t < nb(g1, p).len() && nb(g1, p)[t] == q;
        assert(crate::pos::inside(nb(g1, p)[t], w, h));
        assert(settled(g2, cost, p));
        assert(nb(g2, p) == nb(g1, p));
        assert(val(g2, q) <= val(g2, p) + cost_at(cost, p));
        crate::grids::lemma_cell_index(w, h, q.x as int, q.y as int);
        let jq = q.x + q.y * w;
        assert(key(jq) <= key(i));
        assert(key(jq) > key(i)) by (nonlinear_arith)
            requires
                g1.data@[jq] - g2.data@[jq] >= g1.data@[i] - g2.data@[i],
                g1.data@[jq] > g1.data@[i],
                key(jq) == (g1.data@[jq] - g2.data@[jq]) * big + g1.data@[jq],
                key(i) == (g1.data@[i] - g2.data@[i]) * big + g1.data@[i],
                big > 0,
        ;
    }
    assert forall|r: Pos| in_grid(g1, r) implies #[trigger] val(g1, r) <= val(g2, r) by {
        crate::grids::lemma_cell_index(w, h, r.x as int, r.y as int);
        let jr = r.x + r.y * w;
        assert(key(jr) <= key(i));
        assert(g1.data@[jr] - g2.data@[jr] <= 0) by (nonlinear_arith)
            requires
                key(jr) <= key(i),
                g1.data@[i] - g2.data@[i] <= 0,
                key(jr) == (g1.data@[jr] - g2.data@[jr]) * big + g1.data@[jr],
                key(i) == (g1.data@[i] - g2.data@[i]) * big + g1.data@[i],
                big == 0x1_0000_0000,
                -0x8000_0000 <= g1.data@[jr] < 0x8000_0000,
                -0x8000_0000 <= g1.data@[i] < 0x8000_0000,
        ;
    }
}

/// With every step cost at least 1, the flood fill of a grid is unique: any two
/// grids that are settled, derived from the same grid and no lower than it are
/// equal, so the result of `dijkstra` is the best seed value minus the cheapest
/// path cost, or the old value where that is higher.
pub proof fn lemma_flood_unique<F: Fn(Pos) -> i32>(g1: Grid<i32>, g2: Grid<i32>, old_g: Grid<i32>, cost: F)
    requires
        flooded(g1, old_g, cost),
        flooded(g2, old_g, cost),
        forall|p: Pos| in_grid(g1, p) ==> #[trigger] cost_at(cost, p) >= 1,
    ensures
        g1.data@ == g2.data@,
{
    let w = g1.width as int;
    let h = g1.height as int;
    if g1.data@.len() > 0 {
        lemma_no_larger(g1, g2, old_g, cost);
        assert forall|p: Pos| in_grid(g2, p) implies #[trigger] cost_at(cost, p) >= 1 by {
            assert(in_grid(g1, p));
        }
        lemma_no_larger(g2, g1, old_g, cost);
        assert forall|i: int| 0 <= i < g1.data@.len() implies g1.data@[i] == g2.data@[i] by {
            crate::grids::lemma_index_cell(w, h, i);
            let p = crate::grids::storage_pos(i, w);
            assert(p.x as int == i % w && p.y as int == i / w);
            assert(p.x + p.y * w == i);
            assert(in_grid(g1, p));
            assert(in_grid(g2, p));
            assert(val(g1, p) <= val(g2, p));
            assert(val(g2, p) <= val(g1, p));
            assert(val(g1, p) == g1.data@[i]);
            assert(val(g2, p) == g2.data@[i]);
        }
    }
    assert(g1.data@ =~= g2.data@);
}

} // verus!
