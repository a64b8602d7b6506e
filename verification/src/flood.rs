//! Flood fill: the work-stack algorithm and the proof that it writes exactly
//! the tiles that [`GridView::fill`] names.

use vstd::prelude::*;
use crate::board::Grid;
use crate::model::{
    coords, count_of, lemma_count_bound, lemma_count_update, lemma_index_in_range,
    lemma_neighbours_adjacent, lemma_position_coords, lemma_set_at, GridView,
};

verus! {

/// `t` waits on the work stack above every copy of `n`.
pub open spec fn waits_above(stack: Seq<(int, int)>, n: (int, int), t: (int, int)) -> bool {
    exists|j: int|
        #![trigger stack[j]]
        0 <= j < stack.len() && stack[j] == t && forall|i: int|
            #![trigger stack[i]]
            0 <= i < stack.len() && stack[i] == n ==> i < j
}

/// `cur` has the shape of `orig`, and each tile is either as in `orig` or
/// holds `c` and is reached by the flood.
pub open spec fn only_flooded_written(
    orig: GridView,
    cur: GridView,
    sx: int,
    sy: int,
    c: char,
) -> bool {
    &&& cur.width == orig.width
    &&& cur.tiles.len() == orig.tiles.len()
    &&& forall|x: int, y: int|
        #![trigger cur.at(x, y)]
        orig.in_bounds(x, y) ==> cur.at(x, y) == orig.at(x, y) || (cur.at(x, y) == c
            && orig.floods(sx, sy, c, x, y))
}

/// Every coordinate on the work stack lies inside the grid and is reached by
/// the flood.
pub open spec fn stack_flooded(
    orig: GridView,
    sx: int,
    sy: int,
    c: char,
    stack: Seq<(int, int)>,
) -> bool {
    forall|i: int|
        #![trigger stack[i]]
        0 <= i < stack.len() ==> orig.in_bounds(stack[i].0, stack[i].1) && orig.floods(
            sx,
            sy,
            c,
            stack[i].0,
            stack[i].1,
        )
}

/// Around every flooded tile that already holds `c`, each neighbour still to
/// be written waits on the stack, above every copy of that tile.
pub open spec fn frontier_complete(
    orig: GridView,
    cur: GridView,
    sx: int,
    sy: int,
    c: char,
    stack: Seq<(int, int)>,
) -> bool {
    forall|nx: int, ny: int, tx: int, ty: int|
        #![trigger waits_above(stack, (nx, ny), (tx, ty))]
        cur.in_bounds(nx, ny) && orig.floods(sx, sy, c, nx, ny) && cur.at(nx, ny) == c
            && cur.step_ok(c, (nx, ny), (tx, ty)) ==> waits_above(stack, (nx, ny), (tx, ty))
}

/// The coordinates among `cands` whose tile does not hold `c`, in the order
/// in which they stand there.
pub open spec fn unfilled(g: GridView, c: char, cands: Seq<(int, int)>) -> Seq<(int, int)>
    decreases cands.len(),
{
    if cands.len() == 0 {
        Seq::empty()
    } else {
        let front = unfilled(g, c, cands.drop_last());
        if g.at(cands.last().0, cands.last().1) != c {
            front.push(cands.last())
        } else {
            front
        }
    }
}

/// `unfilled` keeps exactly the candidates whose tile does not hold `c`.
proof fn lemma_unfilled_members(g: GridView, c: char, cands: Seq<(int, int)>, t: (int, int))
    ensures
        unfilled(g, c, cands).contains(t) <==> cands.contains(t) && g.at(t.0, t.1) != c,
    decreases cands.len(),
{
    let kept = unfilled(g, c, cands);
    if cands.len() > 0 {
        let front = cands.drop_last();
        let last = cands.last();
        lemma_unfilled_members(g, c, front, t);
        if cands.contains(t) {
            let i = choose|i: int| 0 <= i < cands.len() && cands[i] == t;
            if i < front.len() {
                assert(front[i] == t);
            }
        }
        if front.contains(t) {
            let i = choose|i: int| 0 <= i < front.len() && front[i] == t;
            assert(cands[i] == t);
        }
        if g.at(last.0, last.1) != c {
            let kf = unfilled(g, c, front);
            assert(kept == kf.push(last));
            assert(kept[kf.len() as int] == last);
            if kf.contains(t) {
                let i = choose|i: int| 0 <= i < kf.len() && kf[i] == t;
                assert(kept[i] == t);
            }
            if kept.contains(t) {
                let i = choose|i: int| 0 <= i < kept.len() && kept[i] == t;
                if i < kf.len() {
                    assert(kf[i] == t);
                }
            }
        }
        assert(cands[cands.len() - 1] == last);
    }
}

/// What a visit of `m` adds to the stack: tiles one step from `m`, and every
/// such tile.
proof fn lemma_pushed(
    g: GridView,
    c: char,
    m: (int, int),
    base: Seq<(int, int)>,
    stack: Seq<(int, int)>,
)
    requires
        stack == base + unfilled(g, c, g.neighbours(m.0, m.1)),
    ensures
        stack.len() >= base.len(),
        stack.take(base.len() as int) == base,
        !g.in_bounds(m.0, m.1) ==> stack == base,
        forall|j: int|
            #![trigger stack[j]]
            base.len() <= j < stack.len() ==> g.step_ok(c, m, stack[j]),
        forall|tx: int, ty: int|
            #![trigger g.at(tx, ty)]
            g.in_bounds(m.0, m.1) && g.step_ok(c, m, (tx, ty)) ==> exists|j: int|
                #![trigger stack[j]]
                base.len() <= j < stack.len() && stack[j] == (tx, ty),
{
    let nbs = g.neighbours(m.0, m.1);
    let kept = unfilled(g, c, nbs);
    assert(stack.take(base.len() as int) =~= base);
    if !g.in_bounds(m.0, m.1) {
        assert(stack =~= base);
    }
    assert forall|j: int| #![trigger stack[j]] base.len() <= j < stack.len() implies g.step_ok(
        c,
        m,
        stack[j],
    ) by {
        let t = stack[j];
        assert(kept[j - base.len()] == t);
        lemma_unfilled_members(g, c, nbs, t);
        lemma_neighbours_adjacent(g, m.0, m.1, t.0, t.1);
    }
    assert forall|tx: int, ty: int|
        #![trigger g.at(tx, ty)]
        g.in_bounds(m.0, m.1) && g.step_ok(c, m, (tx, ty)) implies exists|j: int|
        #![trigger stack[j]]
        base.len() <= j < stack.len() && stack[j] == (tx, ty) by {
        lemma_neighbours_adjacent(g, m.0, m.1, tx, ty);
        lemma_unfilled_members(g, c, nbs, (tx, ty));
        let i = choose|i: int| 0 <= i < kept.len() && kept[i] == (tx, ty);
        assert(stack[base.len() + i] == (tx, ty));
    }
}

/// The flood reaches its own in-bounds start.
pub proof fn lemma_start_floods(g: GridView, sx: int, sy: int, c: char)
    requires
        g.in_bounds(sx, sy),
    ensures
        g.floods(sx, sy, c, sx, sy),
{
    let path = seq![(sx, sy)];
    assert(g.is_route(c, path));
}

/// The flood goes on from a tile it reaches to any tile one step away.
pub proof fn lemma_route_extend(g: GridView, sx: int, sy: int, c: char, n: (int, int), t: (int, int))
    requires
        g.floods(sx, sy, c, n.0, n.1),
        g.step_ok(c, n, t),
    ensures
        g.floods(sx, sy, c, t.0, t.1),
{
    let p = choose|path: Seq<(int, int)>|
        #![trigger g.is_route(c, path)]
        g.is_route(c, path) && path[0] == (sx, sy) && path.last() == (n.0, n.1);
    let q = p.push(t);
    assert forall|i: int| #![trigger q[i]] 0 < i < q.len() implies g.step_ok(c, q[i - 1], q[i]) by {
        if i < p.len() {
            assert(q[i] == p[i]);
            assert(q[i - 1] == p[i - 1]);
        } else {
            assert(q[i - 1] == p.last());
        }
    }
    assert(q[0] == p[0]);
    assert(g.is_route(c, q));
    assert(q.last() == (t.0, t.1));
}

/// A tile that the flood reaches lies inside the grid, as does the start;
/// unless it is the start, it did not hold `c`.
pub proof fn lemma_flooded_tile(g: GridView, sx: int, sy: int, c: char, tx: int, ty: int)
    requires
        g.floods(sx, sy, c, tx, ty),
    ensures
        g.in_bounds(sx, sy),
        g.in_bounds(tx, ty),
        (tx, ty) != (sx, sy) ==> g.at(tx, ty) != c,
{
    let p = choose|path: Seq<(int, int)>|
        #![trigger g.is_route(c, path)]
        g.is_route(c, path) && path[0] == (sx, sy) && path.last() == (tx, ty);
    if p.len() > 1 {
        let k = p.len() - 1;
        assert(g.step_ok(c, p[k - 1], p[k]));
    }
}

/// After the start has been written and its neighbours pushed, the loop's
/// invariant holds.
proof fn lemma_first_visit(
    orig: GridView,
    cur: GridView,
    sx: int,
    sy: int,
    c: char,
    stack: Seq<(int, int)>,
)
    requires
        orig.wf(),
        cur == orig.set(sx, sy, c),
        stack == unfilled(cur, c, cur.neighbours(sx, sy)),
    ensures
        only_flooded_written(orig, cur, sx, sy, c),
        stack_flooded(orig, sx, sy, c, stack),
        frontier_complete(orig, cur, sx, sy, c, stack),
        orig.in_bounds(sx, sy) ==> cur.at(sx, sy) == c,
{
    let s = (sx, sy);
    assert(Seq::<(int, int)>::empty() + stack =~= stack);
    lemma_pushed(cur, c, s, Seq::empty(), stack);
    if orig.in_bounds(sx, sy) {
        lemma_start_floods(orig, sx, sy, c);
        lemma_set_at(orig, sx, sy, c, sx, sy);
    }
    assert forall|x: int, y: int| #![trigger cur.at(x, y)] orig.in_bounds(x, y) implies cur.at(x, y)
        == orig.at(x, y) || (cur.at(x, y) == c && orig.floods(sx, sy, c, x, y)) by {
        lemma_set_at(orig, sx, sy, c, x, y);
    }
    assert forall|j: int| #![trigger stack[j]] 0 <= j < stack.len() implies orig.in_bounds(
        stack[j].0,
        stack[j].1,
    ) && orig.floods(sx, sy, c, stack[j].0, stack[j].1) by {
        let t = stack[j];
        assert(cur.step_ok(c, s, t));
        lemma_set_at(orig, sx, sy, c, t.0, t.1);
        assert(orig.step_ok(c, s, t));
        lemma_route_extend(orig, sx, sy, c, s, t);
    }
    assert forall|nx: int, ny: int, tx: int, ty: int|
        #![trigger waits_above(stack, (nx, ny), (tx, ty))]
        cur.in_bounds(nx, ny) && orig.floods(sx, sy, c, nx, ny) && cur.at(nx, ny) == c
            && cur.step_ok(c, (nx, ny), (tx, ty)) implies waits_above(stack, (nx, ny), (tx, ty)) by {
        lemma_flooded_tile(orig, sx, sy, c, nx, ny);
        lemma_set_at(orig, sx, sy, c, nx, ny);
        assert(nx == sx && ny == sy);
        assert(cur.at(tx, ty) != c);
        let j = choose|j: int| #![trigger stack[j]] 0 <= j < stack.len() && stack[j] == (tx, ty);
        assert forall|i: int| #![trigger stack[i]] 0 <= i < stack.len() && stack[i] == (
            nx,
            ny,
        ) implies i < j by {
            assert(cur.step_ok(c, s, stack[i]));
        }
    }
}

/// One turn of the loop keeps the invariant and brings the end nearer: a
/// tile is newly written, or the stack is one shorter.
proof fn lemma_visit_step(
    orig: GridView,
    pre: GridView,
    cur: GridView,
    sx: int,
    sy: int,
    c: char,
    stack0: Seq<(int, int)>,
    stack1: Seq<(int, int)>,
)
    requires
        orig.wf(),
        pre.wf(),
        only_flooded_written(orig, pre, sx, sy, c),
        stack_flooded(orig, sx, sy, c, stack0),
        frontier_complete(orig, pre, sx, sy, c, stack0),
        orig.in_bounds(sx, sy) ==> pre.at(sx, sy) == c,
        stack0.len() > 0,
        cur == pre.set(stack0.last().0, stack0.last().1, c),
        stack1 == stack0.drop_last() + unfilled(
            cur,
            c,
            cur.neighbours(stack0.last().0, stack0.last().1),
        ),
    ensures
        only_flooded_written(orig, cur, sx, sy, c),
        stack_flooded(orig, sx, sy, c, stack1),
        frontier_complete(orig, cur, sx, sy, c, stack1),
        orig.in_bounds(sx, sy) ==> cur.at(sx, sy) == c,
        count_of(cur.tiles, c) <= cur.tiles.len() == pre.tiles.len(),
        count_of(cur.tiles, c) > count_of(pre.tiles, c) || (count_of(cur.tiles, c) == count_of(
            pre.tiles,
            c,
        ) && stack1.len() < stack0.len()),
{
    let top = stack0.len() - 1;
    let m = stack0[top];
    assert(orig.in_bounds(m.0, m.1) && orig.floods(sx, sy, c, m.0, m.1));
    assert(pre.in_bounds(m.0, m.1));
    lemma_pushed(cur, c, m, stack0.drop_last(), stack1);
    lemma_index_in_range(pre, m.0, m.1);
    lemma_set_at(pre, m.0, m.1, c, m.0, m.1);
    lemma_count_update(pre.tiles, pre.index(m.0, m.1), c);
    lemma_count_bound(cur.tiles, c);
    if orig.in_bounds(sx, sy) {
        lemma_set_at(pre, m.0, m.1, c, sx, sy);
    }
    assert forall|i: int| 0 <= i < top implies stack1[i] == stack0[i] by {
        assert(stack1.take(top)[i] == stack0.drop_last()[i]);
    }
    assert forall|x: int, y: int| #![trigger cur.at(x, y)] orig.in_bounds(x, y) implies cur.at(x, y)
        == orig.at(x, y) || (cur.at(x, y) == c && orig.floods(sx, sy, c, x, y)) by {
        lemma_set_at(pre, m.0, m.1, c, x, y);
        assert(pre.at(x, y) == orig.at(x, y) || (pre.at(x, y) == c && orig.floods(
            sx,
            sy,
            c,
            x,
            y,
        )));
    }
    assert forall|j: int| #![trigger stack1[j]] 0 <= j < stack1.len() implies orig.in_bounds(
        stack1[j].0,
        stack1[j].1,
    ) && orig.floods(sx, sy, c, stack1[j].0, stack1[j].1) by {
        let t = stack1[j];
        if j < top {
            assert(stack1[j] == stack0[j]);
        } else {
            assert(cur.step_ok(c, m, t));
            lemma_set_at(pre, m.0, m.1, c, t.0, t.1);
            assert(pre.at(t.0, t.1) == orig.at(t.0, t.1));
            assert(orig.step_ok(c, m, t));
            lemma_route_extend(orig, sx, sy, c, m, t);
        }
    }
    assert forall|nx: int, ny: int, tx: int, ty: int|
        #![trigger waits_above(stack1, (nx, ny), (tx, ty))]
        cur.in_bounds(nx, ny) && orig.floods(sx, sy, c, nx, ny) && cur.at(nx, ny) == c
            && cur.step_ok(c, (nx, ny), (tx, ty)) implies waits_above(stack1, (nx, ny), (tx, ty)) by {
        let n = (nx, ny);
        let t = (tx, ty);
        lemma_set_at(pre, m.0, m.1, c, nx, ny);
        lemma_set_at(pre, m.0, m.1, c, tx, ty);
        assert(t != m);
        if n == m {
            let j = choose|j: int| #![trigger stack1[j]] top <= j < stack1.len() && stack1[j] == t;
            assert forall|i: int| #![trigger stack1[i]] 0 <= i < stack1.len() && stack1[i]
                == n implies i < j by {
                if i >= top {
                    assert(cur.step_ok(c, m, stack1[i]));
                }
            }
        } else {
            assert(pre.step_ok(c, n, t));
            assert(waits_above(stack0, n, t));
            let j = choose|j: int|
                #![trigger stack0[j]]
                0 <= j < stack0.len() && stack0[j] == t && forall|i: int|
                    #![trigger stack0[i]]
                    0 <= i < stack0.len() && stack0[i] == n ==> i < j;
            assert(j < top);
            assert(stack1[j] == t);
            assert forall|i: int| #![trigger stack1[i]] 0 <= i < stack1.len() && stack1[i]
                == n implies i < j by {
                if i >= top {
                    assert(cur.step_ok(c, m, stack1[i]));
                } else {
                    assert(stack0[i] == n);
                }
            }
        }
    }
    if pre.at(m.0, m.1) == c {
        assert(cur.tiles =~= pre.tiles);
        if stack1.len() > top {
            let t = stack1[top];
            assert(cur.step_ok(c, m, t));
            assert(waits_above(stack0, m, t));
        }
    }
}

/// Once no neighbour of a written tile is left to write, the tile at the end
/// of every route from the start holds `c`.
proof fn lemma_route_filled(
    orig: GridView,
    cur: GridView,
    sx: int,
    sy: int,
    c: char,
    path: Seq<(int, int)>,
)
    requires
        only_flooded_written(orig, cur, sx, sy, c),
        frontier_complete(orig, cur, sx, sy, c, Seq::empty()),
        orig.is_route(c, path),
        path[0] == (sx, sy),
        cur.at(sx, sy) == c,
    ensures
        cur.at(path.last().0, path.last().1) == c,
    decreases path.len(),
{
    if path.len() > 1 {
        let prefix = path.drop_last();
        let k = path.len() - 1;
        let n = path[k - 1];
        let t = path[k];
        assert forall|i: int| #![trigger prefix[i]] 0 < i < prefix.len() implies orig.step_ok(
            c,
            prefix[i - 1],
            prefix[i],
        ) by {
            assert(orig.step_ok(c, path[i - 1], path[i]));
        }
        assert(prefix[0] == path[0]);
        assert(orig.is_route(c, prefix));
        lemma_route_filled(orig, cur, sx, sy, c, prefix);
        assert(prefix.last() == n);
        assert(orig.floods(sx, sy, c, n.0, n.1));
        lemma_flooded_tile(orig, sx, sy, c, n.0, n.1);
        assert(orig.step_ok(c, n, t));
        if cur.at(t.0, t.1) != c {
            assert(cur.step_ok(c, (n.0, n.1), (t.0, t.1)));
            assert(waits_above(Seq::empty(), (n.0, n.1), (t.0, t.1)));
        }
    }
}

/// With the stack empty the grid is the filled grid.
proof fn lemma_fill_done(orig: GridView, cur: GridView, sx: int, sy: int, c: char)
    requires
        orig.wf(),
        only_flooded_written(orig, cur, sx, sy, c),
        frontier_complete(orig, cur, sx, sy, c, Seq::empty()),
        orig.in_bounds(sx, sy) ==> cur.at(sx, sy) == c,
    ensures
        cur == orig.fill(sx, sy, c),
{
    let want = orig.fill(sx, sy, c);
    let w = orig.width as int;
    assert forall|p: int| 0 <= p < cur.tiles.len() implies cur.tiles[p] == want.tiles[p] by {
        lemma_position_coords(orig, p);
        let x = p % w;
        let y = p / w;
        assert(cur.at(x, y) == cur.tiles[p]);
        if orig.floods(sx, sy, c, x, y) {
            let path = choose|path: Seq<(int, int)>|
                #![trigger orig.is_route(c, path)]
                orig.is_route(c, path) && path[0] == (sx, sy) && path.last() == (x, y);
            lemma_route_filled(orig, cur, sx, sy, c, path);
        }
    }
    assert(cur.tiles =~= want.tiles);
}

impl Grid {
    /// Writes `fill` at `(cx, cy)` and pushes each neighbour that does not
    /// hold `fill` yet, in the order of `neighbours`.
    fn visit(&mut self, cx: usize, cy: usize, fill: char, frontier: &mut Vec<(usize, usize)>)
        ensures
            final(self).wf(),
            final(self)@ == old(self)@.set(cx as int, cy as int, fill),
            coords(final(frontier)@) == coords(old(frontier)@) + unfilled(
                final(self)@,
                fill,
                final(self)@.neighbours(cx as int, cy as int),
            ),
    {
        let ghost base = coords(frontier@);
        self.set(cx, cy, fill);
        let ghost g = self@;
        let nbs = self.neighbours(cx, cy);
        let ghost cands = coords(nbs@);
        let mut k: usize = 0;
        proof {
            assert(coords(frontier@) =~= base + unfilled(g, fill, cands.take(0)));
        }
        while k < nbs.len()
            invariant
                self.wf(),
                self@ == g,
                k <= nbs.len(),
                cands == coords(nbs@),
                cands == g.neighbours(cx as int, cy as int),
                coords(frontier@) == base + unfilled(g, fill, cands.take(k as int)),
            decreases nbs.len() - k,
        {
            let (nx, ny) = nbs[k];
            let ghost t = cands[k as int];
            let ghost stack = coords(frontier@);
            proof {
                assert(cands.contains(t));
                lemma_neighbours_adjacent(g, cx as int, cy as int, t.0, t.1);
                assert(cands.take(k + 1).drop_last() =~= cands.take(k as int));
                assert(cands.take(k + 1).last() == t);
            }
            if let Some(ch) = self.get(nx, ny) {
                if ch != fill {
                    frontier.push((nx, ny));
                    proof {
                        assert(coords(frontier@) =~= stack.push(t));
                        assert(stack.push(t) =~= base + unfilled(g, fill, cands.take(k as int)).push(
                            t,
                        ));
                    }
                }
            }
            k += 1;
        }
        proof {
            assert(cands.take(k as int) =~= cands);
        }
    }

    /// Flood fill from `(start_x, start_y)`: the start tile, and every tile
    /// that a chain of neighbour steps through tiles other than `fill` leads
    /// to, comes to hold `fill`. A start outside the grid changes nothing.
    pub fn fill(&mut self, start_x: usize, start_y: usize, fill: char)
        ensures
            final(self).wf(),
            final(self)@ == old(self)@.fill(start_x as int, start_y as int, fill),
    {
        let ghost orig = self@;
        let ghost sx = start_x as int;
        let ghost sy = start_y as int;
        let ghost mut started = false;
        let mut frontier: Vec<(usize, usize)> = Vec::new();
        frontier.push((start_x, start_y));
        proof {
            use_type_invariant(&*self);
            lemma_count_bound(self@.tiles, fill);
            assert(coords(frontier@) =~= seq![(sx, sy)]);
        }
        while frontier.len() > 0
            invariant
                orig.wf(),
                self.wf(),
                !started ==> self@ == orig && coords(frontier@) == seq![(sx, sy)],
                started ==> only_flooded_written(orig, self@, sx, sy, fill),
                started ==> stack_flooded(orig, sx, sy, fill, coords(frontier@)),
                started ==> frontier_complete(orig, self@, sx, sy, fill, coords(frontier@)),
                started && orig.in_bounds(sx, sy) ==> self@.at(sx, sy) == fill,
                count_of(self@.tiles, fill) <= self@.tiles.len(),
            decreases
                    if started {
                        0int
                    } else {
                        1int
                    },
                    self@.tiles.len() - count_of(self@.tiles, fill),
                    frontier@.len(),
        {
            let ghost pre = self@;
            let ghost stack0 = coords(frontier@);
            let (cx, cy) = frontier.pop().unwrap();
            let ghost rest = frontier@;
            self.visit(cx, cy, fill, &mut frontier);
            proof {
                let stack1 = coords(frontier@);
                assert(stack0.last() == (cx as int, cy as int));
                assert(coords(rest) =~= stack0.drop_last());
                if started {
                    lemma_visit_step(orig, pre, self@, sx, sy, fill, stack0, stack1);
                } else {
                    assert(Seq::<(int, int)>::empty() + unfilled(
                        self@,
                        fill,
                        self@.neighbours(sx, sy),
                    ) =~= unfilled(self@, fill, self@.neighbours(sx, sy)));
                    lemma_first_visit(orig, self@, sx, sy, fill, stack1);
                    lemma_count_bound(self@.tiles, fill);
                    started = true;
                }
            }
        }
        proof {
            assert(started);
            assert(coords(frontier@) =~= Seq::empty());
            lemma_fill_done(orig, self@, sx, sy, fill);
        }
    }
}

} // verus!
