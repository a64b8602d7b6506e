//! Laws that hold of the grid operations, stated over [`GridView`].

use vstd::prelude::*;
use crate::flood::{lemma_flooded_tile, lemma_route_extend, lemma_start_floods};
use crate::text::{concat, lines, parse, scan, strip_cr, uniform, GridError};
use crate::model::{
    adjacent, lemma_count_constant, lemma_index_in_range, lemma_position_coords, lemma_set_at,
    GridView,
};

verus! {

/// A grid filled with `c` holds `c` on all `width * height` tiles and no
/// other character anywhere.
pub proof fn law_filled_count(width: nat, height: nat, c: char, other: char)
    requires
        other != c,
    ensures
        GridView::filled(width, height, c).count(c) == width * height,
        GridView::filled(width, height, c).count(other) == 0,
{
    lemma_count_constant(GridView::filled(width, height, c).tiles, c, other);
}

/// Reading an in-bounds tile right after writing it gives what was written,
/// and no other tile is disturbed.
pub proof fn law_get_after_set(g: GridView, x: int, y: int, v: char, x2: int, y2: int)
    requires
        g.wf(),
        g.in_bounds(x, y),
        g.in_bounds(x2, y2),
    ensures
        g.set(x, y, v).get(x, y) == Some(v),
        (x2, y2) != (x, y) ==> g.set(x, y, v).get(x2, y2) == g.get(x2, y2),
{
    lemma_set_at(g, x, y, v, x, y);
    lemma_set_at(g, x, y, v, x2, y2);
}

/// A coordinate with `x >= width` or `y >= height` reads as absent and
/// cannot be written, even where its row-major position would fall inside
/// the buffer.
pub proof fn law_outside_is_absent(g: GridView, x: int, y: int, v: char)
    requires
        x >= g.width || y >= g.height(),
    ensures
        g.get(x, y).is_none(),
        g.set(x, y, v) == g,
{
}

/// What a flood leaves on each in-bounds tile: `c` where it reaches, the old
/// character elsewhere. The shape of the grid is kept.
pub proof fn law_fill_at(g: GridView, sx: int, sy: int, c: char, x: int, y: int)
    requires
        g.wf(),
        g.in_bounds(x, y),
    ensures
        g.fill(sx, sy, c).wf(),
        g.fill(sx, sy, c).width == g.width,
        g.fill(sx, sy, c).height() == g.height(),
        g.fill(sx, sy, c).at(x, y) == if g.floods(sx, sy, c, x, y) {
            c
        } else {
            g.at(x, y)
        },
{
    lemma_index_in_range(g, x, y);
    vstd::arithmetic::div_mod::lemma_fundamental_div_mod_converse(
        g.index(x, y),
        g.width as int,
        y,
        x,
    );
}

/// In a filled grid a second flood of the same character from the same
/// start finds no tile to move to.
proof fn lemma_refill_stays(g: GridView, sx: int, sy: int, c: char, tx: int, ty: int)
    requires
        g.wf(),
        g.fill(sx, sy, c).floods(sx, sy, c, tx, ty),
    ensures
        (tx, ty) == (sx, sy),
        g.fill(sx, sy, c).at(sx, sy) == c,
{
    let f = g.fill(sx, sy, c);
    let p = choose|path: Seq<(int, int)>|
        #![trigger f.is_route(c, path)]
        f.is_route(c, path) && path[0] == (sx, sy) && path.last() == (tx, ty);
    assert(g.in_bounds(sx, sy));
    lemma_start_floods(g, sx, sy, c);
    law_fill_at(g, sx, sy, c, sx, sy);
    if p.len() > 1 {
        let t = p[1];
        assert(f.step_ok(c, p[0], p[1]));
        law_fill_at(g, sx, sy, c, t.0, t.1);
        if g.floods(sx, sy, c, t.0, t.1) {
        } else {
            assert(g.step_ok(c, (sx, sy), t));
            lemma_route_extend(g, sx, sy, c, (sx, sy), t);
        }
    }
}

/// Flood fill is idempotent: a second fill of the same character from the
/// same start changes nothing.
pub proof fn law_fill_idempotent(g: GridView, sx: int, sy: int, c: char)
    requires
        g.wf(),
    ensures
        g.fill(sx, sy, c).fill(sx, sy, c) == g.fill(sx, sy, c),
{
    let f = g.fill(sx, sy, c);
    let ff = f.fill(sx, sy, c);
    let w = g.width as int;
    assert forall|p: int| 0 <= p < f.tiles.len() implies ff.tiles[p] == f.tiles[p] by {
        lemma_position_coords(g, p);
        if f.floods(sx, sy, c, p % w, p / w) {
            lemma_refill_stays(g, sx, sy, c, p % w, p / w);
        }
    }
    assert(ff.tiles =~= f.tiles);
}

/// A flood of `c` from a tile that holds `c` already, none of whose
/// neighbours holds anything else, leaves the grid as it is.
pub proof fn law_fill_same_character(g: GridView, sx: int, sy: int, c: char)
    requires
        g.wf(),
        g.in_bounds(sx, sy),
        g.at(sx, sy) == c,
        forall|tx: int, ty: int|
            #![trigger g.at(tx, ty)]
            g.in_bounds(tx, ty) && adjacent(sx, sy, tx, ty) ==> g.at(tx, ty) == c,
    ensures
        g.fill(sx, sy, c) == g,
{
    let f = g.fill(sx, sy, c);
    let w = g.width as int;
    assert forall|p: int| 0 <= p < g.tiles.len() implies f.tiles[p] == g.tiles[p] by {
        lemma_position_coords(g, p);
        let x = p % w;
        let y = p / w;
        if g.floods(sx, sy, c, x, y) {
            let path = choose|path: Seq<(int, int)>|
                #![trigger g.is_route(c, path)]
                g.is_route(c, path) && path[0] == (sx, sy) && path.last() == (x, y);
            if path.len() > 1 {
                assert(g.step_ok(c, path[0], path[1]));
                assert(g.at(path[1].0, path[1].1) == c);
            }
            assert(g.at(x, y) == g.tiles[p]);
        }
    }
    assert(f.tiles =~= g.tiles);
}

/// A flood from a start outside the grid leaves the grid as it is.
pub proof fn law_fill_from_outside(g: GridView, sx: int, sy: int, c: char)
    requires
        !g.in_bounds(sx, sy),
    ensures
        g.fill(sx, sy, c) == g,
{
    let f = g.fill(sx, sy, c);
    assert forall|p: int| 0 <= p < g.tiles.len() implies f.tiles[p] == g.tiles[p] by {
        let x = p % (g.width as int);
        let y = p / (g.width as int);
        if g.floods(sx, sy, c, x, y) {
            lemma_flooded_tile(g, sx, sy, c, x, y);
        }
    }
    assert(f.tiles =~= g.tiles);
}

/// A tile with a full ring of tiles around it has eight neighbours, in the
/// order up, right, down, left, down-right, up-right, up-left, down-left.
pub proof fn law_neighbours_interior(g: GridView, x: int, y: int)
    requires
        0 < x < g.width - 1,
        0 < y < g.height() - 1,
    ensures
        g.neighbours(x, y) == seq![
            (x, y - 1),
            (x + 1, y),
            (x, y + 1),
            (x - 1, y),
            (x + 1, y + 1),
            (x + 1, y - 1),
            (x - 1, y - 1),
            (x - 1, y + 1),
        ],
{
    assert(g.neighbours(x, y) =~= seq![
        (x, y - 1),
        (x + 1, y),
        (x, y + 1),
        (x - 1, y),
        (x + 1, y + 1),
        (x + 1, y - 1),
        (x - 1, y - 1),
        (x - 1, y + 1),
    ]);
}

/// In a grid of at least two rows and two columns each corner has three
/// neighbours.
pub proof fn law_neighbours_corner(g: GridView)
    requires
        g.width >= 2,
        g.height() >= 2,
    ensures
        g.neighbours(0, 0) == seq![(1int, 0int), (0int, 1int), (1int, 1int)],
        g.neighbours(g.width - 1, 0).len() == 3,
        g.neighbours(0, g.height() - 1).len() == 3,
        g.neighbours(g.width - 1, g.height() - 1) == seq![
            (g.width - 1, g.height() - 2),
            (g.width - 2, g.height() - 1),
            (g.width - 2, g.height() - 2),
        ],
{
    let r = g.width - 1;
    let b = g.height() - 1;
    assert(g.neighbours(0, 0) =~= seq![(1int, 0int), (0int, 1int), (1int, 1int)]);
    assert(g.neighbours(r, 0) =~= seq![(r, 1int), (r - 1, 0int), (r - 1, 1int)]);
    assert(g.neighbours(0, b) =~= seq![(0int, b - 1), (1int, b), (1int, b - 1)]);
    assert(g.neighbours(r, b) =~= seq![(r, b - 1), (r - 1, b), (r - 1, b - 1)]);
}

/// A coordinate outside the grid has no neighbours, and no coordinate has
/// more than eight.
pub proof fn law_neighbours_outside(g: GridView, x: int, y: int)
    ensures
        !g.in_bounds(x, y) ==> g.neighbours(x, y) == Seq::<(int, int)>::empty(),
        g.neighbours(x, y).len() <= 8,
{
}

/// The first `n` rows of a grid.
pub open spec fn rows_upto(g: GridView, n: nat) -> Seq<Seq<char>> {
    Seq::new(n, |y: int| g.row(y))
}

/// Row `y` of a well-formed grid lies inside the buffer and is `width` long.
proof fn lemma_row_span(g: GridView, y: int)
    requires
        g.wf(),
        g.width > 0,
        0 <= y < g.height(),
    ensures
        0 <= y * g.width,
        y * g.width + g.width <= g.tiles.len(),
        y * g.width + g.width == (y + 1) * g.width,
        g.row(y).len() == g.width,
        forall|x: int| 0 <= x < g.width ==> (#[trigger] g.row(y)[x]) == g.at(x, y),
{
    lemma_index_in_range(g, 0, y);
    lemma_index_in_range(g, g.width - 1, y);
    let w = g.width as int;
    assert(y * w + w == (y + 1) * w) by (nonlinear_arith);
}

/// What has been read after `n` characters depends on those characters
/// only.
proof fn lemma_scan_prefix(a: Seq<char>, b: Seq<char>, n: nat)
    requires
        n <= a.len(),
        n <= b.len(),
        forall|i: int| 0 <= i < n ==> a[i] == b[i],
    ensures
        scan(a, n) == scan(b, n),
    decreases n,
{
    if n > 0 {
        lemma_scan_prefix(a, b, (n - 1) as nat);
    }
}

/// Reading on from a line's start over `k` characters that are no newline
/// collects exactly those characters.
proof fn lemma_scan_line(text: Seq<char>, start: nat, k: nat)
    requires
        start + k <= text.len(),
        scan(text, start).1.len() == 0,
        forall|i: int| start <= i < start + k ==> text[i] != '\n',
    ensures
        scan(text, start + k).0 == scan(text, start).0,
        scan(text, start + k).1 == text.subrange(start as int, (start + k) as int),
    decreases k,
{
    if k == 0 {
        assert(scan(text, start).1 =~= text.subrange(start as int, start as int));
    } else {
        lemma_scan_line(text, start, (k - 1) as nat);
        assert(text.subrange(start as int, start + k - 1).push(text[start + k - 1])
            =~= text.subrange(start as int, (start + k) as int));
    }
}

/// Reading the text of the first `n` rows gives those rows, with nothing
/// left over.
proof fn lemma_scan_render(g: GridView, n: nat)
    requires
        g.wf(),
        g.width > 0,
        n <= g.height(),
        forall|p: int| 0 <= p < g.tiles.len() ==> g.tiles[p] != '\n',
        forall|y: int| 0 <= y < g.height() ==> (#[trigger] g.row(y)).last() != '\r',
    ensures
        g.render_rows(n).len() == n * (g.width + 1),
        scan(g.render_rows(n), g.render_rows(n).len()) == (rows_upto(g, n), Seq::<char>::empty()),
    decreases n,
{
    let w = g.width;
    if n == 0 {
        assert(rows_upto(g, 0) =~= Seq::<Seq<char>>::empty());
        assert(0 * (w + 1) == 0) by (nonlinear_arith);
    } else {
        let m = (n - 1) as nat;
        let before = g.render_rows(m);
        let text = g.render_rows(n);
        let row = g.row(m as int);
        let start = before.len();
        lemma_scan_render(g, m);
        lemma_row_span(g, m as int);
        assert((n - 1) * (w + 1) + w + 1 == n * (w + 1)) by (nonlinear_arith);
        assert(text.len() == start + w + 1);
        lemma_scan_prefix(text, before, start);
        assert forall|i: int| start <= i < start + w implies text[i] != '\n' by {
            assert(text[i] == row[i - start]);
            assert(row[i - start] == g.at(i - start, m as int));
            lemma_index_in_range(g, i - start, m as int);
        }
        lemma_scan_line(text, start, w);
        assert(text.subrange(start as int, (start + w) as int) =~= row);
        assert(text[(start + w) as int] == '\n');
        assert(strip_cr(row) == row);
        assert(rows_upto(g, m).push(row) =~= rows_upto(g, n));
        assert(scan(text, (start + w + 1) as nat) == (rows_upto(g, n), Seq::<char>::empty()));
    }
}

/// The first `n` rows one after another are the first `n * width` tiles.
proof fn lemma_concat_rows(g: GridView, n: nat)
    requires
        g.wf(),
        g.width > 0,
        n <= g.height(),
    ensures
        0 <= n * g.width <= g.tiles.len(),
        concat(rows_upto(g, n)) == g.tiles.take((n * g.width) as int),
    decreases n,
{
    let w = g.width as int;
    if n == 0 {
        assert(0 * w == 0) by (nonlinear_arith);
        assert(concat(rows_upto(g, 0)) =~= g.tiles.take(0));
    } else {
        let m = (n - 1) as nat;
        lemma_concat_rows(g, m);
        lemma_row_span(g, m as int);
        assert(rows_upto(g, n).drop_last() =~= rows_upto(g, m));
        assert(rows_upto(g, n).last() == g.row(m as int));
        assert(g.tiles.take(m * w) + g.row(m as int) =~= g.tiles.take(n * w));
    }
}

/// Writing a grid as text and reading the text again gives the same grid.
/// The grid must have a tile, no tile may be a newline, and no row may end
/// in a carriage return: such text reads as other rows.
pub proof fn law_text_round_trip(g: GridView)
    requires
        g.wf(),
        g.tiles.len() > 0,
        forall|p: int| 0 <= p < g.tiles.len() ==> g.tiles[p] != '\n',
        forall|y: int| 0 <= y < g.height() ==> (#[trigger] g.row(y)).last() != '\r',
    ensures
        parse(g.render()) == Ok::<GridView, GridError>(g),
{
    lemma_position_coords(g, 0);
    let h = g.height();
    let rows = rows_upto(g, h);
    lemma_scan_render(g, h);
    lemma_concat_rows(g, h);
    assert(lines(g.render()) == rows);
    assert forall|i: int| 0 <= i < rows.len() implies (#[trigger] rows[i]).len()
        == rows[0].len() by {
        lemma_row_span(g, i);
        lemma_row_span(g, 0);
    }
    assert(uniform(rows));
    lemma_row_span(g, 0);
    assert(h * g.width == g.width * h) by (nonlinear_arith);
    assert(g.tiles.take((h * g.width) as int) =~= g.tiles);
}

} // verus!
