//! The mathematical value of a grid and the functions that say what each
//! operation computes.

use vstd::prelude::*;

verus! {

/// What a grid is: a width and a row-major sequence of tiles.
pub struct GridView {
    pub width: nat,
    pub tiles: Seq<char>,
}

/// How many elements of `s` equal `c`.
pub open spec fn count_of(s: Seq<char>, c: char) -> nat
    decreases s.len(),
{
    if s.len() == 0 {
        0
    } else {
        count_of(s.drop_last(), c) + if s.last() == c { 1nat } else { 0nat }
    }
}

/// Two distinct coordinates that differ by at most one step along each axis.
pub open spec fn adjacent(ax: int, ay: int, bx: int, by: int) -> bool {
    &&& ax - 1 <= bx <= ax + 1
    &&& ay - 1 <= by <= ay + 1
    &&& (ax != bx || ay != by)
}

/// A list of machine coordinates read as mathematical ones.
pub open spec fn coords(s: Seq<(usize, usize)>) -> Seq<(int, int)> {
    s.map_values(|p: (usize, usize)| (p.0 as int, p.1 as int))
}

impl GridView {
    /// The number of whole rows; a grid of width zero has none.
    pub open spec fn height(self) -> nat {
        if self.width == 0 {
            0
        } else {
            self.tiles.len() / self.width
        }
    }

    /// The tiles fill the `width` by `height` rectangle exactly.
    pub open spec fn wf(self) -> bool {
        self.tiles.len() == self.width * self.height()
    }

    /// `(x, y)` names a tile: column `x` of row `y`.
    pub open spec fn in_bounds(self, x: int, y: int) -> bool {
        0 <= x < self.width && 0 <= y < self.height()
    }

    /// Position of `(x, y)` in the row-major tile sequence.
    pub open spec fn index(self, x: int, y: int) -> int {
        y * self.width + x
    }

    /// The tile at an in-bounds coordinate.
    pub open spec fn at(self, x: int, y: int) -> char {
        self.tiles[self.index(x, y)]
    }

    /// The grid of the given dimensions with every tile equal to `c`.
    pub open spec fn filled(width: nat, height: nat, c: char) -> GridView {
        GridView { width, tiles: Seq::new(width * height, |i: int| c) }
    }

    /// The tile at `(x, y)`, absent when `(x, y)` lies outside.
    pub open spec fn get(self, x: int, y: int) -> Option<char> {
        if self.in_bounds(x, y) {
            Some(self.at(x, y))
        } else {
            None
        }
    }

    /// The grid with the tile at `(x, y)` replaced; unchanged when `(x, y)`
    /// lies outside.
    pub open spec fn set(self, x: int, y: int, c: char) -> GridView {
        if self.in_bounds(x, y) {
            GridView { width: self.width, tiles: self.tiles.update(self.index(x, y), c) }
        } else {
            self
        }
    }

    /// How many tiles hold `c`.
    pub open spec fn count(self, c: char) -> nat {
        count_of(self.tiles, c)
    }

    /// `(x, y)` alone if it lies inside the grid, nothing otherwise.
    pub open spec fn keep(self, x: int, y: int) -> Seq<(int, int)> {
        if self.in_bounds(x, y) {
            seq![(x, y)]
        } else {
            Seq::empty()
        }
    }

    /// The in-bounds neighbours of an in-bounds `(x, y)`, in the order up,
    /// right, down, left, down-right, up-right, up-left, down-left. A
    /// coordinate outside the grid has no neighbours.
    pub open spec fn neighbours(self, x: int, y: int) -> Seq<(int, int)> {
        if self.in_bounds(x, y) {
            self.keep(x, y - 1) + self.keep(x + 1, y) + self.keep(x, y + 1) + self.keep(x - 1, y)
                + self.keep(x + 1, y + 1) + self.keep(x + 1, y - 1) + self.keep(x - 1, y - 1)
                + self.keep(x - 1, y + 1)
        } else {
            Seq::empty()
        }
    }

    /// A flood that writes `c` may move from `a` to `b`: the two are
    /// adjacent, `b` lies inside the grid and does not hold `c` yet.
    pub open spec fn step_ok(self, c: char, a: (int, int), b: (int, int)) -> bool {
        &&& adjacent(a.0, a.1, b.0, b.1)
        &&& self.in_bounds(b.0, b.1)
        &&& self.at(b.0, b.1) != c
    }

    /// `path` starts inside the grid and each further coordinate on it is a
    /// step the flood may take.
    pub open spec fn is_route(self, c: char, path: Seq<(int, int)>) -> bool {
        &&& path.len() > 0
        &&& self.in_bounds(path[0].0, path[0].1)
        &&& forall|i: int|
            #![trigger path[i]]
            0 < i < path.len() ==> self.step_ok(c, path[i - 1], path[i])
    }

    /// A flood of `c` that starts at `(sx, sy)` reaches `(tx, ty)`: the start
    /// itself, or a tile at the end of a chain of steps through tiles that
    /// do not hold `c`.
    pub open spec fn floods(self, sx: int, sy: int, c: char, tx: int, ty: int) -> bool {
        exists|path: Seq<(int, int)>|
            #![trigger self.is_route(c, path)]
            self.is_route(c, path) && path[0] == (sx, sy) && path.last() == (tx, ty)
    }

    /// The grid after a flood of `c` from `(x, y)`: every tile the flood
    /// reaches holds `c`, every other tile is as before.
    pub open spec fn fill(self, x: int, y: int, c: char) -> GridView {
        GridView {
            width: self.width,
            tiles: Seq::new(
                self.tiles.len(),
                |p: int|
                    if self.floods(x, y, c, p % (self.width as int), p / (self.width as int)) {
                        c
                    } else {
                        self.tiles[p]
                    },
            ),
        }
    }
}

/// An in-bounds coordinate has its position inside the tile sequence.
pub proof fn lemma_index_in_range(g: GridView, x: int, y: int)
    requires
        g.wf(),
        g.in_bounds(x, y),
    ensures
        0 <= g.index(x, y) < g.tiles.len(),
{
    let w = g.width as int;
    let h = g.height() as int;
    assert(0 <= y * w && y * w + w <= h * w && h * w == w * h) by (nonlinear_arith)
        requires
            0 <= y < h,
            0 < w,
    ;
}

/// Distinct in-bounds coordinates have distinct positions.
pub proof fn lemma_index_injective(g: GridView, ax: int, ay: int, bx: int, by: int)
    requires
        g.in_bounds(ax, ay),
        g.in_bounds(bx, by),
        g.index(ax, ay) == g.index(bx, by),
    ensures
        ax == bx,
        ay == by,
{
    let w = g.width as int;
    assert(ay == by) by (nonlinear_arith)
        requires
            0 <= ax < w,
            0 <= bx < w,
            ay * w + ax == by * w + bx,
    ;
}

/// Every position of the tile sequence belongs to exactly one in-bounds
/// coordinate: column `p % width`, row `p / width`.
pub proof fn lemma_position_coords(g: GridView, p: int)
    requires
        g.wf(),
        0 <= p < g.tiles.len(),
    ensures
        g.width > 0,
        g.in_bounds(p % (g.width as int), p / (g.width as int)),
        g.index(p % (g.width as int), p / (g.width as int)) == p,
{
    let w = g.width as int;
    let h = g.height() as int;
    assert(w > 0) by {
        if w == 0 {
            assert(g.width * g.height() == 0) by (nonlinear_arith)
                requires
                    g.width == 0,
            ;
        }
    }
    vstd::arithmetic::div_mod::lemma_fundamental_div_mod(p, w);
    assert(0 <= p / w < h && (p / w) * w == w * (p / w)) by (nonlinear_arith)
        requires
            0 <= p < w * h,
            0 < w,
            p == w * (p / w) + p % w,
            0 <= p % w < w,
    ;
}

/// What `set` does, tile by tile: the written coordinate holds the new
/// character, every other in-bounds coordinate keeps its own, and the shape is
/// the same.
pub proof fn lemma_set_at(g: GridView, x: int, y: int, c: char, x2: int, y2: int)
    requires
        g.wf(),
        g.in_bounds(x2, y2),
    ensures
        g.set(x, y, c).width == g.width,
        g.set(x, y, c).tiles.len() == g.tiles.len(),
        g.set(x, y, c).wf(),
        g.set(x, y, c).at(x2, y2) == if x == x2 && y == y2 {
            c
        } else {
            g.at(x2, y2)
        },
{
    lemma_index_in_range(g, x2, y2);
    if g.in_bounds(x, y) {
        lemma_index_in_range(g, x, y);
        if g.index(x, y) == g.index(x2, y2) {
            lemma_index_injective(g, x, y, x2, y2);
        }
    }
}

/// The neighbours of an in-bounds coordinate are exactly the adjacent
/// coordinates inside the grid.
pub proof fn lemma_neighbours_adjacent(g: GridView, x: int, y: int, tx: int, ty: int)
    ensures
        g.neighbours(x, y).contains((tx, ty)) <==> g.in_bounds(x, y) && g.in_bounds(tx, ty)
            && adjacent(x, y, tx, ty),
{
    let n = g.neighbours(x, y);
    let t = (tx, ty);
    if g.in_bounds(x, y) {
        let a = g.keep(x, y - 1);
        let b = a + g.keep(x + 1, y);
        let c = b + g.keep(x, y + 1);
        let d = c + g.keep(x - 1, y);
        let e = d + g.keep(x + 1, y + 1);
        let f = e + g.keep(x + 1, y - 1);
        let h = f + g.keep(x - 1, y - 1);
        lemma_keep_contains(g, Seq::empty(), x, y - 1, t);
        lemma_keep_contains(g, a, x + 1, y, t);
        lemma_keep_contains(g, b, x, y + 1, t);
        lemma_keep_contains(g, c, x - 1, y, t);
        lemma_keep_contains(g, d, x + 1, y + 1, t);
        lemma_keep_contains(g, e, x + 1, y - 1, t);
        lemma_keep_contains(g, f, x - 1, y - 1, t);
        lemma_keep_contains(g, h, x - 1, y + 1, t);
        assert(Seq::<(int, int)>::empty() + g.keep(x, y - 1) =~= a);
        assert(!Seq::<(int, int)>::empty().contains(t));
    } else {
        assert(!Seq::<(int, int)>::empty().contains(t));
    }
}

/// Appending `keep(x, y)` adds `(x, y)` to the members if it lies inside the
/// grid, and nothing else.
proof fn lemma_keep_contains(g: GridView, s: Seq<(int, int)>, x: int, y: int, t: (int, int))
    ensures
        (s + g.keep(x, y)).contains(t) <==> s.contains(t) || (t == (x, y) && g.in_bounds(x, y)),
{
    let r = s + g.keep(x, y);
    if s.contains(t) {
        let i = choose|i: int| 0 <= i < s.len() && s[i] == t;
        assert(r[i] == t);
    }
    if t == (x, y) && g.in_bounds(x, y) {
        assert(r[s.len() as int] == t);
    }
    if r.contains(t) {
        let i = choose|i: int| 0 <= i < r.len() && r[i] == t;
        if i < s.len() {
            assert(s[i] == t);
        }
    }
}

/// Writing `c` over a tile that was not `c` raises the count of `c` by one;
/// over a tile that was `c` it leaves the count as it is.
pub proof fn lemma_count_update(s: Seq<char>, p: int, c: char)
    requires
        0 <= p < s.len(),
    ensures
        count_of(s.update(p, c), c) == count_of(s, c) + if s[p] == c { 0nat } else { 1nat },
        count_of(s, c) <= s.len(),
    decreases s.len(),
{
    lemma_count_bound(s, c);
    if p == s.len() - 1 {
        assert(s.update(p, c).drop_last() =~= s.drop_last());
    } else {
        lemma_count_update(s.drop_last(), p, c);
        assert(s.update(p, c).drop_last() =~= s.drop_last().update(p, c));
    }
}

/// No more elements equal `c` than there are elements.
pub proof fn lemma_count_bound(s: Seq<char>, c: char)
    ensures
        count_of(s, c) <= s.len(),
    decreases s.len(),
{
    if s.len() > 0 {
        lemma_count_bound(s.drop_last(), c);
    }
}

/// In a sequence whose elements all equal `c`, every element counts for `c`
/// and none for any other character.
pub proof fn lemma_count_constant(s: Seq<char>, c: char, other: char)
    requires
        forall|i: int| 0 <= i < s.len() ==> s[i] == c,
        other != c,
    ensures
        count_of(s, c) == s.len(),
        count_of(s, other) == 0,
    decreases s.len(),
{
    if s.len() > 0 {
        lemma_count_constant(s.drop_last(), c, other);
    }
}

} // verus!
