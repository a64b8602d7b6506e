//! The grid itself: a flat, row-major buffer of tiles and its width.

use vstd::prelude::*;
use crate::model::{coords, count_of, lemma_index_in_range, GridView};
use crate::text::{lemma_parse_wf, parse, parse_tiles, GridError};

verus! {

/// A rectangular grid of characters.
pub struct Grid {
    tiles: Vec<char>,
    width: usize,
}

impl View for Grid {
    type V = GridView;

    closed spec fn view(&self) -> GridView {
        GridView { width: self.width as nat, tiles: self.tiles@ }
    }
}

impl Clone for Grid {
    /// A copy with a buffer of its own.
    fn clone(&self) -> (copy: Self)
        ensures
            copy@ == self@,
            copy.wf(),
    {
        proof {
            use_type_invariant(self);
        }
        let tiles = self.tiles.clone();
        assert(tiles@ =~= self.tiles@);
        Grid { tiles, width: self.width }
    }
}

impl Grid {
    /// The buffer holds whole rows only. This holds of every grid.
    #[verifier::type_invariant]
    pub open spec fn wf(&self) -> bool {
        self@.wf()
    }

    /// Creates a grid with every tile set to `fill`. With a width of zero the
    /// grid has no tiles and therefore no rows.
    pub fn filled_with(width: usize, height: usize, fill: char) -> (grid: Self)
        requires
            width * height <= usize::MAX,
        ensures
            grid.wf(),
            grid@ == GridView::filled(width as nat, height as nat, fill),
            width > 0 ==> grid@.height() == height,
    {
        let total: usize = width * height;
        let mut tiles: Vec<char> = Vec::new();
        while tiles.len() < total
            invariant
                tiles.len() <= total,
                forall|i: int| 0 <= i < tiles.len() ==> tiles[i] == fill,
            decreases total - tiles.len(),
        {
            tiles.push(fill);
        }
        proof {
            assert(tiles@ =~= Seq::new((width as nat) * (height as nat), |i: int| fill));
            if width > 0 {
                vstd::arithmetic::div_mod::lemma_div_by_multiple(height as int, width as int);
                assert(width * height == height * width) by (nonlinear_arith);
            } else {
                assert(width * height == 0) by (nonlinear_arith)
                    requires
                        width == 0,
                ;
            }
        }
        Grid { tiles, width }
    }

    /// Creates a grid of the given dimensions with every tile set to `'#'`.
    pub fn new(width: usize, height: usize) -> (grid: Self)
        requires
            width * height <= usize::MAX,
        ensures
            grid.wf(),
            grid@ == GridView::filled(width as nat, height as nat, '#'),
            width > 0 ==> grid@.height() == height,
    {
        Grid::filled_with(width, height, '#')
    }

    /// Reads a grid from text, one row per line. The width is the length of
    /// the first line; a text without a line, or with lines of different
    /// lengths, is malformed, and one whose lines are empty has no width.
    pub fn from(tiles: &str) -> (r: Result<Self, GridError>)
        ensures
            match r {
                Ok(grid) => grid.wf() && parse(tiles@) == Ok::<GridView, GridError>(grid@),
                Err(e) => parse(tiles@) == Err::<GridView, GridError>(e),
            },
    {
        match parse_tiles(tiles) {
            Ok((buffer, width)) => {
                proof {
                    lemma_parse_wf(tiles@);
                }
                Ok(Grid { tiles: buffer, width })
            },
            Err(e) => Err(e),
        }
    }

    /// The grid as text: each row on a line of its own, top to bottom, every
    /// line ended by a newline.
    pub fn to_string(&self) -> (text: String)
        ensures
            text@ == self@.render(),
    {
        proof {
            use_type_invariant(self);
        }
        let mut text = String::new();
        let height: usize = self.height();
        let ghost g = self@;
        let mut y: usize = 0;
        while y < height
            invariant
                self.wf(),
                g == self@,
                height == g.height(),
                y <= height,
                text@ == g.render_rows(y as nat),
            decreases height - y,
        {
            let mut x: usize = 0;
            while x < self.width
                invariant
                    self.wf(),
                    g == self@,
                    y < g.height(),
                    x <= self.width,
                    text@ == g.render_rows(y as nat) + g.row(y as int).take(x as int),
                decreases self.width - x,
            {
                proof {
                    lemma_index_in_range(g, x as int, y as int);
                    lemma_index_in_range(g, self.width - 1, y as int);
                    assert(g.row(y as int).take(x + 1) =~= g.row(y as int).take(x as int).push(
                        g.at(x as int, y as int),
                    ));
                    assert(self.tiles@.len() == self.tiles.len());
                    let w = self.width as int;
                    let yi = y as int;
                    assert(0 <= yi * w) by (nonlinear_arith)
                        requires
                            0 <= yi,
                            0 <= w,
                    ;
                }
                text.push(self.tiles[y * self.width + x]);
                x += 1;
            }
            proof {
                if self.width > 0 {
                    lemma_index_in_range(g, self.width - 1, y as int);
                }
                assert(g.row(y as int).take(self.width as int) =~= g.row(y as int));
                assert(text@.push('\n') =~= g.render_rows(y as nat) + g.row(y as int).push('\n'));
            }
            text.push('\n');
            y += 1;
        }
        text
    }

    /// The tile at `(x, y)`, or `None` when the coordinate lies outside the
    /// grid.
    pub fn get(&self, x: usize, y: usize) -> (tile: Option<char>)
        ensures
            tile == self@.get(x as int, y as int),
    {
        match self.cord_to_pos(x, y) {
            Some(pos) => Some(self.tiles[pos]),
            None => None,
        }
    }

    /// Writes `new_tile` at `(x, y)` and returns `true`; leaves the grid as it
    /// is and returns `false` when the coordinate lies outside the grid.
    pub fn set(&mut self, x: usize, y: usize, new_tile: char) -> (written: bool)
        ensures
            final(self).wf(),
            final(self)@ == old(self)@.set(x as int, y as int, new_tile),
            written == old(self)@.in_bounds(x as int, y as int),
    {
        match self.cord_to_pos(x, y) {
            Some(pos) => {
                self.tiles[pos] = new_tile;
                true
            },
            None => false,
        }
    }

    /// The number of columns.
    pub fn width(&self) -> (w: usize)
        ensures
            w == self@.width,
    {
        self.width
    }

    /// The number of rows; zero for a grid of width zero.
    pub fn height(&self) -> (h: usize)
        ensures
            h == self@.height(),
    {
        if self.width == 0 {
            0
        } else {
            self.tiles.len() / self.width
        }
    }

    /// Counts the tiles equal to `tile`.
    pub fn count(&self, tile: char) -> (n: usize)
        ensures
            n == self@.count(tile),
    {
        let mut n: usize = 0;
        let mut i: usize = 0;
        while i < self.tiles.len()
            invariant
                i <= self.tiles.len(),
                n == count_of(self.tiles@.take(i as int), tile),
                n <= i,
            decreases self.tiles.len() - i,
        {
            proof {
                assert(self.tiles@.take(i + 1).drop_last() =~= self.tiles@.take(i as int));
            }
            if self.tiles[i] == tile {
                n += 1;
            }
            i += 1;
        }
        proof {
            assert(self.tiles@.take(i as int) =~= self.tiles@);
        }
        n
    }

    /// The coordinates of the tiles next to `(x, y)`, diagonals included, in
    /// the order up, right, down, left, down-right, up-right, up-left,
    /// down-left; those that would fall outside the grid are left out. Empty
    /// when `(x, y)` itself lies outside the grid.
    pub fn neighbours(&self, x: usize, y: usize) -> (nb: Vec<(usize, usize)>)
        ensures
            coords(nb@) == self@.neighbours(x as int, y as int),
            nb@.len() == self@.neighbours(x as int, y as int).len(),
    {
        let mut nb: Vec<(usize, usize)> = Vec::new();
        let height: usize = self.height();
        let width: usize = self.width();
        let ghost g = self@;
        let ghost xi = x as int;
        let ghost yi = y as int;
        if x >= width || y >= height {
            assert(coords(nb@) =~= g.neighbours(xi, yi));
            return nb;
        }
        if y > 0 {
            nb.push((x, y - 1));
        }
        let ghost s1 = g.keep(xi, yi - 1);
        assert(coords(nb@) =~= s1);
        if x < width - 1 {
            nb.push((x + 1, y));
        }
        let ghost s2 = s1 + g.keep(xi + 1, yi);
        assert(coords(nb@) =~= s2);
        if y < height - 1 {
            nb.push((x, y + 1));
        }
        let ghost s3 = s2 + g.keep(xi, yi + 1);
        assert(coords(nb@) =~= s3);
        if x > 0 {
            nb.push((x - 1, y));
        }
        let ghost s4 = s3 + g.keep(xi - 1, yi);
        assert(coords(nb@) =~= s4);
        if x < width - 1 && y < height - 1 {
            nb.push((x + 1, y + 1));
        }
        let ghost s5 = s4 + g.keep(xi + 1, yi + 1);
        assert(coords(nb@) =~= s5);
        if x < width - 1 && y > 0 {
            nb.push((x + 1, y - 1));
        }
        let ghost s6 = s5 + g.keep(xi + 1, yi - 1);
        assert(coords(nb@) =~= s6);
        if x > 0 && y > 0 {
            nb.push((x - 1, y - 1));
        }
        let ghost s7 = s6 + g.keep(xi - 1, yi - 1);
        assert(coords(nb@) =~= s7);
        if x > 0 && y < height - 1 {
            nb.push((x - 1, y + 1));
        }
        assert(coords(nb@) =~= s7 + g.keep(xi - 1, yi + 1));
        nb
    }

    /// Position of `(x, y)` in the buffer, if the coordinate lies inside the
    /// grid.
    fn cord_to_pos(&self, x: usize, y: usize) -> (pos: Option<usize>)
        ensures
            self.wf(),
            pos == if self@.in_bounds(x as int, y as int) {
                Some(self@.index(x as int, y as int) as usize)
            } else {
                None
            },
            self@.in_bounds(x as int, y as int) ==> 0 <= self@.index(x as int, y as int)
                < self.tiles.len() == self.tiles@.len(),
    {
        proof {
            use_type_invariant(self);
        }
        if x < self.width && y < self.height() {
            proof {
                lemma_index_in_range(self@, x as int, y as int);
                let w = self.width as int;
                let yi = y as int;
                assert(0 <= yi * w) by (nonlinear_arith)
                    requires
                        0 <= yi,
                        0 <= w,
                ;
                assert(self.tiles@.len() == self.tiles.len());
            }
            Some(y * self.width + x)
        } else {
            None
        }
    }
}

} // verus!
