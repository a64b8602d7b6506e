//! The plain-text form of a grid: one row per line, every line ended by a
//! newline when written, the last newline optional when read.

use vstd::prelude::*;
use crate::model::GridView;

verus! {

/// Why a text is not a grid.
#[derive(Debug, Clone, Copy, PartialEq, Eq, Structural)]
pub enum GridError {
    /// The text has no line, or its lines differ in length.
    MalformedInput,
    /// The lines are empty: the grid would have no width.
    DegenerateDimensions,
}

/// Appending a character to a `String` puts it at the end of the string's
/// character sequence and leaves the rest as it was (`String::push`).
pub assume_specification[ String::push ](s: &mut String, ch: char)
    ensures
        final(s)@ == old(s)@.push(ch),
;

/// A line without the carriage return that stood before its newline, if one
/// did.
pub open spec fn strip_cr(line: Seq<char>) -> Seq<char> {
    if line.len() > 0 && line.last() == '\r' {
        line.drop_last()
    } else {
        line
    }
}

/// Reading the first `n` characters of `text`: the lines that a newline has
/// ended so far, and the characters read since the last newline.
pub open spec fn scan(text: Seq<char>, n: nat) -> (Seq<Seq<char>>, Seq<char>)
    decreases n,
{
    if n == 0 {
        (Seq::empty(), Seq::empty())
    } else {
        let (done, pending) = scan(text, (n - 1) as nat);
        if text[n - 1] == '\n' {
            (done.push(strip_cr(pending)), Seq::empty())
        } else {
            (done, pending.push(text[n - 1]))
        }
    }
}

/// The lines of `text`. A newline ends a line, and a carriage return just
/// before it belongs to the line ending; what follows the last newline is a
/// line of its own unless it is empty.
pub open spec fn lines(text: Seq<char>) -> Seq<Seq<char>> {
    let (done, pending) = scan(text, text.len());
    if pending.len() > 0 {
        done.push(pending)
    } else {
        done
    }
}

/// The rows one after another.
pub open spec fn concat(rows: Seq<Seq<char>>) -> Seq<char>
    decreases rows.len(),
{
    if rows.len() == 0 {
        Seq::empty()
    } else {
        concat(rows.drop_last()) + rows.last()
    }
}

/// Every row is as long as the first.
pub open spec fn uniform(rows: Seq<Seq<char>>) -> bool {
    forall|i: int| 0 <= i < rows.len() ==> (#[trigger] rows[i]).len() == rows[0].len()
}

/// The grid that `text` describes: its lines are the rows, top to bottom.
/// There must be a line, all lines must have one length, and that length
/// must not be zero.
pub open spec fn parse(text: Seq<char>) -> Result<GridView, GridError> {
    let rows = lines(text);
    if rows.len() == 0 || !uniform(rows) {
        Err(GridError::MalformedInput)
    } else if rows[0].len() == 0 {
        Err(GridError::DegenerateDimensions)
    } else {
        Ok(GridView { width: rows[0].len(), tiles: concat(rows) })
    }
}

impl GridView {
    /// The tiles of row `y`, left to right.
    pub open spec fn row(self, y: int) -> Seq<char> {
        self.tiles.subrange(y * self.width, y * self.width + self.width)
    }

    /// The first `n` rows as text, each followed by a newline.
    pub open spec fn render_rows(self, n: nat) -> Seq<char>
        decreases n,
    {
        if n == 0 {
            Seq::empty()
        } else {
            self.render_rows((n - 1) as nat) + self.row(n - 1).push('\n')
        }
    }

    /// The grid as text: every row, top to bottom, each followed by a newline.
    pub open spec fn render(self) -> Seq<char> {
        self.render_rows(self.height())
    }
}

/// Rows of one length add up to as many tiles as the rectangle has.
pub proof fn lemma_concat_len(rows: Seq<Seq<char>>)
    requires
        rows.len() > 0,
        uniform(rows),
    ensures
        concat(rows).len() == rows.len() * rows[0].len(),
    decreases rows.len(),
{
    let w = rows[0].len() as int;
    let n = rows.len() as int;
    if rows.len() == 1 {
        assert(concat(rows.drop_last()).len() == 0);
        assert(1 * w == w) by (nonlinear_arith);
    } else {
        let front = rows.drop_last();
        assert(uniform(front)) by {
            assert forall|i: int| 0 <= i < front.len() implies (#[trigger] front[i]).len()
                == front[0].len() by {
                assert(front[i] == rows[i]);
                assert(front[0] == rows[0]);
            }
        }
        assert(front[0] == rows[0]);
        lemma_concat_len(front);
        assert(rows.last().len() == w);
        assert((n - 1) * w + w == n * w) by (nonlinear_arith);
    }
}

/// A text that parses gives a well-formed grid with one row per line.
pub proof fn lemma_parse_wf(text: Seq<char>)
    requires
        parse(text).is_ok(),
    ensures
        parse(text).unwrap().wf(),
        parse(text).unwrap().width == lines(text)[0].len(),
        parse(text).unwrap().height() == lines(text).len(),
{
    let rows = lines(text);
    let g = parse(text).unwrap();
    lemma_concat_len(rows);
    vstd::arithmetic::div_mod::lemma_div_by_multiple(rows.len() as int, g.width as int);
    assert(g.width * g.height() == rows.len() * g.width) by (nonlinear_arith)
        requires
            g.height() == rows.len(),
    ;
}

/// The characters of `text`, in order.
fn chars_of(text: &str) -> (v: Vec<char>)
    ensures
        v@ == text@,
{
    let mut v: Vec<char> = Vec::new();
    for c in it: text.chars()
        invariant
            it.seq() == text@,
            v@ == text@.take(it.index() as int),
    {
        v.push(c);
        assert(text@.take(it.index() + 1) =~= text@.take(it.index() as int).push(c));
    }
    assert(text@.take(text@.len() as int) =~= text@);
    v
}

/// Reads a grid from text: the tiles in row-major order and the width.
pub(crate) fn parse_tiles(text: &str) -> (r: Result<(Vec<char>, usize), GridError>)
    ensures
        match r {
            Ok((tiles, width)) => parse(text@) == Ok::<GridView, GridError>(
                GridView { width: width as nat, tiles: tiles@ },
            ),
            Err(e) => parse(text@) == Err::<GridView, GridError>(e),
        },
{
    let chars = chars_of(text);
    let mut tiles: Vec<char> = Vec::new();
    let mut rows: usize = 0;
    let mut width: usize = 0;
    let mut pending: usize = 0;
    let mut even = true;
    let mut i: usize = 0;
    while i < chars.len()
        invariant
            i <= chars.len(),
            tiles@ == concat(scan(chars@, i as nat).0) + scan(chars@, i as nat).1,
            rows == scan(chars@, i as nat).0.len(),
            pending == scan(chars@, i as nat).1.len(),
            rows + pending <= i,
            rows > 0 ==> width == scan(chars@, i as nat).0[0].len(),
            even <==> uniform(scan(chars@, i as nat).0),
        decreases chars.len() - i,
    {
        let ghost done = scan(chars@, i as nat).0;
        let ghost line = scan(chars@, i as nat).1;
        let ch = chars[i];
        if ch == '\n' {
            if pending > 0 && tiles[tiles.len() - 1] == '\r' {
                tiles.pop();
                pending -= 1;
            }
            if rows == 0 {
                width = pending;
            } else if pending != width {
                even = false;
            }
            rows += 1;
            pending = 0;
            proof {
                let kept = strip_cr(line);
                let next = done.push(kept);
                assert(next.drop_last() =~= done);
                assert(tiles@ =~= concat(next) + Seq::<char>::empty());
                lemma_uniform_push(done, kept);
            }
        } else {
            tiles.push(ch);
            pending += 1;
            proof {
                assert(tiles@ =~= concat(done) + line.push(ch));
            }
        }
        i += 1;
    }
    let ghost done = scan(chars@, chars@.len()).0;
    let ghost line = scan(chars@, chars@.len()).1;
    if pending > 0 {
        if rows == 0 {
            width = pending;
        } else if pending != width {
            even = false;
        }
        rows += 1;
        proof {
            let next = done.push(line);
            assert(next.drop_last() =~= done);
            lemma_uniform_push(done, line);
        }
    }
    if rows == 0 || !even {
        Err(GridError::MalformedInput)
    } else if width == 0 {
        Err(GridError::DegenerateDimensions)
    } else {
        Ok((tiles, width))
    }
}

/// Rows stay of one length when a further row of that length is added, and
/// only then.
proof fn lemma_uniform_push(rows: Seq<Seq<char>>, row: Seq<char>)
    ensures
        uniform(rows.push(row)) <==> uniform(rows) && (rows.len() > 0 ==> row.len()
            == rows[0].len()),
{
    let next = rows.push(row);
    if uniform(next) {
        assert forall|i: int| 0 <= i < rows.len() implies (#[trigger] rows[i]).len()
            == rows[0].len() by {
            assert(next[i] == rows[i]);
            assert(next[0] == rows[0]);
        }
        if rows.len() > 0 {
            assert(next[rows.len() as int] == row);
            assert(next[0] == rows[0]);
        }
    }
    if uniform(rows) && (rows.len() > 0 ==> row.len() == rows[0].len()) {
        assert forall|i: int| 0 <= i < next.len() implies (#[trigger] next[i]).len()
            == next[0].len() by {
            if i < rows.len() {
                assert(next[i] == rows[i]);
                assert(next[0] == rows[0]);
            }
        }
    }
}

} // verus!
