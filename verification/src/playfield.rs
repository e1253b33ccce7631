//! The playfield: a rectangular grid of instruction bytes, and a navigator
//! that moves over it with toroidal wraparound.

use vstd::arithmetic::div_mod::lemma_fundamental_div_mod;
use vstd::arithmetic::div_mod::lemma_fundamental_div_mod_converse_mod;
use vstd::arithmetic::div_mod::lemma_mod_add_multiples_vanish;
use vstd::arithmetic::div_mod::lemma_mod_division_less_than_divisor;
use vstd::arithmetic::div_mod::lemma_mod_multiples_vanish;
use vstd::arithmetic::div_mod::lemma_small_mod;
use vstd::prelude::*;

verus! {

/// The four movement directions.
#[derive(Clone, Copy, Debug, PartialEq, Eq, Structural)]
pub enum Direction {
    Up,
    Down,
    Left,
    Right,
}

/// Mathematical view of a [`Playfield`]: a `width x height` matrix of bytes,
/// stored row by row in `cells`.
pub ghost struct PlayfieldView {
    pub width: nat,
    pub height: nat,
    pub cells: Seq<u8>,
}

impl PlayfieldView {
    /// The buffer holds exactly one byte per cell.
    pub open spec fn wf(self) -> bool {
        self.cells.len() == self.width * self.height
    }

    /// Whether `(x, y)` lies inside the grid.
    pub open spec fn in_bounds(self, x: int, y: int) -> bool {
        0 <= x < self.width && 0 <= y < self.height
    }

    /// The byte stored at column `x`, row `y`.
    pub open spec fn cell(self, x: int, y: int) -> u8 {
        self.cells[x + self.width * y]
    }

    /// The grid with the byte at `(x, y)` replaced by `v`.
    pub open spec fn write(self, x: int, y: int, v: u8) -> PlayfieldView {
        PlayfieldView { cells: self.cells.update(x + self.width * y, v), ..self }
    }

    /// Row `y` of the grid.
    pub open spec fn line(self, y: int) -> Seq<u8> {
        self.cells.subrange(self.width * y, self.width * (y + 1))
    }
}

/// The line-feed byte that separates source lines.
pub const LINE_FEED: u8 = 0x0a;

/// The carriage-return byte stripped from a line's end.
pub const CARRIAGE_RETURN: u8 = 0x0d;

/// The space byte used to pad short lines.
pub const SPACE: u8 = 0x20;

/// Index of the first line feed in `s`, or `s.len()` if there is none.
pub open spec fn line_end(s: Seq<u8>) -> nat
    decreases s.len(),
{
    if s.len() == 0 {
        0
    } else if s[0] == LINE_FEED {
        0
    } else {
        (1 + line_end(s.skip(1))) as nat
    }
}

/// A raw line with one trailing carriage return stripped, as standard line
/// splitting strips it.
pub open spec fn strip_cr(l: Seq<u8>) -> Seq<u8> {
    if l.len() > 0 && l.last() == CARRIAGE_RETURN {
        l.drop_last()
    } else {
        l
    }
}

/// The lines of `s`, split at line feeds: a line feed ends a line, and a
/// final line without one still counts, so a trailing line feed adds no
/// empty line.
pub open spec fn split_lines(s: Seq<u8>) -> Seq<Seq<u8>>
    decreases s.len(),
{
    if s.len() == 0 {
        seq![]
    } else {
        let n = line_end(s) as int;
        let rest = if n + 1 <= s.len() {
            s.skip(n + 1)
        } else {
            s.skip(s.len() as int)
        };
        seq![strip_cr(s.take(n))] + split_lines(rest)
    }
}

/// The length of the longest of `lines`, or `0` if there are none.
pub open spec fn max_line_len(lines: Seq<Seq<u8>>) -> nat
    decreases lines.len(),
{
    if lines.len() == 0 {
        0
    } else {
        let rest = max_line_len(lines.drop_last());
        if lines.last().len() >= rest {
            lines.last().len()
        } else {
            rest
        }
    }
}

/// A line padded with spaces to width `w`.
pub open spec fn pad_line(l: Seq<u8>, w: nat) -> Seq<u8> {
    l + Seq::new((w - l.len()) as nat, |i: int| SPACE)
}

/// The flat buffer of a playfield: every line padded to width `w`, then all
/// of them concatenated top to bottom.
pub open spec fn padded_field(lines: Seq<Seq<u8>>, w: nat) -> Seq<u8>
    decreases lines.len(),
{
    if lines.len() == 0 {
        Seq::empty()
    } else {
        padded_field(lines.drop_last(), w) + pad_line(lines.last(), w)
    }
}

/// The text of the first `y` rows of `p`, each followed by a line feed.
pub open spec fn rows_text(p: PlayfieldView, y: int) -> Seq<u8>
    decreases y,
{
    if y <= 0 {
        Seq::empty()
    } else {
        rows_text(p, y - 1) + p.line(y - 1) + seq![LINE_FEED]
    }
}

/// The playfield rendered as text: every row followed by a line feed.
pub open spec fn text_of(p: PlayfieldView) -> Seq<u8> {
    rows_text(p, p.height as int)
}

/// A two-dimensional matrix of bytes.
///
/// Every row has the same length; a program's shorter source lines are padded
/// with spaces on construction.
pub struct Playfield {
    field: Vec<u8>,
    width: usize,
    height: usize,
}

impl View for Playfield {
    type V = PlayfieldView;

    closed spec fn view(&self) -> PlayfieldView {
        PlayfieldView {
            width: self.width as nat,
            height: self.height as nat,
            cells: self.field@,
        }
    }
}

/// The views of a sequence of byte vectors.
pub open spec fn views_of(lines: Seq<Vec<u8>>) -> Seq<Seq<u8>> {
    lines.map_values(|l: Vec<u8>| l@)
}

/// The first line feed is exactly where a scan that found none before `m`
/// stops.
pub(crate) proof fn lemma_line_end_position(s: Seq<u8>, m: int)
    requires
        0 <= m <= s.len(),
        forall|k: int| 0 <= k < m ==> s[k] != LINE_FEED,
        m == s.len() || s[m] == LINE_FEED,
    ensures
        line_end(s) == m,
    decreases m,
{
    if m > 0 {
        lemma_line_end_position(s.skip(1), m - 1);
    }
}

/// No line is longer than the longest line.
proof fn lemma_max_line_len_bound(lines: Seq<Seq<u8>>, i: int)
    requires
        0 <= i < lines.len(),
    ensures
        lines[i].len() <= max_line_len(lines),
    decreases lines.len(),
{
    if i < lines.len() - 1 {
        lemma_max_line_len_bound(lines.drop_last(), i);
    }
}

/// The flat buffer of `lines` at width `w` holds `w` bytes per line.
proof fn lemma_padded_field_len(lines: Seq<Seq<u8>>, w: nat)
    requires
        forall|i: int| 0 <= i < lines.len() ==> #[trigger] lines[i].len() <= w,
    ensures
        padded_field(lines, w).len() == w * lines.len(),
    decreases lines.len(),
{
    if lines.len() == 0 {
        assert(w * 0 == 0) by (nonlinear_arith);
    } else {
        lemma_padded_field_len(lines.drop_last(), w);
        assert(w * lines.len() == w * (lines.len() - 1) + w) by (nonlinear_arith);
    }
}

/// Row `y` of the flat buffer of `lines` is line `y` padded to width `w`.
pub proof fn lemma_padded_field_row(lines: Seq<Seq<u8>>, w: nat, y: int)
    requires
        forall|i: int| 0 <= i < lines.len() ==> #[trigger] lines[i].len() <= w,
        0 <= y < lines.len(),
    ensures
        padded_field(lines, w).subrange(w * y, w * (y + 1)) == pad_line(lines[y], w),
    decreases lines.len(),
{
    lemma_padded_field_len(lines.drop_last(), w);
    assert(w * (lines.len() - 1) + w == w * lines.len()) by (nonlinear_arith);
    assert(lines[lines.len() - 1].len() <= w);
    assert(pad_line(lines.last(), w).len() == w);
    if y == lines.len() - 1 {
        assert(padded_field(lines, w).subrange(w * y, w * (y + 1)) =~= pad_line(lines[y], w));
    } else {
        lemma_padded_field_row(lines.drop_last(), w, y);
        assert(w * (y + 1) <= w * (lines.len() - 1)) by (nonlinear_arith)
            requires y + 1 <= lines.len() - 1, w >= 0;
        assert(w * y >= 0 && w * y <= w * (y + 1)) by (nonlinear_arith)
            requires y >= 0, w >= 0;
        let full = padded_field(lines, w);
        let prefix = padded_field(lines.drop_last(), w);
        assert(full == prefix + pad_line(lines.last(), w));
        assert forall|k: int| 0 <= k < w * (y + 1) - w * y implies #[trigger] full.subrange(
            w * y,
            w * (y + 1),
        )[k] == prefix.subrange(w * y, w * (y + 1))[k] by {
            assert(full[w * y + k] == prefix[w * y + k]);
        }
        assert(full.subrange(w * y, w * (y + 1)) =~= prefix.subrange(w * y, w * (y + 1)));
    }
}

/// Each cell of a fresh playfield holds the byte of its source line, or a
/// pad space where the line was shorter than the grid.
pub proof fn lemma_new_playfield_cell(p: PlayfieldView, lines: Seq<Seq<u8>>, x: int, y: int)
    requires
        p.width == max_line_len(lines),
        p.height == lines.len(),
        p.cells == padded_field(lines, p.width),
        0 <= y < p.height,
        0 <= x < p.width,
    ensures
        x < lines[y].len() ==> p.cell(x, y) == lines[y][x],
        x >= lines[y].len() ==> p.cell(x, y) == SPACE,
{
    let w = p.width;
    assert forall|i: int| 0 <= i < lines.len() implies #[trigger] lines[i].len() <= w by {
        lemma_max_line_len_bound(lines, i);
    }
    lemma_padded_field_row(lines, w, y);
    lemma_padded_field_len(lines, w);
    assert(w * y >= 0 && w * (y + 1) <= w * lines.len()) by (nonlinear_arith)
        requires 0 <= y < lines.len(), w >= 0;
    assert(w * (y + 1) == w * y + w) by (nonlinear_arith);
    assert(p.cell(x, y) == p.cells.subrange(w * y, w * (y + 1))[x]);
    assert(pad_line(lines[y], w)[x] == (if x < lines[y].len() {
        lines[y][x]
    } else {
        SPACE
    }));
}

impl Playfield {
    /// The flat buffer length always matches the dimensions.
    pub open spec fn wf(&self) -> bool {
        self@.wf()
    }

    /// Create a new playfield from the given program text.
    ///
    /// Each line in the input is padded with spaces to the length of the
    /// longest line. Width and height are defined as the length of the
    /// longest line and the number of lines in the input.
    pub fn new(input: &[u8]) -> (p: Playfield)
        requires
            input@.len() > 0,
        ensures
            p@.height == split_lines(input@).len(),
            p@.height >= 1,
            p@.width == max_line_len(split_lines(input@)),
            p@.cells == padded_field(split_lines(input@), p@.width),
            p.wf(),
    {
        let ghost all_lines = split_lines(input@);
        let mut lines: Vec<Vec<u8>> = Vec::new();
        let mut i: usize = 0;
        proof {
            assert(input@.skip(0) =~= input@);
            assert(views_of(lines@) + split_lines(input@) =~= all_lines);
        }
        while i < input.len()
            invariant
                i <= input@.len(),
                all_lines == views_of(lines@) + split_lines(
                    input@.skip(i as int),
                ),
            decreases input@.len() - i,
        {
            let ghost rest = input@.skip(i as int);
            let mut j: usize = i;
            while j < input.len() && input[j] != LINE_FEED
                invariant
                    i <= j <= input@.len(),
                    forall|k: int| i <= k < j ==> input@[k] != LINE_FEED,
                decreases input@.len() - j,
            {
                j += 1;
            }
            proof {
                assert(rest =~= input@.subrange(i as int, input@.len() as int));
                assert forall|k: int| 0 <= k < j - i implies rest[k] != LINE_FEED by {
                    assert(input@[i + k] != LINE_FEED);
                }
                if j < input@.len() {
                    assert(rest[j - i] == input@[j as int]);
                }
                lemma_line_end_position(rest, j - i);
            }
            let end: usize = if j > i && input[j - 1] == CARRIAGE_RETURN {
                j - 1
            } else {
                j
            };
            let mut line: Vec<u8> = Vec::new();
            let mut k: usize = i;
            while k < end
                invariant
                    i <= k <= end <= input@.len(),
                    line@ == input@.subrange(i as int, k as int),
                decreases end - k,
            {
                let c = input[k];
                line.push(c);
                proof {
                    assert(line@ =~= input@.subrange(i as int, k + 1 as int));
                }
                k += 1;
            }
            proof {
                assert(rest.take(j - i) =~= input@.subrange(i as int, j as int));
                if j > i && input@[j - 1] == CARRIAGE_RETURN {
                    assert(line@ =~= rest.take(j - i).drop_last());
                } else {
                    assert(line@ =~= rest.take(j - i));
                }
                assert(line@ == strip_cr(rest.take(j - i)));
            }
            let next: usize = if j < input.len() {
                j + 1
            } else {
                j
            };
            proof {
                assert(input@.skip(next as int) =~= (if j - i + 1 <= rest.len() {
                    rest.skip(j - i + 1)
                } else {
                    rest.skip(rest.len() as int)
                }));
                assert(split_lines(rest) == seq![line@] + split_lines(input@.skip(next as int)));
                assert(lines@.push(line).map_values(|l: Vec<u8>| l@) =~= lines@.map_values(
                    |l: Vec<u8>| l@,
                ).push(line@));
                assert(views_of(lines@).push(line@) + split_lines(
                    input@.skip(next as int),
                ) =~= views_of(lines@) + split_lines(rest));
            }
            lines.push(line);
            i = next;
        }
        proof {
            assert(input@.skip(i as int) =~= Seq::<u8>::empty());
            assert(split_lines(input@.skip(i as int)) =~= Seq::<Seq<u8>>::empty());
            assert(views_of(lines@) =~= all_lines);
        }
        let height = lines.len();

        let mut width: usize = 0;
        let mut r: usize = 0;
        while r < lines.len()
            invariant
                r <= lines@.len(),
                views_of(lines@) == all_lines,
                width == max_line_len(all_lines.take(r as int)),
            decreases lines@.len() - r,
        {
            let len = lines[r].len();
            if len > width {
                width = len;
            }
            proof {
                assert(all_lines.take(r + 1 as int).drop_last() =~= all_lines.take(r as int));
                assert(all_lines.take(r + 1 as int).last() == lines@[r as int]@);
            }
            r += 1;
        }
        proof {
            assert(all_lines.take(all_lines.len() as int) =~= all_lines);
        }

        let mut field: Vec<u8> = Vec::new();
        let mut r: usize = 0;
        while r < lines.len()
            invariant
                r <= lines@.len(),
                views_of(lines@) == all_lines,
                width == max_line_len(all_lines),
                field@ == padded_field(all_lines.take(r as int), width as nat),
            decreases lines@.len() - r,
        {
            proof {
                lemma_max_line_len_bound(all_lines, r as int);
            }
            let ghost before = field@;
            let line_len = lines[r].len();
            let mut k: usize = 0;
            while k < line_len
                invariant
                    r < lines@.len(),
                    k <= line_len == lines@[r as int]@.len(),
                    field@ == before + lines@[r as int]@.take(k as int),
                decreases line_len - k,
            {
                let c = lines[r][k];
                field.push(c);
                proof {
                    assert(field@ =~= before + lines@[r as int]@.take(k + 1 as int));
                }
                k += 1;
            }
            while k < width
                invariant
                    r < lines@.len(),
                    line_len == lines@[r as int]@.len() <= k <= width,
                    field@ == before + lines@[r as int]@ + Seq::new(
                        (k - line_len) as nat,
                        |q: int| SPACE,
                    ),
                decreases width - k,
            {
                field.push(SPACE);
                proof {
                    assert(field@ =~= before + lines@[r as int]@ + Seq::new(
                        (k + 1 - line_len) as nat,
                        |q: int| SPACE,
                    ));
                }
                k += 1;
            }
            proof {
                assert(all_lines.take(r + 1 as int).drop_last() =~= all_lines.take(r as int));
                assert(all_lines.take(r + 1 as int).last() == lines@[r as int]@);
                assert(field@ =~= padded_field(all_lines.take(r + 1 as int), width as nat));
            }
            r += 1;
        }
        proof {
            assert(all_lines.take(all_lines.len() as int) =~= all_lines);
            assert forall|q: int| 0 <= q < all_lines.len() implies #[trigger] all_lines[q].len()
                <= width as nat by {
                lemma_max_line_len_bound(all_lines, q);
            }
            lemma_padded_field_len(all_lines, width as nat);
        }

        Self { field, width, height }
    }

    /// Return the dimensions `(width, height)` of this playfield.
    pub fn dimensions(&self) -> (d: (usize, usize))
        ensures
            d.0 == self@.width,
            d.1 == self@.height,
    {
        (self.width, self.height)
    }

    /// Read the byte at column `x`, row `y`.
    pub fn get(&self, x: usize, y: usize) -> (v: u8)
        requires
            self.wf(),
            self@.in_bounds(x as int, y as int),
        ensures
            v == self@.cell(x as int, y as int),
    {
        // the buffer length, a usize, bounds the flat index
        let _bound = self.field.len();
        proof {
            lemma_cell_index_in_bounds(self@, x as int, y as int);
        }
        self.field[x + self.width * y]
    }

    /// Write the byte `v` at column `x`, row `y`.
    pub fn set(&mut self, x: usize, y: usize, v: u8)
        requires
            old(self).wf(),
            old(self)@.in_bounds(x as int, y as int),
        ensures
            final(self)@ == old(self)@.write(x as int, y as int, v),
            final(self).wf(),
    {
        // the buffer length, a usize, bounds the flat index
        let _bound = self.field.len();
        proof {
            lemma_cell_index_in_bounds(self@, x as int, y as int);
        }
        let i = x + self.width * y;
        self.field.set(i, v);
    }

    /// Render the playfield as text: every row followed by a line feed.
    pub fn to_text(&self) -> (r: Vec<u8>)
        requires
            self.wf(),
        ensures
            r@ == text_of(self@),
    {
        let rows = self.lines();
        let mut out: Vec<u8> = Vec::new();
        let mut y: usize = 0;
        proof {
            assert(out@ =~= rows_text(self@, 0));
        }
        while y < rows.len()
            invariant
                self.wf(),
                rows@.len() == self@.height,
                forall|q: int| 0 <= q < self@.height ==> rows@[q]@ == self@.line(q),
                y <= rows@.len(),
                out@ == rows_text(self@, y as int),
            decreases rows@.len() - y,
        {
            let row = &rows[y];
            let mut k: usize = 0;
            while k < row.len()
                invariant
                    y < rows@.len(),
                    k <= row@.len(),
                    row@ == rows@[y as int]@,
                    out@ == rows_text(self@, y as int) + rows@[y as int]@.take(k as int),
                decreases row@.len() - k,
            {
                let c = row[k];
                out.push(c);
                proof {
                    assert(out@ =~= rows_text(self@, y as int) + rows@[y as int]@.take(
                        k + 1 as int,
                    ));
                }
                k += 1;
            }
            out.push(LINE_FEED);
            proof {
                assert(rows@[y as int]@.take(rows@[y as int]@.len() as int) =~= rows@[y as int]@);
                assert(out@ =~= rows_text(self@, y + 1 as int));
            }
            y += 1;
        }
        out
    }

    /// Return the rows of this playfield, top to bottom.
    pub fn lines(&self) -> (r: Vec<Vec<u8>>)
        requires
            self.wf(),
        ensures
            r@.len() == self@.height,
            forall|y: int| 0 <= y < self@.height ==> r@[y]@ == self@.line(y),
    {
        let mut rows: Vec<Vec<u8>> = Vec::new();
        let mut y: usize = 0;
        while y < self.height
            invariant
                self.wf(),
                y <= self@.height,
                rows@.len() == y,
                forall|j: int| 0 <= j < y ==> rows@[j]@ == self@.line(j),
            decreases self@.height - y,
        {
            let mut row: Vec<u8> = Vec::new();
            let mut x: usize = 0;
            while x < self.width
                invariant
                    self.wf(),
                    y < self@.height,
                    x <= self@.width,
                    row@.len() == x,
                    forall|i: int| 0 <= i < x ==> row@[i] == self@.cell(i, y as int),
                decreases self@.width - x,
            {
                let c = self.get(x, y);
                row.push(c);
                x += 1;
            }
            proof {
                lemma_row_of_cells(self@, y as int, row@);
            }
            rows.push(row);
            y += 1;
        }
        rows
    }
}

/// A cell's flat index lies inside the buffer.
proof fn lemma_cell_index_in_bounds(p: PlayfieldView, x: int, y: int)
    requires
        p.wf(),
        p.in_bounds(x, y),
    ensures
        0 <= x + p.width * y < p.cells.len(),
{
    assert(x + p.width * y < p.width * (y + 1)) by (nonlinear_arith)
        requires 0 <= x < p.width;
    assert(p.width * (y + 1) <= p.width * p.height) by (nonlinear_arith)
        requires y + 1 <= p.height, p.width >= 0;
}

/// A sequence that matches row `y` cell by cell equals `line(y)`.
proof fn lemma_row_of_cells(p: PlayfieldView, y: int, row: Seq<u8>)
    requires
        p.wf(),
        0 <= y < p.height,
        row.len() == p.width,
        forall|i: int| 0 <= i < p.width ==> row[i] == p.cell(i, y),
    ensures
        row == p.line(y),
{
    assert(p.width * y >= 0 && p.width * (y + 1) <= p.cells.len()) by (nonlinear_arith)
        requires p.wf(), 0 <= y < p.height;
    assert(p.width * (y + 1) == p.width * y + p.width) by (nonlinear_arith);
    assert forall|i: int| 0 <= i < p.width implies row[i] == p.line(y)[i] by {
        assert(p.line(y)[i] == p.cells[p.width * y + i]);
    }
    assert(row =~= p.line(y));
}

/// Mathematical view of a [`PlayfieldNavigator`].
pub ghost struct NavView {
    pub dim: (nat, nat),
    pub pos: (nat, nat),
    pub dir: Direction,
}

impl NavView {
    /// The grid is at least one cell wide and high, and the position lies
    /// inside it.
    pub open spec fn wf(self) -> bool {
        &&& self.dim.0 >= 1
        &&& self.dim.1 >= 1
        &&& self.pos.0 < self.dim.0
        &&& self.pos.1 < self.dim.1
    }
}

/// One wraparound move in the facing direction.
pub open spec fn nav_step(n: NavView) -> NavView {
    match n.dir {
        Direction::Up => NavView {
            pos: (n.pos.0, if n.pos.1 > 0 { (n.pos.1 - 1) as nat } else { (n.dim.1 - 1) as nat }),
            ..n
        },
        Direction::Down => NavView {
            pos: (n.pos.0, if n.pos.1 < n.dim.1 - 1 { n.pos.1 + 1 } else { 0 }),
            ..n
        },
        Direction::Left => NavView {
            pos: (if n.pos.0 > 0 { (n.pos.0 - 1) as nat } else { (n.dim.0 - 1) as nat }, n.pos.1),
            ..n
        },
        Direction::Right => NavView {
            pos: (if n.pos.0 < n.dim.0 - 1 { n.pos.0 + 1 } else { 0 }, n.pos.1),
            ..n
        },
    }
}

/// A change of facing: pure assignment, no movement.
pub open spec fn nav_turn(n: NavView, dir: Direction) -> NavView {
    NavView { dir, ..n }
}

/// A navigator through the playfield.
///
/// The navigator stores the grid dimensions, the current position and the
/// direction in which we are looking.
pub struct PlayfieldNavigator {
    dim: (usize, usize),
    pos: (usize, usize),
    dir: Direction,
}

impl View for PlayfieldNavigator {
    type V = NavView;

    closed spec fn view(&self) -> NavView {
        NavView {
            dim: (self.dim.0 as nat, self.dim.1 as nat),
            pos: (self.pos.0 as nat, self.pos.1 as nat),
            dir: self.dir,
        }
    }
}

impl PlayfieldNavigator {
    /// The position always lies inside the dimensions.
    pub open spec fn wf(&self) -> bool {
        self@.wf()
    }

    /// Create a new navigator for the given dimensions.
    ///
    /// Initially, we are looking right from position `(0, 0)`.
    pub fn new(dim: (usize, usize)) -> (nav: Self)
        requires
            dim.0 >= 1,
            dim.1 >= 1,
        ensures
            nav@ == (NavView {
                dim: (dim.0 as nat, dim.1 as nat),
                pos: (0nat, 0nat),
                dir: Direction::Right,
            }),
            nav.wf(),
    {
        Self { dim, pos: (0, 0), dir: Direction::Right }
    }

    /// Move one step in the facing direction.
    ///
    /// When the border of the field is reached, the navigator wraps around
    /// and continues at the opposite side of the field.
    pub fn step(&mut self)
        requires
            old(self).wf(),
        ensures
            final(self)@ == nav_step(old(self)@),
            final(self).wf(),
    {
        match self.dir {
            Direction::Up => {
                if self.pos.1 > 0 {
                    self.pos.1 -= 1;
                } else {
                    self.pos.1 = self.dim.1 - 1;
                }
            }
            Direction::Down => {
                if self.pos.1 < self.dim.1 - 1 {
                    self.pos.1 += 1;
                } else {
                    self.pos.1 = 0;
                }
            }
            Direction::Left => {
                if self.pos.0 > 0 {
                    self.pos.0 -= 1;
                } else {
                    self.pos.0 = self.dim.0 - 1;
                }
            }
            Direction::Right => {
                if self.pos.0 < self.dim.0 - 1 {
                    self.pos.0 += 1;
                } else {
                    self.pos.0 = 0;
                }
            }
        }
    }

    /// Turn into the given direction.
    pub fn turn(&mut self, dir: Direction)
        ensures
            final(self)@ == nav_turn(old(self)@, dir),
    {
        self.dir = dir;
    }

    /// Return the current position of the navigator.
    pub fn pos(&self) -> (p: (usize, usize))
        ensures
            p.0 == self@.pos.0,
            p.1 == self@.pos.1,
    {
        self.pos
    }

    /// Return the current direction the navigator is looking in.
    pub fn dir(&self) -> (d: Direction)
        ensures
            d == self@.dir,
    {
        self.dir
    }
}

/// The navigator after `k` wraparound moves.
pub open spec fn nav_step_n(n: NavView, k: nat) -> NavView
    decreases k,
{
    if k == 0 {
        n
    } else {
        nav_step(nav_step_n(n, (k - 1) as nat))
    }
}

/// Facing right, `k` moves put the navigator at `(x + k) mod width`; nothing
/// else changes.
proof fn lemma_step_n_right(n: NavView, k: nat)
    requires
        n.wf(),
        n.dir == Direction::Right,
    ensures
        nav_step_n(n, k) == (NavView {
            pos: ((((n.pos.0 + k) as int % (n.dim.0 as int)) as nat), n.pos.1),
            ..n
        }),
    decreases k,
{
    let w = n.dim.0 as int;
    let x = n.pos.0 as int;
    if k == 0 {
        lemma_small_mod(n.pos.0, n.dim.0);
    } else {
        lemma_step_n_right(n, (k - 1) as nat);
        let prev = (x + k - 1) % w;
        let q = (x + k - 1) / w;
        lemma_mod_division_less_than_divisor(x + k - 1, w);
        lemma_fundamental_div_mod(x + k - 1, w);
        if prev < w - 1 {
            assert(x + k == q * w + (prev + 1)) by (nonlinear_arith)
                requires x + k - 1 == w * q + prev;
            lemma_fundamental_div_mod_converse_mod(x + k, w, q, prev + 1);
        } else {
            assert(x + k == (q + 1) * w + 0) by (nonlinear_arith)
                requires x + k - 1 == w * q + prev, prev == w - 1;
            lemma_fundamental_div_mod_converse_mod(x + k, w, q + 1, 0);
        }
    }
}

/// Facing left, `k` moves put the navigator at `(x + k * (width - 1)) mod
/// width`; nothing else changes.
proof fn lemma_step_n_left(n: NavView, k: nat)
    requires
        n.wf(),
        n.dir == Direction::Left,
    ensures
        nav_step_n(n, k) == (NavView {
            pos: ((((n.pos.0 + k * (n.dim.0 - 1)) % (n.dim.0 as int)) as nat), n.pos.1),
            ..n
        }),
    decreases k,
{
    let w = n.dim.0 as int;
    let x = n.pos.0 as int;
    if k == 0 {
        assert(x + 0 * (w - 1) == x) by (nonlinear_arith);
        lemma_small_mod(n.pos.0, n.dim.0);
    } else {
        lemma_step_n_left(n, (k - 1) as nat);
        let a = x + (k - 1) * (w - 1);
        let prev = a % w;
        let q = a / w;
        lemma_mod_division_less_than_divisor(a, w);
        lemma_fundamental_div_mod(a, w);
        assert(a + (w - 1) == x + k * (w - 1)) by (nonlinear_arith)
            requires a == x + (k - 1) * (w - 1), k >= 1;
        if prev > 0 {
            assert(a + (w - 1) == (q + 1) * w + (prev - 1)) by (nonlinear_arith)
                requires a == w * q + prev;
            lemma_fundamental_div_mod_converse_mod(x + k * (w - 1), w, q + 1, prev - 1);
        } else {
            assert(a + (w - 1) == q * w + (w - 1)) by (nonlinear_arith)
                requires a == w * q + prev, prev == 0;
            lemma_fundamental_div_mod_converse_mod(x + k * (w - 1), w, q, w - 1);
        }
    }
}

/// Facing down, `k` moves put the navigator at `(y + k) mod height`; nothing
/// else changes.
proof fn lemma_step_n_down(n: NavView, k: nat)
    requires
        n.wf(),
        n.dir == Direction::Down,
    ensures
        nav_step_n(n, k) == (NavView {
            pos: (n.pos.0, (((n.pos.1 + k) as int % (n.dim.1 as int)) as nat)),
            ..n
        }),
    decreases k,
{
    let h = n.dim.1 as int;
    let y = n.pos.1 as int;
    if k == 0 {
        lemma_small_mod(n.pos.1, n.dim.1);
    } else {
        lemma_step_n_down(n, (k - 1) as nat);
        let prev = (y + k - 1) % h;
        let q = (y + k - 1) / h;
        lemma_mod_division_less_than_divisor(y + k - 1, h);
        lemma_fundamental_div_mod(y + k - 1, h);
        if prev < h - 1 {
            assert(y + k == q * h + (prev + 1)) by (nonlinear_arith)
                requires y + k - 1 == h * q + prev;
            lemma_fundamental_div_mod_converse_mod(y + k, h, q, prev + 1);
        } else {
            assert(y + k == (q + 1) * h + 0) by (nonlinear_arith)
                requires y + k - 1 == h * q + prev, prev == h - 1;
            lemma_fundamental_div_mod_converse_mod(y + k, h, q + 1, 0);
        }
    }
}

/// Facing up, `k` moves put the navigator at `(y + k * (height - 1)) mod
/// height`; nothing else changes.
proof fn lemma_step_n_up(n: NavView, k: nat)
    requires
        n.wf(),
        n.dir == Direction::Up,
    ensures
        nav_step_n(n, k) == (NavView {
            pos: (n.pos.0, (((n.pos.1 + k * (n.dim.1 - 1)) % (n.dim.1 as int)) as nat)),
            ..n
        }),
    decreases k,
{
    let h = n.dim.1 as int;
    let y = n.pos.1 as int;
    if k == 0 {
        assert(y + 0 * (h - 1) == y) by (nonlinear_arith);
        lemma_small_mod(n.pos.1, n.dim.1);
    } else {
        lemma_step_n_up(n, (k - 1) as nat);
        let a = y + (k - 1) * (h - 1);
        let prev = a % h;
        let q = a / h;
        lemma_mod_division_less_than_divisor(a, h);
        lemma_fundamental_div_mod(a, h);
        assert(a + (h - 1) == y + k * (h - 1)) by (nonlinear_arith)
            requires a == y + (k - 1) * (h - 1), k >= 1;
        if prev > 0 {
            assert(a + (h - 1) == (q + 1) * h + (prev - 1)) by (nonlinear_arith)
                requires a == h * q + prev;
            lemma_fundamental_div_mod_converse_mod(y + k * (h - 1), h, q + 1, prev - 1);
        } else {
            assert(a + (h - 1) == q * h + (h - 1)) by (nonlinear_arith)
                requires a == h * q + prev, prev == 0;
            lemma_fundamental_div_mod_converse_mod(y + k * (h - 1), h, q, h - 1);
        }
    }
}

/// Toroidal closure on the x-axis, moving right: exactly `width` moves bring
/// the navigator back to where it stood, direction and y-position untouched.
pub proof fn lemma_toroidal_closure_right(n: NavView)
    requires
        n.wf(),
        n.dir == Direction::Right,
    ensures
        nav_step_n(n, n.dim.0) == n,
{
    let w = n.dim.0 as int;
    lemma_step_n_right(n, n.dim.0);
    lemma_mod_add_multiples_vanish(n.pos.0 as int, w);
    lemma_small_mod(n.pos.0, n.dim.0);
}

/// Toroidal closure on the x-axis, moving left: exactly `width` moves bring
/// the navigator back to where it stood, direction and y-position untouched.
pub proof fn lemma_toroidal_closure_left(n: NavView)
    requires
        n.wf(),
        n.dir == Direction::Left,
    ensures
        nav_step_n(n, n.dim.0) == n,
{
    let w = n.dim.0 as int;
    let x = n.pos.0 as int;
    lemma_step_n_left(n, n.dim.0);
    assert(x + w * (w - 1) == w * (w - 1) + x) by (nonlinear_arith);
    lemma_mod_multiples_vanish(w - 1, x, w);
    lemma_small_mod(n.pos.0, n.dim.0);
}

/// Toroidal closure on the y-axis, moving down: exactly `height` moves bring
/// the navigator back to where it stood, direction and x-position untouched.
pub proof fn lemma_toroidal_closure_down(n: NavView)
    requires
        n.wf(),
        n.dir == Direction::Down,
    ensures
        nav_step_n(n, n.dim.1) == n,
{
    let h = n.dim.1 as int;
    lemma_step_n_down(n, n.dim.1);
    lemma_mod_add_multiples_vanish(n.pos.1 as int, h);
    lemma_small_mod(n.pos.1, n.dim.1);
}

/// Toroidal closure on the y-axis, moving up: exactly `height` moves bring
/// the navigator back to where it stood, direction and x-position untouched.
pub proof fn lemma_toroidal_closure_up(n: NavView)
    requires
        n.wf(),
        n.dir == Direction::Up,
    ensures
        nav_step_n(n, n.dim.1) == n,
{
    let h = n.dim.1 as int;
    let y = n.pos.1 as int;
    lemma_step_n_up(n, n.dim.1);
    assert(y + h * (h - 1) == h * (h - 1) + y) by (nonlinear_arith);
    lemma_mod_multiples_vanish(h - 1, y, h);
    lemma_small_mod(n.pos.1, n.dim.1);
}

/// Turning is idempotent: turning into a direction twice in a row leaves
/// direction and position identical to turning once.
pub proof fn lemma_turn_idempotent(n: NavView, dir: Direction)
    ensures
        nav_turn(nav_turn(n, dir), dir) == nav_turn(n, dir),
{
}

} // verus!
