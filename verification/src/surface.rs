//! The subpixel surface: the grid marks draw on, and its string encoders.

use vstd::prelude::*;

use crate::charset::Charset;
use crate::color::{is_quantizer, spec_transition, Color, ColorMode, Resolved};
use crate::html::{escape, spec_escape};
use crate::text::{chars_of, extend_chars, hex_byte, push_char, push_hex_byte, push_range, push_str};
use crate::width::{columns, columns_of};

verus! {

/// The text slot of a cell. A wide glyph (CJK) occupies its own cell plus a
/// `Continuation` to its right for each further column.
#[derive(Debug, Clone, Copy, PartialEq, Eq, Structural)]
pub enum Text {
    /// No text: the cell prints its subpixel pattern.
    Empty,
    /// A glyph, which wins over the pattern when the cell prints.
    Glyph(char),
    /// The right part of a wide glyph that starts further left.
    Continuation,
}

/// One character cell: a subpixel pattern, a text slot, and a color.
///
/// Text wins over pixels when the cell prints — labels are never corrupted
/// by marks drawing underneath them.
#[derive(Debug, Clone, Copy, PartialEq, Eq, Structural)]
pub struct Cell {
    /// The lit subpixels, as the charset's pattern bits.
    pub bits: u8,
    /// The text slot.
    pub text: Text,
    /// The last color written to the cell.
    pub color: Color,
}

/// The empty cell.
pub open spec fn empty_cell() -> Cell {
    Cell { bits: 0, text: Text::Empty, color: Color::Default }
}

/// Truncating integer division, as Rust's `/` on signed integers.
pub open spec fn trunc_div(a: int, b: int) -> int {
    if a >= 0 { a / b } else { -((-a) / b) }
}

/// Whether `(x, y)` lies inside an optional clip rectangle (upper bounds
/// exclusive); no clip admits everything.
pub open spec fn in_clip(clip: Option<(i64, i64, i64, i64)>, x: int, y: int) -> bool {
    match clip {
        None => true,
        Some((x0, y0, x1, y1)) => x0 <= x < x1 && y0 <= y < y1,
    }
}

/// A grid of character cells addressed in subpixel coordinates.
///
/// The surface is pure raster state: origin at the top-left, y growing
/// downward, `width * height` cells at the charset's subpixel density.
/// Drawing is total — coordinates outside the surface clip away. When
/// several colors land in one cell, the last write wins.
#[derive(Debug, Clone, PartialEq)]
pub struct Surface {
    width: usize,
    height: usize,
    charset: Charset,
    cells: Vec<Cell>,
    /// An optional drawing clip in subpixel coordinates `(x0, y0, x1, y1)`,
    /// upper bounds exclusive: when set, drawing lands only inside it.
    clip: Option<(i64, i64, i64, i64)>,
}

impl Surface {
    /// The width in cells.
    pub closed spec fn spec_width(&self) -> nat {
        self.width as nat
    }

    /// The height in cells.
    pub closed spec fn spec_height(&self) -> nat {
        self.height as nat
    }

    /// The charset the cells print with.
    pub closed spec fn spec_charset(&self) -> Charset {
        self.charset
    }

    /// The cells, row by row.
    pub closed spec fn spec_cells(&self) -> Seq<Cell> {
        self.cells@
    }

    /// The active drawing clip.
    pub closed spec fn spec_clip(&self) -> Option<(i64, i64, i64, i64)> {
        self.clip
    }

    /// The subpixel width.
    pub open spec fn spec_subpixel_width(&self) -> nat {
        self.spec_width() * self.spec_charset().spec_columns()
    }

    /// The subpixel height.
    pub open spec fn spec_subpixel_height(&self) -> nat {
        self.spec_height() * self.spec_charset().spec_rows()
    }

    /// Whether the subpixel extents fit: signed coordinates and `usize`
    /// can address them.
    pub open spec fn extents_fit(&self) -> bool {
        &&& self.spec_subpixel_width() <= i64::MAX
        &&& self.spec_subpixel_height() <= i64::MAX
        &&& self.spec_subpixel_width() <= usize::MAX
        &&& self.spec_subpixel_height() <= usize::MAX
    }

    /// Well-formedness: one cell per grid position, subpixel extents that
    /// signed coordinates can address whenever there are cells, and no cell
    /// whose text is an `ESC`.
    pub open spec fn wf(&self) -> bool {
        &&& self.spec_cells().len() == self.spec_width() * self.spec_height()
        &&& self.spec_cells().len() > 0 ==> self.extents_fit()
        &&& forall|i: int|
            0 <= i < self.spec_cells().len() ==> prints_no_escape(#[trigger] self.spec_cells()[i])
    }

    /// The same surface with other cells.
    pub open spec fn same_geometry(&self, other: &Surface) -> bool {
        &&& self.spec_width() == other.spec_width()
        &&& self.spec_height() == other.spec_height()
        &&& self.spec_charset() == other.spec_charset()
        &&& self.spec_clip() == other.spec_clip()
    }

    /// Creates an empty surface of `width * height` cells encoded with `charset`.
    pub fn new(width: usize, height: usize, charset: Charset) -> (s: Surface)
        requires
            width * height <= usize::MAX,
            width * height > 0 ==> width * charset.spec_columns() <= i64::MAX,
            width * height > 0 ==> height * charset.spec_rows() <= i64::MAX,
            width * height > 0 ==> width * charset.spec_columns() <= usize::MAX,
            width * height > 0 ==> height * charset.spec_rows() <= usize::MAX,
        ensures
            s.wf(),
            s.spec_width() == width,
            s.spec_height() == height,
            s.spec_charset() == charset,
            s.spec_clip() is None,
            s.spec_cells() == Seq::new((width * height) as nat, |i: int| empty_cell()),
    {
        let count = width * height;
        let mut cells: Vec<Cell> = Vec::new();
        let mut i: usize = 0;
        while i < count
            invariant
                i <= count,
                cells@ == Seq::new(i as nat, |k: int| empty_cell()),
            decreases count - i,
        {
            cells.push(Cell { bits: 0, text: Text::Empty, color: Color::Default });
            i = i + 1;
            assert(cells@ =~= Seq::new(i as nat, |k: int| empty_cell()));
        }
        Surface { width, height, charset, cells, clip: None }
    }

    /// Confines subsequent drawing to the subpixel rectangle `[x0, x1) x [y0, y1)`.
    pub fn set_clip(&mut self, x0: i64, y0: i64, x1: i64, y1: i64)
        ensures
            final(self).spec_clip() == Some((x0, y0, x1, y1)),
            final(self).spec_cells() == old(self).spec_cells(),
            final(self).spec_width() == old(self).spec_width(),
            final(self).spec_height() == old(self).spec_height(),
            final(self).spec_charset() == old(self).spec_charset(),
    {
        self.clip = Some((x0, y0, x1, y1));
    }

    /// Removes any drawing clip.
    pub fn clear_clip(&mut self)
        ensures
            final(self).spec_clip() is None,
            final(self).spec_cells() == old(self).spec_cells(),
            final(self).spec_width() == old(self).spec_width(),
            final(self).spec_height() == old(self).spec_height(),
            final(self).spec_charset() == old(self).spec_charset(),
    {
        self.clip = None;
    }

    /// The size in cells as `(width, height)`.
    pub fn size(&self) -> (r: (usize, usize))
        ensures
            r.0 == self.spec_width(),
            r.1 == self.spec_height(),
    {
        (self.width, self.height)
    }

    /// The size in subpixels as `(width, height)`.
    pub fn subpixel_size(&self) -> (r: (usize, usize))
        requires
            self.wf(),
            self.spec_subpixel_width() <= usize::MAX,
            self.spec_subpixel_height() <= usize::MAX,
        ensures
            r.0 == self.spec_subpixel_width(),
            r.1 == self.spec_subpixel_height(),
    {
        let (columns, rows) = self.charset.pixels_per_cell();
        (self.width * columns, self.height * rows)
    }

    /// The cells after lighting the subpixel `(x, y)` in `color`: nothing
    /// changes outside the surface or the clip.
    pub open spec fn spec_set(&self, x: int, y: int, color: Color) -> Seq<Cell> {
        let columns = self.spec_charset().spec_columns() as int;
        let rows = self.spec_charset().spec_rows() as int;
        if x < 0 || y < 0 || x >= self.spec_subpixel_width() || y >= self.spec_subpixel_height()
            || !in_clip(self.spec_clip(), x, y) {
            self.spec_cells()
        } else {
            let index = (y / rows) * self.spec_width() + x / columns;
            let cell = self.spec_cells()[index];
            self.spec_cells().update(
                index,
                Cell {
                    bits: cell.bits | self.spec_charset().spec_bit(x % columns, y % rows),
                    color,
                    ..cell
                },
            )
        }
    }

    /// Sets the subpixel at `(x, y)`; outside the surface or the active clip
    /// this does nothing.
    pub fn set(&mut self, x: i64, y: i64, color: Color)
        requires
            old(self).wf(),
        ensures
            final(self).wf(),
            final(self).same_geometry(&*old(self)),
            final(self).spec_cells() == old(self).spec_set(x as int, y as int, color),
    {
        if self.cells.len() == 0 {
            // No cells: every subpixel lies outside the surface.
            proof {
                assert(self.spec_width() == 0 || self.spec_height() == 0) by (nonlinear_arith)
                    requires
                        self.spec_width() * self.spec_height() == 0,
                ;
                assert(self.spec_subpixel_width() == 0 || self.spec_subpixel_height() == 0) by (nonlinear_arith)
                    requires
                        self.spec_width() == 0 || self.spec_height() == 0,
                        self.spec_subpixel_width() == self.spec_width() * self.spec_charset().spec_columns(),
                        self.spec_subpixel_height() == self.spec_height() * self.spec_charset().spec_rows(),
                ;
            }
            return;
        }
        let (sw, sh) = self.subpixel_size();
        if x < 0 || y < 0 || x >= sw as i64 || y >= sh as i64 {
            return;
        }
        if let Some((x0, y0, x1, y1)) = self.clip {
            if x < x0 || y < y0 || x >= x1 || y >= y1 {
                return;
            }
        }
        let (columns, rows) = self.charset.pixels_per_cell();
        let count = self.cells.len();
        let (x, y) = (x as usize, y as usize);
        proof {
            lemma_cell_index(x as int, y as int, columns as int, rows as int, self.width as int, self.height as int);
        }
        let index = (y / rows) * self.width + x / columns;
        let mut cell = self.cells[index];
        cell.bits = cell.bits | self.charset.bit(x % columns, y % rows);
        cell.color = color;
        self.cells.set(index, cell);
    }
}

impl Surface {
    /// Whether the cell `(column, row)` lies outside the clip, in cell terms.
    pub open spec fn cell_clipped(&self, row: int, column: int) -> bool {
        match self.spec_clip() {
            None => false,
            Some((x0, y0, x1, y1)) => {
                let px = self.spec_charset().spec_columns() as int;
                let py = self.spec_charset().spec_rows() as int;
                column < trunc_div(x0 as int, px) || column >= trunc_div(x1 as int, px) || row
                    < trunc_div(y0 as int, py) || row >= trunc_div(y1 as int, py)
            },
        }
    }

    /// `cells` after putting one text slot into the cell `(column, row)`,
    /// breaking any wide-glyph pair it overlaps: overwriting a continuation
    /// blanks the glyph to its left, and overwriting a cell whose right
    /// neighbour is a continuation blanks that continuation.
    pub open spec fn spec_place(
        &self,
        cells: Seq<Cell>,
        row: int,
        column: int,
        text: Text,
        color: Color,
    ) -> Seq<Cell> {
        if self.cell_clipped(row, column) {
            cells
        } else {
            let width = self.spec_width() as int;
            let at = row * width + column;
            let c1 = if cells[at].text == Text::Continuation && column > 0 {
                cells.update(at - 1, Cell { text: Text::Glyph(' '), ..cells[at - 1] })
            } else {
                cells
            };
            let c2 = if column + 1 < width && c1[at + 1].text == Text::Continuation {
                c1.update(at + 1, Cell { text: Text::Glyph(' '), ..c1[at + 1] })
            } else {
                c1
            };
            c2.update(at, Cell { text, color, ..c2[at] })
        }
    }

    /// Puts one text slot into a cell, breaking any wide-glyph pair it overlaps.
    fn place(&mut self, row: usize, column: usize, text: Text, color: Color)
        requires
            old(self).wf(),
            text != Text::Glyph('\x1b'),
            row < old(self).spec_height(),
            column < old(self).spec_width(),
        ensures
            final(self).wf(),
            final(self).same_geometry(&*old(self)),
            final(self).spec_cells() == old(self).spec_place(
                old(self).spec_cells(),
                row as int,
                column as int,
                text,
                color,
            ),
    {
        if let Some((x0, y0, x1, y1)) = self.clip {
            let (col, r) = (column as i64, row as i64);
            let (px, py) = self.charset.pixels_per_cell();
            let (px, py) = (px as i64, py as i64);
            if col < x0 / px || col >= x1 / px || r < y0 / py || r >= y1 / py {
                return;
            }
        }
        proof {
            lemma_row_start(row as int, column as int, self.width as int, self.height as int);
        }
        let count = self.cells.len();
        let base = row * self.width;
        if self.cells[base + column].text == Text::Continuation && column > 0 {
            let mut left = self.cells[base + column - 1];
            left.text = Text::Glyph(' ');
            self.cells.set(base + column - 1, left);
        }
        if column + 1 < self.width && self.cells[base + column + 1].text == Text::Continuation {
            let mut right = self.cells[base + column + 1];
            right.text = Text::Glyph(' ');
            self.cells.set(base + column + 1, right);
        }
        let mut cell = self.cells[base + column];
        cell.text = text;
        cell.color = color;
        self.cells.set(base + column, cell);
    }

    /// `cells` after placing the continuations of a wide glyph at
    /// `column + offset .. column + width`.
    pub open spec fn spec_continuations(
        &self,
        cells: Seq<Cell>,
        row: int,
        column: int,
        offset: int,
        width: int,
        color: Color,
    ) -> Seq<Cell>
        decreases width - offset,
    {
        if offset >= width {
            cells
        } else {
            self.spec_continuations(
                self.spec_place(cells, row, column + offset, Text::Continuation, color),
                row,
                column,
                offset + 1,
                width,
                color,
            )
        }
    }

    /// `cells` after writing `chars` from cell `column` of `row`: each glyph
    /// that fits whole inside the row takes its display width in cells (the
    /// glyph, then continuations); one that would straddle an edge is
    /// dropped whole, and zero-width characters are skipped.
    pub open spec fn spec_text_from(
        &self,
        cells: Seq<Cell>,
        row: int,
        column: int,
        chars: Seq<char>,
        color: Color,
    ) -> Seq<Cell>
        decreases chars.len(),
    {
        if chars.len() == 0 {
            cells
        } else {
            let w = columns_of(chars[0]) as int;
            let next = if w > 0 && column >= 0 && column + w <= self.spec_width() {
                self.spec_continuations(
                    self.spec_place(cells, row, column, Text::Glyph(chars[0]), color),
                    row,
                    column,
                    1,
                    w,
                    color,
                )
            } else {
                cells
            };
            self.spec_text_from(next, row, column + w, chars.drop_first(), color)
        }
    }

    /// The cells after writing `text` at the cell `(column, row)`.
    pub open spec fn spec_text(&self, column: int, row: int, text: Seq<char>, color: Color) -> Seq<
        Cell,
    > {
        if row < 0 || row >= self.spec_height() {
            self.spec_cells()
        } else {
            self.spec_text_from(self.spec_cells(), row, column, text, color)
        }
    }

    /// Writes text starting at the cell `(column, row)`; cells outside clip
    /// away.
    ///
    /// Text overrides any pixels in the same cells and is measured in display
    /// columns: a wide glyph (CJK) occupies two cells, and one that would
    /// straddle the surface edge is dropped whole. Zero-width characters do
    /// not survive the cell grid and are dropped. Overwriting half of a wide
    /// glyph blanks its other half — alignment is never corrupted.
    pub fn text(&mut self, column: i64, row: i64, text: &str, color: Color)
        requires
            old(self).wf(),
        ensures
            final(self).wf(),
            final(self).same_geometry(&*old(self)),
            final(self).spec_cells() == old(self).spec_text(column as int, row as int, text@, color),
    {
        if row < 0 || row as u64 >= self.height as u64 {
            return;
        }
        let row = row as usize;
        let chars = chars_of(text);
        let ghost start = *self;
        let ghost first = column as int;
        let mut column: i128 = column as i128;
        let mut i: usize = 0;
        assert(text@.skip(0) =~= text@);
        while i < chars.len()
            invariant
                0 <= i <= chars@.len(),
                chars@ == text@,
                self.wf(),
                self.same_geometry(&start),
                start.wf(),
                row < start.spec_height(),
                i64::MIN <= column <= i64::MAX + 256 * i,
                start.spec_text_from(start.spec_cells(), row as int, first, text@, color)
                    == start.spec_text_from(
                    self.spec_cells(),
                    row as int,
                    column as int,
                    text@.skip(i as int),
                    color,
                ),
            decreases chars@.len() - i,
        {
            let glyph = chars[i];
            let width = columns(glyph) as i128;
            let ghost rest = text@.skip(i as int);
            assert(rest[0] == glyph);
            assert(rest.drop_first() =~= text@.skip(i + 1));
            if width > 0 && column >= 0 && column + width <= self.width as i128 {
                self.place(row, column as usize, Text::Glyph(glyph), color);
                let ghost placed = self.spec_cells();
                let mut offset: i128 = 1;
                while offset < width
                    invariant
                        1 <= offset <= width,
                        0 <= column,
                        column + width <= start.spec_width(),
                        self.wf(),
                        self.same_geometry(&start),
                        row < start.spec_height(),
                        start.spec_continuations(placed, row as int, column as int, 1, width as int, color)
                            == start.spec_continuations(
                            self.spec_cells(),
                            row as int,
                            column as int,
                            offset as int,
                            width as int,
                            color,
                        ),
                    decreases width - offset,
                {
                    self.place(row, (column + offset) as usize, Text::Continuation, color);
                    offset = offset + 1;
                }
            }
            column = column + width;
            i = i + 1;
        }
        assert(text@.skip(i as int).len() == 0);
    }
}

/// What a cell prints as: its text glyph, its pattern's glyph when it has
/// no text, nothing for a continuation (the wide glyph to its left covers
/// its column); with the cell's color.
pub open spec fn printed(charset: Charset, cell: Cell) -> Option<(char, Color)> {
    match cell.text {
        Text::Continuation => None,
        Text::Glyph(g) => Some((g, cell.color)),
        Text::Empty => Some((charset.spec_glyph(cell.bits), cell.color)),
    }
}

/// The printable glyphs of a run of cells, in order.
pub open spec fn printable(charset: Charset, cells: Seq<Cell>) -> Seq<(char, Color)>
    decreases cells.len(),
{
    if cells.len() == 0 {
        Seq::empty()
    } else {
        let before = printable(charset, cells.drop_last());
        match printed(charset, cells.last()) {
            Some(p) => before.push(p),
            None => before,
        }
    }
}

/// The run with its trailing spaces removed.
pub open spec fn trim_blank(glyphs: Seq<(char, Color)>) -> Seq<(char, Color)>
    decreases glyphs.len(),
{
    if glyphs.len() > 0 && glyphs.last().0 == ' ' {
        trim_blank(glyphs.drop_last())
    } else {
        glyphs
    }
}

/// The color in effect after a run: the resolution of its last non-space
/// glyph (spaces carry no visible color and inherit the current one).
pub open spec fn run_state<F: Fn(u8, u8, u8) -> u8>(
    glyphs: Seq<(char, Color)>,
    mode: ColorMode,
    nearest16: F,
) -> Resolved
    decreases glyphs.len(),
{
    if glyphs.len() == 0 {
        Resolved::Default
    } else if glyphs.last().0 != ' ' {
        glyphs.last().1.spec_resolve_with(mode, nearest16)
    } else {
        run_state(glyphs.drop_last(), mode, nearest16)
    }
}

/// A run encoded with one SGR sequence before each non-space glyph whose
/// resolved color differs from the one in effect.
pub open spec fn run_text<F: Fn(u8, u8, u8) -> u8>(
    glyphs: Seq<(char, Color)>,
    mode: ColorMode,
    nearest16: F,
) -> Seq<char>
    decreases glyphs.len(),
{
    if glyphs.len() == 0 {
        Seq::empty()
    } else {
        let before = run_text(glyphs.drop_last(), mode, nearest16);
        let current = run_state(glyphs.drop_last(), mode, nearest16);
        let (glyph, color) = glyphs.last();
        let resolved = color.spec_resolve_with(mode, nearest16);
        if glyph != ' ' && resolved != current {
            before + spec_transition(Some(resolved), None) + seq![glyph]
        } else {
            before.push(glyph)
        }
    }
}

/// The SGR reset sequence.
pub open spec fn reset_sequence() -> Seq<char> {
    seq!['\x1b', '[', '0', 'm']
}

/// One encoded row: trailing spaces trimmed, and a reset after a row that
/// ends colored.
pub open spec fn encode_row<F: Fn(u8, u8, u8) -> u8>(
    glyphs: Seq<(char, Color)>,
    mode: ColorMode,
    nearest16: F,
) -> Seq<char> {
    let kept = trim_blank(glyphs);
    run_text(kept, mode, nearest16) + if run_state(kept, mode, nearest16) != Resolved::Default {
        reset_sequence()
    } else {
        Seq::empty()
    }
}

impl Surface {
    /// The printable glyphs of row `row`.
    pub open spec fn spec_row(&self, row: int) -> Seq<(char, Color)> {
        let w = self.spec_width() as int;
        printable(self.spec_charset(), self.spec_cells().subrange(row * w, row * w + w))
    }

    /// The first `n` rows encoded and joined by newlines.
    pub open spec fn encode_rows<F: Fn(u8, u8, u8) -> u8>(
        &self,
        n: nat,
        mode: ColorMode,
        nearest16: F,
    ) -> Seq<char>
        decreases n,
    {
        if n == 0 {
            Seq::empty()
        } else {
            self.encode_rows((n - 1) as nat, mode, nearest16) + (if n > 1 {
                seq!['\n']
            } else {
                Seq::empty()
            }) + encode_row(self.spec_row(n - 1), mode, nearest16)
        }
    }

    /// The whole surface encoded at the tier of `mode`.
    pub open spec fn spec_encode<F: Fn(u8, u8, u8) -> u8>(&self, mode: ColorMode, nearest16: F) -> Seq<
        char,
    > {
        self.encode_rows(self.spec_height(), mode, nearest16)
    }

    /// The printable glyphs of one row, in order. Continuation cells emit
    /// nothing: the wide glyph to their left covers their column.
    pub fn row(&self, row: usize) -> (glyphs: Vec<(char, Color)>)
        requires
            self.wf(),
            row < self.spec_height(),
        ensures
            glyphs@ == self.spec_row(row as int),
    {
        proof {
            lemma_row_end(row as int, self.width as int, self.height as int);
        }
        let count = self.cells.len();
        let base = row * self.width;
        let mut glyphs: Vec<(char, Color)> = Vec::new();
        let mut k: usize = 0;
        while k < self.width
            invariant
                k <= self.width,
                base == row * self.width,
                base + self.width <= self.cells@.len(),
                count == self.cells@.len(),
                glyphs@ == printable(self.charset, self.cells@.subrange(base as int, base + k)),
            decreases self.width - k,
        {
            let cell = self.cells[base + k];
            proof {
                assert(self.cells@.subrange(base as int, base + k + 1).drop_last() =~= self.cells@.subrange(
                    base as int,
                    base + k,
                ));
            }
            match cell.text {
                Text::Continuation => {},
                Text::Glyph(glyph) => glyphs.push((glyph, cell.color)),
                Text::Empty => glyphs.push((self.charset.glyph(cell.bits), cell.color)),
            }
            k = k + 1;
        }
        glyphs
    }

    /// Encodes the surface at the color tier of `mode`.
    ///
    /// Colors resolve to what the mode can carry (RGB quantizes downhill,
    /// with `nearest16` choosing among the 16 palette colors); an SGR
    /// sequence is emitted only when the resolved color changes along a row,
    /// so colors that quantize identically share one sequence, and any
    /// colored row ends with a reset. Rows are joined by newlines with
    /// trailing spaces trimmed. In [`ColorMode::Plain`] the output carries no
    /// escapes at all.
    pub fn encode<F: Fn(u8, u8, u8) -> u8>(&self, mode: ColorMode, nearest16: &F) -> (out: String)
        requires
            self.wf(),
            is_quantizer(*nearest16),
        ensures
            out@ == self.spec_encode(mode, *nearest16),
    {
        let mut out = String::new();
        let mut row: usize = 0;
        while row < self.height
            invariant
                self.wf(),
                is_quantizer(*nearest16),
                row <= self.height,
                out@ == self.encode_rows(row as nat, mode, *nearest16),
            decreases self.height - row,
        {
            let ghost before = out@;
            if row > 0 {
                push_char(&mut out, '\n');
            }
            let glyphs = self.row(row);
            let line = encode_glyphs(&glyphs, mode, nearest16);
            push_str(&mut out, line.as_str());
            row = row + 1;
            assert(out@ =~= self.encode_rows(row as nat, mode, *nearest16));
        }
        out
    }
}

impl Surface {
    /// Encodes as plain text — no escape codes ever. Sugar for
    /// [`Surface::encode`] with [`ColorMode::Plain`].
    pub fn to_plain(&self) -> (out: String)
        requires
            self.wf(),
        ensures
            out@ == self.spec_plain_rows(self.spec_height()),
    {
        let unused = |r: u8, g: u8, b: u8| -> (code: u8)
            ensures
                code == 39,
            { 39u8 };
        let out = self.encode(ColorMode::Plain, &unused);
        proof {
            lemma_plain_encoding_ignores_quantizer(self, self.spec_height(), unused, |r: u8, g: u8, b: u8| 39u8);
        }
        out
    }

    /// The glyphs of every row, joined by newlines with trailing spaces
    /// trimmed: what plain output prints.
    pub open spec fn spec_plain_rows(&self, n: nat) -> Seq<char>
        decreases n,
    {
        if n == 0 {
            Seq::empty()
        } else {
            self.spec_plain_rows((n - 1) as nat) + (if n > 1 {
                seq!['\n']
            } else {
                Seq::empty()
            }) + glyph_chars(trim_blank(self.spec_row(n - 1)))
        }
    }
}

/// Every printable cell with its position, row by row: `(column, row,
/// glyph, color)`; continuation cells are covered by the wide glyph to their
/// left and are not listed.
pub open spec fn cell_entries(charset: Charset, width: nat, cells: Seq<Cell>) -> Seq<
    (usize, usize, char, Color),
>
    decreases cells.len(),
{
    if cells.len() == 0 {
        Seq::empty()
    } else {
        let before = cell_entries(charset, width, cells.drop_last());
        let index = cells.len() - 1;
        match printed(charset, cells.last()) {
            Some((glyph, color)) => before.push(
                ((index % width as int) as usize, (index / width as int) as usize, glyph, color),
            ),
            None => before,
        }
    }
}

impl Surface {
    /// Every printable cell as `(column, row, glyph, color)`, row by row.
    pub fn cells(&self) -> (entries: Vec<(usize, usize, char, Color)>)
        requires
            self.wf(),
        ensures
            entries@ == cell_entries(self.spec_charset(), self.spec_width(), self.spec_cells()),
    {
        let mut entries: Vec<(usize, usize, char, Color)> = Vec::new();
        let mut i: usize = 0;
        proof {
            assert(self.cells@.take(0) =~= Seq::<Cell>::empty());
        }
        while i < self.cells.len()
            invariant
                i <= self.cells@.len(),
                self.cells@.len() == self.width * self.height,
                entries@ == cell_entries(self.charset, self.width as nat, self.cells@.take(i as int)),
            decreases self.cells@.len() - i,
        {
            let cell = self.cells[i];
            proof {
                assert(self.cells@.take(i + 1).drop_last() =~= self.cells@.take(i as int));
                assert(self.cells@.take(i + 1).last() == cell);
                if self.width == 0 {
                    assert(self.width * self.height == 0) by (nonlinear_arith)
                        requires
                            self.width == 0,
                    ;
                }
            }
            let (column, row) = (i % self.width, i / self.width);
            match cell.text {
                Text::Continuation => {},
                Text::Glyph(glyph) => entries.push((column, row, glyph, cell.color)),
                Text::Empty => entries.push((column, row, self.charset.glyph(cell.bits), cell.color)),
            }
            i = i + 1;
        }
        proof {
            assert(self.cells@.take(i as int) =~= self.cells@);
        }
        entries
    }
}

/// The characters of a glyph run.
pub open spec fn glyph_chars(glyphs: Seq<(char, Color)>) -> Seq<char>
    decreases glyphs.len(),
{
    if glyphs.len() == 0 {
        Seq::empty()
    } else {
        glyph_chars(glyphs.drop_last()).push(glyphs.last().0)
    }
}

proof fn lemma_plain_run<F: Fn(u8, u8, u8) -> u8>(glyphs: Seq<(char, Color)>, nearest16: F)
    ensures
        run_state(glyphs, ColorMode::Plain, nearest16) == Resolved::Default,
        run_text(glyphs, ColorMode::Plain, nearest16) == glyph_chars(glyphs),
    decreases glyphs.len(),
{
    if glyphs.len() > 0 {
        lemma_plain_run(glyphs.drop_last(), nearest16);
    }
}

/// Plain output is the glyphs alone: no escape sequence, whatever the
/// quantizer, so every quantizer encodes a surface identically in plain mode.
pub proof fn lemma_plain_encoding_ignores_quantizer<F: Fn(u8, u8, u8) -> u8, G: Fn(u8, u8, u8) -> u8>(
    surface: &Surface,
    n: nat,
    f: F,
    g: G,
)
    ensures
        surface.encode_rows(n, ColorMode::Plain, f) == surface.spec_plain_rows(n),
        surface.encode_rows(n, ColorMode::Plain, g) == surface.spec_plain_rows(n),
    decreases n,
{
    if n > 0 {
        lemma_plain_encoding_ignores_quantizer(surface, (n - 1) as nat, f, g);
        let t = trim_blank(surface.spec_row(n - 1));
        lemma_plain_run(t, f);
        lemma_plain_run(t, g);
        assert(encode_row(surface.spec_row(n - 1), ColorMode::Plain, f) =~= glyph_chars(t));
        assert(encode_row(surface.spec_row(n - 1), ColorMode::Plain, g) =~= glyph_chars(t));
    }
}

/// The span color a glyph asks for in HTML: none for the default color
/// (it inherits the card's), else its concrete RGB.
pub open spec fn span_color(color: Color) -> Option<(u8, u8, u8)> {
    match color {
        Color::Default => None,
        color => Some(color.spec_to_rgb()),
    }
}

/// The span color in effect after a run: that of its last non-space glyph.
pub open spec fn html_state(glyphs: Seq<(char, Color)>) -> Option<(u8, u8, u8)>
    decreases glyphs.len(),
{
    if glyphs.len() == 0 {
        None
    } else if glyphs.last().0 != ' ' {
        span_color(glyphs.last().1)
    } else {
        html_state(glyphs.drop_last())
    }
}

/// The opening tag of a colored span.
pub open spec fn span_open(rgb: (u8, u8, u8)) -> Seq<char> {
    seq!['<', 's', 'p', 'a', 'n', ' ', 's', 't', 'y', 'l', 'e', '=', '"', 'c', 'o', 'l', 'o', 'r', ':', '#']
        + hex_byte(rgb.0) + hex_byte(rgb.1) + hex_byte(rgb.2) + seq!['"', '>']
}

/// The closing tag of a span.
pub open spec fn span_close() -> Seq<char> {
    seq!['<', '/', 's', 'p', 'a', 'n', '>']
}

/// A run as HTML content: a span change before each non-space glyph whose
/// color differs from the span in effect, and every glyph escaped.
pub open spec fn html_text(glyphs: Seq<(char, Color)>) -> Seq<char>
    decreases glyphs.len(),
{
    if glyphs.len() == 0 {
        Seq::empty()
    } else {
        let before = html_text(glyphs.drop_last());
        let current = html_state(glyphs.drop_last());
        let (glyph, color) = glyphs.last();
        let next = span_color(color);
        let change = if glyph != ' ' && next != current {
            (if current is Some { span_close() } else { Seq::empty() }) + match next {
                Some(rgb) => span_open(rgb),
                None => Seq::empty(),
            }
        } else {
            Seq::empty()
        };
        before + change + spec_escape(glyph)
    }
}

/// One HTML row: trailing spaces trimmed, an open span closed.
pub open spec fn html_row(glyphs: Seq<(char, Color)>) -> Seq<char> {
    let kept = trim_blank(glyphs);
    html_text(kept) + if html_state(kept) is Some {
        span_close()
    } else {
        Seq::empty()
    }
}

proof fn lemma_trim_blank_html(glyphs: Seq<(char, Color)>)
    ensures
        html_state(trim_blank(glyphs)) == html_state(glyphs),
        html_text(trim_blank(glyphs)) == html_text(glyphs).take(html_text(trim_blank(glyphs)).len() as int),
        html_text(trim_blank(glyphs)).len() <= html_text(glyphs).len(),
    decreases glyphs.len(),
{
    if glyphs.len() > 0 && glyphs.last().0 == ' ' {
        lemma_trim_blank_html(glyphs.drop_last());
        let t = trim_blank(glyphs.drop_last());
        let a = html_text(glyphs.drop_last());
        assert(spec_escape(' ') =~= seq![' ']);
        assert(html_text(glyphs) =~= a.push(' '));
        assert(a.push(' ').take(html_text(t).len() as int) =~= a.take(html_text(t).len() as int));
    } else {
        let r = html_text(glyphs);
        assert(r.take(r.len() as int) =~= r);
    }
}

/// Encodes one row of glyphs as HTML content.
fn encode_html_glyphs(glyphs: &Vec<(char, Color)>) -> (line: String)
    ensures
        line@ == html_row(glyphs@),
{
    let mut line: Vec<char> = Vec::new();
    let mut current: Option<(u8, u8, u8)> = None;
    let mut kept: usize = 0;
    let mut j: usize = 0;
    proof {
        assert(glyphs@.take(0) =~= Seq::<(char, Color)>::empty());
    }
    while j < glyphs.len()
        invariant
            j <= glyphs@.len(),
            line@ == html_text(glyphs@.take(j as int)),
            current == html_state(glyphs@.take(j as int)),
            kept == html_text(trim_blank(glyphs@.take(j as int))).len(),
        decreases glyphs@.len() - j,
    {
        let (glyph, color) = glyphs[j];
        let ghost g = glyphs@.take(j + 1);
        let ghost before = line@;
        proof {
            assert(g.drop_last() =~= glyphs@.take(j as int));
            assert(g.last() == (glyph, color));
        }
        let mut piece = String::new();
        if glyph != ' ' {
            let next = match color {
                Color::Default => None,
                color => Some(color.to_rgb()),
            };
            if next != current {
                if current.is_some() {
                    push_str(&mut piece, "</span>");
                    proof {
                        reveal_strlit("</span>");
                    }
                }
                if let Some((r, g, b)) = next {
                    push_str(&mut piece, "<span style=\"color:#");
                    proof {
                        reveal_strlit("<span style=\"color:#");
                    }
                    push_hex_byte(&mut piece, r);
                    push_hex_byte(&mut piece, g);
                    push_hex_byte(&mut piece, b);
                    push_char(&mut piece, '"');
                    push_char(&mut piece, '>');
                }
                current = next;
            }
        }
        escape(glyph, &mut piece);
        extend_chars(&mut line, &piece);
        proof {
            assert(line@ =~= html_text(g));
        }
        if glyph != ' ' {
            kept = line.len();
        }
        j = j + 1;
    }
    proof {
        assert(glyphs@.take(j as int) =~= glyphs@);
        lemma_trim_blank_html(glyphs@);
    }
    let mut out = String::new();
    push_range(&mut out, &line, 0, kept);
    if current.is_some() {
        push_str(&mut out, "</span>");
        proof {
            reveal_strlit("</span>");
        }
    }
    assert(out@ =~= html_row(glyphs@));
    out
}

impl Surface {
    /// The first `n` rows as HTML content, joined by newlines.
    pub open spec fn html_rows(&self, n: nat) -> Seq<char>
        decreases n,
    {
        if n == 0 {
            Seq::empty()
        } else {
            self.html_rows((n - 1) as nat) + (if n > 1 {
                seq!['\n']
            } else {
                Seq::empty()
            }) + html_row(self.spec_row(n - 1))
        }
    }

    /// Encodes the cell grid as HTML element content with concrete-RGB span
    /// runs.
    ///
    /// Default-colored glyphs inherit from their enclosing element. Rows are
    /// newline-joined with trailing spaces trimmed, just like
    /// [`Surface::encode`].
    pub fn encode_html(&self) -> (out: String)
        requires
            self.wf(),
        ensures
            out@ == self.html_rows(self.spec_height()),
    {
        let mut out = String::new();
        let mut row: usize = 0;
        while row < self.height
            invariant
                self.wf(),
                row <= self.height,
                out@ == self.html_rows(row as nat),
            decreases self.height - row,
        {
            if row > 0 {
                push_char(&mut out, '\n');
            }
            let glyphs = self.row(row);
            let line = encode_html_glyphs(&glyphs);
            push_str(&mut out, line.as_str());
            row = row + 1;
            assert(out@ =~= self.html_rows(row as nat));
        }
        out
    }
}

proof fn lemma_trim_blank_state<F: Fn(u8, u8, u8) -> u8>(
    glyphs: Seq<(char, Color)>,
    mode: ColorMode,
    nearest16: F,
)
    ensures
        run_state(trim_blank(glyphs), mode, nearest16) == run_state(glyphs, mode, nearest16),
        trim_blank(glyphs).len() <= glyphs.len(),
        trim_blank(glyphs) == glyphs.take(trim_blank(glyphs).len() as int),
        run_text(trim_blank(glyphs), mode, nearest16) == run_text(glyphs, mode, nearest16).take(
            run_text(trim_blank(glyphs), mode, nearest16).len() as int,
        ),
        run_text(trim_blank(glyphs), mode, nearest16).len() <= run_text(glyphs, mode, nearest16).len(),
    decreases glyphs.len(),
{
    if glyphs.len() > 0 && glyphs.last().0 == ' ' {
        lemma_trim_blank_state(glyphs.drop_last(), mode, nearest16);
        let t = trim_blank(glyphs.drop_last());
        assert(glyphs.drop_last().take(t.len() as int) =~= glyphs.take(t.len() as int));
        let a = run_text(glyphs.drop_last(), mode, nearest16);
        assert(run_text(glyphs, mode, nearest16) == a.push(' '));
        assert(a.push(' ').take(run_text(t, mode, nearest16).len() as int) =~= a.take(
            run_text(t, mode, nearest16).len() as int,
        ));
    } else {
        assert(glyphs.take(glyphs.len() as int) =~= glyphs);
        let r = run_text(glyphs, mode, nearest16);
        assert(r.take(r.len() as int) =~= r);
    }
}

/// Encodes one row of glyphs.
fn encode_glyphs<F: Fn(u8, u8, u8) -> u8>(
    glyphs: &Vec<(char, Color)>,
    mode: ColorMode,
    nearest16: &F,
) -> (line: String)
    requires
        is_quantizer(*nearest16),
    ensures
        line@ == encode_row(glyphs@, mode, *nearest16),
{
    let mut line: Vec<char> = Vec::new();
    let mut current = Resolved::Default;
    let mut kept: usize = 0;
    let mut j: usize = 0;
    proof {
        assert(glyphs@.take(0) =~= Seq::<(char, Color)>::empty());
    }
    while j < glyphs.len()
        invariant
            is_quantizer(*nearest16),
            j <= glyphs@.len(),
            line@ == run_text(glyphs@.take(j as int), mode, *nearest16),
            current == run_state(glyphs@.take(j as int), mode, *nearest16),
            kept == run_text(trim_blank(glyphs@.take(j as int)), mode, *nearest16).len(),
        decreases glyphs@.len() - j,
    {
        let (glyph, color) = glyphs[j];
        let ghost g = glyphs@.take(j + 1);
        proof {
            assert(g.drop_last() =~= glyphs@.take(j as int));
            assert(g.last() == (glyph, color));
        }
        // Spaces carry no visible color; letting them inherit the current
        // one lengthens runs and keeps trailing whitespace trimmable.
        if glyph != ' ' {
            let resolved = color.resolve(mode, nearest16);
            if resolved != current {
                let mut sgr = String::new();
                resolved.write_sgr(&mut sgr);
                let sgr_chars = chars_of(sgr.as_str());
                let mut k: usize = 0;
                let ghost base = line@;
                while k < sgr_chars.len()
                    invariant
                        k <= sgr_chars@.len(),
                        line@ == base + sgr_chars@.take(k as int),
                    decreases sgr_chars@.len() - k,
                {
                    line.push(sgr_chars[k]);
                    k = k + 1;
                    assert(sgr_chars@.take(k as int) =~= sgr_chars@.take(k - 1).push(sgr_chars@[k - 1]));
                }
                assert(sgr_chars@.take(k as int) =~= sgr_chars@);
                current = resolved;
            }
        }
        line.push(glyph);
        proof {
            assert(line@ =~= run_text(g, mode, *nearest16));
        }
        if glyph != ' ' {
            kept = line.len();
        }
        j = j + 1;
    }
    proof {
        assert(glyphs@.take(j as int) =~= glyphs@);
        lemma_trim_blank_state(glyphs@, mode, *nearest16);
    }
    let mut out = String::new();
    push_range(&mut out, &line, 0, kept);
    if current != Resolved::Default {
        push_char(&mut out, '\x1b');
        push_char(&mut out, '[');
        push_char(&mut out, '0');
        push_char(&mut out, 'm');
    }
    assert(out@ =~= encode_row(glyphs@, mode, *nearest16));
    out
}

/// A row's cells are in range.
proof fn lemma_row_end(row: int, width: int, height: int)
    requires
        0 <= row < height,
        0 <= width,
    ensures
        0 <= row * width,
        row * width + width <= width * height,
{
    assert(0 <= row * width) by (nonlinear_arith)
        requires
            0 <= row,
            0 <= width,
    ;
    assert(row * width + width <= width * height) by (nonlinear_arith)
        requires
            0 <= row < height,
            0 <= width,
    ;
}

/// The first cell of a row and its neighbours are in range.
proof fn lemma_row_start(row: int, column: int, width: int, height: int)
    requires
        0 <= row < height,
        0 <= column < width,
    ensures
        0 <= row * width + column < width * height,
        row * width + width <= width * height,
{
    assert(0 <= row * width + column < width * height) by (nonlinear_arith)
        requires
            0 <= row < height,
            0 <= column < width,
    ;
    assert(row * width + width <= width * height) by (nonlinear_arith)
        requires
            0 <= row < height,
            0 <= column < width,
    ;
}

/// A subpixel inside the surface lies in one of its cells.
proof fn lemma_cell_index(x: int, y: int, columns: int, rows: int, width: int, height: int)
    requires
        0 <= x < width * columns,
        0 <= y < height * rows,
        columns >= 1,
        rows >= 1,
    ensures
        0 <= x / columns < width,
        0 <= y / rows < height,
        0 <= (y / rows) * width + x / columns < width * height,
        0 <= x % columns < columns,
        0 <= y % rows < rows,
{
    assert(0 <= x / columns < width) by (nonlinear_arith)
        requires
            0 <= x < width * columns,
            columns >= 1,
    ;
    assert(0 <= y / rows < height) by (nonlinear_arith)
        requires
            0 <= y < height * rows,
            rows >= 1,
    ;
    let (r, c) = (y / rows, x / columns);
    assert(0 <= r * width + c < width * height) by (nonlinear_arith)
        requires
            0 <= r < height,
            0 <= c < width,
    ;
}

/// Drawing outside the surface, or outside the active clip, changes
/// nothing: coordinates that miss the drawable region clip away.
pub proof fn law_set_outside_changes_nothing(surface: &Surface, x: int, y: int, color: Color)
    requires
        x < 0 || y < 0 || x >= surface.spec_subpixel_width() || y >= surface.spec_subpixel_height()
            || !in_clip(surface.spec_clip(), x, y),
    ensures
        surface.spec_set(x, y, color) == surface.spec_cells(),
{
}

/// The last write owns a cell's color: lighting a subpixel inside the
/// surface and the clip sets its cell's color and its pattern bit, and
/// leaves every other cell as it was.
pub proof fn law_last_write_owns_the_cell(surface: &Surface, x: int, y: int, color: Color)
    requires
        surface.wf(),
        0 <= x < surface.spec_subpixel_width(),
        0 <= y < surface.spec_subpixel_height(),
        in_clip(surface.spec_clip(), x, y),
    ensures
        ({
            let columns = surface.spec_charset().spec_columns() as int;
            let rows = surface.spec_charset().spec_rows() as int;
            let index = (y / rows) * surface.spec_width() + x / columns;
            let after = surface.spec_set(x, y, color);
            &&& 0 <= index < surface.spec_cells().len()
            &&& after.len() == surface.spec_cells().len()
            &&& after[index].color == color
            &&& after[index].bits == surface.spec_cells()[index].bits | surface.spec_charset().spec_bit(
                x % columns,
                y % rows,
            )
            &&& forall|j: int|
                0 <= j < after.len() && j != index ==> #[trigger] after[j] == surface.spec_cells()[j]
        }),
{
    let columns = surface.spec_charset().spec_columns() as int;
    let rows = surface.spec_charset().spec_rows() as int;
    lemma_cell_index(x, y, columns, rows, surface.spec_width() as int, surface.spec_height() as int);
}

/// Pixels never touch text: lighting any subpixel leaves every cell's text
/// slot as it was, so a label drawn over marks still prints.
pub proof fn law_pixels_never_touch_text(surface: &Surface, x: int, y: int, color: Color)
    requires
        surface.wf(),
    ensures
        surface.spec_set(x, y, color).len() == surface.spec_cells().len(),
        forall|i: int|
            0 <= i < surface.spec_cells().len() ==> (#[trigger] surface.spec_set(x, y, color)[i]).text
                == surface.spec_cells()[i].text,
{
    let columns = surface.spec_charset().spec_columns() as int;
    let rows = surface.spec_charset().spec_rows() as int;
    if 0 <= x < surface.spec_subpixel_width() && 0 <= y < surface.spec_subpixel_height() {
        lemma_cell_index(x, y, columns, rows, surface.spec_width() as int, surface.spec_height() as int);
    }
}

/// Text wins over pixels when a cell prints: a cell holding a glyph prints
/// that glyph, whatever subpixels are lit underneath it.
pub proof fn law_text_wins_over_pixels(charset: Charset, cell: Cell, bits: u8)
    requires
        cell.text is Glyph,
    ensures
        printed(charset, cell) == Some((cell.text->Glyph_0, cell.color)),
        printed(charset, Cell { bits, ..cell }) == printed(charset, cell),
{
}

/// A surface with no rows encodes to nothing, in every mode and as plain
/// text.
pub proof fn law_empty_surfaces_encode_to_nothing<F: Fn(u8, u8, u8) -> u8>(
    surface: &Surface,
    mode: ColorMode,
    nearest16: F,
)
    requires
        surface.spec_height() == 0,
    ensures
        surface.spec_encode(mode, nearest16) == Seq::<char>::empty(),
        surface.spec_plain_rows(surface.spec_height()) == Seq::<char>::empty(),
{
}

/// Every glyph of a run is uncolored.
pub open spec fn uncolored(glyphs: Seq<(char, Color)>) -> bool {
    forall|i: int| 0 <= i < glyphs.len() ==> (#[trigger] glyphs[i]).1 == Color::Default
}

proof fn lemma_uncolored_run<F: Fn(u8, u8, u8) -> u8>(
    glyphs: Seq<(char, Color)>,
    mode: ColorMode,
    nearest16: F,
)
    requires
        uncolored(glyphs),
    ensures
        run_state(glyphs, mode, nearest16) == Resolved::Default,
        run_text(glyphs, mode, nearest16) == glyph_chars(glyphs),
    decreases glyphs.len(),
{
    if glyphs.len() > 0 {
        assert(glyphs.last() == glyphs[glyphs.len() - 1]);
        lemma_uncolored_run(glyphs.drop_last(), mode, nearest16);
    }
}

proof fn lemma_printable_uncolored(charset: Charset, cells: Seq<Cell>)
    requires
        forall|i: int| 0 <= i < cells.len() ==> (#[trigger] cells[i]).color == Color::Default,
    ensures
        uncolored(printable(charset, cells)),
    decreases cells.len(),
{
    if cells.len() > 0 {
        assert(cells.last() == cells[cells.len() - 1]);
        lemma_printable_uncolored(charset, cells.drop_last());
    }
}

proof fn lemma_trim_blank_uncolored(glyphs: Seq<(char, Color)>)
    requires
        uncolored(glyphs),
    ensures
        uncolored(trim_blank(glyphs)),
    decreases glyphs.len(),
{
    if glyphs.len() > 0 && glyphs.last().0 == ' ' {
        lemma_trim_blank_uncolored(glyphs.drop_last());
    }
}

/// Uncolored surfaces encode identically in every mode: with no color
/// anywhere, every encoding is the plain glyphs, without an escape.
pub proof fn law_uncolored_surfaces_encode_plainly<F: Fn(u8, u8, u8) -> u8>(
    surface: &Surface,
    mode: ColorMode,
    nearest16: F,
    n: nat,
)
    requires
        surface.wf(),
        n <= surface.spec_height(),
        forall|i: int|
            0 <= i < surface.spec_cells().len() ==> (#[trigger] surface.spec_cells()[i]).color
                == Color::Default,
    ensures
        surface.encode_rows(n, mode, nearest16) == surface.spec_plain_rows(n),
    decreases n,
{
    if n > 0 {
        law_uncolored_surfaces_encode_plainly(surface, mode, nearest16, (n - 1) as nat);
        let w = surface.spec_width() as int;
        let row = n - 1;
        lemma_row_end(row, w, surface.spec_height() as int);
        let cells = surface.spec_cells().subrange(row * w, row * w + w);
        assert forall|i: int| 0 <= i < cells.len() implies (#[trigger] cells[i]).color
            == Color::Default by {
            assert(cells[i] == surface.spec_cells()[row * w + i]);
        }
        lemma_printable_uncolored(surface.spec_charset(), cells);
        let glyphs = surface.spec_row(row);
        lemma_trim_blank_uncolored(glyphs);
        lemma_uncolored_run(trim_blank(glyphs), mode, nearest16);
        assert(encode_row(glyphs, mode, nearest16) =~= glyph_chars(trim_blank(glyphs)));
    }
}

/// Whether a text ends inside an escape sequence: after an `ESC` and
/// before the `m` that closes it.
pub open spec fn in_escape(text: Seq<char>) -> bool
    decreases text.len(),
{
    if text.len() == 0 {
        false
    } else if in_escape(text.drop_last()) {
        text.last() != 'm'
    } else {
        text.last() == '\x1b'
    }
}

/// A text with every escape sequence — `ESC`, then everything up to and
/// including the next `m` — deleted.
pub open spec fn strip_escapes(text: Seq<char>) -> Seq<char>
    decreases text.len(),
{
    if text.len() == 0 {
        Seq::empty()
    } else if in_escape(text.drop_last()) || text.last() == '\x1b' {
        strip_escapes(text.drop_last())
    } else {
        strip_escapes(text.drop_last()).push(text.last())
    }
}

/// Whether a text holds no `m`.
pub open spec fn no_m(text: Seq<char>) -> bool {
    forall|i: int| 0 <= i < text.len() ==> #[trigger] text[i] != 'm'
}

proof fn lemma_decimal_digits_no_m(n: nat)
    ensures
        no_m(crate::text::decimal_digits(n)),
    decreases n,
{
    if n >= 10 {
        lemma_decimal_digits_no_m(n / 10);
        let before = crate::text::decimal_digits(n / 10);
        let after = crate::text::decimal_digits(n);
        assert(after == before.push(crate::text::digit_char((n % 10) as int)));
        assert forall|i: int| 0 <= i < after.len() implies #[trigger] after[i] != 'm' by {
            if i < before.len() {
                assert(after[i] == before[i]);
            }
        }
    }
}

proof fn lemma_parameters_no_m(color: Resolved)
    ensures
        no_m(crate::color::spec_parameters(color, false)),
{
    let p = crate::color::spec_parameters(color, false);
    match color {
        Resolved::Default => lemma_decimal_digits_no_m(39),
        Resolved::Indexed16(code) => lemma_decimal_digits_no_m(code as nat),
        Resolved::Indexed256(index) => {
            let a = crate::text::decimal_digits(38);
            let b = crate::text::decimal_digits(index as nat);
            lemma_decimal_digits_no_m(38);
            lemma_decimal_digits_no_m(index as nat);
            assert forall|i: int| 0 <= i < p.len() implies #[trigger] p[i] != 'm' by {
                if i < a.len() {
                    assert(p[i] == a[i]);
                } else if i >= a.len() + 3 {
                    assert(p[i] == b[i - a.len() - 3]);
                }
            }
        },
        Resolved::Rgb(r, g, b) => {
            let a = crate::text::decimal_digits(38);
            let x = crate::text::decimal_digits(r as nat);
            let y = crate::text::decimal_digits(g as nat);
            let z = crate::text::decimal_digits(b as nat);
            lemma_decimal_digits_no_m(38);
            lemma_decimal_digits_no_m(r as nat);
            lemma_decimal_digits_no_m(g as nat);
            lemma_decimal_digits_no_m(b as nat);
            let ax = a + seq![';', '2', ';'] + x;
            assert forall|i: int| 0 <= i < ax.len() implies #[trigger] ax[i] != 'm' by {
                if i < a.len() {
                    assert(ax[i] == a[i]);
                } else if i >= a.len() + 3 {
                    assert(ax[i] == x[i - a.len() - 3]);
                }
            }
            let axy = ax + seq![';'] + y;
            assert forall|i: int| 0 <= i < axy.len() implies #[trigger] axy[i] != 'm' by {
                if i < ax.len() {
                    assert(axy[i] == ax[i]);
                } else if i > ax.len() {
                    assert(axy[i] == y[i - ax.len() - 1]);
                }
            }
            assert(p =~= axy + seq![';'] + z);
            assert forall|i: int| 0 <= i < p.len() implies #[trigger] p[i] != 'm' by {
                if i < axy.len() {
                    assert(p[i] == axy[i]);
                } else if i > axy.len() {
                    assert(p[i] == z[i - axy.len() - 1]);
                }
            }
        },
    }
}

/// Inside an escape, characters other than `m` are deleted and keep it open.
proof fn lemma_strip_inside(prefix: Seq<char>, text: Seq<char>)
    requires
        in_escape(prefix),
        no_m(text),
    ensures
        in_escape(prefix + text),
        strip_escapes(prefix + text) == strip_escapes(prefix),
    decreases text.len(),
{
    if text.len() == 0 {
        assert(prefix + text =~= prefix);
    } else {
        let shorter = text.drop_last();
        assert forall|i: int| 0 <= i < shorter.len() implies #[trigger] shorter[i] != 'm' by {
            assert(shorter[i] == text[i]);
        }
        lemma_strip_inside(prefix, shorter);
        assert((prefix + text).drop_last() =~= prefix + shorter);
        assert((prefix + text).last() == text[text.len() - 1]);
    }
}

/// A whole SGR sequence vanishes when stripped, outside an escape.
proof fn lemma_strip_transition(prefix: Seq<char>, resolved: Resolved)
    requires
        !in_escape(prefix),
    ensures
        !in_escape(prefix + spec_transition(Some(resolved), None)),
        strip_escapes(prefix + spec_transition(Some(resolved), None)) == strip_escapes(prefix),
{
    let params = crate::color::spec_parameters(resolved, false);
    lemma_parameters_no_m(resolved);
    let opened = prefix.push('\x1b');
    assert(opened.drop_last() =~= prefix);
    let body = seq!['['] + params;
    assert forall|i: int| 0 <= i < body.len() implies #[trigger] body[i] != 'm' by {
        if i > 0 {
            assert(body[i] == params[i - 1]);
        }
    }
    lemma_strip_inside(opened, body);
    let closed = (opened + body).push('m');
    assert(closed.drop_last() =~= opened + body);
    assert(prefix + spec_transition(Some(resolved), None) =~= closed);
}

/// One glyph other than `ESC` survives stripping, outside an escape.
proof fn lemma_strip_glyph(prefix: Seq<char>, glyph: char)
    requires
        !in_escape(prefix),
        glyph != '\x1b',
    ensures
        !in_escape(prefix.push(glyph)),
        strip_escapes(prefix.push(glyph)) == strip_escapes(prefix).push(glyph),
{
    assert(prefix.push(glyph).drop_last() =~= prefix);
}

/// The reset sequence vanishes when stripped, outside an escape.
proof fn lemma_strip_reset(prefix: Seq<char>)
    requires
        !in_escape(prefix),
    ensures
        !in_escape(prefix + reset_sequence()),
        strip_escapes(prefix + reset_sequence()) == strip_escapes(prefix),
{
    let opened = prefix.push('\x1b');
    assert(opened.drop_last() =~= prefix);
    let body = seq!['[', '0'];
    assert forall|i: int| 0 <= i < body.len() implies #[trigger] body[i] != 'm' by {}
    lemma_strip_inside(opened, body);
    let closed = (opened + body).push('m');
    assert(closed.drop_last() =~= opened + body);
    assert(prefix + reset_sequence() =~= closed);
}

/// Whether no glyph of a run is `ESC`.
pub open spec fn escape_free(glyphs: Seq<(char, Color)>) -> bool {
    forall|i: int| 0 <= i < glyphs.len() ==> (#[trigger] glyphs[i]).0 != '\x1b'
}

/// A run's encoding strips to its glyphs.
proof fn lemma_strip_run<F: Fn(u8, u8, u8) -> u8>(
    prefix: Seq<char>,
    glyphs: Seq<(char, Color)>,
    mode: ColorMode,
    nearest16: F,
)
    requires
        !in_escape(prefix),
        escape_free(glyphs),
    ensures
        !in_escape(prefix + run_text(glyphs, mode, nearest16)),
        strip_escapes(prefix + run_text(glyphs, mode, nearest16)) == strip_escapes(prefix)
            + glyph_chars(glyphs),
    decreases glyphs.len(),
{
    if glyphs.len() == 0 {
        assert(prefix + run_text(glyphs, mode, nearest16) =~= prefix);
        assert(strip_escapes(prefix) + glyph_chars(glyphs) =~= strip_escapes(prefix));
    } else {
        let shorter = glyphs.drop_last();
        assert forall|i: int| 0 <= i < shorter.len() implies (#[trigger] shorter[i]).0 != '\x1b' by {
            assert(shorter[i] == glyphs[i]);
        }
        lemma_strip_run(prefix, shorter, mode, nearest16);
        let before = prefix + run_text(shorter, mode, nearest16);
        let current = run_state(shorter, mode, nearest16);
        let (glyph, color) = glyphs.last();
        assert(glyphs.last() == glyphs[glyphs.len() - 1]);
        let resolved = color.spec_resolve_with(mode, nearest16);
        if glyph != ' ' && resolved != current {
            lemma_strip_transition(before, resolved);
            let mid = before + spec_transition(Some(resolved), None);
            lemma_strip_glyph(mid, glyph);
            assert(prefix + run_text(glyphs, mode, nearest16) =~= mid.push(glyph));
        } else {
            lemma_strip_glyph(before, glyph);
            assert(prefix + run_text(glyphs, mode, nearest16) =~= before.push(glyph));
        }
        assert(strip_escapes(prefix) + glyph_chars(glyphs) =~= (strip_escapes(prefix) + glyph_chars(
            shorter,
        )).push(glyph));
    }
}

proof fn lemma_trim_blank_escape_free(glyphs: Seq<(char, Color)>)
    requires
        escape_free(glyphs),
    ensures
        escape_free(trim_blank(glyphs)),
        trim_blank(glyphs).len() <= glyphs.len(),
        forall|i: int| 0 <= i < trim_blank(glyphs).len() ==> #[trigger] trim_blank(glyphs)[i]
            == glyphs[i],
    decreases glyphs.len(),
{
    if glyphs.len() > 0 && glyphs.last().0 == ' ' {
        let shorter = glyphs.drop_last();
        assert forall|i: int| 0 <= i < shorter.len() implies (#[trigger] shorter[i]).0 != '\x1b' by {
            assert(shorter[i] == glyphs[i]);
        }
        lemma_trim_blank_escape_free(shorter);
    }
}

/// Whether a cell prints as something other than `ESC`.
pub open spec fn prints_no_escape(cell: Cell) -> bool {
    cell.text != Text::Glyph('\x1b')
}

proof fn lemma_printable_escape_free(charset: Charset, cells: Seq<Cell>)
    requires
        forall|i: int| 0 <= i < cells.len() ==> prints_no_escape(#[trigger] cells[i]),
    ensures
        escape_free(printable(charset, cells)),
    decreases cells.len(),
{
    if cells.len() > 0 {
        let shorter = cells.drop_last();
        assert forall|i: int| 0 <= i < shorter.len() implies prints_no_escape(#[trigger] shorter[i]) by {
            assert(shorter[i] == cells[i]);
        }
        lemma_printable_escape_free(charset, shorter);
        assert(cells.last() == cells[cells.len() - 1]);
        let before = printable(charset, shorter);
        let bits = cells.last().bits;
        assert(charset.spec_glyph(bits) != '\x1b') by {
            if bits != 0 {
                match charset {
                    Charset::Ascii => {},
                    Charset::Braille => {
                        assert(0x2800 + bits >= 0x2800);
                    },
                }
            }
        }
        match printed(charset, cells.last()) {
            Some(p) => {
                assert forall|i: int| 0 <= i < before.push(p).len() implies (#[trigger] before.push(
                    p,
                )[i]).0 != '\x1b' by {
                    if i < before.len() {
                        assert(before.push(p)[i] == before[i]);
                    }
                }
            },
            None => {},
        }
    }
}

/// Deleting the escape codes from any encoding gives the plain text: in
/// every mode and with any quantizer, the escapes are all that color adds —
/// every glyph, space and newline is the plain one.
pub proof fn law_stripped_encodings_are_plain<F: Fn(u8, u8, u8) -> u8>(
    surface: &Surface,
    mode: ColorMode,
    nearest16: F,
    n: nat,
)
    requires
        surface.wf(),
        n <= surface.spec_height(),
    ensures
        !in_escape(surface.encode_rows(n, mode, nearest16)),
        strip_escapes(surface.encode_rows(n, mode, nearest16)) == surface.spec_plain_rows(n),
    decreases n,
{
    if n > 0 {
        law_stripped_encodings_are_plain(surface, mode, nearest16, (n - 1) as nat);
        let w = surface.spec_width() as int;
        let row = n - 1;
        lemma_row_end(row, w, surface.spec_height() as int);
        let cells = surface.spec_cells().subrange(row * w, row * w + w);
        assert forall|i: int| 0 <= i < cells.len() implies prints_no_escape(#[trigger] cells[i]) by {
            assert(cells[i] == surface.spec_cells()[row * w + i]);
        }
        lemma_printable_escape_free(surface.spec_charset(), cells);
        let glyphs = surface.spec_row(row);
        lemma_trim_blank_escape_free(glyphs);
        let kept = trim_blank(glyphs);
        let before = surface.encode_rows((n - 1) as nat, mode, nearest16);
        let sep: Seq<char> = if n > 1 { seq!['\n'] } else { Seq::empty() };
        let head = before + sep;
        if n > 1 {
            lemma_strip_glyph(before, '\n');
            assert(head =~= before.push('\n'));
        } else {
            assert(head =~= before);
        }
        lemma_strip_run(head, kept, mode, nearest16);
        let body = head + run_text(kept, mode, nearest16);
        if run_state(kept, mode, nearest16) != Resolved::Default {
            lemma_strip_reset(body);
            assert(surface.encode_rows(n, mode, nearest16) =~= body + reset_sequence());
        } else {
            assert(surface.encode_rows(n, mode, nearest16) =~= body);
        }
        assert(surface.spec_plain_rows(n) =~= strip_escapes(head) + glyph_chars(kept));
    }
}

/// A blank surface — nothing lit, no text — prints as bare newlines: every
/// row trims away to nothing.
pub proof fn law_blank_surfaces_print_bare_newlines(surface: &Surface, n: nat)
    requires
        surface.wf(),
        n <= surface.spec_height(),
        forall|i: int| 0 <= i < surface.spec_cells().len() ==> #[trigger] surface.spec_cells()[i] == empty_cell(),
    ensures
        n > 0 ==> surface.spec_plain_rows(n) == crate::text::repeat('\n', (n - 1) as nat),
        n == 0 ==> surface.spec_plain_rows(n) == Seq::<char>::empty(),
    decreases n,
{
    if n > 0 {
        law_blank_surfaces_print_bare_newlines(surface, (n - 1) as nat);
        let w = surface.spec_width() as int;
        let row = n - 1;
        lemma_row_end(row, w, surface.spec_height() as int);
        let cells = surface.spec_cells().subrange(row * w, row * w + w);
        assert forall|i: int| 0 <= i < cells.len() implies #[trigger] cells[i] == empty_cell() by {
            assert(cells[i] == surface.spec_cells()[row * w + i]);
        }
        lemma_blank_row_trims_away(surface.spec_charset(), cells);
        if n > 1 {
            assert(crate::text::repeat('\n', (n - 1) as nat) == crate::text::repeat(
                '\n',
                (n - 2) as nat,
            ).push('\n'));
        }
        assert(surface.spec_plain_rows(n) =~= if n > 1 {
            crate::text::repeat('\n', (n - 1) as nat)
        } else {
            Seq::<char>::empty()
        });
    }
}

proof fn lemma_blank_row_trims_away(charset: Charset, cells: Seq<Cell>)
    requires
        forall|i: int| 0 <= i < cells.len() ==> #[trigger] cells[i] == empty_cell(),
    ensures
        trim_blank(printable(charset, cells)) == Seq::<(char, Color)>::empty(),
    decreases cells.len(),
{
    if cells.len() > 0 {
        assert(cells.last() == cells[cells.len() - 1]);
        lemma_blank_row_trims_away(charset, cells.drop_last());
        let before = printable(charset, cells.drop_last());
        assert(printable(charset, cells) == before.push((' ', Color::Default)));
        assert(before.push((' ', Color::Default)).drop_last() =~= before);
    }
}

/// Whether a text slot holds a two-column glyph.
pub open spec fn is_wide(text: Text) -> bool {
    text matches Text::Glyph(g) && columns_of(g) == 2
}

/// The cell at `(column, row)` is consistently paired: a continuation
/// follows a two-column glyph in its row, and a two-column glyph is
/// followed by its continuation.
pub open spec fn pair_ok_at(cells: Seq<Cell>, width: int, row: int, column: int) -> bool {
    let i = row * width + column;
    &&& cells[i].text is Continuation ==> column > 0 && is_wide(cells[i - 1].text)
    &&& is_wide(cells[i].text) ==> column + 1 < width && cells[i + 1].text is Continuation
}

/// Every wide glyph of the grid pairs with its continuation.
pub open spec fn paired(cells: Seq<Cell>, width: int, height: int) -> bool {
    forall|row: int, column: int|
        0 <= row < height && 0 <= column < width ==> #[trigger] pair_ok_at(cells, width, row, column)
}

/// Cells of different rows have different indices.
proof fn lemma_rows_apart(r1: int, c1: int, r2: int, c2: int, width: int)
    requires
        0 <= c1 < width,
        0 <= c2 < width,
        r1 != r2,
    ensures
        r1 * width + c1 != r2 * width + c2,
{
    if r1 < r2 {
        assert(r1 * width + width <= r2 * width) by (nonlinear_arith)
            requires
                r1 < r2,
                width > 0,
        ;
    } else {
        assert(r2 * width + width <= r1 * width) by (nonlinear_arith)
            requires
                r2 < r1,
                width > 0,
        ;
    }
}

/// What placing a text slot into an unclipped cell does to every text slot:
/// the cell takes the new text, a wide glyph whose continuation it was has
/// its start blanked, and a continuation to its right is blanked.
proof fn lemma_place_texts(surface: &Surface, cells: Seq<Cell>, row: int, column: int, text: Text, color: Color)
    requires
        surface.wf(),
        surface.spec_clip() is None,
        cells.len() == surface.spec_width() * surface.spec_height(),
        0 <= row < surface.spec_height(),
        0 <= column < surface.spec_width(),
    ensures
        ({
            let w = surface.spec_width() as int;
            let at = row * w + column;
            let after = surface.spec_place(cells, row, column, text, color);
            &&& after.len() == cells.len()
            &&& after[at].text == text
            &&& forall|j: int|
                0 <= j < cells.len() && j != at ==> (#[trigger] after[j]).text == if j == at - 1 && column
                    > 0 && cells[at].text is Continuation {
                    Text::Glyph(' ')
                } else if j == at + 1 && column + 1 < w && cells[at + 1].text is Continuation {
                    Text::Glyph(' ')
                } else {
                    cells[j].text
                }
        }),
{
    let w = surface.spec_width() as int;
    lemma_row_start(row, column, w, surface.spec_height() as int);
}

/// Putting a glyph that is not two columns wide into a cell keeps every
/// pair consistent: a wide glyph it overwrites the continuation of, or
/// whose start it overwrites, has its other half blanked.
proof fn lemma_narrow_place_pairs(surface: &Surface, cells: Seq<Cell>, row: int, column: int, glyph: char, color: Color)
    requires
        surface.wf(),
        surface.spec_clip() is None,
        cells.len() == surface.spec_width() * surface.spec_height(),
        paired(cells, surface.spec_width() as int, surface.spec_height() as int),
        0 <= row < surface.spec_height(),
        0 <= column < surface.spec_width(),
        columns_of(glyph) != 2,
        columns_of(' ') == 1,
    ensures
        surface.spec_place(cells, row, column, Text::Glyph(glyph), color).len() == cells.len(),
        paired(
            surface.spec_place(cells, row, column, Text::Glyph(glyph), color),
            surface.spec_width() as int,
            surface.spec_height() as int,
        ),
{
    let w = surface.spec_width() as int;
    let h = surface.spec_height() as int;
    let after = surface.spec_place(cells, row, column, Text::Glyph(glyph), color);
    let at = row * w + column;
    lemma_place_texts(surface, cells, row, column, Text::Glyph(glyph), color);
    lemma_row_start(row, column, w, h);
    assert forall|r: int, c: int| 0 <= r < h && 0 <= c < w implies #[trigger] pair_ok_at(after, w, r, c) by {
        lemma_row_start(r, c, w, h);
        let i = r * w + c;
        assert(pair_ok_at(cells, w, r, c));
        if r != row {
            lemma_rows_apart(r, c, row, column, w);
            if column > 0 {
                lemma_rows_apart(r, c, row, column - 1, w);
            }
            if column + 1 < w {
                lemma_rows_apart(r, c, row, column + 1, w);
            }
            if c > 0 {
                lemma_rows_apart(r, c - 1, row, column, w);
                if column > 0 {
                    lemma_rows_apart(r, c - 1, row, column - 1, w);
                }
                if column + 1 < w {
                    lemma_rows_apart(r, c - 1, row, column + 1, w);
                }
                assert(after[i - 1].text == cells[i - 1].text);
            }
            if c + 1 < w {
                lemma_rows_apart(r, c + 1, row, column, w);
                if column > 0 {
                    lemma_rows_apart(r, c + 1, row, column - 1, w);
                }
                if column + 1 < w {
                    lemma_rows_apart(r, c + 1, row, column + 1, w);
                }
                assert(after[i + 1].text == cells[i + 1].text);
            }
            assert(after[i].text == cells[i].text);
        } else {
            assert(i == at + (c - column));
            if c > 0 {
                assert(pair_ok_at(cells, w, r, c - 1));
            }
            if c + 1 < w {
                assert(pair_ok_at(cells, w, r, c + 1));
            }
            if column > 0 {
                assert(pair_ok_at(cells, w, row, column - 1));
            }
            if column + 1 < w {
                assert(pair_ok_at(cells, w, row, column + 1));
            }
            assert(pair_ok_at(cells, w, row, column));
        }
    }
}

/// Putting a two-column glyph into two cells of a row — the glyph, then its
/// continuation — keeps every pair consistent.
proof fn lemma_wide_place_pairs(surface: &Surface, cells: Seq<Cell>, row: int, column: int, glyph: char, color: Color)
    requires
        surface.wf(),
        surface.spec_clip() is None,
        cells.len() == surface.spec_width() * surface.spec_height(),
        paired(cells, surface.spec_width() as int, surface.spec_height() as int),
        0 <= row < surface.spec_height(),
        0 <= column,
        column + 1 < surface.spec_width(),
        columns_of(glyph) == 2,
        columns_of(' ') == 1,
    ensures
        surface.spec_place(
            surface.spec_place(cells, row, column, Text::Glyph(glyph), color),
            row,
            column + 1,
            Text::Continuation,
            color,
        ).len() == cells.len(),
        paired(
            surface.spec_place(
                surface.spec_place(cells, row, column, Text::Glyph(glyph), color),
                row,
                column + 1,
                Text::Continuation,
                color,
            ),
            surface.spec_width() as int,
            surface.spec_height() as int,
        ),
{
    let w = surface.spec_width() as int;
    let h = surface.spec_height() as int;
    let mid = surface.spec_place(cells, row, column, Text::Glyph(glyph), color);
    let after = surface.spec_place(mid, row, column + 1, Text::Continuation, color);
    let at = row * w + column;
    lemma_place_texts(surface, cells, row, column, Text::Glyph(glyph), color);
    lemma_place_texts(surface, mid, row, column + 1, Text::Continuation, color);
    lemma_row_start(row, column, w, h);
    lemma_row_start(row, column + 1, w, h);
    assert forall|r: int, c: int| 0 <= r < h && 0 <= c < w implies #[trigger] pair_ok_at(after, w, r, c) by {
        lemma_row_start(r, c, w, h);
        let i = r * w + c;
        assert(pair_ok_at(cells, w, r, c));
        if r != row {
            lemma_rows_apart(r, c, row, column, w);
            lemma_rows_apart(r, c, row, column + 1, w);
            if column > 0 {
                lemma_rows_apart(r, c, row, column - 1, w);
            }
            if column + 2 < w {
                lemma_rows_apart(r, c, row, column + 2, w);
            }
            if c > 0 {
                lemma_rows_apart(r, c - 1, row, column, w);
                lemma_rows_apart(r, c - 1, row, column + 1, w);
                if column > 0 {
                    lemma_rows_apart(r, c - 1, row, column - 1, w);
                }
                if column + 2 < w {
                    lemma_rows_apart(r, c - 1, row, column + 2, w);
                }
                assert(after[i - 1].text == cells[i - 1].text);
            }
            if c + 1 < w {
                lemma_rows_apart(r, c + 1, row, column, w);
                lemma_rows_apart(r, c + 1, row, column + 1, w);
                if column > 0 {
                    lemma_rows_apart(r, c + 1, row, column - 1, w);
                }
                if column + 2 < w {
                    lemma_rows_apart(r, c + 1, row, column + 2, w);
                }
                assert(after[i + 1].text == cells[i + 1].text);
            }
            assert(after[i].text == cells[i].text);
        } else {
            assert(i == at + (c - column));
            if c > 0 {
                assert(pair_ok_at(cells, w, r, c - 1));
            }
            if c + 1 < w {
                assert(pair_ok_at(cells, w, r, c + 1));
            }
            if column > 0 {
                assert(pair_ok_at(cells, w, row, column - 1));
            }
            if column + 2 < w {
                assert(pair_ok_at(cells, w, row, column + 2));
            }
            assert(pair_ok_at(cells, w, row, column));
            assert(pair_ok_at(cells, w, row, column + 1));
        }
    }
}

proof fn lemma_text_from_pairs(
    surface: &Surface,
    cells: Seq<Cell>,
    row: int,
    column: int,
    chars: Seq<char>,
    color: Color,
)
    requires
        surface.wf(),
        surface.spec_clip() is None,
        cells.len() == surface.spec_width() * surface.spec_height(),
        paired(cells, surface.spec_width() as int, surface.spec_height() as int),
        0 <= row < surface.spec_height(),
        forall|i: int| 0 <= i < chars.len() ==> columns_of(#[trigger] chars[i]) <= 2,
        columns_of(' ') == 1,
    ensures
        surface.spec_text_from(cells, row, column, chars, color).len() == cells.len(),
        paired(
            surface.spec_text_from(cells, row, column, chars, color),
            surface.spec_width() as int,
            surface.spec_height() as int,
        ),
    decreases chars.len(),
{
    if chars.len() > 0 {
        let glyph = chars[0];
        let w = columns_of(glyph) as int;
        let rest = chars.drop_first();
        assert forall|i: int| 0 <= i < rest.len() implies columns_of(#[trigger] rest[i]) <= 2 by {
            assert(rest[i] == chars[i + 1]);
        }
        if w > 0 && column >= 0 && column + w <= surface.spec_width() {
            let placed = surface.spec_place(cells, row, column, Text::Glyph(glyph), color);
            if w == 1 {
                lemma_narrow_place_pairs(surface, cells, row, column, glyph, color);
                assert(surface.spec_continuations(placed, row, column, 1, 1, color) == placed);
                lemma_text_from_pairs(surface, placed, row, column + 1, rest, color);
            } else {
                assert(w == 2);
                lemma_wide_place_pairs(surface, cells, row, column, glyph, color);
                let both = surface.spec_place(placed, row, column + 1, Text::Continuation, color);
                assert(surface.spec_continuations(both, row, column, 2, 2, color) == both);
                assert(surface.spec_continuations(placed, row, column, 1, 2, color) == both);
                lemma_text_from_pairs(surface, both, row, column + 2, rest, color);
            }
        } else {
            lemma_text_from_pairs(surface, cells, row, column + w, rest, color);
        }
    }
}

/// Text keeps wide glyphs whole: writing text of glyphs at most two columns
/// wide, with no clip active, onto a surface whose wide glyphs all pair with
/// their continuations leaves them all paired — overwriting half of a wide
/// glyph blanks its other half, so columns never shift.
pub proof fn law_text_keeps_wide_glyphs_paired(
    surface: &Surface,
    column: int,
    row: int,
    text: Seq<char>,
    color: Color,
)
    requires
        surface.wf(),
        surface.spec_clip() is None,
        paired(surface.spec_cells(), surface.spec_width() as int, surface.spec_height() as int),
        forall|i: int| 0 <= i < text.len() ==> columns_of(#[trigger] text[i]) <= 2,
        columns_of(' ') == 1,
    ensures
        paired(
            surface.spec_text(column, row, text, color),
            surface.spec_width() as int,
            surface.spec_height() as int,
        ),
{
    if 0 <= row < surface.spec_height() {
        lemma_text_from_pairs(surface, surface.spec_cells(), row, column, text, color);
    }
}

/// A new surface has no wide glyphs to pair, and lighting pixels never
/// touches text, so drawing marks keeps every pair as it was.
pub proof fn law_marks_keep_wide_glyphs_paired(surface: &Surface, x: int, y: int, color: Color)
    requires
        surface.wf(),
        paired(surface.spec_cells(), surface.spec_width() as int, surface.spec_height() as int),
    ensures
        paired(
            surface.spec_set(x, y, color),
            surface.spec_width() as int,
            surface.spec_height() as int,
        ),
        paired(
            Seq::new(surface.spec_cells().len(), |i: int| empty_cell()),
            surface.spec_width() as int,
            surface.spec_height() as int,
        ),
{
    let w = surface.spec_width() as int;
    let h = surface.spec_height() as int;
    law_pixels_never_touch_text(surface, x, y, color);
    let after = surface.spec_set(x, y, color);
    assert forall|r: int, c: int| 0 <= r < h && 0 <= c < w implies #[trigger] pair_ok_at(after, w, r, c) by {
        lemma_row_start(r, c, w, h);
        assert(pair_ok_at(surface.spec_cells(), w, r, c));
        let i = r * w + c;
        assert(after[i].text == surface.spec_cells()[i].text);
        if c > 0 {
            assert(after[i - 1].text == surface.spec_cells()[i - 1].text);
        }
        if c + 1 < w {
            assert(after[i + 1].text == surface.spec_cells()[i + 1].text);
        }
    }
    let blank = Seq::new(surface.spec_cells().len(), |i: int| empty_cell());
    assert forall|r: int, c: int| 0 <= r < h && 0 <= c < w implies #[trigger] pair_ok_at(blank, w, r, c) by {
        lemma_row_start(r, c, w, h);
    }
}

} // verus!
