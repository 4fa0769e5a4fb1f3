//! The SVG card: the cell grid as an image any SVG host can draw.
//!
//! A page that draws with SVG is one more terminal. The card is a picture of
//! the raster, nothing more: glyphs that *are* block patterns — Block
//! Elements and sextants — become the rectangles they denote, crisp at any
//! size; everything else (braille, box drawing, labels, titles) is a
//! `<text>` run the host's own font draws, pinned to the cell grid with
//! `textLength` so the layout survives whatever font that is. Colors resolve
//! exactly as the HTML card resolves them.
//!
//! Geometry is exact: every coordinate is an integer count of thirds of a
//! thousandth of a pixel (a cell is 7.8 px wide and 16 px tall, and a
//! sextant row is a third of that), printed rounded to three decimals
//! without trailing zeros.

use vstd::prelude::*;

use crate::color::Color;
use crate::html::{escape, spec_escape};
use crate::raster::{visible, Raster, RasterCell};
use crate::text::{
    decimal_digits, digit, digit_char, extend_chars, push_char, push_decimal, push_hex_byte, push_range,
    push_str,
};
use crate::raster::hex_rgb;

verus! {

/// The filled sub-cells of a block glyph on a `columns × rows` grid, one bit
/// per sub-cell in row-major order (top-left first).
#[derive(Debug, Clone, Copy, PartialEq, Eq, Structural)]
pub struct Ink {
    /// Sub-cell columns.
    pub columns: u8,
    /// Sub-cell rows.
    pub rows: u8,
    /// The filled sub-cells.
    pub bits: u8,
}

impl Ink {
    /// A grid of at most eight sub-cells, so every sub-cell has its bit.
    pub open spec fn wf(self) -> bool {
        &&& 1 <= self.columns
        &&& 1 <= self.rows
        &&& self.columns * self.rows <= 8
    }

    /// Whether the sub-cell `(column, row)` is filled.
    pub open spec fn spec_bit(self, column: int, row: int) -> bool {
        self.bits & (1u8 << ((row * self.columns + column) as u8)) != 0u8
    }

    /// The filled rows of one column, as a row mask over its first `n` rows.
    pub open spec fn column_mask(self, column: int, n: nat) -> u8
        decreases n,
    {
        if n == 0 {
            0u8
        } else {
            let before = self.column_mask(column, (n - 1) as nat);
            if self.spec_bit(column, n - 1) {
                before | (1u8 << ((n - 1) as u8))
            } else {
                before
            }
        }
    }

    /// Whether every column has the rows of the first: the ink rectangles
    /// span the full cell width.
    pub open spec fn spec_full_width(self) -> bool {
        forall|column: int|
            1 <= column < self.columns ==> #[trigger] self.column_mask(column, self.rows as nat)
                == self.column_mask(0, self.rows as nat)
    }

    /// Whether the sub-cell `(column, row)` is filled.
    pub fn bit(self, column: u8, row: u8) -> (b: bool)
        requires
            self.wf(),
            column < self.columns,
            row < self.rows,
        ensures
            b == self.spec_bit(column as int, row as int),
    {
        assert(row * self.columns + column < 8) by (nonlinear_arith)
            requires
                column < self.columns,
                row < self.rows,
                self.columns * self.rows <= 8,
        ;
        self.bits & (1u8 << (row * self.columns + column)) != 0
    }

    /// The filled rows of one column, as a row mask.
    pub fn column(self, column: u8) -> (mask: u8)
        requires
            self.wf(),
            column < self.columns,
        ensures
            mask == self.column_mask(column as int, self.rows as nat),
    {
        assert(self.rows <= 8) by (nonlinear_arith)
            requires
                1 <= self.columns,
                self.columns * self.rows <= 8,
        ;
        let mut mask: u8 = 0;
        let mut row: u8 = 0;
        while row < self.rows
            invariant
                self.wf(),
                self.rows <= 8,
                column < self.columns,
                row <= self.rows,
                mask == self.column_mask(column as int, row as nat),
            decreases self.rows - row,
        {
            if self.bit(column, row) {
                mask = mask | (1u8 << row);
            }
            row = row + 1;
        }
        mask
    }

    /// Whether every ink rectangle spans the full cell width, so runs of
    /// this glyph merge into one rectangle per row band.
    pub fn full_width(self) -> (b: bool)
        requires
            self.wf(),
        ensures
            b == self.spec_full_width(),
    {
        let first = self.column(0);
        let mut column: u8 = 1;
        while column < self.columns
            invariant
                self.wf(),
                1 <= column <= self.columns,
                first == self.column_mask(0, self.rows as nat),
                forall|c: int|
                    1 <= c < column ==> #[trigger] self.column_mask(c, self.rows as nat) == first,
            decreases self.columns - column,
        {
            if self.column(column) != first {
                return false;
            }
            column = column + 1;
        }
        true
    }
}

/// The quadrant pattern a Block Elements glyph draws on the 2 × 2 grid.
pub open spec fn quadrant_bits(glyph: char) -> Option<u8> {
    if glyph == '\u{2598}' {
        Some(1u8)
    } else if glyph == '\u{259D}' {
        Some(2u8)
    } else if glyph == '\u{2580}' {
        Some(3u8)
    } else if glyph == '\u{2596}' {
        Some(4u8)
    } else if glyph == '\u{258C}' {
        Some(5u8)
    } else if glyph == '\u{259E}' {
        Some(6u8)
    } else if glyph == '\u{259B}' {
        Some(7u8)
    } else if glyph == '\u{2597}' {
        Some(8u8)
    } else if glyph == '\u{259A}' {
        Some(9u8)
    } else if glyph == '\u{2590}' {
        Some(10u8)
    } else if glyph == '\u{259C}' {
        Some(11u8)
    } else if glyph == '\u{2584}' {
        Some(12u8)
    } else if glyph == '\u{2599}' {
        Some(13u8)
    } else if glyph == '\u{259F}' {
        Some(14u8)
    } else if glyph == '\u{2588}' {
        Some(15u8)
    } else {
        None
    }
}

/// The ink of a glyph that is defined as a block pattern, or `None` for a
/// glyph the host's font should draw: quadrants (and the halves and full
/// block among them) on 2 × 2, lower eighths on 1 × 8, left eighths on
/// 8 × 1, the upper and right eighths, and the sextants on 2 × 3.
pub open spec fn spec_ink(glyph: char) -> Option<Ink> {
    let code = glyph as u32;
    if glyph == ' ' {
        None
    } else if quadrant_bits(glyph) is Some {
        Some(Ink { columns: 2, rows: 2, bits: quadrant_bits(glyph)->Some_0 })
    } else if 0x2581 <= code <= 0x2587 {
        // the bottom k of eight rows
        let k = code - 0x2580;
        Some(Ink { columns: 1, rows: 8, bits: ((((1u32 << k) - 1) as u32) << ((8 - k) as u32)) as u8 })
    } else if 0x2589 <= code <= 0x258F {
        // the left k of eight columns
        let k = 0x2590 - code;
        Some(Ink { columns: 8, rows: 1, bits: ((1u32 << k) - 1) as u8 })
    } else if code == 0x2594 {
        Some(Ink { columns: 1, rows: 8, bits: 1 })
    } else if code == 0x2595 {
        Some(Ink { columns: 8, rows: 1, bits: 128 })
    } else if 0x1FB00 <= code <= 0x1FB3B {
        // the sextant codec's order skips the three patterns Block
        // Elements already draws (left half, right half, full block)
        let index = code - 0x1FB00;
        let bits = index + 1 + (if index >= 20 { 1int } else { 0int }) + (if index >= 40 {
            1int
        } else {
            0int
        });
        Some(Ink { columns: 2, rows: 3, bits: bits as u8 })
    } else {
        None
    }
}

/// The ink of a glyph that is defined as a block pattern, or `None` for a
/// glyph the host's font should draw.
pub fn ink(glyph: char) -> (r: Option<Ink>)
    ensures
        r == spec_ink(glyph),
        r matches Some(ink) ==> ink.wf() && (ink.columns == 1 || ink.columns == 2 || ink.columns
            == 8) && (ink.rows == 1 || ink.rows == 2 || ink.rows == 3 || ink.rows == 8),
{
    if glyph == ' ' {
        return None;
    }
    let quadrant: Option<u8> = match glyph {
        '\u{2598}' => Some(1),
        '\u{259D}' => Some(2),
        '\u{2580}' => Some(3),
        '\u{2596}' => Some(4),
        '\u{258C}' => Some(5),
        '\u{259E}' => Some(6),
        '\u{259B}' => Some(7),
        '\u{2597}' => Some(8),
        '\u{259A}' => Some(9),
        '\u{2590}' => Some(10),
        '\u{259C}' => Some(11),
        '\u{2584}' => Some(12),
        '\u{2599}' => Some(13),
        '\u{259F}' => Some(14),
        '\u{2588}' => Some(15),
        _ => None,
    };
    if let Some(bits) = quadrant {
        return Some(Ink { columns: 2, rows: 2, bits });
    }
    let code = glyph as u32;
    if 0x2581 <= code && code <= 0x2587 {
        let k = code - 0x2580;
        assert(1 <= (1u32 << k) && ((((1u32 << k) - 1) as u32) << ((8 - k) as u32)) < 256) by (bit_vector)
            requires
                1 <= k <= 7,
        ;
        let low = (1u32 << k) - 1;
        let bits = low << (8 - k);
        Some(Ink { columns: 1, rows: 8, bits: bits as u8 })
    } else if 0x2589 <= code && code <= 0x258F {
        let k = 0x2590 - code;
        assert(1 <= (1u32 << k) && (1u32 << k) - 1 < 256) by (bit_vector)
            requires
                1 <= k <= 7,
        ;
        let bits = (1u32 << k) - 1;
        Some(Ink { columns: 8, rows: 1, bits: bits as u8 })
    } else if code == 0x2594 {
        Some(Ink { columns: 1, rows: 8, bits: 1 })
    } else if code == 0x2595 {
        Some(Ink { columns: 8, rows: 1, bits: 128 })
    } else if 0x1FB00 <= code && code <= 0x1FB3B {
        let index = code - 0x1FB00;
        let bits = index + 1 + (if index >= 20 { 1u32 } else { 0u32 }) + (if index >= 40 {
            1u32
        } else {
            0u32
        });
        Some(Ink { columns: 2, rows: 3, bits: bits as u8 })
    } else {
        None
    }
}

/// A color as a `#rrggbb` CSS color.
pub open spec fn spec_hex(color: Color) -> Seq<char> {
    seq!['#'] + hex_rgb(color.spec_to_rgb())
}

/// Appends a color as `#rrggbb`.
pub fn push_hex(out: &mut String, color: Color)
    ensures
        final(out)@ == old(out)@ + spec_hex(color),
{
    let (r, g, b) = color.to_rgb();
    push_char(out, '#');
    push_hex_byte(out, r);
    push_hex_byte(out, g);
    push_hex_byte(out, b);
    assert(final(out)@ =~= old(out)@ + spec_hex(color));
}

/// A color as a `#rrggbb` CSS color.
pub fn hex(color: Color) -> (s: String)
    ensures
        s@ == spec_hex(color),
{
    let mut s = String::new();
    push_hex(&mut s, color);
    s
}

/// The fraction digits of a count of thousandths below a thousand: none
/// for zero, else a point and up to three digits without trailing zeros.
pub open spec fn fraction_digits(f: int) -> Seq<char> {
    if f == 0 {
        Seq::empty()
    } else {
        seq!['.', digit_char(f / 100)] + if f % 100 != 0 {
            seq![digit_char((f / 10) % 10)] + if f % 10 != 0 {
                seq![digit_char(f % 10)]
            } else {
                Seq::empty()
            }
        } else {
            Seq::empty()
        }
    }
}

/// A length of `units` thirds of a thousandth, rounded to the nearest
/// thousandth (never a tie: a third is never half) and printed with up to
/// three decimals and no trailing zeros.
pub open spec fn spec_num(units: nat) -> Seq<char> {
    let t = (units + 1) / 3;
    decimal_digits(t / 1000) + fraction_digits((t % 1000) as int)
}

/// Appends a length of `units` thirds of a thousandth, as [`spec_num`].
pub fn push_num(out: &mut String, units: u64)
    requires
        units < u64::MAX,
    ensures
        final(out)@ == old(out)@ + spec_num(units as nat),
{
    let t = (units + 1) / 3;
    push_decimal(out, (t / 1000) as u128);
    let f = t % 1000;
    if f != 0 {
        push_char(out, '.');
        push_char(out, digit((f / 100) as u8));
        if f % 100 != 0 {
            push_char(out, digit(((f / 10) % 10) as u8));
            if f % 10 != 0 {
                push_char(out, digit((f % 10) as u8));
            }
        }
    }
    assert(final(out)@ =~= old(out)@ + spec_num(units as nat));
}

/// Cell advance, in thirds of a thousandth of a pixel (7.8 px: the natural
/// 13 px advance of the common monospace fonts).
pub const CELL_W: u64 = 23400;

/// Row pitch (16 px).
pub const CELL_H: u64 = 48000;

/// Horizontal card padding (16 px), as the HTML card's.
pub const PAD_X: u64 = 48000;

/// Vertical card padding (12 px).
pub const PAD_Y: u64 = 36000;

/// Text baseline below the row's top edge (12.5 px).
pub const BASELINE: u64 = 37500;

/// The largest coordinate a card within the frame limits needs.
pub open spec fn max_units() -> nat {
    4_000_000_000
}

/// One filled rectangle.
pub open spec fn spec_rect(x: nat, y: nat, width: nat, height: nat, fill: Seq<char>) -> Seq<char> {
    "<rect x=\""@ + spec_num(x) + "\" y=\""@ + spec_num(y) + "\" width=\""@ + spec_num(width)
        + "\" height=\""@ + spec_num(height) + "\" fill=\""@ + fill + "\"/>\n"@
}

/// Appends one filled rectangle.
fn push_rect(out: &mut String, x: u64, y: u64, width: u64, height: u64, fill: &str)
    requires
        x < u64::MAX,
        y < u64::MAX,
        width < u64::MAX,
        height < u64::MAX,
    ensures
        final(out)@ == old(out)@ + spec_rect(x as nat, y as nat, width as nat, height as nat, fill@),
{
    push_str(out, "<rect x=\"");
    push_num(out, x);
    push_str(out, "\" y=\"");
    push_num(out, y);
    push_str(out, "\" width=\"");
    push_num(out, width);
    push_str(out, "\" height=\"");
    push_num(out, height);
    push_str(out, "\" fill=\"");
    push_str(out, fill);
    push_str(out, "\"/>\n");
    assert(final(out)@ =~= old(out)@ + spec_rect(
        x as nat,
        y as nat,
        width as nat,
        height as nat,
        fill@,
    ));
}

/// Where a run of one background color that continues at `i` ends.
pub open spec fn background_end(cells: Seq<RasterCell>, i: int, color: Color) -> int
    decreases cells.len() - i,
{
    if 0 <= i < cells.len() && cells[i].background == color {
        background_end(cells, i + 1, color)
    } else {
        i
    }
}

pub proof fn lemma_background_end(cells: Seq<RasterCell>, i: int, color: Color)
    requires
        0 <= i <= cells.len(),
    ensures
        i <= background_end(cells, i, color) <= cells.len(),
    decreases cells.len() - i,
{
    if i < cells.len() && cells[i].background == color {
        lemma_background_end(cells, i + 1, color);
    }
}

/// Cell backgrounds from `column` on: runs of one non-default color merged
/// into one rectangle each, continuation cells extending their glyph's run.
pub open spec fn background_rects(cells: Seq<RasterCell>, y: nat, column: int) -> Seq<char>
    decreases cells.len() - column,
{
    if column < 0 || column >= cells.len() {
        Seq::empty()
    } else if cells[column].background == Color::Default {
        background_rects(cells, y, column + 1)
    } else {
        let color = cells[column].background;
        let end = background_end(cells, column + 1, color);
        proof {
            lemma_background_end(cells, column + 1, color);
        }
        spec_rect(
            (PAD_X + column * CELL_W) as nat,
            y,
            ((end - column) * CELL_W) as nat,
            CELL_H as nat,
            spec_hex(color),
        ) + background_rects(cells, y, end)
    }
}

/// Appends the background rectangles of one row.
fn push_backgrounds(out: &mut String, cells: &Vec<RasterCell>, y: u64)
    requires
        cells@.len() <= 65535,
        y <= max_units(),
    ensures
        final(out)@ == old(out)@ + background_rects(cells@, y as nat, 0),
{
    let mut column: usize = 0;
    while column < cells.len()
        invariant
            column <= cells@.len() <= 65535,
            y <= max_units(),
            old(out)@ + background_rects(cells@, y as nat, 0) == out@ + background_rects(
                cells@,
                y as nat,
                column as int,
            ),
        decreases cells@.len() - column,
    {
        let color = cells[column].background;
        if color == Color::Default {
            column = column + 1;
        } else {
            let start = column;
            column = column + 1;
            while column < cells.len() && cells[column].background == color
                invariant
                    start < column <= cells@.len(),
                    background_end(cells@, column as int, color) == background_end(
                        cells@,
                        start + 1,
                        color,
                    ),
                decreases cells@.len() - column,
            {
                column = column + 1;
            }
            let fill = hex(color);
            push_rect(
                out,
                PAD_X + start as u64 * CELL_W,
                y,
                (column - start) as u64 * CELL_W,
                CELL_H,
                fill.as_str(),
            );
        }
    }
}

/// Where a run of one glyph in one color that continues at `i` ends.
pub open spec fn glyph_run_end(cells: Seq<RasterCell>, i: int, glyph: char, color: Color) -> int
    decreases cells.len() - i,
{
    if 0 <= i < cells.len() && cells[i].glyph == glyph && cells[i].foreground == color {
        glyph_run_end(cells, i + 1, glyph, color)
    } else {
        i
    }
}

pub proof fn lemma_glyph_run_end(cells: Seq<RasterCell>, i: int, glyph: char, color: Color)
    requires
        0 <= i <= cells.len(),
    ensures
        i <= glyph_run_end(cells, i, glyph, color) <= cells.len(),
    decreases cells.len() - i,
{
    if i < cells.len() && cells[i].glyph == glyph && cells[i].foreground == color {
        lemma_glyph_run_end(cells, i + 1, glyph, color);
    }
}

/// Whether row `row` is set in a row mask.
pub open spec fn mask_has(mask: u8, row: int) -> bool {
    mask & (1u8 << (row as u8)) != 0u8
}

/// Where a band of set rows that continues at `row` ends.
pub open spec fn band_end(mask: u8, row: int, rows: int) -> int
    decreases rows - row,
{
    if 0 <= row < rows && mask_has(mask, row) {
        band_end(mask, row + 1, rows)
    } else {
        row
    }
}

pub proof fn lemma_band_end(mask: u8, row: int, rows: int)
    requires
        0 <= row <= rows,
    ensures
        row <= band_end(mask, row, rows) <= rows,
    decreases rows - row,
{
    if row < rows && mask_has(mask, row) {
        lemma_band_end(mask, row + 1, rows);
    }
}

/// The rectangles of one grid column (or of a group of identical ones)
/// from sub-row `row` down: one per contiguous band of set rows.
pub open spec fn band_rects(
    mask: u8,
    rows: int,
    row: int,
    x: nat,
    y: nat,
    width: nat,
    sub_h: nat,
    fill: Seq<char>,
) -> Seq<char>
    decreases rows - row,
{
    if row < 0 || row >= rows {
        Seq::empty()
    } else if !mask_has(mask, row) {
        band_rects(mask, rows, row + 1, x, y, width, sub_h, fill)
    } else {
        let to = band_end(mask, row + 1, rows);
        proof {
            lemma_band_end(mask, row + 1, rows);
        }
        spec_rect(x, (y + row * sub_h) as nat, width, ((to - row) * sub_h) as nat, fill) + band_rects(
            mask,
            rows,
            to,
            x,
            y,
            width,
            sub_h,
            fill,
        )
    }
}

/// Where a group of grid columns with the mask `mask` that continues at
/// `i` ends.
pub open spec fn same_column_end(ink: Ink, i: int, mask: u8) -> int
    decreases ink.columns - i,
{
    if 0 <= i < ink.columns && ink.column_mask(i, ink.rows as nat) == mask {
        same_column_end(ink, i + 1, mask)
    } else {
        i
    }
}

pub proof fn lemma_same_column_end(ink: Ink, i: int, mask: u8)
    requires
        0 <= i <= ink.columns,
    ensures
        i <= same_column_end(ink, i, mask) <= ink.columns,
    decreases ink.columns - i,
{
    if i < ink.columns && ink.column_mask(i, ink.rows as nat) == mask {
        lemma_same_column_end(ink, i + 1, mask);
    }
}

/// The rectangles of a block glyph from grid column `column` on, for a
/// glyph at `x0` repeated over `run` cells: identical adjacent columns
/// share their rectangles, and a full-width glyph's rectangles span the
/// whole run.
pub open spec fn grid_rects(ink: Ink, column: int, x0: nat, y: nat, run: nat, fill: Seq<char>) -> Seq<
    char,
>
    decreases ink.columns - column,
{
    if column < 0 || column >= ink.columns {
        Seq::empty()
    } else {
        let mask = ink.column_mask(column, ink.rows as nat);
        let end = same_column_end(ink, column + 1, mask);
        proof {
            lemma_same_column_end(ink, column + 1, mask);
        }
        let sub_w = CELL_W / ink.columns as u64;
        let sub_h = CELL_H / ink.rows as u64;
        let width = if ink.spec_full_width() {
            (run * CELL_W) as nat
        } else {
            ((end - column) * sub_w) as nat
        };
        band_rects(
            mask,
            ink.rows as int,
            0,
            (x0 + column * sub_w) as nat,
            y,
            width,
            sub_h as nat,
            fill,
        ) + grid_rects(ink, end, x0, y, run, fill)
    }
}

/// The block pattern a cell draws, if it is a printing block glyph.
pub open spec fn cell_ink(cell: RasterCell) -> Option<Ink> {
    if cell.columns > 0 {
        spec_ink(cell.glyph)
    } else {
        None
    }
}

/// The fill of ink in `color`: the card's foreground for the default color.
pub open spec fn ink_fill(color: Color, foreground: Seq<char>) -> Seq<char> {
    if color == Color::Default {
        foreground
    } else {
        spec_hex(color)
    }
}

/// Where the cells a block glyph at `column` draws over end: one cell, or
/// the whole run of the same glyph in the same color for a full-width one.
pub open spec fn ink_run_end(cells: Seq<RasterCell>, column: int, ink: Ink) -> int {
    if ink.spec_full_width() {
        glyph_run_end(cells, column + 1, cells[column].glyph, cells[column].foreground)
    } else {
        column + 1
    }
}

/// The block glyphs of a row from `column` on, as rectangles.
pub open spec fn ink_rects(cells: Seq<RasterCell>, y: nat, foreground: Seq<char>, column: int) -> Seq<
    char,
>
    decreases cells.len() - column,
{
    if column < 0 || column >= cells.len() {
        Seq::empty()
    } else {
        match cell_ink(cells[column]) {
            None => ink_rects(cells, y, foreground, column + 1),
            Some(ink) => {
                let end = ink_run_end(cells, column, ink);
                proof {
                    lemma_glyph_run_end(
                        cells,
                        column + 1,
                        cells[column].glyph,
                        cells[column].foreground,
                    );
                }
                grid_rects(
                    ink,
                    0,
                    (PAD_X + column * CELL_W) as nat,
                    y,
                    (end - column) as nat,
                    ink_fill(cells[column].foreground, foreground),
                ) + ink_rects(cells, y, foreground, end)
            },
        }
    }
}

/// Appends the rectangles of the bands of one grid column group.
fn push_bands(
    out: &mut String,
    mask: u8,
    rows: u8,
    x: u64,
    y: u64,
    width: u64,
    sub_h: u64,
    fill: &str,
)
    requires
        1 <= rows <= 8,
        sub_h * rows <= CELL_H,
        x <= max_units(),
        y <= max_units(),
        width <= max_units(),
    ensures
        final(out)@ == old(out)@ + band_rects(
            mask,
            rows as int,
            0,
            x as nat,
            y as nat,
            width as nat,
            sub_h as nat,
            fill@,
        ),
{
    let mut row: u8 = 0;
    while row < rows
        invariant
            row <= rows <= 8,
            sub_h * rows <= CELL_H,
            x <= max_units(),
            y <= max_units(),
            width <= max_units(),
            old(out)@ + band_rects(
                mask,
                rows as int,
                0,
                x as nat,
                y as nat,
                width as nat,
                sub_h as nat,
                fill@,
            ) == out@ + band_rects(
                mask,
                rows as int,
                row as int,
                x as nat,
                y as nat,
                width as nat,
                sub_h as nat,
                fill@,
            ),
        decreases rows - row,
    {
        if mask & (1u8 << row) == 0 {
            row = row + 1;
        } else {
            let from = row;
            row = row + 1;
            while row < rows && mask & (1u8 << row) != 0
                invariant
                    from < row <= rows <= 8,
                    band_end(mask, row as int, rows as int) == band_end(mask, from + 1, rows as int),
                decreases rows - row,
            {
                row = row + 1;
            }
            assert(from * sub_h <= CELL_H && (row - from) * sub_h <= CELL_H) by (nonlinear_arith)
                requires
                    from < row <= rows,
                    sub_h * rows <= CELL_H,
            ;
            push_rect(out, x, y + from as u64 * sub_h, width, (row - from) as u64 * sub_h, fill);
        }
    }
}

/// Appends the rectangles of one block glyph drawn over `run` cells from
/// `x0`.
fn push_grid(out: &mut String, ink: Ink, x0: u64, y: u64, run: u64, fill: &str)
    requires
        ink.wf(),
        ink.columns == 1 || ink.columns == 2 || ink.columns == 8,
        ink.rows == 1 || ink.rows == 2 || ink.rows == 3 || ink.rows == 8,
        x0 + CELL_W <= max_units(),
        run <= 65535,
        y <= max_units(),
    ensures
        final(out)@ == old(out)@ + grid_rects(ink, 0, x0 as nat, y as nat, run as nat, fill@),
{
    let full = ink.full_width();
    let sub_w = CELL_W / ink.columns as u64;
    let sub_h = CELL_H / ink.rows as u64;
    assert(sub_h * ink.rows <= CELL_H) by (nonlinear_arith)
        requires
            sub_h == CELL_H / ink.rows as u64,
            ink.rows >= 1,
    ;
    let mut column: u8 = 0;
    while column < ink.columns
        invariant
            ink.wf(),
            ink.columns == 1 || ink.columns == 2 || ink.columns == 8,
            ink.rows == 1 || ink.rows == 2 || ink.rows == 3 || ink.rows == 8,
            full == ink.spec_full_width(),
            sub_w == CELL_W / ink.columns as u64,
            sub_h == CELL_H / ink.rows as u64,
            sub_h * ink.rows <= CELL_H,
            column <= ink.columns,
            x0 + CELL_W <= max_units(),
            run <= 65535,
            y <= max_units(),
            old(out)@ + grid_rects(ink, 0, x0 as nat, y as nat, run as nat, fill@) == out@
                + grid_rects(ink, column as int, x0 as nat, y as nat, run as nat, fill@),
        decreases ink.columns - column,
    {
        let mask = ink.column(column);
        let mut end: u8 = column + 1;
        while end < ink.columns && ink.column(end) == mask
            invariant
                ink.wf(),
                column < end <= ink.columns,
                same_column_end(ink, end as int, mask) == same_column_end(ink, column + 1, mask),
            decreases ink.columns - end,
        {
            end = end + 1;
        }
        assert(column * sub_w <= CELL_W && (end - column) * sub_w <= CELL_W) by (nonlinear_arith)
            requires
                column < end <= ink.columns,
                ink.columns == 1 || ink.columns == 2 || ink.columns == 8,
                sub_w == CELL_W / ink.columns as u64,
        ;
        let width = if full {
            run * CELL_W
        } else {
            (end - column) as u64 * sub_w
        };
        push_bands(out, mask, ink.rows, x0 + column as u64 * sub_w, y, width, sub_h, fill);
        column = end;
    }
}

/// Appends the block glyphs of one row as rectangles.
fn push_ink(out: &mut String, cells: &Vec<RasterCell>, y: u64, foreground: &str)
    requires
        cells@.len() <= 65535,
        y <= max_units(),
    ensures
        final(out)@ == old(out)@ + ink_rects(cells@, y as nat, foreground@, 0),
{
    let mut column: usize = 0;
    while column < cells.len()
        invariant
            column <= cells@.len() <= 65535,
            y <= max_units(),
            old(out)@ + ink_rects(cells@, y as nat, foreground@, 0) == out@ + ink_rects(
                cells@,
                y as nat,
                foreground@,
                column as int,
            ),
        decreases cells@.len() - column,
    {
        let cell = cells[column];
        let found = if cell.columns > 0 {
            ink(cell.glyph)
        } else {
            None
        };
        match found {
            None => {
                column = column + 1;
            },
            Some(ink) => {
                let mut end: usize = column + 1;
                if ink.full_width() {
                    while end < cells.len() && cells[end].glyph == cell.glyph && cells[end].foreground
                        == cell.foreground
                        invariant
                            column < end <= cells@.len(),
                            glyph_run_end(cells@, end as int, cell.glyph, cell.foreground)
                                == glyph_run_end(cells@, column + 1, cell.glyph, cell.foreground),
                        decreases cells@.len() - end,
                    {
                        end = end + 1;
                    }
                }
                let mut fill = String::new();
                if cell.foreground == Color::Default {
                    push_str(&mut fill, foreground);
                } else {
                    push_hex(&mut fill, cell.foreground);
                }
                push_grid(
                    out,
                    ink,
                    PAD_X + column as u64 * CELL_W,
                    y,
                    (end - column) as u64,
                    fill.as_str(),
                );
                column = end;
            },
        }
    }
}

/// Whether a cell starts a text run: a printing glyph that is neither a
/// space nor a block pattern.
pub open spec fn is_text(cell: RasterCell) -> bool {
    cell.columns > 0 && cell.glyph != ' ' && spec_ink(cell.glyph) is None
}

/// Whether a cell ends a text run in `color`: a printing glyph, not a
/// space, in another color or drawn as a block pattern.
pub open spec fn breaks_text(cell: RasterCell, color: Color) -> bool {
    cell.columns > 0 && cell.glyph != ' ' && (cell.foreground != color || spec_ink(cell.glyph) is Some)
}

/// Whether a cell ends a text run in `color`.
fn breaks_run(cell: RasterCell, color: Color) -> (b: bool)
    ensures
        b == breaks_text(cell, color),
{
    cell.columns > 0 && cell.glyph != ' ' && (cell.foreground != color || ink(cell.glyph).is_some())
}

/// Where a text run in `color` that continues at `i` ends.
pub open spec fn text_end(cells: Seq<RasterCell>, i: int, color: Color) -> int
    decreases cells.len() - i,
{
    if 0 <= i < cells.len() && !breaks_text(cells[i], color) {
        text_end(cells, i + 1, color)
    } else {
        i
    }
}

pub proof fn lemma_text_end(cells: Seq<RasterCell>, i: int, color: Color)
    requires
        0 <= i <= cells.len(),
    ensures
        i <= text_end(cells, i, color) <= cells.len(),
    decreases cells.len() - i,
{
    if i < cells.len() && !breaks_text(cells[i], color) {
        lemma_text_end(cells, i + 1, color);
    }
}

/// The cells without their trailing spaces.
pub open spec fn trim_spaces(cells: Seq<RasterCell>) -> Seq<RasterCell>
    decreases cells.len(),
{
    if cells.len() > 0 && cells.last().glyph == ' ' {
        trim_spaces(cells.drop_last())
    } else {
        cells
    }
}

/// The glyphs of the cells, escaped as element content.
pub open spec fn escaped(cells: Seq<RasterCell>) -> Seq<char>
    decreases cells.len(),
{
    if cells.len() == 0 {
        Seq::empty()
    } else {
        escaped(cells.drop_last()) + spec_escape(cells.last().glyph)
    }
}

/// The display columns the cells cover.
pub open spec fn columns_sum(cells: Seq<RasterCell>) -> nat
    decreases cells.len(),
{
    if cells.len() == 0 {
        0
    } else {
        columns_sum(cells.drop_last()) + cells.last().columns as nat
    }
}

proof fn lemma_trim_spaces_prefix(cells: Seq<RasterCell>)
    ensures
        escaped(trim_spaces(cells)) == escaped(cells).take(escaped(trim_spaces(cells)).len() as int),
        escaped(trim_spaces(cells)).len() <= escaped(cells).len(),
    decreases cells.len(),
{
    if cells.len() > 0 && cells.last().glyph == ' ' {
        lemma_trim_spaces_prefix(cells.drop_last());
        let t = escaped(trim_spaces(cells.drop_last()));
        let a = escaped(cells.drop_last());
        let whole = escaped(cells);
        assert(whole.take(a.len() as int) =~= a);
        assert(whole.take(t.len() as int) =~= a.take(t.len() as int));
    } else {
        let r = escaped(cells);
        assert(r.take(r.len() as int) =~= r);
    }
}

/// The fill attribute of a text run: none for the default color, which
/// takes the card's.
pub open spec fn text_fill(color: Color) -> Seq<char> {
    if color == Color::Default {
        Seq::empty()
    } else {
        " fill=\""@ + spec_hex(color) + "\""@
    }
}

/// One text run at `x`, pinned to the columns its shown cells cover.
#[verifier::opaque]
pub open spec fn text_element(x: nat, y: nat, color: Color, shown: Seq<RasterCell>) -> Seq<char> {
    "<text x=\""@ + spec_num(x) + "\" y=\""@ + spec_num(y) + "\""@ + text_fill(color)
        + " textLength=\""@ + spec_num(columns_sum(shown) * CELL_W as nat)
        + "\" lengthAdjust=\"spacingAndGlyphs\" xml:space=\"preserve\">"@ + escaped(shown)
        + "</text>\n"@
}

/// The text runs of a row from `column` on: consecutive non-block glyphs
/// sharing a foreground, interior spaces kept so a label stays one element,
/// trailing spaces dropped, and wide glyphs counting all their columns in
/// the pinned length.
#[verifier::opaque]
pub open spec fn text_runs(cells: Seq<RasterCell>, y: nat, column: int) -> Seq<char>
    decreases cells.len() - column,
{
    if column < 0 || column >= cells.len() {
        Seq::empty()
    } else if !is_text(cells[column]) {
        text_runs(cells, y, column + 1)
    } else {
        let color = cells[column].foreground;
        let end = text_end(cells, column + 1, color);
        proof {
            lemma_text_end(cells, column + 1, color);
        }
        text_element(
            (PAD_X + column * CELL_W) as nat,
            (y + BASELINE) as nat,
            color,
            trim_spaces(visible(cells.subrange(column, end))),
        ) + text_runs(cells, y, end)
    }
}

/// What a text run starting at `start` shows: its cells up to `end`, the
/// printing ones, without trailing spaces.
pub open spec fn run_shown(cells: Seq<RasterCell>, start: int, end: int) -> Seq<RasterCell> {
    trim_spaces(visible(cells.subrange(start, end)))
}

/// Scans the text run in `color` that starts at the text cell `start`:
/// where it ends, its escaped glyphs, and how many of them (and of its
/// columns) remain once trailing spaces are dropped.
fn scan_text_run(cells: &Vec<RasterCell>, start: usize, color: Color) -> (r: (
    usize,
    Vec<char>,
    usize,
    u64,
))
    requires
        start < cells@.len() <= 65535,
        !breaks_text(cells@[start as int], color),
    ensures
        r.0 == text_end(cells@, start + 1, color),
        r.0 <= cells@.len(),
        r.1@ == escaped(visible(cells@.subrange(start as int, r.0 as int))),
        r.2 == escaped(run_shown(cells@, start as int, r.0 as int)).len(),
        r.2 <= r.1@.len(),
        r.1@.subrange(0, r.2 as int) == escaped(run_shown(cells@, start as int, r.0 as int)),
        r.3 == columns_sum(run_shown(cells@, start as int, r.0 as int)),
        r.3 <= 255 * 65535,
{
    let ghost run = text_end(cells@, start + 1, color);
    proof {
        lemma_text_end(cells@, start + 1, color);
        assert(cells@.subrange(start as int, start as int) =~= Seq::<RasterCell>::empty());
    }
    let mut column = start;
    let mut text: Vec<char> = Vec::new();
    let mut span: u64 = 0;
    let mut kept_len: usize = 0;
    let mut kept_span: u64 = 0;
    while column < cells.len() && (column == start || !breaks_run(cells[column], color))
        invariant
            start <= column <= cells@.len() <= 65535,
            start < cells@.len(),
            !breaks_text(cells@[start as int], color),
            column == start || text_end(cells@, column as int, color) == run,
            run == text_end(cells@, start + 1, color),
            text@ == escaped(visible(cells@.subrange(start as int, column as int))),
            span == columns_sum(visible(cells@.subrange(start as int, column as int))),
            span <= 255 * (column - start),
            kept_len == escaped(trim_spaces(visible(cells@.subrange(start as int, column as int)))).len(),
            kept_span == columns_sum(trim_spaces(visible(cells@.subrange(start as int, column as int)))),
            kept_span <= span,
        decreases cells@.len() - column,
    {
        let c = cells[column];
        let ghost before = visible(cells@.subrange(start as int, column as int));
        proof {
            let whole = cells@.subrange(start as int, column + 1);
            assert(whole.drop_last() =~= cells@.subrange(start as int, column as int));
            assert(whole.last() == c);
            if c.columns > 0 {
                assert(visible(whole) == before.push(c));
                assert(before.push(c).drop_last() =~= before);
                assert(before.push(c).last() == c);
            } else {
                assert(visible(whole) == before);
            }
        }
        if c.columns > 0 {
            let mut piece = String::new();
            escape(c.glyph, &mut piece);
            extend_chars(&mut text, &piece);
            span = span + c.columns as u64;
            if c.glyph != ' ' {
                kept_len = text.len();
                kept_span = span;
            }
        }
        column = column + 1;
    }
    proof {
        if column > start + 1 {
            assert(column == run);
        } else {
            assert(column == start + 1);
        }
        lemma_trim_spaces_prefix(visible(cells@.subrange(start as int, column as int)));
        assert(text@.subrange(0, kept_len as int) =~= text@.take(kept_len as int));
    }
    (column, text, kept_len, kept_span)
}

/// Appends one text run: the run starting at cell `start`, showing the
/// first `kept_len` characters of `text` over `kept_span` columns.
fn push_text_element(
    out: &mut String,
    start: usize,
    y: u64,
    color: Color,
    text: &Vec<char>,
    kept_len: usize,
    kept_span: u64,
    Ghost(shown): Ghost<Seq<RasterCell>>,
)
    requires
        start <= 65535,
        y <= max_units(),
        kept_len <= text@.len(),
        text@.subrange(0, kept_len as int) == escaped(shown),
        kept_span == columns_sum(shown),
        kept_span <= 255 * 65535,
    ensures
        final(out)@ == old(out)@ + text_element(
            (PAD_X + start * CELL_W) as nat,
            (y + BASELINE) as nat,
            color,
            shown,
        ),
{
    let ghost x_units = (PAD_X + start * CELL_W) as nat;
    let ghost y_units = (y + BASELINE) as nat;
    push_str(out, "<text x=\"");
    push_num(out, PAD_X + start as u64 * CELL_W);
    push_str(out, "\" y=\"");
    push_num(out, y + BASELINE);
    push_str(out, "\"");
    let ghost head = out@;
    if color != Color::Default {
        push_str(out, " fill=\"");
        push_hex(out, color);
        push_str(out, "\"");
    }
    assert(out@ =~= head + text_fill(color));
    let ghost filled = out@;
    push_str(out, " textLength=\"");
    push_num(out, kept_span * CELL_W);
    push_str(out, "\" lengthAdjust=\"spacingAndGlyphs\" xml:space=\"preserve\">");
    push_range(out, text, 0, kept_len);
    push_str(out, "</text>\n");
    assert(final(out)@ == old(out)@ + text_element(x_units, y_units, color, shown)) by {
        reveal(text_element);
        assert(head =~= old(out)@ + "<text x=\""@ + spec_num(x_units) + "\" y=\""@ + spec_num(y_units)
            + "\""@);
        assert(final(out)@ =~= filled + " textLength=\""@ + spec_num(columns_sum(shown) * CELL_W as nat)
            + "\" lengthAdjust=\"spacingAndGlyphs\" xml:space=\"preserve\">"@ + escaped(shown)
            + "</text>\n"@);
        assert(final(out)@ =~= old(out)@ + text_element(x_units, y_units, color, shown));
    }
}

/// One step of the text runs of a row: a cell that does not start a run
/// adds nothing; one that does adds its run's element and skips the run.
proof fn lemma_text_runs_step(cells: Seq<RasterCell>, y: nat, column: int)
    requires
        0 <= column <= cells.len(),
    ensures
        column == cells.len() ==> text_runs(cells, y, column) == Seq::<char>::empty(),
        column < cells.len() && !is_text(cells[column]) ==> text_runs(cells, y, column) == text_runs(
            cells,
            y,
            column + 1,
        ),
        column < cells.len() && is_text(cells[column]) ==> text_runs(cells, y, column) == text_element(
            (PAD_X + column * CELL_W) as nat,
            (y + BASELINE) as nat,
            cells[column].foreground,
            run_shown(
                cells,
                column,
                text_end(cells, column + 1, cells[column].foreground),
            ),
        ) + text_runs(cells, y, text_end(cells, column + 1, cells[column].foreground)),
{
    reveal(text_runs);
}

/// Appends the text run that starts at the text cell `start`, and tells
/// where it ends.
fn push_text_run(out: &mut String, cells: &Vec<RasterCell>, start: usize, y: u64) -> (end: usize)
    requires
        start < cells@.len() <= 65535,
        is_text(cells@[start as int]),
        y <= max_units(),
    ensures
        end == text_end(cells@, start + 1, cells@[start as int].foreground),
        start < end <= cells@.len(),
        final(out)@ == old(out)@ + text_element(
            (PAD_X + start * CELL_W) as nat,
            (y + BASELINE) as nat,
            cells@[start as int].foreground,
            run_shown(cells@, start as int, end as int),
        ),
{
    let color = cells[start].foreground;
    let (end, text, kept_len, kept_span) = scan_text_run(cells, start, color);
    proof {
        lemma_text_end(cells@, start + 1, color);
    }
    push_text_element(
        out,
        start,
        y,
        color,
        &text,
        kept_len,
        kept_span,
        Ghost(run_shown(cells@, start as int, end as int)),
    );
    end
}

/// Appends the text runs of one row.
fn push_text(out: &mut String, cells: &Vec<RasterCell>, y: u64)
    requires
        cells@.len() <= 65535,
        y <= max_units(),
    ensures
        final(out)@ == old(out)@ + text_runs(cells@, y as nat, 0),
{
    let mut column: usize = 0;
    while column < cells.len()
        invariant
            column <= cells@.len() <= 65535,
            y <= max_units(),
            old(out)@ + text_runs(cells@, y as nat, 0) == out@ + text_runs(
                cells@,
                y as nat,
                column as int,
            ),
        decreases cells@.len() - column,
    {
        let cell = cells[column];
        let ghost before = out@;
        proof {
            lemma_text_runs_step(cells@, y as nat, column as int);
        }
        if !(cell.columns > 0 && cell.glyph != ' ' && ink(cell.glyph).is_none()) {
            column = column + 1;
        } else {
            let end = push_text_run(out, cells, column, y);
            let ghost element = text_element(
                (PAD_X + column * CELL_W) as nat,
                (y + BASELINE) as nat,
                cell.foreground,
                run_shown(cells@, column as int, end as int),
            );
            let ghost rest = text_runs(cells@, y as nat, end as int);
            assert(before + (element + rest) =~= out@ + rest);
            column = end;
        }
    }
    proof {
        lemma_text_runs_step(cells@, y as nat, column as int);
    }
}

/// One row of the card: its backgrounds, then its block glyphs, then its
/// text runs.
pub open spec fn svg_row(cells: Seq<RasterCell>, y: nat, foreground: Seq<char>) -> Seq<char> {
    background_rects(cells, y, 0) + ink_rects(cells, y, foreground, 0) + text_runs(cells, y, 0)
}

/// The opening `<svg>` element of a card of `width × height` units.
pub open spec fn svg_open(width: nat, height: nat, foreground: Seq<char>) -> Seq<char> {
    "<svg xmlns=\"http://www.w3.org/2000/svg\" width=\""@ + spec_num(width) + "\" height=\""@
        + spec_num(height) + "\" viewBox=\"0 0 "@ + spec_num(width) + " "@ + spec_num(height)
        + "\" font-family=\"ui-monospace,SFMono-Regular,Menlo,Monaco,Consolas,monospace\" font-size=\"13\" fill=\""@
        + foreground + "\" shape-rendering=\"crispEdges\">\n"@
}

/// The card's rounded background.
pub open spec fn svg_background(width: nat, height: nat, background: Seq<char>) -> Seq<char> {
    "<rect width=\""@ + spec_num(width) + "\" height=\""@ + spec_num(height) + "\" rx=\"8\" fill=\""@
        + background + "\"/>\n"@
}

/// Appends one row of the card.
fn push_svg_row(out: &mut String, cells: &Vec<RasterCell>, y: u64, foreground: &str)
    requires
        cells@.len() <= 65535,
        y <= max_units(),
    ensures
        final(out)@ == old(out)@ + svg_row(cells@, y as nat, foreground@),
{
    push_backgrounds(out, cells, y);
    push_ink(out, cells, y, foreground);
    push_text(out, cells, y);
    assert(final(out)@ =~= old(out)@ + svg_row(cells@, y as nat, foreground@));
}

impl Raster {
    /// The card width, in units.
    pub open spec fn card_width(&self) -> nat {
        (2 * PAD_X + self.spec_width() * CELL_W) as nat
    }

    /// The card height, in units.
    pub open spec fn card_height(&self) -> nat {
        (2 * PAD_Y + self.spec_height() * CELL_H) as nat
    }

    /// The first `n` rows of the card.
    pub open spec fn svg_rows(&self, foreground: Seq<char>, n: nat) -> Seq<char>
        decreases n,
    {
        if n == 0 {
            Seq::empty()
        } else {
            self.svg_rows(foreground, (n - 1) as nat) + svg_row(
                self.spec_row_cells(n - 1),
                (PAD_Y + (n - 1) * CELL_H) as nat,
                foreground,
            )
        }
    }

    /// The whole card.
    pub open spec fn spec_svg(&self, background: Seq<char>, foreground: Seq<char>) -> Seq<char> {
        svg_open(self.card_width(), self.card_height(), foreground) + svg_background(
            self.card_width(),
            self.card_height(),
            background,
        ) + self.svg_rows(foreground, self.spec_height()) + "</svg>\n"@
    }

    /// Encodes the raster as a self-contained SVG terminal card.
    ///
    /// The sibling of [`Raster::to_html`] for hosts that draw with SVG — a
    /// README, a notebook export, a static page. Block glyphs become crisp
    /// rectangles; every other glyph is a text run the host's font draws,
    /// pinned to the cell grid. Mark colors resolve to concrete RGB as in
    /// the HTML card; default-colored chrome takes the card foreground, and
    /// the card's background and foreground are the CSS colors given. Pure
    /// and deterministic.
    pub fn to_svg(&self, background: &str, foreground: &str) -> (svg: String)
        requires
            self.wf(),
        ensures
            svg@ == self.spec_svg(background@, foreground@),
    {
        let columns = self.width();
        let rows = self.height();
        let width = 2 * PAD_X + columns as u64 * CELL_W;
        let height = 2 * PAD_Y + rows as u64 * CELL_H;
        let mut out = String::new();
        push_str(&mut out, "<svg xmlns=\"http://www.w3.org/2000/svg\" width=\"");
        push_num(&mut out, width);
        push_str(&mut out, "\" height=\"");
        push_num(&mut out, height);
        push_str(&mut out, "\" viewBox=\"0 0 ");
        push_num(&mut out, width);
        push_str(&mut out, " ");
        push_num(&mut out, height);
        push_str(
            &mut out,
            "\" font-family=\"ui-monospace,SFMono-Regular,Menlo,Monaco,Consolas,monospace\" font-size=\"13\" fill=\"",
        );
        push_str(&mut out, foreground);
        push_str(&mut out, "\" shape-rendering=\"crispEdges\">\n");
        push_str(&mut out, "<rect width=\"");
        push_num(&mut out, width);
        push_str(&mut out, "\" height=\"");
        push_num(&mut out, height);
        push_str(&mut out, "\" rx=\"8\" fill=\"");
        push_str(&mut out, background);
        push_str(&mut out, "\"/>\n");
        let ghost head = out@;
        assert(head =~= svg_open(self.card_width(), self.card_height(), foreground@) + svg_background(
            self.card_width(),
            self.card_height(),
            background@,
        ));
        let mut row: usize = 0;
        while row < rows
            invariant
                self.wf(),
                rows == self.spec_height(),
                columns == self.spec_width(),
                row <= rows,
                out@ == head + self.svg_rows(foreground@, row as nat),
            decreases rows - row,
        {
            let cells = self.row_cells(row);
            assert(cells@.len() == columns);
            let y = PAD_Y + row as u64 * CELL_H;
            push_svg_row(&mut out, &cells, y, foreground);
            row = row + 1;
            assert(out@ =~= head + self.svg_rows(foreground@, row as nat));
        }
        push_str(&mut out, "</svg>\n");
        out
    }
}

} // verus!
