//! The finished cell grid of a plot, and its HTML card.
//!
//! A notebook is a terminal that draws with HTML. The card is the exact grid
//! a tty would print — glyphs, box drawing, braille — with mark colors as
//! concrete-RGB spans and chrome inheriting the card foreground, so the
//! browser draws the text the way a terminal's font would.

use vstd::prelude::*;

use crate::color::Color;
use crate::error::Error;
use crate::html::{escape, spec_escape};
use crate::limits::{frame_cells, spec_frame_cells, MAX_CELL_DIMENSION};
use crate::surface::span_color;
use crate::text::{extend_chars, hex_byte, push_char, push_hex_byte, push_range, push_str};

verus! {

/// One cell of a finished grid.
#[derive(Debug, Clone, Copy, PartialEq, Eq, Structural)]
pub struct RasterCell {
    /// The glyph the cell prints.
    pub glyph: char,
    /// The glyph's color.
    pub foreground: Color,
    /// The cell's background.
    pub background: Color,
    /// The display columns the glyph covers from this cell: 1 for most
    /// glyphs, 2 for a wide one, 0 for the cell a wide glyph to its left
    /// covers.
    pub columns: u8,
}

/// A finished grid of cells, row by row, within the frame limits.
#[derive(Debug, Clone)]
pub struct Raster {
    width: usize,
    height: usize,
    cells: Vec<RasterCell>,
}

/// The message a grid of the wrong size is refused with.
pub open spec fn unfilled_grid() -> Error {
    Error::InvalidParameter { detail: "raster cells must fill the grid" }
}

impl Raster {
    /// The width in cells.
    pub closed spec fn spec_width(&self) -> nat {
        self.width as nat
    }

    /// The height in cells.
    pub closed spec fn spec_height(&self) -> nat {
        self.height as nat
    }

    /// The cells, row by row.
    pub closed spec fn spec_cells(&self) -> Seq<RasterCell> {
        self.cells@
    }

    /// One cell per grid position, and sides no wider than a terminal.
    pub open spec fn wf(&self) -> bool {
        &&& self.spec_cells().len() == self.spec_width() * self.spec_height()
        &&& self.spec_width() <= MAX_CELL_DIMENSION
        &&& self.spec_height() <= MAX_CELL_DIMENSION
    }

    /// A grid of `width × height` cells given row by row: refused as a frame
    /// is refused when a side or the area is over the limits, and refused
    /// when `cells` does not hold exactly one cell per position.
    pub fn from_cells(width: usize, height: usize, cells: Vec<RasterCell>) -> (r: Result<
        Raster,
        Error,
    >)
        ensures
            spec_frame_cells(width, height) is Err ==> r == Err::<Raster, Error>(
                spec_frame_cells(width, height)->Err_0,
            ),
            spec_frame_cells(width, height) is Ok ==> (cells@.len() == width * height <==> r is Ok),
            spec_frame_cells(width, height) is Ok && cells@.len() != width * height ==> r == Err::<
                Raster,
                Error,
            >(unfilled_grid()),
            r is Ok ==> {
                &&& r->Ok_0.wf()
                &&& r->Ok_0.spec_width() == width
                &&& r->Ok_0.spec_height() == height
                &&& r->Ok_0.spec_cells() == cells@
            },
    {
        let count = match frame_cells(width, height) {
            Ok(count) => count,
            Err(error) => {
                return Err(error);
            },
        };
        if cells.len() != count {
            return Err(Error::InvalidParameter { detail: "raster cells must fill the grid" });
        }
        Ok(Raster { width, height, cells })
    }

    /// The width in cells.
    pub fn width(&self) -> (w: usize)
        ensures
            w == self.spec_width(),
    {
        self.width
    }

    /// The height in cells.
    pub fn height(&self) -> (h: usize)
        ensures
            h == self.spec_height(),
    {
        self.height
    }

    /// The cells, row by row.
    pub fn cells(&self) -> (c: &[RasterCell])
        ensures
            c@ == self.spec_cells(),
    {
        self.cells.as_slice()
    }
}

/// The cells that print: those a wide glyph to their left does not cover.
pub open spec fn visible(cells: Seq<RasterCell>) -> Seq<RasterCell>
    decreases cells.len(),
{
    if cells.len() == 0 {
        Seq::empty()
    } else if cells.last().columns > 0 {
        visible(cells.drop_last()).push(cells.last())
    } else {
        visible(cells.drop_last())
    }
}

impl Raster {
    /// The cells of row `row`.
    pub open spec fn spec_row_cells(&self, row: int) -> Seq<RasterCell> {
        let w = self.spec_width() as int;
        self.spec_cells().subrange(row * w, row * w + w)
    }

    /// Every cell of row `row`, continuations included.
    pub(crate) fn row_cells(&self, row: usize) -> (cells: Vec<RasterCell>)
        requires
            self.wf(),
            row < self.spec_height(),
        ensures
            cells@ == self.spec_row_cells(row as int),
            cells@.len() == self.spec_width(),
    {
        proof {
            lemma_row_in_grid(row as int, self.width as int, self.height as int);
        }
        let count = self.cells.len();
        let base = row * self.width;
        let mut cells: Vec<RasterCell> = Vec::new();
        let mut k: usize = 0;
        while k < self.width
            invariant
                k <= self.width,
                base == row * self.width,
                base + self.width <= self.cells@.len(),
                count == self.cells@.len(),
                cells@ == self.cells@.subrange(base as int, base + k),
            decreases self.width - k,
        {
            cells.push(self.cells[base + k]);
            k = k + 1;
            assert(cells@ =~= self.cells@.subrange(base as int, base + k));
        }
        cells
    }

    /// The printing cells of row `row`, in order.
    pub fn row(&self, row: usize) -> (cells: Vec<RasterCell>)
        requires
            self.wf(),
            row < self.spec_height(),
        ensures
            cells@ == visible(self.spec_row_cells(row as int)),
    {
        proof {
            lemma_row_in_grid(row as int, self.width as int, self.height as int);
        }
        let count = self.cells.len();
        let base = row * self.width;
        let mut cells: Vec<RasterCell> = Vec::new();
        let mut k: usize = 0;
        while k < self.width
            invariant
                k <= self.width,
                base == row * self.width,
                base + self.width <= self.cells@.len(),
                count == self.cells@.len(),
                cells@ == visible(self.cells@.subrange(base as int, base + k)),
            decreases self.width - k,
        {
            let cell = self.cells[base + k];
            proof {
                assert(self.cells@.subrange(base as int, base + k + 1).drop_last() =~= self.cells@.subrange(
                    base as int,
                    base + k,
                ));
            }
            if cell.columns > 0 {
                cells.push(cell);
            }
            k = k + 1;
        }
        cells
    }
}

/// The foreground and background a span carries; `None` inherits.
pub open spec fn no_style() -> (Option<(u8, u8, u8)>, Option<(u8, u8, u8)>) {
    (None, None)
}

/// The style in effect after `cell` when `current` was: a space keeps the
/// current foreground (it shows none of its own), its background never.
pub open spec fn cell_style(current: (Option<(u8, u8, u8)>, Option<(u8, u8, u8)>), cell: RasterCell) -> (
    Option<(u8, u8, u8)>,
    Option<(u8, u8, u8)>,
) {
    (
        if cell.glyph == ' ' {
            current.0
        } else {
            span_color(cell.foreground)
        },
        span_color(cell.background),
    )
}

/// The style in effect after a run of cells.
pub open spec fn style_after(cells: Seq<RasterCell>) -> (Option<(u8, u8, u8)>, Option<(u8, u8, u8)>)
    decreases cells.len(),
{
    if cells.len() == 0 {
        no_style()
    } else {
        cell_style(style_after(cells.drop_last()), cells.last())
    }
}

/// Six lowercase hex digits for an RGB triple.
pub open spec fn hex_rgb(rgb: (u8, u8, u8)) -> Seq<char> {
    hex_byte(rgb.0) + hex_byte(rgb.1) + hex_byte(rgb.2)
}

/// The opening tag of a span in `style`.
pub open spec fn style_open(style: (Option<(u8, u8, u8)>, Option<(u8, u8, u8)>)) -> Seq<char> {
    "<span style=\""@ + match style.0 {
        Some(rgb) => "color:#"@ + hex_rgb(rgb) + if style.1 is Some {
            seq![';']
        } else {
            Seq::empty()
        },
        None => Seq::empty(),
    } + match style.1 {
        Some(rgb) => "background-color:#"@ + hex_rgb(rgb),
        None => Seq::empty(),
    } + "\">"@
}

/// A run of cells as HTML content: each cell escaped, preceded by a span
/// change wherever its style differs from the one in effect.
pub open spec fn styled_text(cells: Seq<RasterCell>) -> Seq<char>
    decreases cells.len(),
{
    if cells.len() == 0 {
        Seq::empty()
    } else {
        let before = styled_text(cells.drop_last());
        let current = style_after(cells.drop_last());
        let next = cell_style(current, cells.last());
        let change = if next != current {
            (if current != no_style() {
                "</span>"@
            } else {
                Seq::empty()
            }) + if next != no_style() {
                style_open(next)
            } else {
                Seq::empty()
            }
        } else {
            Seq::empty()
        };
        before + change + spec_escape(cells.last().glyph)
    }
}

/// Whether a cell shows anything: a glyph, or a background.
pub open spec fn shows(cell: RasterCell) -> bool {
    cell.glyph != ' ' || cell.background != Color::Default
}

/// The run without its trailing cells that show nothing.
pub open spec fn trim_plain(cells: Seq<RasterCell>) -> Seq<RasterCell>
    decreases cells.len(),
{
    if cells.len() > 0 && !shows(cells.last()) {
        trim_plain(cells.drop_last())
    } else {
        cells
    }
}

/// One row as HTML content: trailing blank cells dropped, an open span
/// closed.
pub open spec fn styled_row(cells: Seq<RasterCell>) -> Seq<char> {
    let kept = trim_plain(cells);
    styled_text(kept) + if style_after(kept) != no_style() {
        "</span>"@
    } else {
        Seq::empty()
    }
}

proof fn lemma_trim_plain_prefix(cells: Seq<RasterCell>)
    ensures
        styled_text(trim_plain(cells)) == styled_text(cells).take(
            styled_text(trim_plain(cells)).len() as int,
        ),
        styled_text(trim_plain(cells)).len() <= styled_text(cells).len(),
    decreases cells.len(),
{
    if cells.len() > 0 && !shows(cells.last()) {
        lemma_trim_plain_prefix(cells.drop_last());
        let t = styled_text(trim_plain(cells.drop_last()));
        let a = styled_text(cells.drop_last());
        let whole = styled_text(cells);
        assert(whole.take(a.len() as int) =~= a);
        assert(whole.take(t.len() as int) =~= a.take(t.len() as int));
    } else {
        let r = styled_text(cells);
        assert(r.take(r.len() as int) =~= r);
    }
}

/// Appends the opening tag of a span in `style`.
fn push_style_open(out: &mut String, style: (Option<(u8, u8, u8)>, Option<(u8, u8, u8)>))
    ensures
        final(out)@ == old(out)@ + style_open(style),
{
    push_str(out, "<span style=\"");
    if let Some((r, g, b)) = style.0 {
        push_str(out, "color:#");
        push_hex_byte(out, r);
        push_hex_byte(out, g);
        push_hex_byte(out, b);
        if style.1.is_some() {
            push_char(out, ';');
        }
    }
    if let Some((r, g, b)) = style.1 {
        push_str(out, "background-color:#");
        push_hex_byte(out, r);
        push_hex_byte(out, g);
        push_hex_byte(out, b);
    }
    push_str(out, "\">");
    assert(final(out)@ =~= old(out)@ + style_open(style));
}

/// The span color of a cell color.
fn span_rgb(color: Color) -> (c: Option<(u8, u8, u8)>)
    ensures
        c == span_color(color),
{
    match color {
        Color::Default => None,
        color => Some(color.to_rgb()),
    }
}

/// Encodes one row of printing cells as HTML content.
fn encode_styled_row(cells: &Vec<RasterCell>) -> (line: String)
    ensures
        line@ == styled_row(cells@),
{
    let mut line: Vec<char> = Vec::new();
    let mut current: (Option<(u8, u8, u8)>, Option<(u8, u8, u8)>) = (None, None);
    let mut kept: usize = 0;
    let mut kept_style: (Option<(u8, u8, u8)>, Option<(u8, u8, u8)>) = (None, None);
    let mut j: usize = 0;
    proof {
        assert(cells@.take(0) =~= Seq::<RasterCell>::empty());
    }
    while j < cells.len()
        invariant
            j <= cells@.len(),
            line@ == styled_text(cells@.take(j as int)),
            current == style_after(cells@.take(j as int)),
            kept == styled_text(trim_plain(cells@.take(j as int))).len(),
            kept_style == style_after(trim_plain(cells@.take(j as int))),
        decreases cells@.len() - j,
    {
        let cell = cells[j];
        let ghost g = cells@.take(j + 1);
        proof {
            assert(g.drop_last() =~= cells@.take(j as int));
            assert(g.last() == cell);
        }
        let foreground = span_rgb(cell.foreground);
        let background = span_rgb(cell.background);
        let next = (
            if cell.glyph == ' ' {
                current.0
            } else {
                foreground
            },
            background,
        );
        let mut piece = String::new();
        let same = next.0 == current.0 && next.1 == current.1;
        if !same {
            if current.0.is_some() || current.1.is_some() {
                push_str(&mut piece, "</span>");
            }
            if next.0.is_some() || next.1.is_some() {
                push_style_open(&mut piece, next);
            }
            current = next;
        }
        escape(cell.glyph, &mut piece);
        extend_chars(&mut line, &piece);
        proof {
            assert(line@ =~= styled_text(g));
        }
        if cell.glyph != ' ' || background.is_some() {
            kept = line.len();
            kept_style = current;
        }
        j = j + 1;
    }
    proof {
        assert(cells@.take(j as int) =~= cells@);
        lemma_trim_plain_prefix(cells@);
    }
    let mut out = String::new();
    push_range(&mut out, &line, 0, kept);
    if kept_style.0.is_some() || kept_style.1.is_some() {
        push_str(&mut out, "</span>");
    }
    assert(out@ =~= styled_row(cells@));
    out
}

impl Raster {
    /// The first `n` rows as HTML content, joined by newlines.
    pub open spec fn html_rows(&self, n: nat) -> Seq<char>
        decreases n,
    {
        if n == 0 {
            Seq::empty()
        } else {
            self.html_rows((n - 1) as nat) + (if n > 1 {
                seq!['\n']
            } else {
                Seq::empty()
            }) + styled_row(visible(self.spec_row_cells(n - 1)))
        }
    }

    /// Encodes the cell grid as HTML element content with concrete-RGB span
    /// runs.
    ///
    /// Default-colored glyphs and backgrounds inherit from their enclosing
    /// element. Rows are newline-joined with trailing blank cells trimmed.
    pub fn encode_html(&self) -> (out: String)
        requires
            self.wf(),
        ensures
            out@ == self.html_rows(self.spec_height()),
    {
        let mut out = String::new();
        let mut row: usize = 0;
        while row < self.height
            invariant
                self.wf(),
                row <= self.height,
                out@ == self.html_rows(row as nat),
            decreases self.height - row,
        {
            if row > 0 {
                push_char(&mut out, '\n');
            }
            let cells = self.row(row);
            let line = encode_styled_row(&cells);
            push_str(&mut out, line.as_str());
            row = row + 1;
            assert(out@ =~= self.html_rows(row as nat));
        }
        out
    }

    /// Encodes the raster as a self-contained HTML terminal card: the cell
    /// grid in a styled `<pre>` whose background and text colors are the
    /// card's, given as CSS colors. Pure and deterministic.
    pub fn to_html(&self, background: &str, foreground: &str) -> (html: String)
        requires
            self.wf(),
        ensures
            html@ == card_open() + background@ + ";color:"@ + foreground@ + "\">"@ + self.html_rows(
                self.spec_height(),
            ) + "</pre>"@,
    {
        let content = self.encode_html();
        let mut html = String::new();
        push_str(
            &mut html,
            "<pre style=\"margin:0;padding:12px 16px;border:0;border-radius:8px;box-sizing:border-box;display:inline-block;max-width:100%;overflow-x:auto;white-space:pre;font-family:ui-monospace,SFMono-Regular,Menlo,Monaco,Consolas,monospace;font-size:13px;line-height:1.1;font-variant-ligatures:none;font-feature-settings:\"liga\" 0,\"calt\" 0;background-color:",
        );
        push_str(&mut html, background);
        push_str(&mut html, ";color:");
        push_str(&mut html, foreground);
        push_str(&mut html, "\">");
        push_str(&mut html, content.as_str());
        push_str(&mut html, "</pre>");
        html
    }
}

/// The opening of the card's `<pre>`, up to its background color.
pub open spec fn card_open() -> Seq<char> {
    "<pre style=\"margin:0;padding:12px 16px;border:0;border-radius:8px;box-sizing:border-box;display:inline-block;max-width:100%;overflow-x:auto;white-space:pre;font-family:ui-monospace,SFMono-Regular,Menlo,Monaco,Consolas,monospace;font-size:13px;line-height:1.1;font-variant-ligatures:none;font-feature-settings:\"liga\" 0,\"calt\" 0;background-color:"@
}

/// A row of the grid lies inside its cells.
proof fn lemma_row_in_grid(row: int, width: int, height: int)
    requires
        0 <= row < height,
        0 <= width,
    ensures
        0 <= row * width,
        row * width + width <= width * height,
{
    assert(0 <= row * width) by (nonlinear_arith)
        requires
            0 <= row,
            0 <= width,
    ;
    assert(row * width + width <= width * height) by (nonlinear_arith)
        requires
            0 <= row < height,
            0 <= width,
    ;
}

} // verus!
