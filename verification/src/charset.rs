//! Charset codecs: how a cell's subpixel pattern becomes a glyph.

use vstd::prelude::*;

use crate::text::char_from_u32;

verus! {

/// A glyph tier for encoding the surface.
///
/// Richer tiers draw the same subpixels with better glyphs; the choice never
/// affects what marks draw, only how cells print.
#[derive(Debug, Clone, Copy, PartialEq, Eq, Structural)]
pub enum Charset {
    /// Pure ASCII: one pixel per cell, drawn as `*`.
    Ascii,
    /// Braille patterns (U+2800–U+28FF): 2×4 pixels per cell.
    Braille,
}

/// The Braille dot mask for the subpixel at `(column, row)`: Unicode assigns
/// dots 1–3 and 7 to the left column (top to bottom) and 4–6 and 8 to the right.
pub open spec fn braille_dot(column: int, row: int) -> u8 {
    if column == 0 {
        if row == 0 { 0x01 } else if row == 1 { 0x02 } else if row == 2 { 0x04 } else { 0x40 }
    } else {
        if row == 0 { 0x08 } else if row == 1 { 0x10 } else if row == 2 { 0x20 } else { 0x80 }
    }
}

impl Charset {
    /// Subpixel columns per cell.
    pub open spec fn spec_columns(self) -> nat {
        match self {
            Charset::Ascii => 1,
            Charset::Braille => 2,
        }
    }

    /// Subpixel rows per cell.
    pub open spec fn spec_rows(self) -> nat {
        match self {
            Charset::Ascii => 1,
            Charset::Braille => 4,
        }
    }

    /// The pattern bit of the subpixel at `(column, row)` within a cell.
    pub open spec fn spec_bit(self, column: int, row: int) -> u8 {
        match self {
            Charset::Ascii => 1,
            Charset::Braille => braille_dot(column, row),
        }
    }

    /// The glyph a cell pattern prints as, by code point.
    pub open spec fn spec_glyph(self, bits: u8) -> char {
        if bits == 0 {
            ' '
        } else {
            match self {
                Charset::Ascii => '*',
                Charset::Braille => ((0x2800 + bits) as u32) as char,
            }
        }
    }

    /// Subpixels per cell as `(columns, rows)`.
    pub fn pixels_per_cell(self) -> (r: (usize, usize))
        ensures
            r.0 == self.spec_columns(),
            r.1 == self.spec_rows(),
    {
        match self {
            Charset::Ascii => (1, 1),
            Charset::Braille => (2, 4),
        }
    }

    /// The pattern bit for the subpixel at `(column, row)` within a cell.
    pub fn bit(self, column: usize, row: usize) -> (b: u8)
        requires
            column < self.spec_columns(),
            row < self.spec_rows(),
        ensures
            b == self.spec_bit(column as int, row as int),
    {
        match self {
            Charset::Ascii => 1,
            Charset::Braille => {
                if column == 0 {
                    if row == 0 { 0x01 } else if row == 1 { 0x02 } else if row == 2 { 0x04 } else { 0x40 }
                } else {
                    if row == 0 { 0x08 } else if row == 1 { 0x10 } else if row == 2 { 0x20 } else { 0x80 }
                }
            },
        }
    }

    /// The glyph for a cell's pattern; an empty pattern is a space.
    pub fn glyph(self, bits: u8) -> (g: char)
        ensures
            g == self.spec_glyph(bits),
    {
        if bits == 0 {
            return ' ';
        }
        match self {
            Charset::Ascii => '*',
            Charset::Braille => {
                match char_from_u32(0x2800 + bits as u32) {
                    Some(g) => {
                        proof {
                            vstd::utf8::char_u32_cast(g, g as u32);
                        }
                        g
                    },
                    None => ' ',
                }
            },
        }
    }
}

/// The glyph of a bar cell growing upward that `coverage` eighths of the
/// cell fill from the bottom: with an eighths ramp, its entry for that many
/// eighths (a full cell past eight); with a coarser ramp, its first glyph
/// once half the cell is covered; nothing for an empty cell.
pub open spec fn spec_rising_fill(ramp: Seq<char>, coverage: nat) -> Option<char> {
    if ramp.len() == 8 {
        if coverage >= 1 {
            Some(ramp[(if coverage < 8 { coverage } else { 8 }) - 1])
        } else {
            None
        }
    } else if coverage >= 4 {
        Some(ramp[0])
    } else {
        None
    }
}

/// The glyph of an upward bar cell covered `coverage` eighths from the bottom.
pub fn rising_fill(ramp: &[char], coverage: usize) -> (g: Option<char>)
    requires
        ramp@.len() > 0,
    ensures
        g == spec_rising_fill(ramp@, coverage as nat),
{
    if ramp.len() == 8 {
        if coverage >= 1 {
            let k = if coverage < 8 { coverage } else { 8 };
            Some(ramp[k - 1])
        } else {
            None
        }
    } else if coverage >= 4 {
        Some(ramp[0])
    } else {
        None
    }
}

/// The glyph of a bar cell growing downward that `eighths` whole eighths of
/// the cell fill from the top. Unicode has no top-anchored ramp, so with an
/// eighths ramp a cell takes the full block from seven eighths, the upper
/// half from four, the upper eighth from one; with a coarser ramp, its first
/// glyph once half the cell is covered.
pub open spec fn spec_sinking_fill(ramp: Seq<char>, eighths: nat) -> Option<char> {
    if ramp.len() != 8 {
        if eighths >= 4 {
            Some(ramp[0])
        } else {
            None
        }
    } else if eighths >= 7 {
        Some('\u{2588}')
    } else if eighths >= 4 {
        Some('\u{2580}')
    } else if eighths >= 1 {
        Some('\u{2594}')
    } else {
        None
    }
}

/// The glyph of a downward bar cell covered `eighths` whole eighths from the top.
pub fn sinking_fill(ramp: &[char], eighths: usize) -> (g: Option<char>)
    requires
        ramp@.len() > 0,
    ensures
        g == spec_sinking_fill(ramp@, eighths as nat),
{
    if ramp.len() != 8 {
        if eighths >= 4 {
            Some(ramp[0])
        } else {
            None
        }
    } else if eighths >= 7 {
        Some('\u{2588}')
    } else if eighths >= 4 {
        Some('\u{2580}')
    } else if eighths >= 1 {
        Some('\u{2594}')
    } else {
        None
    }
}

} // verus!
