//! Colors and color modes, with honest downhill quantization.
//!
//! A [`Color`] names intent (a palette entry, a 256-index, or exact RGB); a
//! [`ColorMode`] names what the output may carry. Encoding resolves every color
//! to the mode's tier: RGB quantizes to the 256-color cube, 256-indices to the
//! nearest of the 16 ANSI colors, and in [`ColorMode::Plain`] color vanishes.
//! The 16 named colors are never upconverted — they stay palette-relative.
//!
//! Finding the nearest of the 16 palette colors is a perceptual (OKLab)
//! distance, computed in floating point by the caller and handed in as a
//! quantizer: a function from RGB to an SGR code.

use vstd::prelude::*;

use crate::text::{decimal_digits, push_char, push_decimal};

verus! {

/// How much color the output may carry.
#[derive(Debug, Clone, Copy, PartialEq, Eq, Structural)]
pub enum ColorMode {
    /// No escape codes at all: safe for files, pipes, and logs.
    Plain,
    /// The 16-color ANSI palette.
    Ansi16,
    /// The xterm 256-color palette.
    Ansi256,
    /// 24-bit RGB.
    TrueColor,
}

/// A terminal color.
///
/// The named variants map to SGR codes 30–37 and 90–97; what they look like
/// is the terminal theme's decision — which is what makes them safe defaults.
#[derive(Debug, Clone, Copy, PartialEq, Eq, Structural)]
#[allow(missing_docs)]
pub enum Color {
    Default,
    Black,
    Red,
    Green,
    Yellow,
    Blue,
    Magenta,
    Cyan,
    White,
    BrightBlack,
    BrightRed,
    BrightGreen,
    BrightYellow,
    BrightBlue,
    BrightMagenta,
    BrightCyan,
    BrightWhite,
    /// An index into the xterm 256-color palette.
    Ansi256(u8),
    /// An exact 24-bit color.
    Rgb(u8, u8, u8),
}

impl Default for Color {
    fn default() -> (c: Color)
        ensures
            c == Color::Default,
    {
        Color::Default
    }
}

/// A color resolved against a mode: what will actually be emitted.
///
/// Equality on resolved colors drives run-length encoding, so two colors
/// that quantize identically share one escape sequence.
#[derive(Debug, Clone, Copy, PartialEq, Eq, Structural)]
pub enum Resolved {
    Default,
    /// A complete SGR code for one of the 16 palette colors (30–37, 90–97).
    Indexed16(u8),
    Indexed256(u8),
    Rgb(u8, u8, u8),
}

/// The xterm default RGB values of the 16 palette colors, in SGR order
/// (30–37 then 90–97). Used only for distances — the terminal's real
/// palette may differ, which is the point of named colors.
pub open spec fn spec_palette16(index: int) -> (u8, u8, u8) {
    if index == 0 {
        (0, 0, 0)
    } else if index == 1 {
        (205, 0, 0)
    } else if index == 2 {
        (0, 205, 0)
    } else if index == 3 {
        (205, 205, 0)
    } else if index == 4 {
        (0, 0, 238)
    } else if index == 5 {
        (205, 0, 205)
    } else if index == 6 {
        (0, 205, 205)
    } else if index == 7 {
        (229, 229, 229)
    } else if index == 8 {
        (127, 127, 127)
    } else if index == 9 {
        (255, 0, 0)
    } else if index == 10 {
        (0, 255, 0)
    } else if index == 11 {
        (255, 255, 0)
    } else if index == 12 {
        (92, 92, 255)
    } else if index == 13 {
        (255, 0, 255)
    } else if index == 14 {
        (0, 255, 255)
    } else {
        (255, 255, 255)
    }
}

/// One entry of the 16-color palette's xterm defaults.
pub fn palette16(index: u8) -> (c: (u8, u8, u8))
    requires
        index < 16,
    ensures
        c == spec_palette16(index as int),
{
    match index {
        0 => (0, 0, 0),
        1 => (205, 0, 0),
        2 => (0, 205, 0),
        3 => (205, 205, 0),
        4 => (0, 0, 238),
        5 => (205, 0, 205),
        6 => (0, 205, 205),
        7 => (229, 229, 229),
        8 => (127, 127, 127),
        9 => (255, 0, 0),
        10 => (0, 255, 0),
        11 => (255, 255, 0),
        12 => (92, 92, 255),
        13 => (255, 0, 255),
        14 => (0, 255, 255),
        _ => (255, 255, 255),
    }
}

/// The cube axis levels of the xterm 256-color palette.
pub open spec fn spec_cube_level(step: int) -> u8 {
    if step == 0 {
        0
    } else if step == 1 {
        95
    } else if step == 2 {
        135
    } else if step == 3 {
        175
    } else if step == 4 {
        215
    } else {
        255
    }
}

fn cube_level(step: u8) -> (v: u8)
    requires
        step < 6,
    ensures
        v == spec_cube_level(step as int),
{
    match step {
        0 => 0,
        1 => 95,
        2 => 135,
        3 => 175,
        4 => 215,
        _ => 255,
    }
}

/// The RGB value of an xterm 256-color palette index.
pub open spec fn spec_ansi256_to_rgb(index: u8) -> (u8, u8, u8) {
    if index < 16 {
        spec_palette16(index as int)
    } else if index <= 231 {
        let n = index - 16;
        (spec_cube_level(n / 36), spec_cube_level((n / 6) % 6), spec_cube_level(n % 6))
    } else {
        let v = (8 + 10 * (index - 232)) as u8;
        (v, v, v)
    }
}

/// The RGB value of an xterm 256-color palette index.
pub fn ansi256_to_rgb(index: u8) -> (c: (u8, u8, u8))
    ensures
        c == spec_ansi256_to_rgb(index),
{
    if index < 16 {
        palette16(index)
    } else if index <= 231 {
        let n = index - 16;
        (cube_level(n / 36), cube_level((n / 6) % 6), cube_level(n % 6))
    } else {
        let v = 8 + 10 * (index - 232);
        (v, v, v)
    }
}

/// The cube axis step a channel quantizes to: each level's nearest cube level.
pub open spec fn spec_cube_axis(c: u8) -> int {
    if c <= 47 {
        0
    } else if c <= 114 {
        1
    } else {
        (c - 35) / 40
    }
}

/// The gray-ramp step nearest to `level`, clamped to the 24 ramp entries.
pub open spec fn spec_ramp_step(level: int) -> int {
    let step = (level - 8 + 5) / 10;
    if step < 0 {
        0
    } else if step > 23 {
        23
    } else {
        step
    }
}

/// Whether candidate `(value_a, ramp_a)` is strictly nearer to `level` than
/// `(value_b, ramp_b)`, a ramp entry winning a tie against a cube end.
pub open spec fn nearer(level: int, value_a: int, ramp_a: bool, value_b: int, ramp_b: bool) -> bool {
    let da = if value_a >= level { value_a - level } else { level - value_a };
    let db = if value_b >= level { value_b - level } else { level - value_b };
    da < db || (da == db && ramp_a && !ramp_b)
}

/// The xterm 256-color index for a gray level: the nearest of the 24 ramp
/// greys (8, 18, …, 238) and the cube's two ends (0 and 255), a ramp grey
/// winning ties, black before white.
pub open spec fn spec_gray_to_256(level: int) -> u8 {
    let step = spec_ramp_step(level);
    let ramp = (232 + step) as u8;
    let ramp_level = 8 + 10 * step;
    let best = if nearer(level, 255, false, 0, false) { (231u8, 255int, false) } else { (16u8, 0int, false) };
    if nearer(level, ramp_level, true, best.1, best.2) { ramp } else { best.0 }
}

/// Quantizes RGB onto the xterm 256-color palette (color cube or gray ramp).
pub open spec fn spec_rgb_to_256(r: u8, g: u8, b: u8) -> u8 {
    if r == g && g == b {
        spec_gray_to_256(r as int)
    } else {
        (16 + 36 * spec_cube_axis(r) + 6 * spec_cube_axis(g) + spec_cube_axis(b)) as u8
    }
}

fn cube_axis(c: u8) -> (a: u8)
    ensures
        a == spec_cube_axis(c),
        a < 6,
{
    if c <= 47 {
        0
    } else if c <= 114 {
        1
    } else {
        (c - 35) / 40
    }
}

/// Quantizes RGB onto the xterm 256-color palette (color cube or gray ramp).
pub fn rgb_to_256(r: u8, g: u8, b: u8) -> (index: u8)
    ensures
        index == spec_rgb_to_256(r, g, b),
        index >= 16,
{
    if r == g && g == b {
        // The nearest of the 24 ramp greys (8, 18, …, 238) and the cube's two
        // ends (0 and 255): every level from 0 to 255 has one, so a near-black
        // grey lands on the darkest ramp entry instead of underflowing past it.
        let level = r as i32;
        let raw = (level - 8 + 5 + 10) / 10 - 1;
        proof {
            assert(raw == (level - 8 + 5) / 10) by (nonlinear_arith)
                requires
                    raw == (level + 7) / 10 - 1,
                    0 <= level < 256,
            ;
        }
        let step = if raw < 0 { 0 } else if raw > 23 { 23 } else { raw };
        let ramp = (232 + step) as u8;
        let ramp_level = 8 + 10 * step;
        let distance = |value: i32| -> (d: i32)
            requires
                -1000 <= value <= 1000,
            ensures
                d == (if value >= level { value - level } else { level - value }),
        {
            if value >= level { value - level } else { level - value }
        };
        // Candidates in order: black, white, the ramp grey; the first nearest wins,
        // and the ramp grey wins a tie.
        let (mut best_index, mut best_value, mut best_ramp) = (16u8, 0i32, false);
        if distance(255) < distance(best_value) {
            best_index = 231;
            best_value = 255;
            best_ramp = false;
        }
        let (dr, db) = (distance(ramp_level), distance(best_value));
        if dr < db || (dr == db && !best_ramp) {
            best_index = ramp;
        }
        return best_index;
    }
    16 + 36 * cube_axis(r) + 6 * cube_axis(g) + cube_axis(b)
}

impl Color {
    /// The SGR foreground code of a color: 30–37 and 90–97 for the named
    /// colors, 39 (the default foreground) for every other.
    pub open spec fn spec_sgr(self) -> u8 {
        match self {
            Color::Black => 30,
            Color::Red => 31,
            Color::Green => 32,
            Color::Yellow => 33,
            Color::Blue => 34,
            Color::Magenta => 35,
            Color::Cyan => 36,
            Color::White => 37,
            Color::BrightBlack => 90,
            Color::BrightRed => 91,
            Color::BrightGreen => 92,
            Color::BrightYellow => 93,
            Color::BrightBlue => 94,
            Color::BrightMagenta => 95,
            Color::BrightCyan => 96,
            Color::BrightWhite => 97,
            _ => 39,
        }
    }

    /// Whether this is one of the 16 named palette colors.
    pub open spec fn is_named(self) -> bool {
        !(self is Default || self is Ansi256 || self is Rgb)
    }

    /// The SGR foreground code for a named color.
    pub fn sgr(self) -> (code: u8)
        ensures
            code == self.spec_sgr(),
    {
        match self {
            Color::Black => 30,
            Color::Red => 31,
            Color::Green => 32,
            Color::Yellow => 33,
            Color::Blue => 34,
            Color::Magenta => 35,
            Color::Cyan => 36,
            Color::White => 37,
            Color::BrightBlack => 90,
            Color::BrightRed => 91,
            Color::BrightGreen => 92,
            Color::BrightYellow => 93,
            Color::BrightBlue => 94,
            Color::BrightMagenta => 95,
            Color::BrightCyan => 96,
            Color::BrightWhite => 97,
            _ => 39,
        }
    }

    /// The concrete RGB this color denotes where output cannot stay
    /// palette-relative: named colors freeze to the xterm defaults,
    /// `Default` to a mid-gray readable on dark and light backgrounds alike.
    pub open spec fn spec_to_rgb(self) -> (u8, u8, u8) {
        match self {
            Color::Default => (128, 128, 128),
            Color::Ansi256(index) => spec_ansi256_to_rgb(index),
            Color::Rgb(r, g, b) => (r, g, b),
            named => {
                let sgr = named.spec_sgr();
                let offset = if sgr >= 90 { sgr - 90 + 8 } else { sgr - 30 };
                spec_palette16(offset)
            },
        }
    }

    /// The concrete RGB this color denotes in output that cannot stay
    /// palette-relative.
    pub fn to_rgb(self) -> (c: (u8, u8, u8))
        ensures
            c == self.spec_to_rgb(),
    {
        match self {
            Color::Default => (128, 128, 128),
            Color::Ansi256(index) => ansi256_to_rgb(index),
            Color::Rgb(r, g, b) => (r, g, b),
            named => {
                let sgr = named.sgr();
                let offset = if sgr >= 90 { sgr - 90 + 8 } else { sgr - 30 };
                palette16(offset)
            },
        }
    }
}

/// Whether `nearest16` is a quantizer: callable on every RGB triple, and a
/// function — the same triple always gets the same code.
pub open spec fn is_quantizer<F: Fn(u8, u8, u8) -> u8>(nearest16: F) -> bool {
    &&& forall|r: u8, g: u8, b: u8| #[trigger] nearest16.requires((r, g, b))
    &&& forall|r: u8, g: u8, b: u8, x: u8, y: u8|
        #[trigger] nearest16.ensures((r, g, b), x) && #[trigger] nearest16.ensures((r, g, b), y)
            ==> x == y
}

/// The code a quantizer gives an RGB triple.
pub open spec fn quantized<F: Fn(u8, u8, u8) -> u8>(nearest16: F, r: u8, g: u8, b: u8) -> u8 {
    choose|x: u8| nearest16.ensures((r, g, b), x)
}

/// Calls a quantizer.
pub fn quantize<F: Fn(u8, u8, u8) -> u8>(nearest16: &F, r: u8, g: u8, b: u8) -> (code: u8)
    requires
        is_quantizer(*nearest16),
    ensures
        code == quantized(*nearest16, r, g, b),
{
    let code = nearest16(r, g, b);
    assert(nearest16.ensures((r, g, b), code));
    code
}

/// What `color` resolves to under `mode`, when `sixteen` is the SGR code the
/// 16-color quantizer gives the color's RGB.
pub open spec fn spec_resolve(color: Color, mode: ColorMode, sixteen: u8) -> Resolved {
    if mode == ColorMode::Plain {
        Resolved::Default
    } else {
        match color {
            Color::Default => Resolved::Default,
            Color::Ansi256(index) => if mode == ColorMode::Ansi16 {
                Resolved::Indexed16(sixteen)
            } else {
                Resolved::Indexed256(index)
            },
            Color::Rgb(r, g, b) => if mode == ColorMode::TrueColor {
                Resolved::Rgb(r, g, b)
            } else if mode == ColorMode::Ansi256 {
                Resolved::Indexed256(spec_rgb_to_256(r, g, b))
            } else {
                Resolved::Indexed16(sixteen)
            },
            named => Resolved::Indexed16(named.spec_sgr()),
        }
    }
}

impl Color {
    /// The RGB a 16-color resolution quantizes: the palette entry of a
    /// 256-index, the triple itself for RGB.
    pub open spec fn spec_sixteen_source(self) -> (u8, u8, u8) {
        match self {
            Color::Ansi256(index) => spec_ansi256_to_rgb(index),
            _ => self.spec_to_rgb(),
        }
    }

    /// What this color resolves to under `mode` with the quantizer `nearest16`.
    pub open spec fn spec_resolve_with<F: Fn(u8, u8, u8) -> u8>(
        self,
        mode: ColorMode,
        nearest16: F,
    ) -> Resolved {
        let (r, g, b) = self.spec_sixteen_source();
        spec_resolve(self, mode, quantized(nearest16, r, g, b))
    }

    /// Resolves this color to what `mode` can carry.
    ///
    /// `nearest16` is the 16-color quantizer: the SGR code of the palette
    /// color nearest to an RGB triple. It is consulted only for a 256-index
    /// or an RGB color in [`ColorMode::Ansi16`]; named colors never move.
    pub fn resolve<F: Fn(u8, u8, u8) -> u8>(self, mode: ColorMode, nearest16: &F) -> (r: Resolved)
        requires
            is_quantizer(*nearest16),
        ensures
            r == self.spec_resolve_with(mode, *nearest16),
    {
        if mode == ColorMode::Plain {
            return Resolved::Default;
        }
        match self {
            Color::Default => Resolved::Default,
            Color::Ansi256(index) => match mode {
                ColorMode::Ansi16 => {
                    let (r, g, b) = ansi256_to_rgb(index);
                    Resolved::Indexed16(quantize(nearest16, r, g, b))
                },
                _ => Resolved::Indexed256(index),
            },
            Color::Rgb(r, g, b) => match mode {
                ColorMode::TrueColor => Resolved::Rgb(r, g, b),
                ColorMode::Ansi256 => Resolved::Indexed256(rgb_to_256(r, g, b)),
                _ => Resolved::Indexed16(quantize(nearest16, r, g, b)),
            },
            named => Resolved::Indexed16(named.sgr()),
        }
    }
}

/// The SGR parameters that select `color` on one channel.
pub open spec fn spec_parameters(color: Resolved, background: bool) -> Seq<char> {
    match color {
        Resolved::Default => decimal_digits(if background { 49 } else { 39 }),
        Resolved::Indexed16(code) => decimal_digits(
            if background { (code + 10) as nat } else { code as nat },
        ),
        Resolved::Indexed256(index) => decimal_digits(if background { 48 } else { 38 }) + seq![
            ';',
            '5',
            ';',
        ] + decimal_digits(index as nat),
        Resolved::Rgb(r, g, b) => decimal_digits(if background { 48 } else { 38 }) + seq![
            ';',
            '2',
            ';',
        ] + decimal_digits(r as nat) + seq![';'] + decimal_digits(g as nat) + seq![';']
            + decimal_digits(b as nat),
    }
}

/// One SGR control sequence for the channels that changed: nothing when
/// neither did, else `ESC [`, the foreground parameters, `;` between the
/// two, the background parameters, and `m`.
pub open spec fn spec_transition(foreground: Option<Resolved>, background: Option<Resolved>) -> Seq<
    char,
> {
    if foreground is None && background is None {
        Seq::empty()
    } else {
        let fg = match foreground {
            Some(color) => spec_parameters(color, false),
            None => Seq::empty(),
        };
        let sep = if foreground is Some && background is Some {
            seq![';']
        } else {
            Seq::empty()
        };
        let bg = match background {
            Some(color) => spec_parameters(color, true),
            None => Seq::empty(),
        };
        seq!['\x1b', '['] + fg + sep + bg + seq!['m']
    }
}

impl Resolved {
    /// Appends one SGR sequence for the foreground and/or background
    /// channels that changed. Keeping both parameters in one control
    /// sequence avoids doubling terminal transitions for two-color cells.
    pub fn write_transition(
        foreground: Option<Resolved>,
        background: Option<Resolved>,
        out: &mut String,
    )
        ensures
            final(out)@ == old(out)@ + spec_transition(foreground, background),
    {
        if foreground.is_none() && background.is_none() {
            assert(old(out)@ + spec_transition(foreground, background) =~= old(out)@);
            return;
        }
        push_char(out, '\x1b');
        push_char(out, '[');
        let ghost start = out@;
        if let Some(color) = foreground {
            color.write_parameters(out, false);
            if background.is_some() {
                push_char(out, ';');
            }
        }
        if let Some(color) = background {
            color.write_parameters(out, true);
        }
        push_char(out, 'm');
        assert(out@ =~= old(out)@ + spec_transition(foreground, background));
    }

    /// Appends the SGR sequence that selects this color as the foreground.
    pub fn write_sgr(self, out: &mut String)
        ensures
            final(out)@ == old(out)@ + spec_transition(Some(self), None),
    {
        Resolved::write_transition(Some(self), None, out);
    }

    /// Appends the SGR parameters that select this color on one channel.
    pub fn write_parameters(self, out: &mut String, background: bool)
        ensures
            final(out)@ == old(out)@ + spec_parameters(self, background),
    {
        match self {
            Resolved::Default => push_decimal(out, if background { 49 } else { 39 }),
            Resolved::Indexed16(code) => push_decimal(
                out,
                if background { code as u128 + 10 } else { code as u128 },
            ),
            Resolved::Indexed256(index) => {
                push_decimal(out, if background { 48 } else { 38 });
                push_char(out, ';');
                push_char(out, '5');
                push_char(out, ';');
                push_decimal(out, index as u128);
            },
            Resolved::Rgb(r, g, b) => {
                push_decimal(out, if background { 48 } else { 38 });
                push_char(out, ';');
                push_char(out, '2');
                push_char(out, ';');
                push_decimal(out, r as u128);
                push_char(out, ';');
                push_decimal(out, g as u128);
                push_char(out, ';');
                push_decimal(out, b as u128);
            },
        }
        assert(out@ =~= old(out)@ + spec_parameters(self, background));
    }
}

/// Whether a 256-color index is a gray of the cube's interior: such an
/// entry shares its RGB with the gray ramp, which quantization prefers.
pub open spec fn is_interior_cube_gray(index: u8) -> bool {
    16 <= index <= 231 && {
        let n = index - 16;
        &&& n / 36 == (n / 6) % 6
        &&& (n / 6) % 6 == n % 6
        &&& n % 6 != 0
        &&& n % 6 != 5
    }
}

proof fn lemma_cube_axis_of_level(step: int)
    requires
        0 <= step < 6,
    ensures
        spec_cube_axis(spec_cube_level(step)) == step,
{
}

/// Cube and ramp entries quantize back to themselves: every 256-color index
/// from 16 up, but the interior cube grays (which the gray ramp shadows),
/// is the index its own RGB quantizes to.
pub proof fn law_cube_and_ramp_entries_roundtrip(index: u8)
    requires
        index >= 16,
        !is_interior_cube_gray(index),
    ensures
        ({
            let (r, g, b) = spec_ansi256_to_rgb(index);
            spec_rgb_to_256(r, g, b) == index
        }),
{
    if index <= 231 {
        let n = (index - 16) as int;
        let (a, b, c) = (n / 36, (n / 6) % 6, n % 6);
        vstd::arithmetic::div_mod::lemma_fundamental_div_mod(n, 6);
        vstd::arithmetic::div_mod::lemma_fundamental_div_mod(n / 6, 6);
        vstd::arithmetic::div_mod::lemma_div_denominator(n, 6, 6);
        assert(0 <= a < 6 && 0 <= b < 6 && 0 <= c < 6);
        lemma_cube_axis_of_level(a);
        lemma_cube_axis_of_level(b);
        lemma_cube_axis_of_level(c);
        assert(n == 36 * a + 6 * b + c);
        if a == b && b == c {
            // A cube gray that is not shadowed: black or white.
            assert(c == 0 || c == 5);
        }
    } else {
        let k = (index - 232) as int;
        let level = 8 + 10 * k;
        assert(spec_ramp_step(level) == k) by {
            assert((level - 8 + 5) / 10 == k) by (nonlinear_arith)
                requires
                    level == 8 + 10 * k,
                    0 <= k < 24,
            ;
        }
    }
}

/// Quantizing RGB never lands on the 16 palette-relative indices: the result
/// is always a concrete cube or ramp color.
pub proof fn law_rgb_quantizes_to_concrete_colors(r: u8, g: u8, b: u8)
    ensures
        spec_rgb_to_256(r, g, b) >= 16,
{
    if !(r == g && g == b) {
        assert(0 <= spec_cube_axis(r) < 6);
        assert(0 <= spec_cube_axis(g) < 6);
        assert(0 <= spec_cube_axis(b) < 6);
    }
}

/// Named colors stay palette-relative at every tier that carries color, and
/// no tier but plain drops them.
pub proof fn law_named_colors_stay_palette_relative(color: Color, mode: ColorMode, sixteen: u8)
    requires
        color.is_named(),
        mode != ColorMode::Plain,
    ensures
        spec_resolve(color, mode, sixteen) == Resolved::Indexed16(color.spec_sgr()),
        30 <= color.spec_sgr() <= 37 || 90 <= color.spec_sgr() <= 97,
{
}

/// The eight base colors in ANSI order: black, red, green, yellow, blue,
/// magenta, cyan, white.
pub open spec fn ansi_order() -> Seq<Color> {
    seq![
        Color::Black,
        Color::Red,
        Color::Green,
        Color::Yellow,
        Color::Blue,
        Color::Magenta,
        Color::Cyan,
        Color::White,
    ]
}

/// The bright forms of the eight base colors, in the same order.
pub open spec fn bright_order() -> Seq<Color> {
    seq![
        Color::BrightBlack,
        Color::BrightRed,
        Color::BrightGreen,
        Color::BrightYellow,
        Color::BrightBlue,
        Color::BrightMagenta,
        Color::BrightCyan,
        Color::BrightWhite,
    ]
}

/// Named colors take the standard SGR codes: the `k`-th base color in ANSI
/// order selects code `30 + k` and its bright form `90 + k`, so no two named
/// colors share a code — and a named color resolves to exactly its code at
/// every tier that carries color.
pub proof fn law_named_colors_take_standard_codes(a: Color, b: Color, mode: ColorMode, sixteen: u8)
    ensures
        forall|k: int| 0 <= k < 8 ==> (#[trigger] ansi_order()[k]).spec_sgr() == 30 + k,
        forall|k: int| 0 <= k < 8 ==> (#[trigger] bright_order()[k]).spec_sgr() == 90 + k,
        a.is_named() && b.is_named() && a.spec_sgr() == b.spec_sgr() ==> a == b,
        a.is_named() && mode != ColorMode::Plain ==> spec_resolve(a, mode, sixteen)
            == Resolved::Indexed16(a.spec_sgr()),
{
    assert forall|k: int| 0 <= k < 8 implies (#[trigger] ansi_order()[k]).spec_sgr() == 30 + k by {
        if k == 0 {
        } else if k == 1 {
        } else if k == 2 {
        } else if k == 3 {
        } else if k == 4 {
        } else if k == 5 {
        } else if k == 6 {
        } else {
        }
    }
    assert forall|k: int| 0 <= k < 8 implies (#[trigger] bright_order()[k]).spec_sgr() == 90 + k by {
        if k == 0 {
        } else if k == 1 {
        } else if k == 2 {
        } else if k == 3 {
        } else if k == 4 {
        } else if k == 5 {
        } else if k == 6 {
        } else {
        }
    }
}

/// Plain output carries no color at all.
pub proof fn law_plain_drops_every_color(color: Color, sixteen: u8)
    ensures
        spec_resolve(color, ColorMode::Plain, sixteen) == Resolved::Default,
{
}

/// Color resolves downhill: exact RGB survives only in truecolor, a
/// 256-index survives every tier but sixteen colors, and the 16-color
/// quantizer is consulted only in sixteen-color output.
pub proof fn law_colors_resolve_downhill(color: Color, mode: ColorMode, sixteen: u8, other: u8)
    requires
        mode != ColorMode::Ansi16,
    ensures
        spec_resolve(color, mode, sixteen) == spec_resolve(color, mode, other),
        color matches Color::Ansi256(index) ==> (mode != ColorMode::Plain ==> spec_resolve(
            color,
            mode,
            sixteen,
        ) == Resolved::Indexed256(index)),
        color matches Color::Rgb(r, g, b) ==> (mode == ColorMode::TrueColor ==> spec_resolve(
            color,
            mode,
            sixteen,
        ) == Resolved::Rgb(r, g, b)),
{
}

} // verus!
