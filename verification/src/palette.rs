//! Categorical palettes: the colors successive series take.

use vstd::prelude::*;

use crate::color::Color;
use crate::error::Error;

verus! {

/// An ordered set of categorical colors; category `i` takes color
/// `i mod len`, so categories past the palette wrap around.
#[derive(Debug, Clone, PartialEq, Eq)]
pub struct Palette {
    colors: Vec<Color>,
}

impl Palette {
    /// The colors, in order.
    pub closed spec fn spec_colors(&self) -> Seq<Color> {
        self.colors@
    }

    /// A palette holds at least one color.
    pub open spec fn wf(&self) -> bool {
        self.spec_colors().len() > 0
    }

    /// A palette that takes ownership of runtime colors, refused with
    /// [`Error::EmptyDimension`] when there are none.
    pub fn try_from_colors(colors: Vec<Color>) -> (r: Result<Palette, Error>)
        ensures
            colors@.len() == 0 ==> r == Err::<Palette, Error>(
                Error::EmptyDimension { what: "Palette colors" },
            ),
            colors@.len() > 0 ==> r is Ok && r->Ok_0.spec_colors() == colors@ && r->Ok_0.wf(),
    {
        if colors.len() == 0 {
            return Err(Error::EmptyDimension { what: "Palette colors" });
        }
        Ok(Palette { colors })
    }

    /// The colors, in order.
    pub fn colors(&self) -> (c: &[Color])
        ensures
            c@ == self.spec_colors(),
    {
        self.colors.as_slice()
    }

    /// The color of category `index`, wrapping around past the end.
    pub fn color(&self, index: usize) -> (c: Color)
        requires
            self.wf(),
        ensures
            c == self.spec_colors()[index as int % self.spec_colors().len() as int],
    {
        self.colors[index % self.colors.len()]
    }

    /// The Okabe–Ito palette (without black): distinguishable under the
    /// common color-vision deficiencies, and the default.
    pub fn okabe_ito() -> (p: Palette)
        ensures
            p.wf(),
            p.spec_colors() == okabe_ito_colors(),
    {
        let colors = vec![
            Color::Rgb(230, 159, 0),
            Color::Rgb(86, 180, 233),
            Color::Rgb(0, 158, 115),
            Color::Rgb(240, 228, 66),
            Color::Rgb(0, 114, 178),
            Color::Rgb(213, 94, 0),
            Color::Rgb(204, 121, 167),
        ];
        assert(colors@ =~= okabe_ito_colors());
        Palette { colors }
    }

    /// Paul Tol's bright qualitative scheme.
    pub fn bright() -> (p: Palette)
        ensures
            p.wf(),
            p.spec_colors() == bright_colors(),
    {
        let colors = vec![
            Color::Rgb(68, 119, 170),
            Color::Rgb(102, 204, 238),
            Color::Rgb(34, 136, 51),
            Color::Rgb(204, 187, 68),
            Color::Rgb(238, 102, 119),
            Color::Rgb(170, 51, 119),
            Color::Rgb(187, 187, 187),
        ];
        assert(colors@ =~= bright_colors());
        Palette { colors }
    }

    /// Paul Tol's muted qualitative scheme.
    pub fn muted() -> (p: Palette)
        ensures
            p.wf(),
            p.spec_colors() == muted_colors(),
    {
        let colors = vec![
            Color::Rgb(51, 34, 136),
            Color::Rgb(136, 204, 238),
            Color::Rgb(68, 170, 153),
            Color::Rgb(17, 119, 51),
            Color::Rgb(153, 153, 51),
            Color::Rgb(221, 204, 119),
            Color::Rgb(204, 102, 119),
            Color::Rgb(136, 34, 85),
            Color::Rgb(170, 68, 153),
        ];
        assert(colors@ =~= muted_colors());
        Palette { colors }
    }
}

/// The Okabe–Ito colors, orange first.
pub open spec fn okabe_ito_colors() -> Seq<Color> {
    seq![
        Color::Rgb(230, 159, 0),
        Color::Rgb(86, 180, 233),
        Color::Rgb(0, 158, 115),
        Color::Rgb(240, 228, 66),
        Color::Rgb(0, 114, 178),
        Color::Rgb(213, 94, 0),
        Color::Rgb(204, 121, 167),
    ]
}

/// Tol's bright colors.
pub open spec fn bright_colors() -> Seq<Color> {
    seq![
        Color::Rgb(68, 119, 170),
        Color::Rgb(102, 204, 238),
        Color::Rgb(34, 136, 51),
        Color::Rgb(204, 187, 68),
        Color::Rgb(238, 102, 119),
        Color::Rgb(170, 51, 119),
        Color::Rgb(187, 187, 187),
    ]
}

/// Tol's muted colors.
pub open spec fn muted_colors() -> Seq<Color> {
    seq![
        Color::Rgb(51, 34, 136),
        Color::Rgb(136, 204, 238),
        Color::Rgb(68, 170, 153),
        Color::Rgb(17, 119, 51),
        Color::Rgb(153, 153, 51),
        Color::Rgb(221, 204, 119),
        Color::Rgb(204, 102, 119),
        Color::Rgb(136, 34, 85),
        Color::Rgb(170, 68, 153),
    ]
}

impl Default for Palette {
    fn default() -> (p: Palette)
        ensures
            p.wf(),
            p.spec_colors() == okabe_ito_colors(),
    {
        Palette::okabe_ito()
    }
}

/// Categories past the palette wrap around: category `i` and category
/// `i + len` take the same color.
pub proof fn law_categories_wrap_around(palette: &Palette, index: int)
    requires
        palette.wf(),
        index >= 0,
    ensures
        palette.spec_colors()[(index + palette.spec_colors().len()) % (
        palette.spec_colors().len() as int)] == palette.spec_colors()[index % (
        palette.spec_colors().len() as int)],
{
    let n = palette.spec_colors().len() as int;
    vstd::arithmetic::div_mod::lemma_mod_add_multiples_vanish(index, n);
}

} // verus!
