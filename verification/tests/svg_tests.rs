use malevich::color::Color;
use malevich::raster::{Raster, RasterCell};
use malevich::svg::{Ink, hex, ink};

#[test]
fn block_elements_map_to_their_defined_geometry() {
    // Full block: one sub-cell, set.
    assert_eq!(
        ink('\u{2588}'),
        Some(Ink {
            columns: 2,
            rows: 2,
            bits: 0b1111
        })
    );
    // Lower half: the bottom row of the quadrant grid.
    assert_eq!(
        ink('\u{2584}'),
        Some(Ink {
            columns: 2,
            rows: 2,
            bits: 0b1100
        })
    );
    // Lower one eighth: the last of eight rows.
    assert_eq!(
        ink('\u{2581}'),
        Some(Ink {
            columns: 1,
            rows: 8,
            bits: 0b1000_0000
        })
    );
    // Lower seven eighths: everything but the first row.
    assert_eq!(
        ink('\u{2587}'),
        Some(Ink {
            columns: 1,
            rows: 8,
            bits: 0b1111_1110
        })
    );
    // Left one eighth: the first of eight columns; left seven eighths: all but the last.
    assert_eq!(
        ink('\u{258F}'),
        Some(Ink {
            columns: 8,
            rows: 1,
            bits: 0b0000_0001
        })
    );
    assert_eq!(
        ink('\u{2589}'),
        Some(Ink {
            columns: 8,
            rows: 1,
            bits: 0b0111_1111
        })
    );
    // Upper eighth and right eighth.
    assert_eq!(
        ink('\u{2594}'),
        Some(Ink {
            columns: 1,
            rows: 8,
            bits: 1
        })
    );
    assert_eq!(
        ink('\u{2595}'),
        Some(Ink {
            columns: 8,
            rows: 1,
            bits: 0b1000_0000
        })
    );
}

#[test]
fn text_glyphs_are_not_ink() {
    for glyph in [
        ' ', 'a', '\u{2502}', '\u{2524}', '\u{2800}', '\u{28FF}', '\u{2026}', '*', '#',
    ] {
        assert_eq!(ink(glyph), None, "{glyph:?} must stay text");
    }
}

#[test]
fn sextants_skip_the_patterns_block_elements_draw() {
    // The first sextant is the top-left sub-cell; the 21st skips the left
    // half (pattern 21) and the 41st the right half (pattern 42).
    assert_eq!(ink('\u{1FB00}'), Some(Ink { columns: 2, rows: 3, bits: 1 }));
    assert_eq!(ink('\u{1FB13}'), Some(Ink { columns: 2, rows: 3, bits: 20 }));
    assert_eq!(ink('\u{1FB14}'), Some(Ink { columns: 2, rows: 3, bits: 22 }));
    assert_eq!(ink('\u{1FB28}'), Some(Ink { columns: 2, rows: 3, bits: 43 }));
    assert_eq!(ink('\u{1FB3B}'), Some(Ink { columns: 2, rows: 3, bits: 62 }));
}

#[test]
fn quadrant_columns_and_widths() {
    let upper_half = ink('\u{2580}').unwrap();
    assert!(upper_half.bit(0, 0) && upper_half.bit(1, 0));
    assert!(!upper_half.bit(0, 1) && !upper_half.bit(1, 1));
    assert_eq!(upper_half.column(0), 0b01);
    assert!(upper_half.full_width());
    let left_half = ink('\u{258C}').unwrap();
    assert_eq!(left_half.column(0), 0b11);
    assert_eq!(left_half.column(1), 0b00);
    assert!(!left_half.full_width());
}

#[test]
fn colors_print_as_css_hex() {
    assert_eq!(hex(Color::Rgb(1, 171, 255)), "#01abff");
    assert_eq!(hex(Color::Red), "#cd0000");
    assert_eq!(hex(Color::Default), "#808080");
}

fn cell(glyph: char, foreground: Color, background: Color) -> RasterCell {
    RasterCell {
        glyph,
        foreground,
        background,
        columns: 1,
    }
}

#[test]
fn an_empty_card_is_its_padding() {
    let raster = Raster::from_cells(0, 0, Vec::new()).unwrap();
    assert_eq!(
        raster.to_svg("#000", "#fff"),
        "<svg xmlns=\"http://www.w3.org/2000/svg\" width=\"32\" height=\"24\" viewBox=\"0 0 32 24\" font-family=\"ui-monospace,SFMono-Regular,Menlo,Monaco,Consolas,monospace\" font-size=\"13\" fill=\"#fff\" shape-rendering=\"crispEdges\">\n<rect width=\"32\" height=\"24\" rx=\"8\" fill=\"#000\"/>\n</svg>\n"
    );
}

#[test]
fn block_glyphs_become_rectangles_and_text_stays_text() {
    let cells = vec![
        cell('\u{2588}', Color::Default, Color::Default),
        cell('\u{2588}', Color::Default, Color::Default),
        cell('a', Color::Red, Color::Blue),
        cell('b', Color::Red, Color::Default),
    ];
    let raster = Raster::from_cells(4, 1, cells).unwrap();
    let svg = raster.to_svg("#000", "#fff");
    let lines: Vec<&str> = svg.lines().collect();
    assert_eq!(lines.len(), 6);
    // One background rectangle for the blue cell.
    assert_eq!(
        lines[2],
        "<rect x=\"31.6\" y=\"12\" width=\"7.8\" height=\"16\" fill=\"#0000ee\"/>"
    );
    // The two full blocks merge into one rectangle in the card foreground.
    assert_eq!(
        lines[3],
        "<rect x=\"16\" y=\"12\" width=\"15.6\" height=\"16\" fill=\"#fff\"/>"
    );
    // The label is one text run pinned to its two columns.
    assert_eq!(
        lines[4],
        "<text x=\"31.6\" y=\"24.5\" fill=\"#cd0000\" textLength=\"15.6\" lengthAdjust=\"spacingAndGlyphs\" xml:space=\"preserve\">ab</text>"
    );
    assert_eq!(lines[5], "</svg>");
}

#[test]
fn sextant_rows_round_to_thousandths() {
    // A sextant's middle-left sub-cell: one third of the way down the row.
    let raster = Raster::from_cells(1, 1, vec![cell('\u{1FB03}', Color::Default, Color::Default)])
        .unwrap();
    let svg = raster.to_svg("#000", "#fff");
    let lines: Vec<&str> = svg.lines().collect();
    assert_eq!(
        lines[2],
        "<rect x=\"16\" y=\"17.333\" width=\"3.9\" height=\"5.333\" fill=\"#fff\"/>"
    );
}

#[test]
fn interior_spaces_stay_in_a_text_run_and_trailing_ones_go() {
    let cells = vec![
        cell('a', Color::Default, Color::Default),
        cell(' ', Color::Default, Color::Default),
        cell('&', Color::Default, Color::Default),
        cell(' ', Color::Default, Color::Default),
    ];
    let raster = Raster::from_cells(4, 1, cells).unwrap();
    let svg = raster.to_svg("#000", "#fff");
    let lines: Vec<&str> = svg.lines().collect();
    assert_eq!(
        lines[2],
        "<text x=\"16\" y=\"24.5\" textLength=\"23.4\" lengthAdjust=\"spacingAndGlyphs\" xml:space=\"preserve\">a &amp;</text>"
    );
}
