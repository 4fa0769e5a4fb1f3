use malevich::color::Color;
use malevich::error::Error;
use malevich::raster::{Raster, RasterCell};

fn cell(glyph: char, foreground: Color, background: Color) -> RasterCell {
    RasterCell {
        glyph,
        foreground,
        background,
        columns: 1,
    }
}

#[test]
fn a_grid_must_hold_one_cell_per_position() {
    assert!(matches!(
        Raster::from_cells(2, 2, vec![cell('a', Color::Default, Color::Default)]),
        Err(Error::InvalidParameter { .. })
    ));
    assert!(matches!(
        Raster::from_cells(70_000, 1, Vec::new()),
        Err(Error::DimensionTooLarge {
            what: "frame width",
            requested: 70_000,
            limit: 65535
        })
    ));
    let raster = Raster::from_cells(2, 1, vec![cell('a', Color::Default, Color::Default); 2]).unwrap();
    assert_eq!((raster.width(), raster.height()), (2, 1));
    assert_eq!(raster.cells().len(), 2);
}

#[test]
fn html_spans_carry_foreground_and_background() {
    let cells = vec![
        cell('a', Color::Red, Color::Default),
        cell(' ', Color::Default, Color::Blue),
        cell('b', Color::Default, Color::Default),
        cell(' ', Color::Default, Color::Default),
    ];
    let raster = Raster::from_cells(4, 1, cells).unwrap();
    assert_eq!(
        raster.encode_html(),
        "<span style=\"color:#cd0000\">a</span><span style=\"color:#cd0000;background-color:#0000ee\"> </span>b"
    );
}

#[test]
fn rows_join_with_newlines_and_drop_blank_tails() {
    let cells = vec![
        cell('x', Color::Default, Color::Default),
        cell(' ', Color::Default, Color::Default),
        cell(' ', Color::Default, Color::Default),
        cell(' ', Color::Default, Color::Default),
    ];
    let raster = Raster::from_cells(2, 2, cells).unwrap();
    assert_eq!(raster.encode_html(), "x\n");
}

#[test]
fn continuation_cells_print_nothing() {
    let cells = vec![
        RasterCell {
            glyph: '\u{65E5}',
            foreground: Color::Default,
            background: Color::Default,
            columns: 2,
        },
        RasterCell {
            glyph: ' ',
            foreground: Color::Default,
            background: Color::Default,
            columns: 0,
        },
        cell('<', Color::Default, Color::Default),
    ];
    let raster = Raster::from_cells(3, 1, cells).unwrap();
    assert_eq!(raster.row(0).len(), 2);
    assert_eq!(raster.encode_html(), "\u{65E5}&lt;");
}

#[test]
fn the_card_wraps_the_grid_in_a_styled_pre() {
    let raster = Raster::from_cells(1, 1, vec![cell('x', Color::Default, Color::Default)]).unwrap();
    let html = raster.to_html("#111", "#eee");
    assert!(html.starts_with("<pre style=\"margin:0;padding:12px 16px;"));
    assert!(html.ends_with("background-color:#111;color:#eee\">x</pre>"));
}
