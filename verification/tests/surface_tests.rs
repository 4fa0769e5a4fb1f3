use malevich::charset::Charset;
use malevich::color::{Color, ColorMode};
use malevich::surface::Surface;

/// The 16-color quantizer encoders are handed; the tests here only encode
/// named colors, which never consult it.
fn nearest16(_r: u8, _g: u8, _b: u8) -> u8 {
    37
}

#[test]
fn text_clips_at_the_edges() {
    let mut surface = Surface::new(3, 1, Charset::Ascii);
    surface.text(-1, 0, "abcde", Color::Default);
    assert_eq!(surface.to_plain(), "bcd");
    let mut surface = Surface::new(3, 1, Charset::Ascii);
    surface.text(0, -1, "abc", Color::Default);
    surface.text(0, 1, "abc", Color::Default);
    assert_eq!(surface.to_plain(), "");
}

#[test]
fn plain_output_trims_trailing_spaces_and_keeps_leading_ones() {
    let mut surface = Surface::new(4, 2, Charset::Ascii);
    surface.set(0, 0, Color::Default);
    surface.set(1, 1, Color::Default);
    assert_eq!(surface.to_plain(), "*\n *");
}

#[test]
fn empty_surfaces_encode_to_nothing() {
    assert_eq!(Surface::new(0, 0, Charset::Braille).to_plain(), "");
    assert_eq!(
        Surface::new(0, 0, Charset::Braille).encode(ColorMode::Ansi16, &nearest16),
        ""
    );
    assert_eq!(
        Surface::new(3, 0, Charset::Ascii).encode(ColorMode::Ansi16, &nearest16),
        ""
    );
}

#[test]
fn ansi_runs_emit_one_code_per_color_change() {
    let mut surface = Surface::new(3, 1, Charset::Ascii);
    surface.set(0, 0, Color::Red);
    surface.set(1, 0, Color::Red);
    surface.set(2, 0, Color::Blue);
    assert_eq!(
        surface.encode(ColorMode::Ansi16, &nearest16),
        "\x1b[31m**\x1b[34m*\x1b[0m"
    );
}

#[test]
fn the_last_write_owns_a_shared_cell_color() {
    let mut surface = Surface::new(2, 1, Charset::Ascii);
    surface.set(0, 0, Color::Red);
    surface.set(1, 0, Color::Red);
    surface.set(1, 0, Color::Blue);
    assert_eq!(
        surface.encode(ColorMode::Ansi16, &nearest16),
        "\x1b[31m*\x1b[34m*\x1b[0m"
    );
}

#[test]
fn colored_rows_end_with_a_reset_even_after_trimming() {
    let mut surface = Surface::new(4, 1, Charset::Ascii);
    surface.set(0, 0, Color::Green);
    let encoded = surface.encode(ColorMode::Ansi16, &nearest16);
    assert_eq!(encoded, "\x1b[32m*\x1b[0m");
}

#[test]
fn braille_subpixels_light_their_dots() {
    let mut surface = Surface::new(2, 1, Charset::Braille);
    surface.set(0, 0, Color::Default);
    assert_eq!(surface.to_plain(), "\u{2801}");
    surface.set(3, 3, Color::Default);
    assert_eq!(surface.to_plain(), "\u{2801}\u{2880}");
    assert_eq!(surface.size(), (2, 1));
    assert_eq!(surface.subpixel_size(), (4, 4));
}

#[test]
fn text_wins_over_pixels_in_shared_cells() {
    let mut surface = Surface::new(3, 1, Charset::Braille);
    for x in 0..6 {
        surface.set(x, 0, Color::Default);
    }
    surface.text(0, 0, "ab", Color::Default);
    assert_eq!(surface.to_plain(), "ab\u{2809}");
    // Lighting more pixels under the label changes nothing it prints.
    surface.set(0, 1, Color::Default);
    assert_eq!(surface.to_plain(), "ab\u{2809}");
}

#[test]
fn drawing_outside_the_surface_or_the_clip_changes_nothing() {
    let mut surface = Surface::new(2, 1, Charset::Braille);
    surface.set(99, 0, Color::Default);
    surface.set(-1, 0, Color::Default);
    surface.set(0, 4, Color::Default);
    assert_eq!(surface.to_plain(), "");
    surface.set_clip(2, 0, 4, 4);
    surface.set(0, 0, Color::Red);
    assert_eq!(surface.to_plain(), "");
    surface.set(2, 0, Color::Red);
    assert_eq!(surface.to_plain(), " \u{2801}");
    surface.clear_clip();
    surface.set(0, 0, Color::Red);
    assert_eq!(surface.to_plain(), "\u{2801}\u{2801}");
}

#[test]
fn uncolored_surfaces_encode_identically_in_every_mode() {
    let mut surface = Surface::new(4, 2, Charset::Braille);
    for step in 0..8 {
        surface.set(step, step, Color::Default);
    }
    surface.text(1, 1, "x", Color::Default);
    let plain = surface.to_plain();
    for mode in [ColorMode::Plain, ColorMode::Ansi16, ColorMode::Ansi256, ColorMode::TrueColor] {
        assert_eq!(surface.encode(mode, &nearest16), plain);
    }
}

#[test]
fn blank_surfaces_print_bare_newlines() {
    let surface = Surface::new(3, 3, Charset::Ascii);
    assert_eq!(surface.to_plain(), "\n\n");
}

#[test]
fn wide_glyphs_take_two_cells_and_break_whole() {
    let mut surface = Surface::new(4, 1, Charset::Ascii);
    surface.text(0, 0, "\u{65E5}\u{672C}", Color::Default);
    assert_eq!(surface.to_plain(), "\u{65E5}\u{672C}");
    // Overwriting the right half of the first glyph blanks its left half.
    surface.text(1, 0, "x", Color::Default);
    assert_eq!(surface.to_plain(), " x\u{672C}");
    // A wide glyph that would straddle the edge is dropped whole.
    let mut surface = Surface::new(3, 1, Charset::Ascii);
    surface.text(2, 0, "\u{65E5}", Color::Default);
    assert_eq!(surface.to_plain(), "");
}

#[test]
fn cells_list_every_printing_cell() {
    let mut surface = Surface::new(3, 1, Charset::Ascii);
    surface.text(0, 0, "\u{65E5}", Color::Red);
    surface.set(2, 0, Color::Blue);
    assert_eq!(
        surface.cells(),
        vec![(0, 0, '\u{65E5}', Color::Red), (2, 0, '*', Color::Blue)]
    );
    assert_eq!(surface.row(0), vec![('\u{65E5}', Color::Red), ('*', Color::Blue)]);
}

#[test]
fn colors_encode_in_every_tier() {
    let mut surface = Surface::new(2, 1, Charset::Ascii);
    surface.set(0, 0, Color::Rgb(255, 0, 0));
    surface.set(1, 0, Color::Ansi256(21));
    assert_eq!(
        surface.encode(ColorMode::TrueColor, &nearest16),
        "\x1b[38;2;255;0;0m*\x1b[38;5;21m*\x1b[0m"
    );
    assert_eq!(
        surface.encode(ColorMode::Ansi256, &nearest16),
        "\x1b[38;5;196m*\x1b[38;5;21m*\x1b[0m"
    );
    // In sixteen colors both go through the quantizer; identical codes share
    // one sequence.
    assert_eq!(surface.encode(ColorMode::Ansi16, &nearest16), "\x1b[37m**\x1b[0m");
    assert_eq!(surface.encode(ColorMode::Plain, &nearest16), "**");
}

#[test]
fn html_content_carries_rgb_spans() {
    let mut surface = Surface::new(3, 1, Charset::Ascii);
    surface.set(0, 0, Color::Red);
    surface.text(1, 0, "<", Color::Default);
    assert_eq!(
        surface.encode_html(),
        "<span style=\"color:#cd0000\">*</span>&lt;"
    );
}

/// The text with every `ESC ... m` sequence deleted.
fn strip_escapes(text: &str) -> String {
    let mut out = String::new();
    let mut inside = false;
    for c in text.chars() {
        if inside {
            inside = c != 'm';
        } else if c == '\x1b' {
            inside = true;
        } else {
            out.push(c);
        }
    }
    out
}

#[test]
fn stripped_encodings_are_the_plain_text() {
    let mut surface = Surface::new(6, 3, Charset::Braille);
    surface.set(0, 0, Color::Red);
    surface.set(3, 5, Color::Rgb(10, 200, 30));
    surface.set(5, 9, Color::Ansi256(200));
    surface.text(2, 1, "ab 中", Color::Blue);
    surface.text(0, 2, "x", Color::Default);
    let plain = surface.to_plain();
    for mode in [ColorMode::Plain, ColorMode::Ansi16, ColorMode::Ansi256, ColorMode::TrueColor] {
        let encoded = surface.encode(mode, &nearest16);
        assert_eq!(strip_escapes(&encoded), plain);
    }
    assert!(surface.encode(ColorMode::TrueColor, &nearest16).contains('\x1b'));
}

#[test]
fn empty_surfaces_of_any_width_encode_to_nothing() {
    let mut surface = Surface::new(usize::MAX, 0, Charset::Braille);
    assert_eq!(surface.size(), (usize::MAX, 0));
    surface.set(3, 0, Color::Red);
    surface.text(0, 0, "abc", Color::Red);
    assert_eq!(surface.to_plain(), "");
    assert_eq!(surface.encode(ColorMode::TrueColor, &nearest16), "");
    assert_eq!(Surface::new(0, 0, Charset::Braille).to_plain(), "");
    assert_eq!(Surface::new(3, 0, Charset::Ascii).encode(ColorMode::Ansi16, &nearest16), "");
    assert_eq!(Surface::new(0, 3, Charset::Ascii).to_plain(), "\n\n");
}

#[test]
fn escapes_in_text_take_no_cell() {
    let mut surface = Surface::new(4, 1, Charset::Ascii);
    surface.text(0, 0, "a\x1b[31mb", Color::Default);
    assert_eq!(surface.to_plain(), "a[31");
}
