use malevich::charset::{Charset, rising_fill, sinking_fill};

#[test]
fn densities_match_the_glyph_grids() {
    assert_eq!(Charset::Ascii.pixels_per_cell(), (1, 1));
    assert_eq!(Charset::Braille.pixels_per_cell(), (2, 4));
}

#[test]
fn braille_bits_follow_the_unicode_dot_layout() {
    // Left column, top to bottom: dots 1, 2, 3, 7.
    assert_eq!(Charset::Braille.bit(0, 0), 0x01);
    assert_eq!(Charset::Braille.bit(0, 1), 0x02);
    assert_eq!(Charset::Braille.bit(0, 2), 0x04);
    assert_eq!(Charset::Braille.bit(0, 3), 0x40);
    // Right column, top to bottom: dots 4, 5, 6, 8.
    assert_eq!(Charset::Braille.bit(1, 0), 0x08);
    assert_eq!(Charset::Braille.bit(1, 1), 0x10);
    assert_eq!(Charset::Braille.bit(1, 2), 0x20);
    assert_eq!(Charset::Braille.bit(1, 3), 0x80);
}

#[test]
fn empty_patterns_are_spaces_in_every_charset() {
    assert_eq!(Charset::Ascii.glyph(0), ' ');
    assert_eq!(Charset::Braille.glyph(0), ' ');
}

#[test]
fn braille_glyphs_offset_into_the_braille_block() {
    assert_eq!(Charset::Braille.glyph(0x01), '\u{2801}');
    assert_eq!(Charset::Braille.glyph(0xFF), '\u{28FF}');
}

#[test]
fn ascii_draws_any_lit_pattern_as_a_star() {
    assert_eq!(Charset::Ascii.bit(0, 0), 1);
    assert_eq!(Charset::Ascii.glyph(1), '*');
}

#[test]
fn every_braille_pattern_prints_its_own_glyph() {
    for bits in 1..=255u8 {
        let glyph = Charset::Braille.glyph(bits);
        assert_eq!(glyph as u32, 0x2800 + u32::from(bits));
    }
}

#[test]
fn bar_cells_fill_by_eighths() {
    let eighths = ['▁', '▂', '▃', '▄', '▅', '▆', '▇', '█'];
    assert_eq!(rising_fill(&eighths, 0), None);
    assert_eq!(rising_fill(&eighths, 3), Some('▃'));
    assert_eq!(rising_fill(&eighths, 8), Some('█'));
    assert_eq!(rising_fill(&eighths, 12), Some('█'));
    assert_eq!(rising_fill(&['#'], 3), None);
    assert_eq!(rising_fill(&['#'], 4), Some('#'));
    assert_eq!(sinking_fill(&eighths, 7), Some('\u{2588}'));
    assert_eq!(sinking_fill(&eighths, 5), Some('\u{2580}'));
    assert_eq!(sinking_fill(&eighths, 1), Some('\u{2594}'));
    assert_eq!(sinking_fill(&eighths, 0), None);
    assert_eq!(sinking_fill(&['#'], 4), Some('#'));
    assert_eq!(sinking_fill(&['#'], 3), None);
}
