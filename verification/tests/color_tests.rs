use malevich::color::{Color, ColorMode, Resolved, ansi256_to_rgb, rgb_to_256};

/// The 16-color quantizer encoders are handed: nearest palette color in
/// OKLab, by lightness and hue at one reference chroma, within the color's
/// own class of chromatic or grey.
fn rgb_to_16(r: u8, g: u8, b: u8) -> u8 {
    const PALETTE16: [(u8, u8, u8); 16] = [
        (0, 0, 0),
        (205, 0, 0),
        (0, 205, 0),
        (205, 205, 0),
        (0, 0, 238),
        (205, 0, 205),
        (0, 205, 205),
        (229, 229, 229),
        (127, 127, 127),
        (255, 0, 0),
        (0, 255, 0),
        (255, 255, 0),
        (92, 92, 255),
        (255, 0, 255),
        (0, 255, 255),
        (255, 255, 255),
    ];
    const ACHROMATIC_CHROMA: f64 = 0.03;
    const REFERENCE_CHROMA: f64 = 0.15;
    let oklab = |(r, g, b): (u8, u8, u8)| {
        let linear = |channel: u8| {
            let c = f64::from(channel) / 255.0;
            if c <= 0.04045 {
                c / 12.92
            } else {
                ((c + 0.055) / 1.055).powf(2.4)
            }
        };
        let (r, g, b) = (linear(r), linear(g), linear(b));
        let l = (0.412_221_470_8 * r + 0.536_332_536_3 * g + 0.051_445_992_9 * b).cbrt();
        let m = (0.211_903_498_2 * r + 0.680_699_545_1 * g + 0.107_396_956_6 * b).cbrt();
        let s = (0.088_302_461_9 * r + 0.281_718_837_6 * g + 0.629_978_700_5 * b).cbrt();
        (
            0.210_454_255_3 * l + 0.793_617_785 * m - 0.004_072_046_8 * s,
            1.977_998_495_1 * l - 2.428_592_205 * m + 0.450_593_709_9 * s,
            0.025_904_037_1 * l + 0.782_771_766_2 * m - 0.808_675_766 * s,
        )
    };
    let chroma = |(_, a, b): (f64, f64, f64)| a.hypot(b);
    let place = |lab: (f64, f64, f64)| {
        let c = chroma(lab);
        if c > ACHROMATIC_CHROMA {
            (lab.0, lab.1 / c * REFERENCE_CHROMA, lab.2 / c * REFERENCE_CHROMA)
        } else {
            (lab.0, 0.0, 0.0)
        }
    };
    let target = oklab((r, g, b));
    let colored = chroma(target) > ACHROMATIC_CHROMA;
    let target = place(target);
    let mut best = 0usize;
    let mut best_distance = f64::INFINITY;
    for (index, &entry) in PALETTE16.iter().enumerate() {
        let candidate = oklab(entry);
        if (chroma(candidate) > ACHROMATIC_CHROMA) != colored {
            continue;
        }
        let candidate = place(candidate);
        let distance = (target.0 - candidate.0).powi(2)
            + (target.1 - candidate.1).powi(2)
            + (target.2 - candidate.2).powi(2);
        if distance < best_distance {
            best_distance = distance;
            best = index;
        }
    }
    if best < 8 {
        30 + best as u8
    } else {
        90 + (best as u8 - 8)
    }
}

#[test]
fn the_cube_corners_quantize_exactly() {
    assert_eq!(rgb_to_256(0, 0, 0), 16);
    assert_eq!(rgb_to_256(255, 255, 255), 231);
    assert_eq!(rgb_to_256(95, 135, 175), 16 + 36 + 6 * 2 + 3);
    assert_eq!(rgb_to_256(255, 0, 0), 16 + 36 * 5);
}

#[test]
fn grays_use_the_gray_ramp() {
    assert_eq!(rgb_to_256(128, 128, 128), 232 + 12);
    assert_eq!(rgb_to_256(8, 8, 8), 232);
    assert_eq!(rgb_to_256(2, 2, 2), 16);
    assert_eq!(rgb_to_256(250, 250, 250), 231);
}

#[test]
fn cube_and_ramp_entries_roundtrip_through_their_rgb() {
    for index in [16u8, 67, 123, 196, 231, 232, 244, 255] {
        let (r, g, b) = ansi256_to_rgb(index);
        assert_eq!(rgb_to_256(r, g, b), index, "index {index} -> ({r},{g},{b})");
    }
}

#[test]
fn primaries_map_to_their_bright_ansi_colors() {
    assert_eq!(rgb_to_16(255, 0, 0), 91);
    assert_eq!(rgb_to_16(205, 0, 0), 31);
    assert_eq!(rgb_to_16(0, 0, 0), 30);
    assert_eq!(rgb_to_16(255, 255, 255), 97);
}

#[test]
fn named_colors_stay_palette_relative_at_every_tier() {
    for mode in [ColorMode::Ansi16, ColorMode::Ansi256, ColorMode::TrueColor] {
        assert_eq!(Color::Red.resolve(mode, &rgb_to_16), Resolved::Indexed16(31));
    }
}

#[test]
fn rgb_resolves_downhill_by_mode() {
    let orange = Color::Rgb(255, 165, 0);
    assert_eq!(
        orange.resolve(ColorMode::TrueColor, &rgb_to_16),
        Resolved::Rgb(255, 165, 0)
    );
    assert_eq!(
        orange.resolve(ColorMode::Ansi256, &rgb_to_16),
        Resolved::Indexed256(rgb_to_256(255, 165, 0))
    );
    assert_eq!(
        orange.resolve(ColorMode::Ansi16, &rgb_to_16),
        Resolved::Indexed16(rgb_to_16(255, 165, 0))
    );
    assert_eq!(orange.resolve(ColorMode::Plain, &rgb_to_16), Resolved::Default);
}

#[test]
fn indexed_colors_only_downgrade_for_sixteen_color_output() {
    let index = Color::Ansi256(196);
    assert_eq!(
        index.resolve(ColorMode::TrueColor, &rgb_to_16),
        Resolved::Indexed256(196)
    );
    assert_eq!(index.resolve(ColorMode::Ansi256, &rgb_to_16), Resolved::Indexed256(196));
    assert_eq!(index.resolve(ColorMode::Ansi16, &rgb_to_16), Resolved::Indexed16(91));
}

#[test]
fn resolved_colors_write_combined_foreground_and_background_sgr_forms() {
    let mut out = String::new();
    Resolved::write_transition(
        Some(Resolved::Indexed16(31)),
        Some(Resolved::Indexed16(34)),
        &mut out,
    );
    Resolved::write_transition(
        Some(Resolved::Indexed256(196)),
        Some(Resolved::Indexed256(21)),
        &mut out,
    );
    Resolved::write_transition(
        Some(Resolved::Rgb(1, 2, 3)),
        Some(Resolved::Rgb(4, 5, 6)),
        &mut out,
    );
    Resolved::write_transition(Some(Resolved::Default), Some(Resolved::Default), &mut out);
    assert_eq!(
        out,
        "\x1b[31;44m\x1b[38;5;196;48;5;21m\x1b[38;2;1;2;3;48;2;4;5;6m\x1b[39;49m"
    );
}

#[test]
fn plain_mode_drops_every_color() {
    for color in [Color::Default, Color::Red, Color::Ansi256(17), Color::Rgb(9, 8, 7)] {
        assert_eq!(color.resolve(ColorMode::Plain, &rgb_to_16), Resolved::Default);
    }
}

#[test]
fn concrete_rgb_of_named_and_default_colors() {
    assert_eq!(Color::Default.to_rgb(), (128, 128, 128));
    assert_eq!(Color::Red.to_rgb(), (205, 0, 0));
    assert_eq!(Color::BrightBlue.to_rgb(), (92, 92, 255));
    assert_eq!(Color::Ansi256(196).to_rgb(), (255, 0, 0));
    assert_eq!(Color::Ansi256(244).to_rgb(), (128, 128, 128));
    assert_eq!(Color::Rgb(1, 2, 3).to_rgb(), (1, 2, 3));
    assert_eq!(Color::Red.sgr(), 31);
    assert_eq!(Color::BrightWhite.sgr(), 97);
}

#[test]
fn a_lone_foreground_writes_one_sgr() {
    let mut out = String::new();
    Resolved::Indexed16(32).write_sgr(&mut out);
    Resolved::Default.write_sgr(&mut out);
    assert_eq!(out, "\x1b[32m\x1b[39m");
}
