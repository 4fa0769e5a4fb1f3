use malevich::color::{Color, rgb_to_256};
use malevich::error::Error;
use malevich::palette::Palette;

#[test]
fn runtime_colors_move_into_an_owned_palette() {
    let colors = vec![Color::Cyan, Color::Rgb(1, 2, 3)];
    let palette = Palette::try_from_colors(colors).unwrap();
    assert_eq!(palette.colors(), [Color::Cyan, Color::Rgb(1, 2, 3)]);
}

#[test]
fn a_runtime_palette_requires_a_color() {
    assert!(matches!(
        Palette::try_from_colors(Vec::new()),
        Err(Error::EmptyDimension {
            what: "Palette colors"
        })
    ));
}

#[test]
fn the_default_palette_is_okabe_ito() {
    let palette = Palette::default();
    assert_eq!(palette.colors().len(), 7);
    assert_eq!(palette.colors()[0], Color::Rgb(230, 159, 0));
    assert_eq!(palette.colors(), Palette::okabe_ito().colors());
}

#[test]
fn categories_past_the_palette_wrap_around() {
    let palette = Palette::try_from_colors(vec![Color::Red, Color::Green]).unwrap();
    assert_eq!(palette.color(0), Color::Red);
    assert_eq!(palette.color(1), Color::Green);
    assert_eq!(palette.color(2), Color::Red);
    assert_eq!(palette.color(5), Color::Green);
}

#[test]
fn tols_palettes_stand_beside_okabe_ito() {
    assert_eq!(Palette::bright().colors().len(), 7);
    assert_eq!(Palette::bright().colors()[0], Color::Rgb(68, 119, 170));
    assert_eq!(Palette::muted().colors().len(), 9);
    assert_eq!(Palette::muted().colors()[0], Color::Rgb(51, 34, 136));
    // Every color of each scheme survives the 256-color tier distinct.
    for palette in [Palette::bright(), Palette::muted()] {
        let mut codes: Vec<u8> = palette
            .colors()
            .iter()
            .map(|color| match color {
                Color::Rgb(r, g, b) => rgb_to_256(*r, *g, *b),
                other => panic!("Tol's colors are RGB, got {other:?}"),
            })
            .collect();
        codes.sort_unstable();
        codes.dedup();
        assert_eq!(codes.len(), palette.colors().len());
    }
}
