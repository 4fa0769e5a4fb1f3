use malevich::format::{NumberFormat, decimal, exponent_form, scale_digits, scales_exactly, si_prefix};

#[test]
fn formats_zero_without_fraction_as_plain_zero() {
    assert_eq!(decimal(0, 0), "0");
    assert_eq!(decimal(0, 3), "0");
}

#[test]
fn formats_zero_with_fraction_digits_for_alignment() {
    assert_eq!(decimal(0, -2), "0.00");
}

#[test]
fn appends_zeros_for_positive_exponents() {
    assert_eq!(decimal(5, 2), "500");
    assert_eq!(decimal(-12, 1), "-120");
    assert_eq!(decimal(7, 0), "7");
}

#[test]
fn places_the_decimal_point_inside_the_mantissa() {
    assert_eq!(decimal(1234, -2), "12.34");
    assert_eq!(decimal(-1234, -3), "-1.234");
}

#[test]
fn pads_small_mantissas_with_leading_fraction_zeros() {
    assert_eq!(decimal(7, -3), "0.007");
    assert_eq!(decimal(-7, -1), "-0.7");
}

#[test]
fn keeps_the_fraction_width_of_the_exponent() {
    assert_eq!(decimal(50, -2), "0.50");
    assert_eq!(decimal(100, -2), "1.00");
}

#[test]
fn decimal_labels_parse_back_to_their_values() {
    for (mantissa, exp10) in [(1234i128, -2i32), (-7, -3), (5, 2), (0, -4), (-98765, 0), (1, -20)] {
        let label = decimal(mantissa, exp10);
        let parsed: f64 = label.parse().unwrap();
        let expected = mantissa as f64 * 10f64.powi(exp10);
        assert!((parsed - expected).abs() <= expected.abs() * 1e-12);
        assert_eq!(label.starts_with('-'), mantissa < 0);
        if exp10 < 0 {
            let (_, fraction) = label.split_once('.').unwrap();
            assert_eq!(fraction.len(), exp10.unsigned_abs() as usize);
        } else {
            assert!(!label.contains('.'));
        }
    }
}

#[test]
fn extreme_mantissas_format_without_overflow() {
    assert_eq!(
        decimal(i128::MIN, -3),
        "-170141183460469231731687303715884105.728"
    );
    assert_eq!(decimal(i128::MAX, 1), "1701411834604692317316873037158841057270");
}

#[test]
fn si_prefixes_engage_outside_the_plain_band() {
    assert_eq!(si_prefix(3), None);
    assert_eq!(si_prefix(-3), None);
    assert_eq!(si_prefix(4), Some((3, 'k')));
    assert_eq!(si_prefix(6), Some((6, 'M')));
    assert_eq!(si_prefix(14), Some((12, 'T')));
    assert_eq!(si_prefix(15), None);
    assert_eq!(si_prefix(-4), Some((-6, '\u{00B5}')));
    assert_eq!(si_prefix(-7), Some((-9, 'n')));
    assert_eq!(si_prefix(-12), Some((-12, 'p')));
    assert_eq!(si_prefix(-13), None);
}

#[test]
fn scaling_digits_rounds_half_away_from_zero() {
    assert!(scales_exactly(1200, -2));
    assert!(!scales_exactly(1234, -2));
    assert!(scales_exactly(0, -50));
    assert!(!scales_exactly(5, -50));
    assert_eq!(scale_digits(1250, -2), Some(13));
    assert_eq!(scale_digits(1249, -2), Some(12));
    assert_eq!(scale_digits(7, 3), Some(7000));
    assert_eq!(scale_digits(1, 40), None);
    assert_eq!(scale_digits(5, -60), Some(0));
}

#[test]
fn number_formats_share_one_resolution() {
    // 0.4821, 0.517, 1.104: largest magnitude 10^0, four significant digits.
    let losses = NumberFormat::for_magnitude(Some(0), false);
    assert_eq!(losses.prefix, None);
    assert_eq!(losses.fraction, 3);
    assert_eq!(losses.exponent, None);
    // 125000 and 98500: a kilo prefix keeps the budget.
    let counts = NumberFormat::for_magnitude(Some(5), true);
    assert_eq!(counts.prefix, Some((3, 'k')));
    assert_eq!(counts.fraction, 1);
    // A whole-number column keeps whole labels.
    let whole = NumberFormat::for_magnitude(Some(2), true);
    assert_eq!(whole.fraction, 0);
    // Beyond the prefix table: one power of ten for the set.
    let huge = NumberFormat::for_magnitude(Some(308), false);
    assert_eq!(huge.prefix, None);
    assert_eq!(huge.exponent, Some(308));
    assert_eq!(huge.fraction, 3);
    assert_eq!(huge.widened(2).fraction, 5);
    // Nothing finite: whole numbers, no prefix.
    let empty = NumberFormat::for_magnitude(None, false);
    assert_eq!(empty.fraction, 0);
    assert_eq!(empty.prefix, None);
}

#[test]
fn exponent_labels_read_against_their_power() {
    assert_eq!(exponent_form(1798, -3, 308), "1.798e308");
    assert_eq!(exponent_form(-2500, -3, -20), "-2.500e-20");
}

#[test]
fn negative_digits_round_half_away_from_zero() {
    assert_eq!(scale_digits(-16, -1), Some(-2));
    assert_eq!(scale_digits(-15, -1), Some(-2));
    assert_eq!(scale_digits(-14, -1), Some(-1));
    assert_eq!(scale_digits(15, -1), Some(2));
    assert_eq!(scale_digits(14, -1), Some(1));
    assert_eq!(scale_digits(i128::MIN, -38), Some(-2));
    assert_eq!(scale_digits(-7, 3), Some(-7000));
}
