use malevich::scale::Scale;
use malevich::stack::{StackOffset, StackOptions, StackOrder, StepDirection};
use malevich::ticks::{
    Candidate, Scaling, TickOptions, band_labels, decade_powers, materialize, power_of_ten_label,
    scaling, with_unit, zero_included,
};
use malevich::unit::{Unit, binary_unit};

#[test]
fn powers_of_ten_print_with_superscripts() {
    assert_eq!(power_of_ten_label(0), "1");
    assert_eq!(power_of_ten_label(1), "10");
    assert_eq!(power_of_ten_label(2), "10\u{00B2}");
    assert_eq!(power_of_ten_label(-3), "10\u{207B}\u{00B3}");
    assert_eq!(power_of_ten_label(10), "10\u{00B9}\u{2070}");
    assert_eq!(power_of_ten_label(-47), "10\u{207B}\u{2074}\u{2077}");
}

#[test]
fn axes_scale_by_their_largest_tick() {
    assert_eq!(scaling(&vec![0, 25, 50], -1), Scaling::Plain);
    assert_eq!(scaling(&vec![0, 0], 9), Scaling::Plain);
    assert_eq!(scaling(&Vec::new(), 9), Scaling::Plain);
    assert_eq!(scaling(&vec![10, 20], 3), Scaling::Prefix { shift: 3, suffix: 'k' });
    assert_eq!(scaling(&vec![1, 2], -5), Scaling::Prefix { shift: -6, suffix: '\u{00B5}' });
    assert_eq!(scaling(&vec![-5, 5], 20), Scaling::Exponent(20));
    assert_eq!(scaling(&vec![1, 2], -100), Scaling::Exponent(-100));
}

#[test]
fn zero_is_included_only_on_the_grid() {
    assert!(zero_included(-2, 1, 5));
    assert!(zero_included(-4, 2, 3));
    assert!(!zero_included(-3, 2, 3));
    assert!(!zero_included(1, 1, 5));
    assert!(!zero_included(-9, 1, 3));
}

#[test]
fn labels_strip_zeros_and_share_one_fraction_width() {
    // 0.0, 0.5, 1.0, 1.5 from a step of 5 tenths at 10^-1.
    let candidate = Candidate {
        start: 0,
        skip: 1,
        step_mantissa: 50,
        exp10: -2,
        count: 4,
    };
    let ticks = materialize(&candidate, &Unit::Plain, "");
    assert_eq!(ticks.labels, ["0.0", "0.5", "1.0", "1.5"]);
    assert_eq!(ticks.mantissas, [0, 5, 10, 15]);
    assert_eq!(ticks.exp10, -1);
    // Negative values never read as -0.
    let candidate = Candidate {
        start: -2,
        skip: 1,
        step_mantissa: 10,
        exp10: -1,
        count: 5,
    };
    let ticks = materialize(&candidate, &Unit::Plain, "");
    assert_eq!(ticks.labels, ["-2", "-1", "0", "1", "2"]);
}

#[test]
fn large_axes_share_one_si_prefix() {
    let candidate = Candidate {
        start: 0,
        skip: 1,
        step_mantissa: 25,
        exp10: 5,
        count: 5,
    };
    let ticks = materialize(&candidate, &Unit::Plain, "");
    assert_eq!(ticks.labels, ["0", "2.5M", "5.0M", "7.5M", "10.0M"]);
}

#[test]
fn units_follow_the_shared_prefix() {
    let candidate = Candidate {
        start: 0,
        skip: 1,
        step_mantissa: 25,
        exp10: 3,
        count: 3,
    };
    let ticks = materialize(&candidate, &Unit::Plain, "");
    assert_eq!(ticks.labels, ["0", "25k", "50k"]);
    let ticks = materialize(&candidate, &Unit::si("B"), "");
    assert_eq!(ticks.labels, ["0 kB", "25 kB", "50 kB"]);
    // A suffix axis takes no SI prefix.
    let ticks = materialize(&candidate, &Unit::suffix("%"), "");
    assert_eq!(ticks.labels, ["0%", "25000%", "50000%"]);
    let ticks = materialize(&candidate, &Unit::Bytes, "KiB");
    assert_eq!(ticks.labels, ["0 KiB", "25000 KiB", "50000 KiB"]);
}

#[test]
fn axes_past_the_prefix_table_read_against_one_power() {
    let candidate = Candidate {
        start: 1,
        skip: 1,
        step_mantissa: 10,
        exp10: 19,
        count: 2,
    };
    let ticks = materialize(&candidate, &Unit::Plain, "");
    assert_eq!(ticks.labels, ["1.0e20", "2.0e20"]);
}

#[test]
fn endpoint_labels_take_the_unit() {
    assert_eq!(with_unit("2.5M", &Unit::si("B"), ""), "2.5 MB");
    assert_eq!(with_unit("2.5", &Unit::si("s"), ""), "2.5 s");
    assert_eq!(with_unit("45", &Unit::suffix("%"), ""), "45%");
    assert_eq!(with_unit("1.5", &Unit::Bytes, "GiB"), "1.5 GiB");
    assert_eq!(with_unit("7", &Unit::Plain, ""), "7");
    assert_eq!(with_unit("100\u{00B5}", &Unit::si("s"), ""), "100 \u{00B5}s");
}

#[test]
fn strided_decades_prefer_multiples_of_the_stride() {
    // Nine decades at a target of three: stride 3, and the phase on
    // multiples of three keeps as many ticks as any other, so it wins.
    let powers = decade_powers(0, 8, 3);
    assert_eq!(powers, [0, 3, 6]);
    let labels: Vec<String> = powers.into_iter().map(power_of_ten_label).collect();
    assert_eq!(labels, ["1", "10\u{00B3}", "10\u{2076}"]);
    // Eight decades from 10¹: the aligned phase would keep only 10³ and 10⁶,
    // so the phase with three ticks wins instead.
    let powers = decade_powers(1, 8, 3);
    assert_eq!(powers, [1, 4, 7]);
    let labels: Vec<String> = powers.into_iter().map(power_of_ten_label).collect();
    assert_eq!(labels, ["10", "10\u{2074}", "10\u{2077}"]);
    // No stride: every decade, unchanged.
    assert_eq!(decade_powers(0, 4, 8).len(), 5);
}

#[test]
fn decade_strides_on_other_ranges() {
    assert_eq!(decade_powers(0, 3, 5), [0, 1, 2, 3]);
    // Eleven decades for a target of five: every third decade, on the
    // multiples of three.
    assert_eq!(decade_powers(-1, 9, 5), [0, 3, 6, 9]);
    // A phase that keeps one more decade wins over the multiples.
    assert_eq!(decade_powers(1, 7, 3), [1, 4, 7]);
    // A target below two counts as two.
    assert_eq!(decade_powers(0, 1, 0), [0, 1]);
}

#[test]
fn band_labels_fit_their_budget() {
    let categories = vec!["apples".to_string(), "fig".to_string()];
    assert_eq!(band_labels(&categories, 4, '\u{2026}'), ["app\u{2026}", "fig"]);
}

#[test]
fn options_build_up() {
    let options = TickOptions::new().unit(Unit::si("B")).integer();
    assert_eq!(options.unit, Unit::Si("B".to_string()));
    assert!(options.integer);
    assert_eq!(TickOptions::default(), TickOptions::new());
    assert!(Unit::Plain.is_plain());
    assert!(!Unit::Bytes.is_plain());
    assert_eq!(Unit::default(), Unit::Plain);
    assert_eq!(Unit::suffix("%"), Unit::Suffix("%".to_string()));
    assert_eq!(binary_unit(0), "B");
    assert_eq!(binary_unit(3), "GiB");
    assert_eq!(binary_unit(12), "YiB");
}

#[test]
fn bands_name_the_categories() {
    assert_eq!(
        Scale::bands(&["a", "b"]),
        Scale::Bands(vec!["a".to_string(), "b".to_string()])
    );
    assert_eq!(Scale::default(), Scale::Linear);
}

#[test]
fn stack_options_default_to_the_zero_baseline() {
    let options = StackOptions::new();
    assert_eq!(options.offset, StackOffset::Zero);
    assert_eq!(options.order, StackOrder::Input);
    let options = options.offset(StackOffset::Center).order(StackOrder::Sum);
    assert_eq!(options.offset, StackOffset::Center);
    assert_eq!(options.order, StackOrder::Sum);
    assert_eq!(StackOptions::default(), StackOptions::new());
    assert_eq!(StepDirection::default(), StepDirection::Post);
}
