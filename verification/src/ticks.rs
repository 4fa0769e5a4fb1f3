//! The integer side of tick placement for linear and log axes.
//!
//! Chosen tick values are carried as exact decimals — an integer mantissa
//! times a power of ten — so labels are produced by integer math: no
//! binary-float artifacts, and a uniform number of decimals across the axis.
//! The search that scores candidate labelings, and the tick positions as
//! floats, stay with the caller; what is decided here is what every label
//! reads.

use vstd::prelude::*;

use crate::format::{
    abs_nat, decimal, exponent_form, lemma_mod_zero_abs, lemma_pow10_38_39, pow10, si_prefix, spec_decimal, spec_exponent_form,
    si_letter_power, spec_si_prefix, unsigned_abs,
};
use crate::text::{chars_of, decimal_chars, decimal_digits, push_char, push_range, push_str};
use crate::unit::Unit;
use crate::width::{fit_width_with, spec_fit_width};

verus! {

/// How a linear axis labels its ticks: the unit the labels carry, and
/// whether the step may drop below one.
#[derive(Debug, Clone, PartialEq, Eq)]
pub struct TickOptions {
    /// The unit on every label; [`Unit::Plain`] by default.
    pub unit: Unit,
    /// Whole-number ticks only: the step never drops below one.
    pub integer: bool,
}

impl TickOptions {
    /// Plain labels, any step.
    pub fn new() -> (o: TickOptions)
        ensures
            o.unit is Plain,
            !o.integer,
    {
        TickOptions { unit: Unit::Plain, integer: false }
    }

    /// Sets the unit.
    pub fn unit(self, unit: Unit) -> (o: TickOptions)
        ensures
            o.unit == unit,
            o.integer == self.integer,
    {
        TickOptions { unit, integer: self.integer }
    }

    /// Restricts ticks to whole numbers.
    pub fn integer(self) -> (o: TickOptions)
        ensures
            o.unit == self.unit,
            o.integer,
    {
        TickOptions { unit: self.unit, integer: true }
    }
}

impl Default for TickOptions {
    fn default() -> (o: TickOptions)
        ensures
            o.unit is Plain,
            !o.integer,
    {
        TickOptions::new()
    }
}

/// The superscript form of the decimal digit `d`.
pub open spec fn superscript(d: int) -> char {
    if d == 0 {
        '\u{2070}'
    } else if d == 1 {
        '\u{00B9}'
    } else if d == 2 {
        '\u{00B2}'
    } else if d == 3 {
        '\u{00B3}'
    } else {
        ('\u{2070}' as int + d) as char
    }
}

/// The decimal digits of `n` in superscript.
pub open spec fn superscript_digits(n: nat) -> Seq<char>
    decreases n,
{
    if n < 10 {
        seq![superscript(n as int)]
    } else {
        superscript_digits(n / 10).push(superscript((n % 10) as int))
    }
}

/// `10^power` with Unicode superscripts: `1`, `10`, `10²`, `10⁻³`.
pub open spec fn spec_power_label(power: int) -> Seq<char> {
    if power == 0 {
        seq!['1']
    } else if power == 1 {
        seq!['1', '0']
    } else {
        seq!['1', '0'] + (if power < 0 {
            seq!['\u{207B}']
        } else {
            Seq::empty()
        }) + superscript_digits(abs_nat(power))
    }
}

/// The superscript form of a decimal digit.
fn superscript_char(d: u32) -> (c: char)
    requires
        d < 10,
    ensures
        c == superscript(d as int),
{
    match d {
        0 => '\u{2070}',
        1 => '\u{00B9}',
        2 => '\u{00B2}',
        3 => '\u{00B3}',
        4 => '\u{2074}',
        5 => '\u{2075}',
        6 => '\u{2076}',
        7 => '\u{2077}',
        8 => '\u{2078}',
        _ => '\u{2079}',
    }
}

/// Appends the superscript digits of `n`.
fn push_superscript(out: &mut String, n: u32)
    ensures
        final(out)@ == old(out)@ + superscript_digits(n as nat),
    decreases n,
{
    if n >= 10 {
        push_superscript(out, n / 10);
    }
    push_char(out, superscript_char(n % 10));
    assert(final(out)@ =~= old(out)@ + superscript_digits(n as nat));
}

/// Formats `10^power` with Unicode superscripts: `1`, `10`, `10²`, `10⁻³`.
pub fn power_of_ten_label(power: i32) -> (label: String)
    ensures
        label@ == spec_power_label(power as int),
{
    let mut label = String::new();
    if power == 0 {
        push_char(&mut label, '1');
    } else if power == 1 {
        push_char(&mut label, '1');
        push_char(&mut label, '0');
    } else {
        push_char(&mut label, '1');
        push_char(&mut label, '0');
        if power < 0 {
            push_char(&mut label, '\u{207B}');
        }
        let magnitude: u32 = if power < 0 {
            if power == i32::MIN {
                2147483648u32
            } else {
                (-power) as u32
            }
        } else {
            power as u32
        };
        push_superscript(&mut label, magnitude);
    }
    assert(label@ =~= spec_power_label(power as int));
    label
}

/// The digit a Unicode superscript digit stands for: `⁰`, `¹`, `²`, `³`
/// (the Latin-1 forms U+00B9, U+00B2, U+00B3) and `⁴` through `⁹`
/// (U+2074..U+2079); no other character.
pub open spec fn superscript_value(c: char) -> Option<int> {
    if c == '\u{2070}' {
        Some(0)
    } else if c == '\u{00B9}' {
        Some(1)
    } else if c == '\u{00B2}' {
        Some(2)
    } else if c == '\u{00B3}' {
        Some(3)
    } else if '\u{2074}' <= c <= '\u{2079}' {
        Some(c as int - 0x2070)
    } else {
        None
    }
}

/// Reads a run of superscript digits back as a number.
pub open spec fn read_superscript(s: Seq<char>) -> Option<nat>
    decreases s.len(),
{
    if s.len() == 0 {
        None
    } else {
        match superscript_value(s.last()) {
            None => None,
            Some(d) => if s.len() == 1 {
                Some(d as nat)
            } else {
                match read_superscript(s.drop_last()) {
                    Some(n) => Some((10 * n + d) as nat),
                    None => None,
                }
            },
        }
    }
}

proof fn lemma_superscript_digit(d: int)
    requires
        0 <= d < 10,
    ensures
        superscript_value(superscript(d)) == Some(d),
{
}

proof fn lemma_read_superscript_digits(n: nat)
    ensures
        read_superscript(superscript_digits(n)) == Some(n),
        superscript_digits(n).len() >= 1,
    decreases n,
{
    if n < 10 {
        lemma_superscript_digit(n as int);
    } else {
        lemma_read_superscript_digits(n / 10);
        lemma_superscript_digit((n % 10) as int);
        let s = superscript_digits(n);
        assert(s.drop_last() =~= superscript_digits(n / 10));
    }
}

/// Decade labels read back to their power: `10^p` is labeled `1` for
/// `p = 0`, `10` for `p = 1`, and otherwise `10`, a superscript minus when
/// `p` is negative, and superscript digits that read back as `|p|` — each
/// digit the superscript of its own value.
pub proof fn law_power_labels_read_back(power: int)
    ensures
        forall|d: int| 0 <= d < 10 ==> superscript_value(#[trigger] superscript(d)) == Some(d),
        power == 0 ==> spec_power_label(power) == seq!['1'],
        power == 1 ==> spec_power_label(power) == seq!['1', '0'],
        power != 0 && power != 1 ==> {
            let label = spec_power_label(power);
            let digits = label.skip(if power < 0 { 3int } else { 2int });
            &&& label.take(2) == seq!['1', '0']
            &&& power < 0 ==> label[2] == '\u{207B}'
            &&& read_superscript(digits) == Some(abs_nat(power))
        },
{
    assert forall|d: int| 0 <= d < 10 implies superscript_value(#[trigger] superscript(d)) == Some(d) by {
        lemma_superscript_digit(d);
    }
    if power != 0 && power != 1 {
        lemma_read_superscript_digits(abs_nat(power));
        let label = spec_power_label(power);
        let digits = label.skip(if power < 0 { 3int } else { 2int });
        assert(digits =~= superscript_digits(abs_nat(power)));
        assert(label.take(2) =~= seq!['1', '0']);
    }
}

/// An axis scaled by an SI prefix labels with the SI letter of the power
/// it divides by.
pub proof fn law_prefixed_axes_name_their_factor(mantissas: Seq<i128>, exp10: int)
    ensures
        spec_scaling(mantissas, exp10) matches Scaling::Prefix { shift, suffix } ==> si_letter_power(
            suffix,
        ) == Some(shift as int),
{
    let max = max_abs(mantissas);
    if max != 0 {
        let magnitude = decimal_digits(max).len() - 1 + exp10;
        crate::format::law_si_prefixes_name_their_factor(magnitude);
    }
}

/// How one axis's labels are scaled: plain decimals, one SI prefix, or one
/// power of ten.
#[derive(Debug, Clone, Copy, PartialEq, Eq, Structural)]
pub enum Scaling {
    /// Plain decimals.
    Plain,
    /// Every value divided by `10^shift` and labeled with `suffix`.
    Prefix { shift: i32, suffix: char },
    /// Every value written against `10^exponent`.
    Exponent(i32),
}

/// The largest magnitude among the mantissas.
pub open spec fn max_abs(mantissas: Seq<i128>) -> nat
    decreases mantissas.len(),
{
    if mantissas.len() == 0 {
        0
    } else {
        let rest = max_abs(mantissas.drop_last());
        let last = abs_nat(mantissas.last() as int);
        if last > rest {
            last
        } else {
            rest
        }
    }
}

/// The scaling an axis takes from the magnitude of its largest tick: an SI
/// prefix at ten thousand and up or below a thousandth, one shared power of
/// ten beyond the prefix table, and plain decimals otherwise (and for an
/// axis of zeros).
pub open spec fn spec_scaling(mantissas: Seq<i128>, exp10: int) -> Scaling {
    let max = max_abs(mantissas);
    if max == 0 {
        Scaling::Plain
    } else {
        let magnitude = decimal_digits(max).len() - 1 + exp10;
        if magnitude < 4 && magnitude > -4 {
            Scaling::Plain
        } else {
            match spec_si_prefix(magnitude) {
                Some((shift, suffix)) => Scaling::Prefix { shift, suffix },
                None => Scaling::Exponent(magnitude as i32),
            }
        }
    }
}

/// Chooses one scaling for a whole axis, from the magnitude of its largest
/// tick, so no label ever spells a hundred zeros and the numeric part of a
/// scaled label times its factor equals the tick value exactly.
pub fn scaling(mantissas: &Vec<i128>, exp10: i32) -> (s: Scaling)
    requires
        exp10 <= i32::MAX - 64,
    ensures
        s == spec_scaling(mantissas@, exp10 as int),
{
    let mut max: u128 = 0;
    let mut i: usize = 0;
    while i < mantissas.len()
        invariant
            i <= mantissas@.len(),
            max == max_abs(mantissas@.take(i as int)),
        decreases mantissas@.len() - i,
    {
        let ghost prefix = mantissas@.take(i + 1);
        proof {
            assert(prefix.drop_last() =~= mantissas@.take(i as int));
        }
        let m = unsigned_abs(mantissas[i]);
        if m > max {
            max = m;
        }
        i = i + 1;
    }
    proof {
        assert(mantissas@.take(i as int) =~= mantissas@);
    }
    if max == 0 {
        return Scaling::Plain;
    }
    let digits = decimal_chars(max);
    proof {
        lemma_decimal_digits_bounded(max as nat);
    }
    let magnitude = digits.len() as i32 - 1 + exp10;
    if magnitude < 4 && magnitude > -4 {
        return Scaling::Plain;
    }
    match si_prefix(magnitude) {
        Some((shift, suffix)) => Scaling::Prefix { shift, suffix },
        None => Scaling::Exponent(magnitude),
    }
}

/// A `u128` has at most 39 decimal digits.
proof fn lemma_decimal_digits_bounded(n: nat)
    requires
        n <= u128::MAX,
    ensures
        1 <= decimal_digits(n).len() <= 39,
{
    lemma_pow10_38_39();
    lemma_digits_len_below(n, 39);
}

proof fn lemma_digits_len_below(n: nat, k: nat)
    requires
        n < pow10(k),
        k >= 1,
    ensures
        1 <= decimal_digits(n).len() <= k,
    decreases k,
{
    reveal_with_fuel(pow10, 2);
    if n >= 10 {
        assert(n / 10 < pow10((k - 1) as nat)) by (nonlinear_arith)
            requires
                n < pow10(k),
                k >= 1,
                pow10(k) == 10 * pow10((k - 1) as nat),
        ;
        assert(k >= 2) by {
            if k == 1 {
                assert(pow10(1) == 10);
            }
        }
        lemma_digits_len_below(n / 10, (k - 1) as nat);
    }
}

/// Whether a labeling of `count` ticks from `start` in steps of `skip`
/// includes zero: it straddles zero and zero falls on its grid.
pub open spec fn spec_zero_included(start: int, skip: int, count: int) -> bool {
    start <= 0 && start + (count - 1) * skip >= 0 && start % skip == 0
}

/// Whether the labeling `start, start + skip, …` of `count` ticks includes
/// zero.
pub fn zero_included(start: i128, skip: i128, count: usize) -> (b: bool)
    requires
        skip > 0,
        (count - 1) * skip <= i128::MAX,
        i128::MIN <= start + (count - 1) * skip <= i128::MAX,
    ensures
        b == spec_zero_included(start as int, skip as int, count as int),
{
    let steps = count as i128 - 1;
    assert(i128::MIN <= steps * skip) by (nonlinear_arith)
        requires
            steps >= -1,
            skip > 0,
            skip <= i128::MAX,
    ;
    let on_grid = unsigned_abs(start) % (skip as u128) == 0;
    proof {
        lemma_mod_zero_abs(start as int, skip as int);
    }
    start <= 0 && start + steps * skip >= 0 && on_grid
}

/// The scaling an axis with `unit` uses: binary bytes carry their own
/// prefix and a bare suffix carries none, so neither takes an SI prefix —
/// only the exponent form survives for them.
pub open spec fn axis_scaling(unit: Unit, mantissas: Seq<i128>, exp10: int) -> Scaling {
    let scaling = spec_scaling(mantissas, exp10);
    if (unit is Bytes || unit is Suffix) && scaling is Prefix {
        Scaling::Plain
    } else {
        scaling
    }
}

/// The numeric part of the label of `mantissa × 10^exp10` under `scaling`;
/// on a prefixed or exponent axis zero is a bare `0`.
pub open spec fn spec_numeric(mantissa: int, exp10: int, scaling: Scaling) -> Seq<char> {
    match scaling {
        Scaling::Plain => spec_decimal(mantissa, exp10),
        Scaling::Prefix { shift, .. } => if mantissa == 0 {
            seq!['0']
        } else {
            spec_decimal(mantissa, exp10 - shift)
        },
        Scaling::Exponent(exponent) => if mantissa == 0 {
            seq!['0']
        } else {
            spec_exponent_form(mantissa, exp10 - exponent, exponent as int)
        },
    }
}

/// The SI prefix a label carries: the axis's, except on a plain zero, which
/// stays a bare `0`.
pub open spec fn spec_prefix_text(mantissa: int, scaling: Scaling, plain: bool) -> Seq<char> {
    match scaling {
        Scaling::Prefix { suffix, .. } => if mantissa == 0 && plain {
            Seq::empty()
        } else {
            seq![suffix]
        },
        _ => Seq::empty(),
    }
}

/// The label of the tick `mantissa × 10^exp10` on an axis with `scaling`
/// and `unit` (`unit_name` naming the binary unit of a bytes axis).
pub open spec fn spec_tick_label(
    mantissa: int,
    exp10: int,
    scaling: Scaling,
    unit: Unit,
    unit_name: Seq<char>,
) -> Seq<char> {
    let numeric = spec_numeric(mantissa, exp10, scaling);
    let prefix = spec_prefix_text(mantissa, scaling, unit is Plain);
    match unit {
        Unit::Plain => numeric + prefix,
        Unit::Si(name) => numeric + seq![' '] + prefix + name@,
        Unit::Suffix(suffix) => numeric + suffix@,
        Unit::Bytes => numeric + seq![' '] + unit_name,
    }
}

/// The label of one tick.
fn tick_label(mantissa: i128, exp10: i32, scaling: Scaling, unit: &Unit, unit_name: &str) -> (label:
    String)
    requires
        scaling matches Scaling::Prefix { shift, .. } ==> -12 <= shift <= 12,
        scaling matches Scaling::Exponent(exponent) ==> i32::MIN <= exp10 - exponent <= i32::MAX,
        i32::MIN + 12 <= exp10 <= i32::MAX - 12,
    ensures
        label@ == spec_tick_label(mantissa as int, exp10 as int, scaling, *unit, unit_name@),
{
    let mut label = match scaling {
        Scaling::Plain => decimal(mantissa, exp10),
        Scaling::Prefix { shift, .. } => if mantissa == 0 {
            let mut zero = String::new();
            push_char(&mut zero, '0');
            zero
        } else {
            decimal(mantissa, exp10 - shift)
        },
        Scaling::Exponent(exponent) => if mantissa == 0 {
            let mut zero = String::new();
            push_char(&mut zero, '0');
            zero
        } else {
            exponent_form(mantissa, exp10 - exponent, exponent)
        },
    };
    let ghost numeric = label@;
    let plain = unit.is_plain();
    match unit {
        Unit::Plain => {
            if let Scaling::Prefix { suffix, .. } = scaling {
                if !(mantissa == 0 && plain) {
                    push_char(&mut label, suffix);
                }
            }
        },
        Unit::Si(name) => {
            push_char(&mut label, ' ');
            if let Scaling::Prefix { suffix, .. } = scaling {
                if !(mantissa == 0 && plain) {
                    push_char(&mut label, suffix);
                }
            }
            push_str(&mut label, name.as_str());
        },
        Unit::Suffix(suffix) => {
            push_str(&mut label, suffix.as_str());
        },
        Unit::Bytes => {
            push_char(&mut label, ' ');
            push_str(&mut label, unit_name);
        },
    }
    assert(label@ =~= spec_tick_label(mantissa as int, exp10 as int, scaling, *unit, unit_name@));
    label
}

/// A labeling candidate: `count` ticks at `(start + t × skip) × step_mantissa`,
/// scaled by `10^exp10`.
#[derive(Debug, Clone, Copy, PartialEq, Eq, Structural)]
pub struct Candidate {
    /// The first tick's index on the step grid.
    pub start: i128,
    /// Grid steps between adjacent ticks.
    pub skip: i128,
    /// The step mantissa, in tenths (10, 50, 20, 25, 40 or 30).
    pub step_mantissa: i128,
    /// The power of ten the mantissas are scaled by.
    pub exp10: i32,
    /// The number of ticks.
    pub count: usize,
}

impl Candidate {
    /// The mantissa of tick `t`.
    pub open spec fn mantissa(self, t: int) -> int {
        (self.start + t * self.skip) * self.step_mantissa
    }

    /// The mantissas of every tick, in order.
    pub open spec fn mantissas(self) -> Seq<i128> {
        Seq::new(self.count as nat, |t: int| self.mantissa(t) as i128)
    }

    /// Every tick's mantissa, and each step of computing it, fits an
    /// `i128`, and the exponent stays clear of the `i32` ends.
    pub open spec fn fits(self) -> bool {
        &&& forall|t: int|
            0 <= t < self.count ==> fits_mantissa(#[trigger] (t * self.skip)) && fits_mantissa(
                self.start + t * self.skip,
            ) && fits_mantissa(self.mantissa(t))
        &&& i32::MIN + 64 <= self.exp10 <= i32::MAX - 64
    }
}

/// Whether an integer fits an `i128` mantissa.
pub open spec fn fits_mantissa(value: int) -> bool {
    i128::MIN <= value <= i128::MAX
}

/// The labels of a chosen labeling, with the exact decimals they name.
#[derive(Debug, Clone, PartialEq, Eq)]
pub struct TickLabels {
    /// One label per tick, in order.
    pub labels: Vec<String>,
    /// The tick mantissas after stripping common trailing zeros.
    pub mantissas: Vec<i128>,
    /// The power of ten the mantissas are scaled by.
    pub exp10: i32,
}

/// The labels of a candidate: mantissas stripped of common trailing zeros
/// (so `0.50, 1.00` reads `0.5, 1`), one scaling for the whole axis, and
/// every label an exact decimal of its tick — the numeric part times the
/// prefix factor (or the power of ten) equals the tick value.
pub fn materialize(candidate: &Candidate, unit: &Unit, unit_name: &str) -> (r: TickLabels)
    requires
        candidate.fits(),
    ensures
        (r.mantissas@, r.exp10 as int) == stripped(candidate.mantissas(), candidate.exp10 as int),
        r.labels@.len() == r.mantissas@.len(),
        forall|i: int|
            0 <= i < r.labels@.len() ==> #[trigger] r.labels@[i]@ == spec_tick_label(
                r.mantissas@[i] as int,
                r.exp10 as int,
                axis_scaling(*unit, r.mantissas@, r.exp10 as int),
                *unit,
                unit_name@,
            ),
{
    let mut mantissas: Vec<i128> = Vec::new();
    let mut t: usize = 0;
    while t < candidate.count
        invariant
            t <= candidate.count,
            candidate.fits(),
            mantissas@ == candidate.mantissas().take(t as int),
        decreases candidate.count - t,
    {
        proof {
            assert(fits_mantissa(t * candidate.skip));
        }
        let index = candidate.start + t as i128 * candidate.skip;
        mantissas.push(index * candidate.step_mantissa);
        t = t + 1;
        assert(mantissas@ =~= candidate.mantissas().take(t as int));
    }
    assert(mantissas@ =~= candidate.mantissas());
    let exp10 = strip_zeros(&mut mantissas, candidate.exp10);
    proof {
        lemma_stripped_exponent(candidate.mantissas(), candidate.exp10 as int);
    }
    let chosen = scaling(&mantissas, exp10);
    let axis = match unit {
        Unit::Bytes | Unit::Suffix(_) => match chosen {
            Scaling::Prefix { .. } => Scaling::Plain,
            other => other,
        },
        _ => chosen,
    };
    proof {
        lemma_scaling_bounds(mantissas@, exp10 as int);
    }
    let mut labels: Vec<String> = Vec::new();
    let mut i: usize = 0;
    while i < mantissas.len()
        invariant
            i <= mantissas@.len(),
            labels@.len() == i,
            axis == axis_scaling(*unit, mantissas@, exp10 as int),
            axis matches Scaling::Prefix { shift, .. } ==> -12 <= shift <= 12,
            axis matches Scaling::Exponent(exponent) ==> i32::MIN <= exp10 - exponent <= i32::MAX,
            i32::MIN + 12 <= exp10 <= i32::MAX - 12,
            forall|k: int|
                0 <= k < i ==> #[trigger] labels@[k]@ == spec_tick_label(
                    mantissas@[k] as int,
                    exp10 as int,
                    axis,
                    *unit,
                    unit_name@,
                ),
        decreases mantissas@.len() - i,
    {
        labels.push(tick_label(mantissas[i], exp10, axis, unit, unit_name));
        i = i + 1;
    }
    TickLabels { labels, mantissas, exp10 }
}


/// Stripping keeps one mantissa per tick and only raises a negative
/// exponent, never past zero.
proof fn lemma_stripped_exponent(mantissas: Seq<i128>, exp10: int)
    ensures
        stripped(mantissas, exp10).0.len() == mantissas.len(),
        exp10 <= stripped(mantissas, exp10).1,
        exp10 < 0 ==> stripped(mantissas, exp10).1 <= 0,
        exp10 >= 0 ==> stripped(mantissas, exp10).1 == exp10,
    decreases (if exp10 < 0 {
        -exp10
    } else {
        0
    }),
{
    if exp10 < 0 && all_tens(mantissas) {
        lemma_stripped_exponent(tenths(mantissas), exp10 + 1);
    }
}

/// No mantissa of an `i128` is larger than `2^127`.
proof fn lemma_max_abs_bounded(mantissas: Seq<i128>)
    ensures
        max_abs(mantissas) <= 170141183460469231731687303715884105728nat,
    decreases mantissas.len(),
{
    if mantissas.len() > 0 {
        lemma_max_abs_bounded(mantissas.drop_last());
    }
}

/// The scaling of an axis whose exponent is clear of the `i32` ends shifts
/// by at most twelve, and its exponent form leaves a small exponent.
proof fn lemma_scaling_bounds(mantissas: Seq<i128>, exp10: int)
    requires
        i32::MIN + 64 <= exp10 <= i32::MAX - 64,
    ensures
        spec_scaling(mantissas, exp10) matches Scaling::Prefix { shift, .. } ==> -12 <= shift <= 12,
        spec_scaling(mantissas, exp10) matches Scaling::Exponent(exponent) ==> -38 <= exp10
            - exponent <= 0,
{
    let max = max_abs(mantissas);
    lemma_max_abs_bounded(mantissas);
    if max > 0 {
        lemma_decimal_digits_bounded(max);
    }
}


/// Whether every mantissa is a multiple of ten.
pub open spec fn all_tens(mantissas: Seq<i128>) -> bool {
    forall|i: int| 0 <= i < mantissas.len() ==> #[trigger] mantissas[i] % 10 == 0
}

/// Every mantissa divided by ten.
pub open spec fn tenths(mantissas: Seq<i128>) -> Seq<i128> {
    mantissas.map_values(|m: i128| (m / 10) as i128)
}

/// The mantissas and exponent with common trailing zeros moved into the
/// exponent, as long as it is negative: `[10, 20] × 10^-2` is
/// `[1, 2] × 10^-1`.
pub open spec fn stripped(mantissas: Seq<i128>, exp10: int) -> (Seq<i128>, int)
    decreases (if exp10 < 0 {
        -exp10
    } else {
        0
    }),
{
    if exp10 < 0 && all_tens(mantissas) {
        stripped(tenths(mantissas), exp10 + 1)
    } else {
        (mantissas, exp10)
    }
}

/// Moves the common trailing zeros of the mantissas into the exponent while
/// it is negative, and returns the new exponent.
fn strip_zeros(mantissas: &mut Vec<i128>, exp10: i32) -> (e: i32)
    ensures
        (final(mantissas)@, e as int) == stripped(old(mantissas)@, exp10 as int),
{
    let mut e = exp10;
    loop
        invariant
            stripped(old(mantissas)@, exp10 as int) == stripped(mantissas@, e as int),
        decreases (if e < 0 {
            -e
        } else {
            0
        }),
    {
        if e >= 0 {
            return e;
        }
        let mut all = true;
        let mut i: usize = 0;
        while i < mantissas.len()
            invariant
                i <= mantissas@.len(),
                all == (forall|k: int| 0 <= k < i ==> #[trigger] mantissas@[k] % 10 == 0),
            decreases mantissas@.len() - i,
        {
            if mantissas[i] % 10 != 0 {
                all = false;
            }
            i = i + 1;
        }
        if !all {
            return e;
        }
        let ghost before = mantissas@;
        let mut j: usize = 0;
        while j < mantissas.len()
            invariant
                j <= mantissas@.len() == before.len(),
                all_tens(before),
                forall|k: int| 0 <= k < j ==> #[trigger] mantissas@[k] == before[k] / 10,
                forall|k: int| j <= k < before.len() ==> #[trigger] mantissas@[k] == before[k],
            decreases mantissas@.len() - j,
        {
            let m = mantissas[j];
            assert(m % 10 == 0);
            mantissas.set(j, m / 10);
            j = j + 1;
        }
        assert(mantissas@ =~= tenths(before));
        e = e + 1;
    }
}

/// Whether `c` is one of the SI prefix letters an axis label can end in.
pub open spec fn is_prefix_letter(c: char) -> bool {
    c == 'k' || c == 'M' || c == 'G' || c == 'T' || c == '\u{00B5}' || c == 'n' || c == 'p'
}

/// A fallback label carrying the axis's unit: a suffix appended, the binary
/// unit after a space, or an SI unit after a space with the label's own
/// prefix letter (if any) moved next to it.
pub open spec fn spec_with_unit(label: Seq<char>, unit: Unit, unit_name: Seq<char>) -> Seq<char> {
    match unit {
        Unit::Plain => label,
        Unit::Suffix(suffix) => label + suffix@,
        Unit::Bytes => label + seq![' '] + unit_name,
        Unit::Si(name) => if label.len() > 0 && is_prefix_letter(label.last()) {
            label.drop_last() + seq![' ', label.last()] + name@
        } else {
            label + seq![' '] + name@
        },
    }
}

/// The label of an endpoint fallback tick with the axis's unit attached:
/// the suffix appended, the binary unit after a space, or the SI unit after
/// a space — with an SI prefix the label carries spaced off from the number
/// and joined to the unit (`2.5M` reads `2.5 MB`).
pub fn with_unit(label: &str, unit: &Unit, unit_name: &str) -> (out: String)
    ensures
        out@ == spec_with_unit(label@, *unit, unit_name@),
{
    let mut out = String::new();
    match unit {
        Unit::Plain => {
            push_str(&mut out, label);
        },
        Unit::Suffix(suffix) => {
            push_str(&mut out, label);
            push_str(&mut out, suffix.as_str());
        },
        Unit::Bytes => {
            push_str(&mut out, label);
            push_char(&mut out, ' ');
            push_str(&mut out, unit_name);
        },
        Unit::Si(name) => {
            let chars = chars_of(label);
            let n = chars.len();
            let prefixed = n > 0 && {
                let last = chars[n - 1];
                last == 'k' || last == 'M' || last == 'G' || last == 'T' || last == '\u{00B5}'
                    || last == 'n' || last == 'p'
            };
            if prefixed {
                push_range(&mut out, &chars, 0, n - 1);
                push_char(&mut out, ' ');
                push_char(&mut out, chars[n - 1]);
            } else {
                push_str(&mut out, label);
                push_char(&mut out, ' ');
            }
            push_str(&mut out, name.as_str());
        },
    }
    assert(out@ =~= spec_with_unit(label@, *unit, unit_name@));
    out
}

/// The labels of a band axis: each category fitted to `budget` columns,
/// truncated with `ellipsis` where it does not fit.
pub fn band_labels(categories: &Vec<String>, budget: usize, ellipsis: char) -> (labels: Vec<String>)
    ensures
        labels@.len() == categories@.len(),
        forall|i: int|
            0 <= i < categories@.len() ==> #[trigger] labels@[i]@ == spec_fit_width(
                categories@[i]@,
                budget as nat,
                ellipsis,
            ),
{
    let mut labels: Vec<String> = Vec::new();
    let mut i: usize = 0;
    while i < categories.len()
        invariant
            i <= categories@.len(),
            labels@.len() == i,
            forall|k: int|
                0 <= k < i ==> #[trigger] labels@[k]@ == spec_fit_width(
                    categories@[k]@,
                    budget as nat,
                    ellipsis,
                ),
        decreases categories@.len() - i,
    {
        labels.push(fit_width_with(categories[i].as_str(), budget, ellipsis));
        i = i + 1;
    }
    labels
}

/// The decade stride for `first..=last` and a target tick count (below two
/// counts as two): the fewest decades per tick that keep the count at or
/// under the target.
pub open spec fn decade_stride(first: int, last: int, target: int) -> int {
    let decades = last - first + 1;
    let t = if target < 2 {
        2
    } else {
        target
    };
    let stride = (decades + t - 1) / t;
    if stride < 1 {
        1
    } else {
        stride
    }
}

/// The first decade at or after `first` in the phase `phase` of `stride`.
pub open spec fn phase_start(first: int, stride: int, phase: int) -> int {
    first + (phase - first) % stride
}

/// How many decades of `first..=last` the phase `phase` of `stride` keeps.
pub open spec fn phase_count(first: int, last: int, stride: int, phase: int) -> int {
    let start = phase_start(first, stride, phase);
    if start > last {
        0
    } else {
        (last - start) / stride + 1
    }
}

/// The most decades any of the first `n` phases keeps.
pub open spec fn most_kept(first: int, last: int, stride: int, n: int) -> int
    decreases n,
{
    if n <= 0 {
        0
    } else {
        let before = most_kept(first, last, stride, n - 1);
        let here = phase_count(first, last, stride, n - 1);
        if here > before {
            here
        } else {
            before
        }
    }
}

/// The first phase before `n`, from `from`, that keeps `most` decades.
pub open spec fn first_phase_keeping(first: int, last: int, stride: int, most: int, from: int) -> int
    decreases stride - from,
{
    if from >= stride || phase_count(first, last, stride, from) == most {
        from
    } else {
        first_phase_keeping(first, last, stride, most, from + 1)
    }
}

/// The decades a log axis over `10^first ..= 10^last` labels for a target
/// tick count: every `stride`-th decade, in the first phase that keeps as
/// many as any phase — which is the multiples of the stride (`10⁰, 10³,
/// 10⁶`) whenever they keep as many.
pub open spec fn spec_decade_powers(first: int, last: int, target: int) -> Seq<int> {
    let stride = decade_stride(first, last, target);
    let most = most_kept(first, last, stride, stride);
    let phase = first_phase_keeping(first, last, stride, most, 0);
    let start = phase_start(first, stride, phase);
    Seq::new(phase_count(first, last, stride, phase) as nat, |i: int| start + i * stride)
}

/// The powers of ten a log axis labels between the decades `first` and
/// `last` (at least one apart), striding decades when there are many more
/// than `target`.
pub fn decade_powers(first: i32, last: i32, target: usize) -> (powers: Vec<i32>)
    requires
        first < last,
    ensures
        powers@.map_values(|p: i32| p as int) == spec_decade_powers(
            first as int,
            last as int,
            target as int,
        ),
{
    let decades: i64 = last as i64 - first as i64 + 1;
    let wide = target as u64;
    let t: i64 = if wide < 2 {
        2
    } else if wide > 4294967296 {
        4294967296
    } else {
        wide as i64
    };
    let ghost t_spec: int = if target < 2 {
        2
    } else {
        target as int
    };
    let computed = (decades + t - 1) / t;
    let stride: i64 = if computed < 1 {
        1
    } else {
        computed
    };
    proof {
        if target > 4294967296 {
            assert((decades + t_spec - 1) / t_spec == 1) by (nonlinear_arith)
                requires
                    1 <= decades <= 4294967296,
                    t_spec > 4294967296,
            ;
            assert((decades + t - 1) / (t as int) == 1) by (nonlinear_arith)
                requires
                    1 <= decades <= 4294967296,
                    t == 4294967296,
            ;
        }
        assert(1 <= stride <= decades) by (nonlinear_arith)
            requires
                stride == (if computed < 1 { 1 } else { computed }),
                computed == (decades + t - 1) / (t as int),
                t >= 2,
                decades >= 2,
        ;
    }
    assert(stride == decade_stride(first as int, last as int, target as int));
    let ghost s = stride as int;
    // the most any phase keeps, and the first phase that keeps it
    let mut most: i64 = 0;
    let mut phase: i64 = 0;
    while phase < stride
        invariant
            1 <= stride <= decades,
            s == stride,
            0 <= phase <= stride,
            first < last,
            decades == last - first + 1,
            most == most_kept(first as int, last as int, s, phase as int),
            0 <= most <= decades,
        decreases stride - phase,
    {
        let count = phase_count_exec(first as i64, last as i64, stride, phase);
        if count > most {
            most = count;
        }
        phase = phase + 1;
    }
    let mut chosen: i64 = 0;
    while chosen < stride && phase_count_exec(first as i64, last as i64, stride, chosen) != most
        invariant
            1 <= stride <= decades,
            s == stride,
            0 <= chosen <= stride,
            first < last,
            decades == last - first + 1,
            most == most_kept(first as int, last as int, s, s),
            first_phase_keeping(first as int, last as int, s, most as int, chosen as int)
                == first_phase_keeping(first as int, last as int, s, most as int, 0),
        decreases stride - chosen,
    {
        chosen = chosen + 1;
    }
    let start = phase_start_exec(first as i64, stride, chosen);
    let count = phase_count_exec(first as i64, last as i64, stride, chosen);
    let mut powers: Vec<i32> = Vec::new();
    let mut k: i64 = 0;
    while k < count
        invariant
            1 <= stride,
            0 <= k <= count,
            start == phase_start(first as int, stride as int, chosen as int),
            count == phase_count(first as int, last as int, stride as int, chosen as int),
            count > 0 ==> start + (count - 1) * stride <= last,
            start >= first,
            powers@.len() == k,
            forall|i: int| 0 <= i < k ==> #[trigger] powers@[i] as int == start + i * stride,
        decreases count - k,
    {
        assert(first <= start + k * stride <= last) by (nonlinear_arith)
            requires
                0 <= k < count,
                start + (count - 1) * stride <= last,
                start >= first,
                stride >= 1,
        ;
        powers.push((start + k * stride) as i32);
        k = k + 1;
    }
    assert(powers@.map_values(|p: i32| p as int) =~= spec_decade_powers(
        first as int,
        last as int,
        target as int,
    ));
    powers
}

/// The first decade at or after `first` in the phase `phase` of `stride`.
fn phase_start_exec(first: i64, stride: i64, phase: i64) -> (start: i64)
    requires
        1 <= stride <= 4294967296,
        0 <= phase <= stride,
        i32::MIN <= first <= i32::MAX,
    ensures
        start == phase_start(first as int, stride as int, phase as int),
        first <= start < first + stride,
{
    let d = phase - first;
    let euclid = if d >= 0 {
        d % stride
    } else {
        let r = (-d) % stride;
        proof {
            lemma_negated_mod(-d as int, stride as int);
        }
        if r == 0 {
            0
        } else {
            stride - r
        }
    };
    first + euclid
}

/// How many decades of `first..=last` the phase `phase` of `stride` keeps.
fn phase_count_exec(first: i64, last: i64, stride: i64, phase: i64) -> (count: i64)
    requires
        1 <= stride <= last - first + 1,
        0 <= phase <= stride,
        i32::MIN <= first < last <= i32::MAX,
    ensures
        count == phase_count(first as int, last as int, stride as int, phase as int),
        0 <= count <= last - first + 1,
        count > 0 ==> phase_start(first as int, stride as int, phase as int) + (count - 1) * stride
            <= last,
{
    let start = phase_start_exec(first, stride, phase);
    if start > last {
        0
    } else {
        let count = (last - start) / stride + 1;
        assert(count <= last - first + 1 && start + (count - 1) * stride <= last) by (nonlinear_arith)
            requires
                count == (last - start) / (stride as int) + 1,
                first <= start <= last,
                stride >= 1,
        ;
        count
    }
}

/// The remainder of a negated number.
proof fn lemma_negated_mod(a: int, m: int)
    requires
        a > 0,
        m > 0,
    ensures
        (-a) % m == (if a % m == 0 {
            0
        } else {
            m - a % m
        }),
{
    vstd::arithmetic::div_mod::lemma_fundamental_div_mod(a, m);
    let q = a / m;
    let r = a % m;
    if r == 0 {
        assert(-a == m * (-q) + 0) by (nonlinear_arith)
            requires
                a == m * q + r,
                r == 0,
        ;
        vstd::arithmetic::div_mod::lemma_fundamental_div_mod_converse(-a, m, -q, 0);
    } else {
        assert(-a == m * (-q - 1) + (m - r)) by (nonlinear_arith)
            requires
                a == m * q + r,
        ;
        vstd::arithmetic::div_mod::lemma_fundamental_div_mod_converse(-a, m, -q - 1, m - r);
    }
}

/// Stripping trailing zeros never changes a tick: every stripped mantissa,
/// scaled back by the powers of ten moved into the exponent, is the
/// mantissa it came from — the labels name exactly the chosen values.
pub proof fn law_stripping_keeps_tick_values(mantissas: Seq<i128>, exp10: int)
    ensures
        exp10 <= stripped(mantissas, exp10).1,
        stripped(mantissas, exp10).0.len() == mantissas.len(),
        forall|i: int|
            0 <= i < mantissas.len() ==> #[trigger] mantissas[i] == stripped(mantissas, exp10).0[i]
                * pow10((stripped(mantissas, exp10).1 - exp10) as nat),
    decreases (if exp10 < 0 {
        -exp10
    } else {
        0
    }),
{
    lemma_stripped_exponent(mantissas, exp10);
    if exp10 < 0 && all_tens(mantissas) {
        let next = tenths(mantissas);
        law_stripping_keeps_tick_values(next, exp10 + 1);
        let (out, e) = stripped(mantissas, exp10);
        assert forall|i: int| 0 <= i < mantissas.len() implies #[trigger] mantissas[i] == out[i]
            * pow10((e - exp10) as nat) by {
            assert(next[i] == out[i] * pow10((e - (exp10 + 1)) as nat));
            assert(mantissas[i] % 10 == 0);
            assert(next[i] == mantissas[i] / 10);
            assert(pow10((e - exp10) as nat) == 10 * pow10((e - (exp10 + 1)) as nat));
            let (m, o, p) = (mantissas[i] as int, out[i] as int, pow10((e - (exp10 + 1)) as nat)
                as int);
            assert(m == o * (10 * p)) by (nonlinear_arith)
                requires
                    m / 10 == o * p,
                    m % 10 == 0,
            ;
        }
    } else {
        assert(stripped(mantissas, exp10) == (mantissas, exp10));
        assert(pow10(0) == 1);
        assert forall|i: int| 0 <= i < mantissas.len() implies #[trigger] mantissas[i]
            == stripped(mantissas, exp10).0[i] * pow10((stripped(mantissas, exp10).1 - exp10) as nat) by {
            assert(mantissas[i] * 1 == mantissas[i]);
        }
    }
}

/// A log axis labels every `stride`-th decade inside its range: at least
/// one, never more than the target (at least two), ascending by the
/// stride — and the multiples of the stride whenever they keep as many
/// decades as any phase.
pub proof fn law_decade_ticks_stay_in_range(first: int, last: int, target: int)
    requires
        first < last,
    ensures
        ({
            let powers = spec_decade_powers(first, last, target);
            let stride = decade_stride(first, last, target);
            &&& 1 <= powers.len()
            &&& powers.len() <= (if target < 2 {
                2
            } else {
                target
            })
            &&& forall|i: int| 0 <= i < powers.len() ==> first <= #[trigger] powers[i] <= last
            &&& forall|i: int| 0 < i < powers.len() ==> #[trigger] powers[i] - powers[i - 1] == stride
            &&& phase_count(first, last, stride, 0) == most_kept(first, last, stride, stride)
                ==> forall|i: int| 0 <= i < powers.len() ==> #[trigger] powers[i] % stride == 0
        }),
{
    let stride = decade_stride(first, last, target);
    let t = if target < 2 {
        2
    } else {
        target
    };
    let decades = last - first + 1;
    assert(1 <= stride <= decades && stride * t >= decades) by (nonlinear_arith)
        requires
            stride == (if (decades + t - 1) / t < 1 {
                1
            } else {
                (decades + t - 1) / t
            }),
            t >= 2,
            decades >= 2,
    ;
    let most = most_kept(first, last, stride, stride);
    lemma_most_kept(first, last, stride, stride);
    lemma_first_phase(first, last, stride, most, 0);
    let phase = first_phase_keeping(first, last, stride, most, 0);
    let start = phase_start(first, stride, phase);
    lemma_phase_start(first, stride, phase);
    let count = phase_count(first, last, stride, phase);
    let powers = spec_decade_powers(first, last, target);
    assert(start <= last);
    assert(count == (last - start) / stride + 1);
    assert(count >= 1) by (nonlinear_arith)
        requires
            count == (last - start) / stride + 1,
            start <= last,
            stride >= 1,
    ;
    assert(count <= t) by (nonlinear_arith)
        requires
            count == (last - start) / stride + 1,
            first <= start <= last,
            stride >= 1,
            stride * t >= last - first + 1,
    ;
    assert(start + (count - 1) * stride <= last) by (nonlinear_arith)
        requires
            count == (last - start) / stride + 1,
            start <= last,
            stride >= 1,
    ;
    assert forall|i: int| 0 <= i < powers.len() implies first <= #[trigger] powers[i] <= last by {
        assert(powers[i] == start + i * stride);
        assert(start + i * stride <= start + (count - 1) * stride) by (nonlinear_arith)
            requires
                0 <= i < count,
                stride >= 1,
        ;
        assert(i * stride >= 0) by (nonlinear_arith)
            requires
                i >= 0,
                stride >= 1,
        ;
    }
    assert forall|i: int| 0 < i < powers.len() implies #[trigger] powers[i] - powers[i - 1]
        == stride by {
        assert(start + i * stride - (start + (i - 1) * stride) == stride) by (nonlinear_arith);
    }
    if phase_count(first, last, stride, 0) == most {
        assert(phase == 0);
        assert(start % stride == 0) by {
            vstd::arithmetic::div_mod::lemma_fundamental_div_mod(0 - first, stride);
            vstd::arithmetic::div_mod::lemma_fundamental_div_mod(first, stride);
            let r = (0 - first) % stride;
            let q = (0 - first) / stride;
            assert(start == first + r);
            assert(start == (-q) * stride) by (nonlinear_arith)
                requires
                    0 - first == stride * q + r,
                    start == first + r,
            ;
            vstd::arithmetic::div_mod::lemma_mod_multiples_basic(-q, stride);
        }
        assert forall|i: int| 0 <= i < powers.len() implies #[trigger] powers[i] % stride == 0 by {
            assert(powers[i] == start + i * stride);
            let k = start / stride;
            vstd::arithmetic::div_mod::lemma_fundamental_div_mod(start, stride);
            assert(start + i * stride == (k + i) * stride) by (nonlinear_arith)
                requires
                    start == stride * k + 0,
            ;
            vstd::arithmetic::div_mod::lemma_mod_multiples_basic(k + i, stride);
        }
    }
}

proof fn lemma_phase_start(first: int, stride: int, phase: int)
    requires
        stride >= 1,
    ensures
        first <= phase_start(first, stride, phase) < first + stride,
{
    vstd::arithmetic::div_mod::lemma_mod_bound(phase - first, stride);
}

/// The most any of the first `n` phases keeps is kept by one of them.
proof fn lemma_most_kept(first: int, last: int, stride: int, n: int)
    requires
        n >= 1,
        stride >= 1,
    ensures
        exists|p: int| 0 <= p < n && phase_count(first, last, stride, p) == most_kept(first, last, stride, n),
        forall|p: int| 0 <= p < n ==> phase_count(first, last, stride, p) <= most_kept(first, last, stride, n),
    decreases n,
{
    if n == 1 {
        let here = phase_count(first, last, stride, 0);
        assert(most_kept(first, last, stride, 0) == 0);
        if here > 0 {
            assert(phase_count(first, last, stride, 0) == most_kept(first, last, stride, 1));
        } else {
            assert(here <= 0);
            assert(phase_count(first, last, stride, 0) >= 0) by {
                let start = phase_start(first, stride, 0);
                if start <= last {
                    assert((last - start) / stride >= 0) by (nonlinear_arith)
                        requires
                            last - start >= 0,
                            stride >= 1,
                    ;
                }
            }
            assert(phase_count(first, last, stride, 0) == most_kept(first, last, stride, 1));
        }
    } else {
        lemma_most_kept(first, last, stride, n - 1);
        let before = most_kept(first, last, stride, n - 1);
        let here = phase_count(first, last, stride, n - 1);
        if here > before {
            assert(phase_count(first, last, stride, n - 1) == most_kept(first, last, stride, n));
        } else {
            let p = choose|p: int| 0 <= p < n - 1 && phase_count(first, last, stride, p) == before;
            assert(phase_count(first, last, stride, p) == most_kept(first, last, stride, n));
        }
    }
}

/// The search for the first phase keeping `most` finds one, before the
/// stride, when some phase from `from` on keeps it.
proof fn lemma_first_phase(first: int, last: int, stride: int, most: int, from: int)
    requires
        0 <= from,
        stride >= 1,
        exists|p: int| from <= p < stride && phase_count(first, last, stride, p) == most,
    ensures
        from <= first_phase_keeping(first, last, stride, most, from) < stride,
        phase_count(first, last, stride, first_phase_keeping(first, last, stride, most, from)) == most,
    decreases stride - from,
{
    if phase_count(first, last, stride, from) != most {
        let p = choose|p: int| from <= p < stride && phase_count(first, last, stride, p) == most;
        assert(p != from);
        lemma_first_phase(first, last, stride, most, from + 1);
    }
}

} // verus!
