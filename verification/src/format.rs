//! Exact decimal formatting for tick labels, and the shared set formatter.
//!
//! Values are represented as `mantissa * 10^exp10` with an integer mantissa, so
//! labels are produced by integer math alone: no binary-float artifacts, no
//! `-0`, and a uniform number of decimals across an axis.

use vstd::prelude::*;

use crate::text::{
    decimal_chars, decimal_digits, digit_char, push_char, push_str, push_range, push_repeat, push_seq, repeat,
};

verus! {

/// The absolute value of an integer, as a natural number.
pub open spec fn abs_nat(m: int) -> nat {
    if m < 0 { (-m) as nat } else { m as nat }
}

/// `-` for a negative value, nothing otherwise.
pub open spec fn sign_of(m: int) -> Seq<char> {
    if m < 0 { seq!['-'] } else { Seq::empty() }
}

/// `mantissa * 10^exp10` as a plain decimal string: an integer for
/// `exp10 >= 0` (zero is `0`), and exactly `-exp10` fraction digits otherwise.
pub open spec fn spec_decimal(mantissa: int, exp10: int) -> Seq<char> {
    if exp10 >= 0 {
        if mantissa == 0 {
            seq!['0']
        } else {
            sign_of(mantissa) + decimal_digits(abs_nat(mantissa)) + repeat('0', exp10 as nat)
        }
    } else {
        let fraction = (-exp10) as nat;
        let digits = decimal_digits(abs_nat(mantissa));
        if digits.len() > fraction {
            let split = digits.len() - fraction;
            sign_of(mantissa) + digits.subrange(0, split) + seq!['.'] + digits.subrange(
                split,
                digits.len() as int,
            )
        } else {
            sign_of(mantissa) + seq!['0', '.'] + repeat('0', (fraction - digits.len()) as nat)
                + digits
        }
    }
}

/// The magnitude of an `i128` as a `u128`.
pub(crate) fn unsigned_abs(m: i128) -> (r: u128)
    ensures
        r == abs_nat(m as int),
{
    if m < 0 {
        if m == i128::MIN {
            170141183460469231731687303715884105728u128
        } else {
            (-m) as u128
        }
    } else {
        m as u128
    }
}

/// Formats `mantissa * 10^exp10` as a plain decimal string.
///
/// For `exp10 >= 0` the result is an integer (zero is `"0"`, never `"0000"`).
/// For `exp10 < 0` the result carries exactly `-exp10` fraction digits,
/// including for zero (`"0.00"`), so that labels sharing an exponent align.
pub fn decimal(mantissa: i128, exp10: i32) -> (s: String)
    ensures
        s@ == spec_decimal(mantissa as int, exp10 as int),
{
    let mut s = String::new();
    let digits = decimal_chars(unsigned_abs(mantissa));
    if exp10 >= 0 {
        if mantissa == 0 {
            push_char(&mut s, '0');
            assert(s@ =~= spec_decimal(mantissa as int, exp10 as int));
            return s;
        }
        if mantissa < 0 {
            push_char(&mut s, '-');
        }
        push_seq(&mut s, &digits);
        push_repeat(&mut s, '0', exp10 as u64);
        assert(s@ =~= spec_decimal(mantissa as int, exp10 as int));
        return s;
    }
    let fraction: u64 = if exp10 == i32::MIN { 2147483648u64 } else { (-exp10) as u64 };
    if mantissa < 0 {
        push_char(&mut s, '-');
    }
    let ghost sign = s@;
    if digits.len() as u64 > fraction {
        let split = digits.len() - fraction as usize;
        push_range(&mut s, &digits, 0, split);
        push_char(&mut s, '.');
        push_range(&mut s, &digits, split, digits.len());
    } else {
        push_char(&mut s, '0');
        push_char(&mut s, '.');
        push_repeat(&mut s, '0', fraction - digits.len() as u64);
        push_seq(&mut s, &digits);
    }
    assert(s@ =~= spec_decimal(mantissa as int, exp10 as int));
    s
}

/// `10^k` as a natural number.
pub open spec fn pow10(k: nat) -> nat
    decreases k,
{
    if k == 0 { 1 } else { 10 * pow10((k - 1) as nat) }
}

pub proof fn lemma_pow10_positive(k: nat)
    ensures
        pow10(k) >= 1,
    decreases k,
{
    if k > 0 {
        lemma_pow10_positive((k - 1) as nat);
    }
}

pub proof fn lemma_pow10_monotone(a: nat, b: nat)
    requires
        a <= b,
    ensures
        pow10(a) <= pow10(b),
    decreases b,
{
    if a < b {
        lemma_pow10_monotone(a, (b - 1) as nat);
        lemma_pow10_positive((b - 1) as nat);
    }
}

/// `10^38` and `10^39`, spelled out.
pub proof fn lemma_pow10_38_39()
    ensures
        pow10(38) == 100000000000000000000000000000000000000nat,
        pow10(39) == 1000000000000000000000000000000000000000nat,
{
    reveal_with_fuel(pow10, 40);
}

/// `10^k` as an `i128`, for `k <= 38`.
pub fn pow10_i128(k: u32) -> (r: i128)
    requires
        k <= 38,
    ensures
        r == pow10(k as nat),
{
    proof {
        lemma_pow10_38_39();
    }
    let mut r: i128 = 1;
    let mut i: u32 = 0;
    while i < k
        invariant
            i <= k <= 38,
            r == pow10(i as nat),
            pow10(38) == 100000000000000000000000000000000000000nat,
        decreases k - i,
    {
        proof {
            lemma_pow10_monotone((i + 1) as nat, 38);
        }
        r = r * 10;
        i = i + 1;
    }
    r
}

/// The SI prefix for a set whose largest magnitude is `10^magnitude`, as
/// `(shift, suffix)`: engaged at ten thousand and up or below a thousandth,
/// and `None` inside that band or beyond the table.
pub open spec fn spec_si_prefix(magnitude: int) -> Option<(i32, char)> {
    if magnitude < 4 && magnitude > -4 {
        None
    } else {
        let shift = 3 * (magnitude / 3);
        if shift == 3 {
            Some((3i32, 'k'))
        } else if shift == 6 {
            Some((6i32, 'M'))
        } else if shift == 9 {
            Some((9i32, 'G'))
        } else if shift == 12 {
            Some((12i32, 'T'))
        } else if shift == -6 {
            Some((-6i32, '\u{00B5}'))
        } else if shift == -9 {
            Some((-9i32, 'n'))
        } else if shift == -12 {
            Some((-12i32, 'p'))
        } else {
            None
        }
    }
}

/// The power of ten an SI prefix letter names: kilo, mega, giga, tera,
/// micro, nano, pico.
pub open spec fn si_letter_power(letter: char) -> Option<int> {
    if letter == 'k' {
        Some(3)
    } else if letter == 'M' {
        Some(6)
    } else if letter == 'G' {
        Some(9)
    } else if letter == 'T' {
        Some(12)
    } else if letter == '\u{00B5}' {
        Some(-6)
    } else if letter == 'n' {
        Some(-9)
    } else if letter == 'p' {
        Some(-12)
    } else {
        None
    }
}

/// An SI prefix names the factor it divides by: the prefix chosen for a
/// magnitude is the SI letter of its shift, and the shift is the multiple
/// of three at or just below the magnitude — so the numeric part times the
/// factor the letter denotes is the value. Every magnitude from `10^4` to
/// `10^14` and from `10^-12` to `10^-4` takes a prefix; no other does.
pub proof fn law_si_prefixes_name_their_factor(magnitude: int)
    ensures
        spec_si_prefix(magnitude) is Some <==> (4 <= magnitude <= 14 || -12 <= magnitude <= -4),
        spec_si_prefix(magnitude) matches Some((shift, letter)) ==> {
            &&& si_letter_power(letter) == Some(shift as int)
            &&& shift <= magnitude < shift + 3
        },
{
}

/// `floor(m / 3)`.
fn floor_div3(m: i32) -> (r: i32)
    ensures
        r == m as int / 3,
{
    if m >= 0 {
        m / 3
    } else {
        let n: i64 = -(m as i64);
        let q: i64 = (n + 2) / 3;
        proof {
            let mi = m as int;
            let qi = q as int;
            assert(qi * 3 <= n + 2 < qi * 3 + 3) by (nonlinear_arith)
                requires
                    qi == (n as int + 2) / 3,
                    n > 0,
            ;
            assert(-qi == mi / 3) by (nonlinear_arith)
                requires
                    qi * 3 <= -mi + 2 < qi * 3 + 3,
                    mi < 0,
            ;
        }
        (-q) as i32
    }
}

/// The one SI prefix for a set whose largest magnitude is `10^magnitude`:
/// engaged at ten thousand and up (`k`, `M`, `G`, `T`) or below a thousandth
/// (`µ`, `n`, `p`), as `(shift, suffix)`; `None` inside that band or beyond
/// the table.
pub fn si_prefix(magnitude: i32) -> (r: Option<(i32, char)>)
    ensures
        r == spec_si_prefix(magnitude as int),
{
    if magnitude < 4 && magnitude > -4 {
        return None;
    }
    let third = floor_div3(magnitude);
    if third == 1 {
        Some((3, 'k'))
    } else if third == 2 {
        Some((6, 'M'))
    } else if third == 3 {
        Some((9, 'G'))
    } else if third == 4 {
        Some((12, 'T'))
    } else if third == -2 {
        Some((-6, '\u{00B5}'))
    } else if third == -3 {
        Some((-9, 'n'))
    } else if third == -4 {
        Some((-12, 'p'))
    } else {
        None
    }
}

/// Whether `digits * 10^power` is a whole number.
pub open spec fn spec_scales_exactly(digits: int, power: int) -> bool {
    power >= 0 || digits % (pow10((-power) as nat) as int) == 0
}

/// Whether `digits × 10^power` is a whole number — whether scaling to that
/// power loses nothing.
pub fn scales_exactly(digits: i128, power: i32) -> (r: bool)
    ensures
        r == spec_scales_exactly(digits as int, power as int),
{
    if power >= 0 {
        return true;
    }
    if power < -38 {
        proof {
            let k = (-power) as nat;
            lemma_pow10_monotone(39, k);
            lemma_pow10_38_39();
            let d = pow10(k) as int;
            let di = digits as int;
            if di != 0 {
                assert(di % d != 0) by (nonlinear_arith)
                    requires
                        d >= 1000000000000000000000000000000000000000int,
                        di != 0,
                        -170141183460469231731687303715884105728int <= di,
                        di <= 170141183460469231731687303715884105727int,
                {
                    if di > 0 {
                        assert(di % d == di);
                    } else {
                        assert(di % d == di + d);
                    }
                }
            } else {
                assert(0int % d == 0);
            }
        }
        return digits == 0;
    }
    let divisor = pow10_i128((-power) as u32);
    proof {
        lemma_pow10_positive((-power) as nat);
    }
    let magnitude = unsigned_abs(digits);
    let r = magnitude % (divisor as u128) == 0;
    proof {
        lemma_mod_zero_abs(digits as int, divisor as int);
    }
    r
}

/// Divisibility ignores sign.
pub proof fn lemma_mod_zero_abs(d: int, m: int)
    requires
        m > 0,
    ensures
        (d % m == 0) <==> (abs_nat(d) as int % m == 0),
{
    if d < 0 {
        let a = -d;
        if a % m == 0 {
            vstd::arithmetic::div_mod::lemma_fundamental_div_mod(a, m);
            let q = a / m;
            assert(d == (-q) * m) by (nonlinear_arith)
                requires
                    a == m * q + 0,
                    d == -a,
            ;
            vstd::arithmetic::div_mod::lemma_mod_multiples_basic(-q, m);
        }
        if d % m == 0 {
            vstd::arithmetic::div_mod::lemma_fundamental_div_mod(d, m);
            let q = d / m;
            assert(a == (-q) * m) by (nonlinear_arith)
                requires
                    d == m * q + 0,
                    a == -d,
            ;
            vstd::arithmetic::div_mod::lemma_mod_multiples_basic(-q, m);
        }
    }
}


/// Whether an integer fits in an `i128`.
pub open spec fn fits_i128(v: int) -> bool {
    i128::MIN <= v <= i128::MAX
}

/// `magnitude / divisor` for a non-negative `magnitude`, rounded half up.
pub open spec fn round_half_up(magnitude: int, divisor: int) -> int {
    let q = magnitude / divisor;
    let r = magnitude % divisor;
    if 2 * r >= divisor { q + 1 } else { q }
}

/// `digits × 10^power` rounded half away from zero to an integer, or `None`
/// when the product needs more than an `i128` holds (or `power` exceeds 36).
pub open spec fn spec_scale_digits(digits: int, power: int) -> Option<int> {
    if power >= 0 {
        let v = digits * pow10(power as nat);
        if power > 36 || !fits_i128(v) { None } else { Some(v) }
    } else if power < -38 {
        Some(0)
    } else {
        let d = pow10((-power) as nat) as int;
        if digits < 0 {
            Some(-round_half_up(-digits, d))
        } else {
            Some(round_half_up(digits, d))
        }
    }
}

/// `digits × 10^power`, rounded half away from zero to an integer, or `None`
/// when the product needs more than an `i128` holds.
pub fn scale_digits(digits: i128, power: i32) -> (r: Option<i128>)
    ensures
        r matches Some(v) ==> spec_scale_digits(digits as int, power as int) == Some(v as int),
        r is None <==> spec_scale_digits(digits as int, power as int) is None,
{
    if power >= 0 {
        if power > 36 {
            return None;
        }
        let factor = pow10_i128(power as u32);
        return digits.checked_mul(factor);
    } else if power < -38 {
        return Some(0);
    }
    let divisor = pow10_i128((-power) as u32);
    proof {
        lemma_pow10_positive((-power) as nat);
        lemma_pow10_monotone(1, (-power) as nat);
        assert(pow10(1) == 10) by {
            reveal_with_fuel(pow10, 2);
        }
    }
    // The magnitude, as an unsigned value: `i128::MIN` has none in `i128`.
    let magnitude: u128 = if digits < 0 {
        (-(digits + 1)) as u128 + 1
    } else {
        digits as u128
    };
    let d: u128 = divisor as u128;
    let quotient = magnitude / d;
    let remainder = magnitude % d;
    proof {
        let (m, dv) = (magnitude as int, d as int);
        assert(m == if digits < 0 { -(digits as int) } else { digits as int });
        vstd::arithmetic::div_mod::lemma_div_is_ordered_by_denominator(m, 10, dv);
        assert(quotient as int <= m / 10);
        assert(m / 10 < i128::MAX);
    }
    // `remainder * 2 >= d`, without doubling past the range.
    let rounded: u128 = if remainder >= d - remainder {
        quotient + 1
    } else {
        quotient
    };
    let value = rounded as i128;
    if digits < 0 {
        Some(-value)
    } else {
        Some(value)
    }
}

/// The fixed significant-digit budget a value set is formatted at.
pub const SIGNIFICANT_DIGITS: i32 = 4;

/// Uniform formatting for a set of related values — a table column, a
/// readout row: one SI prefix (or one power of ten beyond the prefix table)
/// and one fraction width shared by the whole set.
#[derive(Debug, Clone, Copy, PartialEq, Eq)]
pub struct NumberFormat {
    /// The SI shift applied before rendering, with its suffix; `None` is unshifted.
    pub prefix: Option<(i32, char)>,
    /// Fraction digits every rendered value carries.
    pub fraction: i32,
    /// The power of ten every value is written against when the set lies
    /// beyond the SI table; `None` is the plain decimal form.
    pub exponent: Option<i32>,
}

/// The format a set takes from its largest magnitude `10^magnitude`
/// (`None` for a set with nothing finite and nonzero) and whether every
/// finite value in it is whole.
pub open spec fn spec_format_for(magnitude: Option<i32>, whole: bool) -> NumberFormat {
    match magnitude {
        None => NumberFormat { prefix: None, fraction: 0, exponent: None },
        Some(m) => {
            let prefix = spec_si_prefix(m as int);
            let exponent = if prefix is None && (m >= 4 || m <= -4) { Some(m) } else { None };
            let shift: int = match prefix {
                Some(p) => p.0 as int,
                None => 0,
            };
            let keep_whole = prefix is None && exponent is None && whole;
            let fraction: int = if keep_whole {
                0
            } else if exponent is Some {
                SIGNIFICANT_DIGITS - 1
            } else {
                let f = SIGNIFICANT_DIGITS - 1 - (m - shift);
                if f > 0 { f } else { 0 }
            };
            NumberFormat { prefix, fraction: fraction as i32, exponent }
        },
    }
}

impl NumberFormat {
    /// The shared resolution and prefix for a set whose largest finite
    /// magnitude is `10^magnitude` — `None` when the set is empty, all gaps,
    /// or all zero — with `whole` telling whether every finite value is a
    /// whole number. Beyond the SI table (past `T`, below `p`) the set is
    /// written against one power of ten; a set of whole numbers with no
    /// prefix keeps whole labels.
    pub fn for_magnitude(magnitude: Option<i32>, whole: bool) -> (f: NumberFormat)
        ensures
            f == spec_format_for(magnitude, whole),
    {
        match magnitude {
            None => NumberFormat { prefix: None, fraction: 0, exponent: None },
            Some(m) => {
                let prefix = si_prefix(m);
                let exponent = if prefix.is_none() && (m >= 4 || m <= -4) {
                    Some(m)
                } else {
                    None
                };
                let shift = match prefix {
                    Some(p) => p.0,
                    None => 0,
                };
                let keep_whole = prefix.is_none() && exponent.is_none() && whole;
                let fraction = if keep_whole {
                    0
                } else if exponent.is_some() {
                    SIGNIFICANT_DIGITS - 1
                } else {
                    let f = SIGNIFICANT_DIGITS - 1 - (m - shift);
                    if f > 0 { f } else { 0 }
                };
                NumberFormat { prefix, fraction, exponent }
            },
        }
    }

    /// The same format with `extra` more fraction digits — how an endpoint
    /// fallback keeps two distinct bounds distinct without abandoning the
    /// set's prefix or exponent.
    pub fn widened(self, extra: i32) -> (f: NumberFormat)
        requires
            i32::MIN <= self.fraction + extra <= i32::MAX,
        ensures
            f == (NumberFormat { fraction: (self.fraction + extra) as i32, ..self }),
    {
        NumberFormat { fraction: self.fraction + extra, ..self }
    }
}

/// `mantissa × 10^exp10` written against the power of ten `exponent`:
/// the decimal, `e`, and the exponent (`1.798e308`).
pub open spec fn spec_exponent_form(mantissa: int, exp10: int, exponent: int) -> Seq<char> {
    spec_decimal(mantissa, exp10) + seq!['e'] + spec_decimal(exponent, 0)
}

/// The label `mantissa × 10^exp10` reads against `exponent`: `1.798e308`.
pub fn exponent_form(mantissa: i128, exp10: i32, exponent: i32) -> (s: String)
    ensures
        s@ == spec_exponent_form(mantissa as int, exp10 as int, exponent as int),
{
    let mut s = decimal(mantissa, exp10);
    push_char(&mut s, 'e');
    let tail = decimal(exponent as i128, 0);
    push_str(&mut s, tail.as_str());
    s
}

/// The value of a string of decimal digits.
pub open spec fn digits_value(s: Seq<char>) -> int
    decreases s.len(),
{
    if s.len() == 0 {
        0
    } else {
        digits_value(s.drop_last()) * 10 + (s.last() as int - '0' as int)
    }
}

/// Whether every character is a decimal digit.
pub open spec fn all_digits(s: Seq<char>) -> bool {
    forall|i: int| 0 <= i < s.len() ==> '0' <= #[trigger] s[i] <= '9'
}

/// The sign a label reads: `-1` after a leading `-`, else `1`.
pub open spec fn label_sign(text: Seq<char>) -> int {
    if text.len() > 0 && text[0] == '-' {
        -1
    } else {
        1
    }
}

/// A label without its leading `-`.
pub open spec fn label_body(text: Seq<char>) -> Seq<char> {
    if text.len() > 0 && text[0] == '-' {
        text.drop_first()
    } else {
        text
    }
}

/// The characters other than the decimal point.
pub open spec fn without_point(s: Seq<char>) -> Seq<char>
    decreases s.len(),
{
    if s.len() == 0 {
        s
    } else if s.last() == '.' {
        without_point(s.drop_last())
    } else {
        without_point(s.drop_last()).push(s.last())
    }
}

/// How many characters follow the decimal point (none without one).
pub open spec fn after_point(s: Seq<char>) -> nat
    decreases s.len(),
{
    if s.len() == 0 || !s.contains('.') || s.last() == '.' {
        0
    } else {
        after_point(s.drop_last()) + 1
    }
}

proof fn lemma_digit_char_value(d: int)
    requires
        0 <= d < 10,
    ensures
        digit_char(d) as int - '0' as int == d,
        '0' <= digit_char(d) <= '9',
{
    assert(digit_char(d) as int == 48 + d);
}

proof fn lemma_decimal_digits_are_digits(n: nat)
    ensures
        all_digits(decimal_digits(n)),
        digits_value(decimal_digits(n)) == n,
        decimal_digits(n).len() >= 1,
    decreases n,
{
    let d = decimal_digits(n);
    assert(digits_value(Seq::<char>::empty()) == 0);
    if n >= 10 {
        lemma_decimal_digits_are_digits(n / 10);
        lemma_digit_char_value((n % 10) as int);
        assert(d.drop_last() =~= decimal_digits(n / 10));
        assert(d.last() == digit_char((n % 10) as int));
        assert(digits_value(d) == digits_value(d.drop_last()) * 10 + (d.last() as int - '0' as int));
        assert(digits_value(d) == digits_value(decimal_digits(n / 10)) * 10 + (n % 10) as int);
        assert(n == (n / 10) * 10 + n % 10);
        assert forall|i: int| 0 <= i < d.len() implies '0' <= #[trigger] d[i] <= '9' by {
            if i < d.len() - 1 {
                assert(d[i] == decimal_digits(n / 10)[i]);
            }
        }
    } else {
        lemma_digit_char_value(n as int);
        assert(d.drop_last() =~= Seq::<char>::empty());
        assert(d.last() == digit_char(n as int));
        assert(digits_value(d) == digits_value(d.drop_last()) * 10 + (d.last() as int - '0' as int));
    }
}

proof fn lemma_digits_value_append(a: Seq<char>, b: Seq<char>)
    ensures
        digits_value(a + b) == digits_value(a) * pow10(b.len()) + digits_value(b),
    decreases b.len(),
{
    if b.len() == 0 {
        assert(a + b =~= a);
        assert(digits_value(b) == 0);
        assert(pow10(0) == 1);
        assert(digits_value(a) * 1 == digits_value(a));
    } else {
        lemma_digits_value_append(a, b.drop_last());
        assert((a + b).drop_last() =~= a + b.drop_last());
        assert((a + b).last() == b.last());
        let k = b.drop_last().len();
        assert(pow10(b.len()) == 10 * pow10(k));
        let (va, vb, p) = (digits_value(a), digits_value(b.drop_last()), pow10(k) as int);
        let l = b.last() as int - '0' as int;
        assert(digits_value(a + b) == digits_value((a + b).drop_last()) * 10 + ((a + b).last() as int
            - '0' as int));
        assert(digits_value(a + b) == digits_value(a + b.drop_last()) * 10 + l);
        assert(digits_value(b) == vb * 10 + l);
        assert((va * p + vb) * 10 + l == va * (10 * p) + (vb * 10 + l)) by (nonlinear_arith);
    }
}

proof fn lemma_zeros_value(k: nat)
    ensures
        digits_value(repeat('0', k)) == 0,
        all_digits(repeat('0', k)),
        repeat('0', k).len() == k,
    decreases k,
{
    crate::text::lemma_repeat_len('0', k);
    if k > 0 {
        lemma_zeros_value((k - 1) as nat);
        assert(repeat('0', k).drop_last() =~= repeat('0', (k - 1) as nat));
    }
}

proof fn lemma_single_zero()
    ensures
        digits_value(seq!['0']) == 0,
        all_digits(seq!['0']),
{
    let z = seq!['0'];
    assert(z.drop_last() =~= Seq::<char>::empty());
    assert(digits_value(Seq::<char>::empty()) == 0);
    assert(digits_value(z) == digits_value(z.drop_last()) * 10 + (z.last() as int - '0' as int));
}

proof fn lemma_point_free(s: Seq<char>)
    requires
        all_digits(s),
    ensures
        without_point(s) == s,
        !s.contains('.'),
        after_point(s) == 0,
    decreases s.len(),
{
    if s.len() > 0 {
        assert(all_digits(s.drop_last()));
        lemma_point_free(s.drop_last());
        assert(s.drop_last().push(s.last()) =~= s);
        assert('0' <= s[s.len() - 1] <= '9');
    }
    if s.contains('.') {
        let i = choose|i: int| 0 <= i < s.len() && s[i] == '.';
        assert('0' <= s[i] <= '9');
    }
}

proof fn lemma_split_at_point(a: Seq<char>, b: Seq<char>)
    requires
        all_digits(a),
        all_digits(b),
    ensures
        without_point(a + seq!['.'] + b) == a + b,
        after_point(a + seq!['.'] + b) == b.len(),
    decreases b.len(),
{
    let t = a + seq!['.'] + b;
    assert(t.contains('.')) by {
        assert(t[a.len() as int] == '.');
    }
    if b.len() == 0 {
        lemma_point_free(a);
        assert(t.drop_last() =~= a);
        assert(a + b =~= a);
    } else {
        assert(all_digits(b.drop_last()));
        lemma_split_at_point(a, b.drop_last());
        assert(t.drop_last() =~= a + seq!['.'] + b.drop_last());
        assert(t.last() == b.last());
        assert('0' <= b[b.len() - 1] <= '9');
        assert((a + b.drop_last()).push(b.last()) =~= a + b);
    }
}

/// The unsigned part of a decimal label.
pub open spec fn decimal_body(mantissa: int, exp10: int) -> Seq<char> {
    let digits = decimal_digits(abs_nat(mantissa));
    if exp10 >= 0 {
        if mantissa == 0 {
            seq!['0']
        } else {
            digits + repeat('0', exp10 as nat)
        }
    } else {
        let fraction = (-exp10) as nat;
        if digits.len() > fraction {
            let split = digits.len() - fraction;
            digits.subrange(0, split) + seq!['.'] + digits.subrange(split, digits.len() as int)
        } else {
            seq!['0', '.'] + repeat('0', (fraction - digits.len()) as nat) + digits
        }
    }
}

proof fn lemma_whole_body(mantissa: int, exp10: int)
    requires
        exp10 >= 0,
    ensures
        all_digits(decimal_body(mantissa, exp10)),
        decimal_body(mantissa, exp10).len() > 0,
        digits_value(decimal_body(mantissa, exp10)) == abs_nat(mantissa) * pow10(exp10 as nat),
{
    let n = abs_nat(mantissa);
    let digits = decimal_digits(n);
    lemma_decimal_digits_are_digits(n);
    if mantissa == 0 {
        lemma_single_zero();
    } else {
        lemma_zeros_value(exp10 as nat);
        lemma_digits_value_append(digits, repeat('0', exp10 as nat));
        let body = decimal_body(mantissa, exp10);
        assert forall|i: int| 0 <= i < body.len() implies '0' <= #[trigger] body[i] <= '9' by {
            if i < digits.len() {
                assert(body[i] == digits[i]);
            } else {
                assert(body[i] == repeat('0', exp10 as nat)[i - digits.len()]);
            }
        }
    }
}

proof fn lemma_fraction_body(mantissa: int, exp10: int)
    requires
        exp10 < 0,
    ensures
        decimal_body(mantissa, exp10).len() > 0,
        '0' <= decimal_body(mantissa, exp10)[0] <= '9',
        decimal_body(mantissa, exp10).contains('.'),
        after_point(decimal_body(mantissa, exp10)) == -exp10,
        digits_value(without_point(decimal_body(mantissa, exp10))) == abs_nat(mantissa),
{
    let n = abs_nat(mantissa);
    let digits = decimal_digits(n);
    lemma_decimal_digits_are_digits(n);
    let fraction = (-exp10) as nat;
    let body = decimal_body(mantissa, exp10);
    if digits.len() > fraction {
        let split = digits.len() - fraction;
        let hi = digits.subrange(0, split);
        let lo = digits.subrange(split, digits.len() as int);
        assert(hi + lo =~= digits);
        assert(all_digits(hi) && all_digits(lo));
        lemma_split_at_point(hi, lo);
        lemma_digits_value_append(hi, lo);
        assert(body[0] == digits[0]);
        assert(body[split as int] == '.');
    } else {
        let zeros = repeat('0', (fraction - digits.len()) as nat);
        lemma_zeros_value((fraction - digits.len()) as nat);
        lemma_single_zero();
        assert(all_digits(zeros + digits)) by {
            assert forall|i: int| 0 <= i < (zeros + digits).len() implies '0' <= #[trigger] (zeros
                + digits)[i] <= '9' by {
                if i < zeros.len() {
                    assert((zeros + digits)[i] == zeros[i]);
                } else {
                    assert((zeros + digits)[i] == digits[i - zeros.len()]);
                }
            }
        }
        assert(body =~= seq!['0'] + seq!['.'] + (zeros + digits));
        lemma_split_at_point(seq!['0'], zeros + digits);
        lemma_digits_value_append(zeros, digits);
        lemma_digits_value_append(seq!['0'], zeros + digits);
        assert(body[1] == '.');
    }
}

/// Decimal labels are exact and read their sign honestly: a label written
/// for `mantissa × 10^exp10` carries exactly `-exp10` fraction digits when
/// the exponent is negative (and no point otherwise), its digits read back
/// as exactly that value, and it starts with `-` exactly when the mantissa
/// is negative — so no label is ever `-0`.
pub proof fn law_decimal_labels_read_back_exactly(mantissa: int, exp10: int)
    ensures
        (spec_decimal(mantissa, exp10)[0] == '-') <==> mantissa < 0,
        exp10 < 0 ==> after_point(spec_decimal(mantissa, exp10)) == -exp10,
        exp10 < 0 ==> label_sign(spec_decimal(mantissa, exp10)) * digits_value(
            without_point(label_body(spec_decimal(mantissa, exp10))),
        ) == mantissa,
        exp10 >= 0 ==> !spec_decimal(mantissa, exp10).contains('.'),
        exp10 >= 0 ==> label_sign(spec_decimal(mantissa, exp10)) * digits_value(
            label_body(spec_decimal(mantissa, exp10)),
        ) == mantissa * pow10(exp10 as nat),
{
    let text = spec_decimal(mantissa, exp10);
    let body = decimal_body(mantissa, exp10);
    let sign = sign_of(mantissa);
    assert(text =~= sign + body);
    if exp10 >= 0 {
        lemma_whole_body(mantissa, exp10);
        lemma_point_free(body);
        assert('0' <= body[0] <= '9');
    } else {
        lemma_fraction_body(mantissa, exp10);
    }
    assert(label_body(text) =~= body);
    if exp10 >= 0 {
        let p = pow10(exp10 as nat) as int;
        let v = digits_value(body);
        assert(label_sign(text) * v == mantissa * p) by (nonlinear_arith)
            requires
                v == abs_nat(mantissa) * p,
                label_sign(text) == (if mantissa < 0 {
                    -1int
                } else {
                    1int
                }),
                abs_nat(mantissa) == (if mantissa < 0 {
                    -mantissa
                } else {
                    mantissa
                }),
        ;
        if text.contains('.') {
            let i = choose|i: int| 0 <= i < text.len() && text[i] == '.';
            if mantissa < 0 {
                assert(text[i] == body[i - 1]);
            } else {
                assert(text[i] == body[i]);
            }
        }
    } else {
        if mantissa < 0 {
            lemma_after_point_prefix(seq!['-'], body);
            assert(text[0] == '-');
            assert(label_sign(text) == -1);
        } else {
            assert(text =~= body);
            assert(label_sign(text) == 1);
        }
        let v = digits_value(without_point(label_body(text)));
        assert(v == abs_nat(mantissa));
        let sign_value = label_sign(text);
        assert(sign_value * v == mantissa) by (nonlinear_arith)
            requires
                v == (if mantissa < 0 {
                    -mantissa
                } else {
                    mantissa
                }),
                sign_value == (if mantissa < 0 {
                    -1int
                } else {
                    1int
                }),
        ;
    }
}

proof fn lemma_after_point_prefix(p: Seq<char>, s: Seq<char>)
    requires
        s.contains('.'),
    ensures
        after_point(p + s) == after_point(s),
    decreases s.len(),
{
    let t = p + s;
    assert(t.contains('.')) by {
        let i = choose|i: int| 0 <= i < s.len() && s[i] == '.';
        assert(t[p.len() + i] == '.');
    }
    if s.last() == '.' {
        assert(t.last() == '.');
    } else {
        assert(t.drop_last() =~= p + s.drop_last());
        assert(s.drop_last().contains('.')) by {
            let i = choose|i: int| 0 <= i < s.len() && s[i] == '.';
            assert(i < s.len() - 1);
            assert(s.drop_last()[i] == '.');
        }
        lemma_after_point_prefix(p, s.drop_last());
    }
}

} // verus!
