//! Character and digit helpers shared by every encoder: decimal and hex
//! digits, and the few `String` and `char` operations the encoders build on.

use vstd::prelude::*;

verus! {

/// `String::push`: appends one character. Claimed of it: the string's
/// characters afterwards are those before, then `c`.
#[verifier::external_body]
pub(crate) fn push_char(out: &mut String, c: char)
    ensures
        final(out)@ == old(out)@.push(c),
{
    out.push(c);
}

/// `char::from_u32`: the character with code point `value`. Claimed of it:
/// a character it returns has that code point, and it returns one for every
/// Unicode scalar value (the surrogates and values past U+10FFFF get `None`).
#[verifier::external_body]
pub(crate) fn char_from_u32(value: u32) -> (r: Option<char>)
    ensures
        r matches Some(c) ==> c as u32 == value,
        (value < 0xD800 || (0xE000 <= value && value <= 0x10FFFF)) ==> r is Some,
{
    char::from_u32(value)
}

/// `str::chars`, collected: the characters of a string slice. Claimed of it:
/// they are the slice's characters, in order.
#[verifier::external_body]
pub(crate) fn chars_of(text: &str) -> (r: Vec<char>)
    ensures
        r@ == text@,
{
    text.chars().collect()
}

/// Appends every character of `extra` to `out`.
pub fn push_str(out: &mut String, extra: &str)
    ensures
        final(out)@ == old(out)@ + extra@,
{
    let chars = chars_of(extra);
    let mut i: usize = 0;
    while i < chars.len()
        invariant
            0 <= i <= chars@.len(),
            chars@ == extra@,
            out@ == old(out)@ + extra@.subrange(0, i as int),
        decreases chars@.len() - i,
    {
        push_char(out, chars[i]);
        i = i + 1;
        assert(extra@.subrange(0, i as int) =~= extra@.subrange(0, i - 1).push(chars@[i - 1]));
    }
    assert(extra@.subrange(0, i as int) =~= extra@);
}

/// Appends the characters of a string to a character vector.
pub fn extend_chars(line: &mut Vec<char>, extra: &String)
    ensures
        final(line)@ == old(line)@ + extra@,
{
    let chars = chars_of(extra.as_str());
    let mut k: usize = 0;
    while k < chars.len()
        invariant
            k <= chars@.len(),
            chars@ == extra@,
            line@ == old(line)@ + chars@.take(k as int),
        decreases chars@.len() - k,
    {
        line.push(chars[k]);
        k = k + 1;
        assert(chars@.take(k as int) =~= chars@.take(k - 1).push(chars@[k - 1]));
    }
    assert(chars@.take(k as int) =~= chars@);
}

/// Appends the characters of `extra` to `out`.
pub fn push_seq(out: &mut String, extra: &Vec<char>)
    ensures
        final(out)@ == old(out)@ + extra@,
{
    let mut i: usize = 0;
    while i < extra.len()
        invariant
            0 <= i <= extra@.len(),
            out@ == old(out)@ + extra@.subrange(0, i as int),
        decreases extra@.len() - i,
    {
        push_char(out, extra[i]);
        i = i + 1;
        assert(extra@.subrange(0, i as int) =~= extra@.subrange(0, i - 1).push(extra@[i - 1]));
    }
    assert(extra@.subrange(0, i as int) =~= extra@);
}

/// The decimal digit character for `d` in `0..10`.
pub open spec fn digit_char(d: int) -> char {
    ('0' as int + d) as char
}

/// The decimal digits of `n`, most significant first, without leading zeros
/// (zero is the single digit `0`).
pub open spec fn decimal_digits(n: nat) -> Seq<char>
    decreases n,
{
    if n < 10 {
        seq![digit_char(n as int)]
    } else {
        decimal_digits(n / 10).push(digit_char((n % 10) as int))
    }
}

/// The lowercase hexadecimal digit character for `d` in `0..16`.
pub open spec fn hex_char(d: int) -> char {
    if d < 10 { ('0' as int + d) as char } else { ('a' as int + d - 10) as char }
}

/// A byte as exactly two lowercase hexadecimal digits.
pub open spec fn hex_byte(b: u8) -> Seq<char> {
    seq![hex_char(b as int / 16), hex_char(b as int % 16)]
}

/// `count` copies of `c`.
pub open spec fn repeat(c: char, count: nat) -> Seq<char>
    decreases count,
{
    if count == 0 { Seq::empty() } else { repeat(c, (count - 1) as nat).push(c) }
}

pub proof fn lemma_decimal_digits_len(n: nat)
    ensures
        decimal_digits(n).len() >= 1,
    decreases n,
{
    if n >= 10 {
        lemma_decimal_digits_len(n / 10);
    }
}

pub proof fn lemma_repeat_len(c: char, count: nat)
    ensures
        repeat(c, count).len() == count,
        forall|i: int| 0 <= i < count ==> #[trigger] repeat(c, count)[i] == c,
    decreases count,
{
    if count > 0 {
        lemma_repeat_len(c, (count - 1) as nat);
    }
}

/// The exec digit character for `d < 10`.
pub fn digit(d: u8) -> (c: char)
    requires
        d < 10,
    ensures
        c == digit_char(d as int),
{
    match d {
        0 => '0',
        1 => '1',
        2 => '2',
        3 => '3',
        4 => '4',
        5 => '5',
        6 => '6',
        7 => '7',
        8 => '8',
        _ => '9',
    }
}

/// The exec hex digit character for `d < 16`.
pub fn hex_digit(d: u8) -> (c: char)
    requires
        d < 16,
    ensures
        c == hex_char(d as int),
{
    if d < 10 {
        digit(d)
    } else {
        match d {
            10 => 'a',
            11 => 'b',
            12 => 'c',
            13 => 'd',
            14 => 'e',
            _ => 'f',
        }
    }
}

/// Appends the decimal digits of `n`.
pub fn push_decimal(out: &mut String, n: u128)
    ensures
        final(out)@ == old(out)@ + decimal_digits(n as nat),
    decreases n,
{
    if n >= 10 {
        push_decimal(out, n / 10);
    }
    let ghost mid = out@;
    push_char(out, digit((n % 10) as u8));
    proof {
        if n >= 10 {
            assert(out@ =~= old(out)@ + decimal_digits(n as nat));
        } else {
            assert(out@ =~= old(out)@ + decimal_digits(n as nat));
        }
    }
}

/// Appends a byte as two lowercase hex digits.
pub fn push_hex_byte(out: &mut String, b: u8)
    ensures
        final(out)@ == old(out)@ + hex_byte(b),
{
    push_char(out, hex_digit(b / 16));
    push_char(out, hex_digit(b % 16));
    assert(final(out)@ =~= old(out)@ + hex_byte(b));
}

/// The decimal digits of `n` as characters.
pub fn decimal_chars(n: u128) -> (r: Vec<char>)
    ensures
        r@ == decimal_digits(n as nat),
    decreases n,
{
    let mut r = if n >= 10 { decimal_chars(n / 10) } else { Vec::new() };
    r.push(digit((n % 10) as u8));
    proof {
        assert(r@ =~= decimal_digits(n as nat));
    }
    r
}

/// Appends `v[from..to]`.
pub fn push_range(out: &mut String, v: &Vec<char>, from: usize, to: usize)
    requires
        from <= to <= v@.len(),
    ensures
        final(out)@ == old(out)@ + v@.subrange(from as int, to as int),
{
    let mut i: usize = from;
    while i < to
        invariant
            from <= i <= to <= v@.len(),
            out@ == old(out)@ + v@.subrange(from as int, i as int),
        decreases to - i,
    {
        push_char(out, v[i]);
        i = i + 1;
        assert(v@.subrange(from as int, i as int) =~= v@.subrange(from as int, i - 1).push(v@[i - 1]));
    }
}

/// Appends `count` copies of `c`.
pub fn push_repeat(out: &mut String, c: char, count: u64)
    ensures
        final(out)@ == old(out)@ + repeat(c, count as nat),
{
    let mut i: u64 = 0;
    while i < count
        invariant
            0 <= i <= count,
            out@ == old(out)@ + repeat(c, i as nat),
        decreases count - i,
    {
        push_char(out, c);
        i = i + 1;
        assert(repeat(c, i as nat) == repeat(c, (i - 1) as nat).push(c));
        assert(out@ =~= old(out)@ + repeat(c, i as nat));
    }
}

} // verus!
