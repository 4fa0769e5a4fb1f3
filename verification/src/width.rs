//! Display-width measurement and fitting for text on the cell grid.
//!
//! Labels are measured in terminal columns, not chars: CJK and other wide
//! glyphs occupy two cells. Zero-width characters (combining marks) do not
//! survive the cell grid — one cell holds one glyph — and are dropped.

use vstd::prelude::*;

use unicode_width::UnicodeWidthChar;

use crate::text::{chars_of, push_char, push_range};

verus! {

/// What unicode-width's `UnicodeWidthChar::width` gives a character.
pub uninterp spec fn unicode_width(c: char) -> Option<usize>;

/// The column width of one character, per `UnicodeWidthChar::width` of the
/// unicode-width crate: `None` for the C0 and C1 control characters, 1 for
/// printable ASCII, and the crate's UAX #11 table value (a `u8`) for every
/// character from U+00A0 up. Which table value a given character has is
/// left to the name `unicode_width`.
#[verifier::external_body]
fn char_width(c: char) -> (w: Option<usize>)
    ensures
        w == unicode_width(c),
        (c as u32) < 0x20 ==> w is None,
        (0x7F <= (c as u32) && (c as u32) < 0xA0) ==> w is None,
        (0x20 <= (c as u32) && (c as u32) < 0x7F) ==> w == Some(1usize),
        (c as u32) >= 0xA0 ==> (w is Some && w.unwrap() < 256),
{
    c.width()
}

/// The columns a character takes on the grid: its width, zero for a
/// control character.
pub open spec fn columns_of(c: char) -> nat {
    match unicode_width(c) {
        Some(w) => w as nat,
        None => 0,
    }
}

/// The display width of a character sequence: the sum of its columns.
pub open spec fn spec_display_width(s: Seq<char>) -> nat
    decreases s.len(),
{
    if s.len() == 0 {
        0
    } else {
        spec_display_width(s.drop_last()) + columns_of(s.last())
    }
}

/// The columns of one character, its width or zero.
pub fn columns(c: char) -> (w: usize)
    ensures
        w == columns_of(c),
        w < 256,
        (c as u32) < 0x20 ==> w == 0,
{
    match char_width(c) {
        Some(w) => w,
        None => 0,
    }
}

pub proof fn lemma_display_width_append(a: Seq<char>, b: Seq<char>)
    ensures
        spec_display_width(a + b) == spec_display_width(a) + spec_display_width(b),
    decreases b.len(),
{
    if b.len() == 0 {
        assert(a + b =~= a);
    } else {
        lemma_display_width_append(a, b.drop_last());
        assert((a + b).drop_last() =~= a + b.drop_last());
    }
}

pub proof fn lemma_display_width_prefix(s: Seq<char>, i: int, j: int)
    requires
        0 <= i <= j <= s.len(),
    ensures
        spec_display_width(s.take(i)) <= spec_display_width(s.take(j)),
    decreases j - i,
{
    if i < j {
        lemma_display_width_prefix(s, i, j - 1);
        assert(s.take(j).drop_last() =~= s.take(j - 1));
    }
}

/// The display width of `text` in terminal columns, or `None` when it
/// exceeds what a `usize` holds.
pub fn display_width_checked(text: &str) -> (w: Option<usize>)
    ensures
        w matches Some(n) ==> n == spec_display_width(text@),
        w is None <==> spec_display_width(text@) > usize::MAX,
{
    let chars = chars_of(text);
    let mut total: usize = 0;
    let mut i: usize = 0;
    while i < chars.len()
        invariant
            0 <= i <= chars@.len(),
            chars@ == text@,
            total == spec_display_width(text@.take(i as int)),
        decreases chars@.len() - i,
    {
        let w = columns(chars[i]);
        proof {
            assert(text@.take(i + 1).drop_last() =~= text@.take(i as int));
        }
        if total > usize::MAX - w {
            proof {
                lemma_display_width_prefix(text@, i + 1, text@.len() as int);
                assert(text@.take(text@.len() as int) =~= text@);
            }
            return None;
        }
        total = total + w;
        i = i + 1;
    }
    assert(text@.take(i as int) =~= text@);
    Some(total)
}

/// A width as a `usize`: the width itself, or `usize::MAX` for one past
/// it (which no string held in memory reaches).
pub open spec fn saturated(n: nat) -> nat {
    if n > usize::MAX {
        usize::MAX as nat
    } else {
        n
    }
}

/// The display width of `text` in terminal columns.
pub fn display_width(text: &str) -> (w: usize)
    ensures
        w == saturated(spec_display_width(text@)),
{
    match display_width_checked(text) {
        Some(w) => w,
        None => usize::MAX,
    }
}

/// The rest of a CSI sequence's body after its final byte (the first
/// character in `@`..=`~`); nothing when it never ends.
pub open spec fn after_csi(s: Seq<char>) -> Seq<char>
    decreases s.len(),
{
    if s.len() == 0 {
        s
    } else if '@' <= s[0] <= '~' {
        s.drop_first()
    } else {
        after_csi(s.drop_first())
    }
}

/// The rest of a control string's body after its terminator: the string
/// terminator `ESC \\`, or, for an OSC, also a bell; nothing when it never
/// ends.
pub open spec fn after_control_string(s: Seq<char>, bell_terminated: bool) -> Seq<char>
    decreases s.len(),
{
    if s.len() == 0 {
        s
    } else if bell_terminated && s[0] == '\u{7}' {
        s.drop_first()
    } else if s[0] == '\u{1b}' && s.len() > 1 && s[1] == '\\' {
        s.skip(2)
    } else {
        after_control_string(s.drop_first(), bell_terminated)
    }
}

pub proof fn lemma_after_csi_shorter(s: Seq<char>)
    ensures
        after_csi(s).len() <= s.len(),
        after_csi(s) == s.skip(s.len() - after_csi(s).len()),
    decreases s.len(),
{
    if s.len() > 0 && !('@' <= s[0] <= '~') {
        lemma_after_csi_shorter(s.drop_first());
        assert(s.drop_first().skip(s.drop_first().len() - after_csi(s.drop_first()).len()) =~= s.skip(
            s.len() - after_csi(s).len(),
        ));
    } else if s.len() > 0 {
        assert(s.drop_first() =~= s.skip(1));
    } else {
        assert(s =~= s.skip(0));
    }
}

pub proof fn lemma_after_control_string_shorter(s: Seq<char>, bell_terminated: bool)
    ensures
        after_control_string(s, bell_terminated).len() <= s.len(),
        after_control_string(s, bell_terminated) == s.skip(
            s.len() - after_control_string(s, bell_terminated).len(),
        ),
    decreases s.len(),
{
    if s.len() == 0 {
        assert(s =~= s.skip(0));
    } else if bell_terminated && s[0] == '\u{7}' {
        assert(s.drop_first() =~= s.skip(1));
    } else if s[0] == '\u{1b}' && s.len() > 1 && s[1] == '\\' {
    } else {
        lemma_after_control_string_shorter(s.drop_first(), bell_terminated);
        let t = s.drop_first();
        assert(t.skip(t.len() - after_control_string(t, bell_terminated).len()) =~= s.skip(
            s.len() - after_control_string(s, bell_terminated).len(),
        ));
    }
}

/// Whether every character of `p` is a CSI parameter character: a decimal
/// digit or `;`.
pub open spec fn csi_parameters(p: Seq<char>) -> bool {
    forall|i: int| 0 <= i < p.len() ==> ('0' <= #[trigger] p[i] <= '9' || p[i] == ';')
}

/// Whether `t` holds no `ESC`.
pub open spec fn escape_free(t: Seq<char>) -> bool {
    forall|i: int| 0 <= i < t.len() ==> #[trigger] t[i] != '\u{1b}'
}

proof fn lemma_after_csi_parameters(p: Seq<char>, f: char, s: Seq<char>)
    requires
        csi_parameters(p),
        0x40 <= f as u32 <= 0x7E,
    ensures
        after_csi(p + seq![f] + s) == s,
    decreases p.len(),
{
    let whole = p + seq![f] + s;
    if p.len() == 0 {
        assert(whole[0] == f);
        assert(whole.drop_first() =~= s);
    } else {
        let rest = p.drop_first();
        assert forall|i: int| 0 <= i < rest.len() implies ('0' <= #[trigger] rest[i] <= '9' || rest[i]
            == ';') by {
            assert(rest[i] == p[i + 1]);
        }
        lemma_after_csi_parameters(rest, f, s);
        assert(whole[0] == p[0]);
        assert(whole.drop_first() =~= rest + seq![f] + s);
    }
}

/// A CSI sequence takes no columns: `ESC [`, parameter digits and `;`, and
/// a final byte anywhere in `0x40..=0x7E` (`m` for colors, `K`, `H`, …)
/// measure nothing, whatever follows.
pub proof fn law_csi_sequences_take_no_columns(p: Seq<char>, f: char, s: Seq<char>)
    requires
        csi_parameters(p),
        0x40 <= f as u32 <= 0x7E,
    ensures
        spec_display_width_ansi(seq!['\u{1b}', '['] + p + seq![f] + s) == spec_display_width_ansi(s),
{
    let whole = seq!['\u{1b}', '['] + p + seq![f] + s;
    assert(whole[0] == '\u{1b}');
    assert(whole[1] == '[');
    assert(whole.skip(2) =~= p + seq![f] + s);
    lemma_after_csi_parameters(p, f, s);
}

/// Text without escapes measures the same with or without escape handling,
/// and measures additively in front of anything.
pub proof fn lemma_escape_free_width(t: Seq<char>, s: Seq<char>)
    requires
        escape_free(t),
    ensures
        spec_display_width_ansi(t + s) == spec_display_width(t) + spec_display_width_ansi(s),
    decreases t.len(),
{
    if t.len() == 0 {
        assert(t + s =~= s);
    } else {
        let rest = t.drop_first();
        assert forall|i: int| 0 <= i < rest.len() implies #[trigger] rest[i] != '\u{1b}' by {
            assert(rest[i] == t[i + 1]);
        }
        lemma_escape_free_width(rest, s);
        assert((t + s)[0] == t[0]);
        assert((t + s).drop_first() =~= rest + s);
        lemma_display_width_append(seq![t[0]], rest);
        assert(seq![t[0]] + rest =~= t);
        assert(seq![t[0]].drop_last() =~= Seq::<char>::empty());
        assert(spec_display_width(Seq::<char>::empty()) == 0);
        let one = seq![t[0]];
        assert(one.last() == t[0]);
        assert(spec_display_width(one.drop_last()) == 0);
        assert(spec_display_width(one) == columns_of(t[0]));
        assert(t[0] != '\u{1b}');
        assert(spec_display_width_ansi(t + s) == columns_of(t[0]) + spec_display_width_ansi(rest + s));
    }
}

/// Colored text measures its glyphs: text wrapped in a color sequence
/// `ESC [ p m` and the reset `ESC [ 0 m` takes exactly the columns of the
/// text itself.
pub proof fn law_colored_text_measures_its_glyphs(p: Seq<char>, t: Seq<char>)
    requires
        csi_parameters(p),
        escape_free(t),
    ensures
        spec_display_width_ansi(seq!['\u{1b}', '['] + p + seq!['m'] + t + seq!['\u{1b}', '[', '0', 'm'])
            == spec_display_width(t),
{
    let reset = seq!['\u{1b}', '[', '0', 'm'];
    let body = t + reset;
    assert(seq!['\u{1b}', '['] + p + seq!['m'] + t + reset =~= seq!['\u{1b}', '['] + p + seq!['m'] + body);
    law_csi_sequences_take_no_columns(p, 'm', body);
    lemma_escape_free_width(t, reset);
    let zero = seq!['0'];
    assert(csi_parameters(zero));
    law_csi_sequences_take_no_columns(zero, 'm', Seq::empty());
    assert(seq!['\u{1b}', '['] + zero + seq!['m'] + Seq::<char>::empty() =~= reset);
}

/// The display width of a character sequence with ANSI/ECMA-48 escape
/// strings treated as zero-width: CSI sequences up to their final byte, OSC
/// strings up to a bell or `ESC \\`, DCS, APC, PM and SOS strings up to
/// `ESC \\`, and any other escape as the escape and the character after it.
pub open spec fn spec_display_width_ansi(s: Seq<char>) -> nat
    decreases s.len(),
{
    if s.len() == 0 {
        0
    } else if s[0] != '\u{1b}' {
        columns_of(s[0]) + spec_display_width_ansi(s.drop_first())
    } else if s.len() == 1 {
        0
    } else {
        let rest = s.skip(2);
        let next = if s[1] == '[' {
            after_csi(rest)
        } else if s[1] == ']' {
            after_control_string(rest, true)
        } else if s[1] == 'P' || s[1] == '_' || s[1] == '^' || s[1] == 'X' {
            after_control_string(rest, false)
        } else {
            rest
        };
        proof {
            lemma_after_csi_shorter(rest);
            lemma_after_control_string_shorter(rest, true);
            lemma_after_control_string_shorter(rest, false);
        }
        spec_display_width_ansi(next)
    }
}

/// Skips a control string's body from `chars[from..]`, returning the index
/// just past its terminator (or the end).
pub fn skip_control_string(chars: &Vec<char>, from: usize, bell_terminated: bool) -> (next: usize)
    requires
        from <= chars@.len(),
    ensures
        from <= next <= chars@.len(),
        chars@.skip(next as int) == after_control_string(chars@.skip(from as int), bell_terminated),
{
    let mut i = from;
    while i < chars.len()
        invariant
            from <= i <= chars@.len(),
            after_control_string(chars@.skip(i as int), bell_terminated) == after_control_string(
                chars@.skip(from as int),
                bell_terminated,
            ),
        decreases chars@.len() - i,
    {
        let next = chars[i];
        let ghost rest = chars@.skip(i as int);
        assert(rest[0] == next);
        if bell_terminated && next == '\u{7}' {
            assert(rest.drop_first() =~= chars@.skip(i + 1));
            return i + 1;
        }
        if next == '\u{1b}' && i + 1 < chars.len() && chars[i + 1] == '\\' {
            assert(rest.skip(2) =~= chars@.skip(i + 2));
            return i + 2;
        }
        assert(rest.drop_first() =~= chars@.skip(i + 1));
        i = i + 1;
    }
    i
}

/// Display width with ANSI/ECMA-48 escape strings treated as zero-width.
///
/// Besides the CSI color sequences emitted by the cell encoder, this
/// recognizes OSC and ST-terminated control strings so the scanner is safe
/// to reuse at other terminal composition boundaries.
pub fn display_width_ansi(text: &str) -> (w: usize)
    ensures
        w == saturated(spec_display_width_ansi(text@)),
{
    let chars = chars_of(text);
    let mut width: usize = 0;
    let mut i: usize = 0;
    proof {
        assert(chars@.skip(0) =~= text@);
    }
    while i < chars.len()
        invariant
            0 <= i <= chars@.len(),
            chars@ == text@,
            saturated((width + spec_display_width_ansi(chars@.skip(i as int))) as nat) == saturated(
                spec_display_width_ansi(text@),
            ),
        decreases chars@.len() - i,
    {
        let glyph = chars[i];
        let ghost s = chars@.skip(i as int);
        assert(s[0] == glyph);
        if glyph != '\u{1b}' {
            let w = columns(glyph);
            assert(s.drop_first() =~= chars@.skip(i + 1));
            assert(spec_display_width_ansi(s) == columns_of(glyph) + spec_display_width_ansi(
                s.drop_first(),
            ));
            width = if width > usize::MAX - w {
                usize::MAX
            } else {
                width + w
            };
            i = i + 1;
            continue;
        }
        if i + 1 >= chars.len() {
            assert(spec_display_width_ansi(s) == 0);
            i = chars.len();
            assert(chars@.skip(i as int) =~= Seq::<char>::empty());
            continue;
        }
        let kind = chars[i + 1];
        assert(s.skip(2) =~= chars@.skip(i + 2));
        let start = i + 2;
        if kind == '[' {
            // CSI ends at the first final byte in 0x40..=0x7e.
            let mut j = start;
            let mut done = false;
            while j < chars.len() && !done
                invariant
                    start <= j <= chars@.len(),
                    (if done {
                        chars@.skip(j as int)
                    } else {
                        after_csi(chars@.skip(j as int))
                    }) == after_csi(chars@.skip(start as int)),
                decreases chars@.len() - j,
            {
                let next = chars[j];
                assert(chars@.skip(j as int)[0] == next);
                assert(chars@.skip(j as int).drop_first() =~= chars@.skip(j + 1));
                j = j + 1;
                if '@' <= next && next <= '~' {
                    done = true;
                }
            }
            if !done {
                assert(chars@.skip(j as int) =~= Seq::<char>::empty());
            }
            i = j;
        } else if kind == ']' {
            i = skip_control_string(&chars, start, true);
        } else if kind == 'P' || kind == '_' || kind == '^' || kind == 'X' {
            i = skip_control_string(&chars, start, false);
        } else {
            i = start;
        }
        assert(spec_display_width_ansi(s) == spec_display_width_ansi(chars@.skip(i as int)));
    }
    proof {
        assert(chars@.skip(i as int).len() == 0);
    }
    width
}

/// The escape-aware width never exceeds the plain width.
pub proof fn lemma_ansi_width_bounded(s: Seq<char>)
    ensures
        spec_display_width_ansi(s) <= spec_display_width(s),
    decreases s.len(),
{
    if s.len() > 0 {
        if s[0] != '\u{1b}' {
            lemma_ansi_width_bounded(s.drop_first());
            lemma_display_width_append(seq![s[0]], s.drop_first());
            assert(seq![s[0]] + s.drop_first() =~= s);
            assert(spec_display_width(seq![s[0]]) == columns_of(s[0])) by {
                reveal_with_fuel(spec_display_width, 2);
                assert(seq![s[0]].drop_last() =~= Seq::<char>::empty());
            }
        } else if s.len() > 1 {
            let rest = s.skip(2);
            lemma_after_csi_shorter(rest);
            lemma_after_control_string_shorter(rest, true);
            lemma_after_control_string_shorter(rest, false);
            let next = if s[1] == '[' {
                after_csi(rest)
            } else if s[1] == ']' {
                after_control_string(rest, true)
            } else if s[1] == 'P' || s[1] == '_' || s[1] == '^' || s[1] == 'X' {
                after_control_string(rest, false)
            } else {
                rest
            };
            let k = s.len() - next.len();
            assert(next =~= s.skip(k));
            lemma_ansi_width_bounded(next);
            lemma_display_width_append(s.take(k), s.skip(k));
            assert(s.take(k) + s.skip(k) =~= s);
        }
    }
}

/// How many leading characters of `s` fit within `limit` columns when
/// `used` are already taken: characters are taken while the running width
/// stays within the limit, so a wide glyph is kept whole or dropped whole.
pub open spec fn fit_count(s: Seq<char>, limit: int, used: int) -> nat
    decreases s.len(),
{
    if s.len() == 0 || used + columns_of(s[0]) > limit {
        0
    } else {
        1 + fit_count(s.drop_first(), limit, used + columns_of(s[0]))
    }
}

/// `text` fitted into at most `max` columns: unchanged when it fits, else
/// the longest prefix within `max - 1` columns followed by the ellipsis
/// (with no ellipsis at all when `max` is zero).
pub open spec fn spec_fit_width(text: Seq<char>, max: nat, ellipsis: char) -> Seq<char> {
    if spec_display_width(text) <= max {
        text
    } else {
        let limit: int = if max >= 1 { max - 1 } else { 0 };
        let kept = text.take(fit_count(text, limit, 0) as int);
        if max >= 1 { kept.push(ellipsis) } else { kept }
    }
}

proof fn lemma_fit_count_step(s: Seq<char>, i: int, limit: int, used: int)
    requires
        0 <= i < s.len(),
        used + columns_of(s[i]) <= limit,
    ensures
        fit_count(s.skip(i), limit, used) == 1 + fit_count(s.skip(i + 1), limit, used + columns_of(s[i])),
{
    assert(s.skip(i).drop_first() =~= s.skip(i + 1));
}

proof fn lemma_width_front(s: Seq<char>)
    requires
        s.len() > 0,
    ensures
        spec_display_width(s) == columns_of(s[0]) + spec_display_width(s.drop_first()),
{
    lemma_display_width_append(seq![s[0]], s.drop_first());
    assert(seq![s[0]] + s.drop_first() =~= s);
    assert(spec_display_width(seq![s[0]]) == columns_of(s[0])) by {
        reveal_with_fuel(spec_display_width, 2);
        assert(seq![s[0]].drop_last() =~= Seq::<char>::empty());
    }
}

/// Fits `text` into at most `max` columns, truncating with `ellipsis` when
/// needed.
pub fn fit_width_with(text: &str, max: usize, ellipsis: char) -> (out: String)
    ensures
        out@ == spec_fit_width(text@, max as nat, ellipsis),
{
    let fits = match display_width_checked(text) {
        Some(w) => w <= max,
        None => false,
    };
    if fits {
        let mut out = String::new();
        crate::text::push_str(&mut out, text);
        assert(out@ =~= text@);
        return out;
    }
    let chars = chars_of(text);
    let limit: usize = if max >= 1 { max - 1 } else { 0 };
    let mut used: usize = 0;
    let mut i: usize = 0;
    let mut full = false;
    assert(text@.skip(0) =~= text@);
    assert(text@.take(0) =~= Seq::<char>::empty());
    while i < chars.len() && !full
        invariant
            0 <= i <= chars@.len(),
            chars@ == text@,
            used == spec_display_width(text@.take(i as int)),
            used <= limit,
            fit_count(text@, limit as int, 0) == i + fit_count(text@.skip(i as int), limit as int, used as int),
            full ==> fit_count(text@.skip(i as int), limit as int, used as int) == 0,
        decreases chars@.len() - i, if full { 0int } else { 1int },
    {
        let width = columns(chars[i]);
        if width > limit - used {
            proof {
                assert(text@.skip(i as int)[0] == text@[i as int]);
            }
            full = true;
        } else {
            proof {
                lemma_fit_count_step(text@, i as int, limit as int, used as int);
                assert(text@.take(i + 1).drop_last() =~= text@.take(i as int));
            }
            used = used + width;
            i = i + 1;
        }
    }
    proof {
        if !full {
            assert(text@.skip(i as int).len() == 0);
        }
    }
    let mut out = String::new();
    push_range(&mut out, &chars, 0, i);
    if max >= 1 {
        push_char(&mut out, ellipsis);
    }
    assert(out@ =~= spec_fit_width(text@, max as nat, ellipsis));
    out
}

/// Text that fits is returned untouched.
pub proof fn law_fitting_keeps_short_text(text: Seq<char>, max: nat, ellipsis: char)
    requires
        spec_display_width(text) <= max,
    ensures
        spec_fit_width(text, max, ellipsis) == text,
{
}

proof fn lemma_fit_count_width(s: Seq<char>, limit: int, used: int)
    requires
        0 <= used <= limit,
    ensures
        fit_count(s, limit, used) <= s.len(),
        used + spec_display_width(s.take(fit_count(s, limit, used) as int)) <= limit,
    decreases s.len(),
{
    if s.len() == 0 || used + columns_of(s[0]) > limit {
        assert(s.take(0) =~= Seq::<char>::empty());
    } else {
        let t = s.drop_first();
        let next = used + columns_of(s[0]);
        lemma_fit_count_width(t, limit, next);
        let k = fit_count(t, limit, next) as int;
        assert(s.take(k + 1) =~= seq![s[0]] + t.take(k));
        lemma_width_front(s.take(k + 1));
        assert(s.take(k + 1).drop_first() =~= t.take(k));
    }
}

/// Fitted text never takes more than `max` columns (given an ellipsis of at
/// most one column), and what is kept is a whole-glyph prefix of the text:
/// a wide glyph is never split.
pub proof fn law_fitted_text_fits(text: Seq<char>, max: nat, ellipsis: char)
    requires
        columns_of(ellipsis) <= 1,
    ensures
        spec_display_width(spec_fit_width(text, max, ellipsis)) <= max,
        spec_display_width(text) > max ==> spec_fit_width(text, max, ellipsis).take(
            fit_count(text, if max >= 1 { max - 1 } else { 0 }, 0) as int,
        ) == text.take(fit_count(text, if max >= 1 { max - 1 } else { 0 }, 0) as int),
{
    if spec_display_width(text) > max {
        let limit: int = if max >= 1 { max - 1 } else { 0 };
        lemma_fit_count_width(text, limit, 0);
        let k = fit_count(text, limit, 0) as int;
        let kept = text.take(k);
        if max >= 1 {
            lemma_display_width_append(kept, seq![ellipsis]);
            assert(kept.push(ellipsis) =~= kept + seq![ellipsis]);
            assert(spec_display_width(seq![ellipsis]) == columns_of(ellipsis)) by {
                reveal_with_fuel(spec_display_width, 2);
                assert(seq![ellipsis].drop_last() =~= Seq::<char>::empty());
            }
            assert(kept.push(ellipsis).take(k) =~= kept);
        } else {
            assert(kept.take(k) =~= kept);
        }
    }
}

} // verus!
