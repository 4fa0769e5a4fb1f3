//! HTML content encoding: the cell grid as a `<pre>` of colored spans.

use vstd::prelude::*;

use crate::text::push_char;

verus! {

/// One glyph as HTML (or SVG) element content: `&`, `<` and `>` become
/// their entities; every other glyph stands for itself.
pub open spec fn spec_escape(glyph: char) -> Seq<char> {
    if glyph == '&' {
        seq!['&', 'a', 'm', 'p', ';']
    } else if glyph == '<' {
        seq!['&', 'l', 't', ';']
    } else if glyph == '>' {
        seq!['&', 'g', 't', ';']
    } else {
        seq![glyph]
    }
}

/// Escapes one text-cell glyph into HTML (or SVG) element content.
pub fn escape(glyph: char, out: &mut String)
    ensures
        final(out)@ == old(out)@ + spec_escape(glyph),
{
    if glyph == '&' {
        push_char(out, '&');
        push_char(out, 'a');
        push_char(out, 'm');
        push_char(out, 'p');
        push_char(out, ';');
    } else if glyph == '<' {
        push_char(out, '&');
        push_char(out, 'l');
        push_char(out, 't');
        push_char(out, ';');
    } else if glyph == '>' {
        push_char(out, '&');
        push_char(out, 'g');
        push_char(out, 't');
        push_char(out, ';');
    } else {
        push_char(out, glyph);
    }
    assert(out@ =~= old(out)@ + spec_escape(glyph));
}

/// Escaped content never holds a raw `<`, `>`, or a `&` that does not open
/// an entity: an escaped glyph is one of the three entities or a glyph that
/// needs no escape.
pub proof fn law_escaped_glyphs_hold_no_markup(glyph: char)
    ensures
        !spec_escape(glyph).contains('<'),
        !spec_escape(glyph).contains('>'),
        spec_escape(glyph).contains('&') ==> spec_escape(glyph)[0] == '&' && spec_escape(glyph).last()
            == ';',
{
    let e = spec_escape(glyph);
    if glyph == '&' || glyph == '<' || glyph == '>' {
        assert(!e.contains('<') && !e.contains('>')) by {
            if e.contains('<') {
                let i = choose|i: int| 0 <= i < e.len() && e[i] == '<';
                assert(false);
            }
            if e.contains('>') {
                let i = choose|i: int| 0 <= i < e.len() && e[i] == '>';
                assert(false);
            }
        }
    } else {
        assert(e =~= seq![glyph]);
        if e.contains('<') || e.contains('>') || e.contains('&') {
            assert(e[0] == glyph);
        }
    }
}

} // verus!
