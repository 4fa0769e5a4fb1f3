use malevich::html::escape;

#[test]
fn glyphs_are_escaped_as_html_content() {
    let mut html = String::new();
    for glyph in "<&>\"'".chars() {
        escape(glyph, &mut html);
    }
    assert_eq!(html, "&lt;&amp;&gt;\"'");
}

#[test]
fn escaped_text_never_holds_raw_markup() {
    let mut html = String::new();
    for glyph in "a<b>&c".chars() {
        escape(glyph, &mut html);
    }
    assert_eq!(html, "a&lt;b&gt;&amp;c");
    assert!(!html.contains('<') && !html.contains('>'));
}
