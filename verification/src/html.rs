//! Card text rendered as HTML by pulldown-cmark, and HTML escaping.
use crate::text::{push_str, string_of, trim_end, trim_end_chars, chars_of};
use vstd::prelude::*;

verus! {

/// The HTML that pulldown-cmark (no extensions) renders for a text.
pub uninterp spec fn cmark_html(text: Seq<char>) -> Seq<char>;

/// Renders Markdown with `pulldown_cmark::html::push_html` over
/// `Parser::new(text)`; the output depends on the text alone.
#[verifier::external_body]
fn render_markdown(text: &str) -> (r: String)
    ensures
        r@ == cmark_html(text@),
{
    let mut html = String::new();
    pulldown_cmark::html::push_html(&mut html, pulldown_cmark::Parser::new(text));
    html
}

/// Each newline preceded by two spaces (a Markdown hard break).
pub open spec fn hard_breaks(s: Seq<char>) -> Seq<char>
    decreases s.len(),
{
    if s.len() == 0 {
        seq![]
    } else {
        hard_breaks(s.drop_last()) + (if s.last() == '\n' {
            seq![' ', ' ', '\n']
        } else {
            seq![s.last()]
        })
    }
}

/// Card text as HTML: single newlines become hard breaks, and trailing
/// white space of the rendering is dropped.
pub open spec fn card_html(text: Seq<char>) -> Seq<char> {
    trim_end(cmark_html(hard_breaks(text)))
}

/// Card field text converted to HTML for display.
pub fn text_to_html(text: &str) -> (r: String)
    ensures
        r@ == card_html(text@),
{
    let chars = chars_of(text);
    let mut with_breaks: Vec<char> = Vec::new();
    let mut i: usize = 0;
    while i < chars.len()
        invariant
            0 <= i <= chars.len(),
            with_breaks@ == hard_breaks(chars@.take(i as int)),
        decreases chars.len() - i,
    {
        assert(chars@.take(i + 1).drop_last() =~= chars@.take(i as int));
        if chars[i] == '\n' {
            with_breaks.push(' ');
            with_breaks.push(' ');
            with_breaks.push('\n');
        } else {
            with_breaks.push(chars[i]);
        }
        i = i + 1;
        assert(with_breaks@ =~= hard_breaks(chars@.take(i as int)));
    }
    assert(chars@.take(chars.len() as int) =~= chars@);
    let input = string_of(&with_breaks);
    let html = render_markdown(input.as_str());
    let hc = chars_of(html.as_str());
    let t = trim_end_chars(&hc);
    string_of(&t)
}

/// `&`, `<`, `>` and `"` escaped for HTML.
pub open spec fn escape(s: Seq<char>) -> Seq<char>
    decreases s.len(),
{
    if s.len() == 0 {
        seq![]
    } else {
        escape(s.drop_last()) + (if s.last() == '&' {
            "&amp;"@
        } else if s.last() == '<' {
            "&lt;"@
        } else if s.last() == '>' {
            "&gt;"@
        } else if s.last() == '"' {
            "&quot;"@
        } else {
            seq![s.last()]
        })
    }
}

/// Escaped text holds no `<`, `>` or `"`: it can neither open or close a
/// tag nor end an attribute value.
pub proof fn escape_has_no_markup(s: Seq<char>)
    ensures
        forall|i: int|
            0 <= i < escape(s).len() ==> escape(s)[i] != '<' && escape(s)[i] != '>' && escape(s)[i]
                != '"',
    decreases s.len(),
{
    reveal_strlit("&amp;");
    reveal_strlit("&lt;");
    reveal_strlit("&gt;");
    reveal_strlit("&quot;");
    if s.len() > 0 {
        escape_has_no_markup(s.drop_last());
        let head = escape(s.drop_last());
        let c = s.last();
        let tail = if c == '&' {
            "&amp;"@
        } else if c == '<' {
            "&lt;"@
        } else if c == '>' {
            "&gt;"@
        } else if c == '"' {
            "&quot;"@
        } else {
            seq![c]
        };
        assert(escape(s) == head + tail);
        assert forall|i: int| 0 <= i < escape(s).len() implies escape(s)[i] != '<' && escape(s)[i]
            != '>' && escape(s)[i] != '"' by {
            if i >= head.len() {
                assert(escape(s)[i] == tail[i - head.len()]);
            }
        }
    }
}

/// `s` with `&`, `<`, `>` and `"` escaped.
pub fn escape_html(s: &str) -> (r: String)
    ensures
        r@ == escape(s@),
{
    let chars = chars_of(s);
    let mut out: Vec<char> = Vec::new();
    let mut i: usize = 0;
    while i < chars.len()
        invariant
            0 <= i <= chars.len(),
            out@ == escape(chars@.take(i as int)),
        decreases chars.len() - i,
    {
        assert(chars@.take(i + 1).drop_last() =~= chars@.take(i as int));
        let c = chars[i];
        if c == '&' {
            push_str(&mut out, "&amp;");
        } else if c == '<' {
            push_str(&mut out, "&lt;");
        } else if c == '>' {
            push_str(&mut out, "&gt;");
        } else if c == '"' {
            push_str(&mut out, "&quot;");
        } else {
            out.push(c);
        }
        i = i + 1;
        assert(out@ =~= escape(chars@.take(i as int)));
    }
    assert(chars@.take(chars.len() as int) =~= chars@);
    string_of(&out)
}

} // verus!
