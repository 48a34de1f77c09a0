//! The preview page: the cards grouped by source file in tables, with the
//! deck name, counts and warnings above them.
use crate::html::{card_html, escape, escape_html, text_to_html};
use crate::text::{append_all, chars_eq, chars_of, dec, dec_chars, push_str, string_of};
use crate::web_preview::types::{css_class_of, label_of, PreviewCard, PreviewData};
use vstd::prelude::*;

verus! {

/// Self-contained CSS of the page (dark theme, card tables).
pub const CSS: &'static str = r#"
:root {
  --bg-primary: #1a1a2e;
  --bg-secondary: #16213e;
  --bg-card: #0f3460;
  --text-primary: #eaeaea;
  --text-secondary: #b8b8b8;
  --accent: #e94560;
  --success: #00d26a;
  --error: #ff4757;
  --border: #2a2a4a;
}
* { box-sizing: border-box; margin: 0; padding: 0; }
body {
  font-family: -apple-system, BlinkMacSystemFont, 'Segoe UI', Roboto, sans-serif;
  background: var(--bg-primary);
  color: var(--text-primary);
  line-height: 1.6;
  padding: 2rem;
}
.container { max-width: 1200px; margin: 0 auto; }

/* Header */
header {
  text-align: center;
  margin-bottom: 2rem;
  padding-bottom: 1.5rem;
  border-bottom: 1px solid var(--border);
}
header h1 {
  font-size: 2rem;
  margin-bottom: 0.5rem;
  background: linear-gradient(135deg, var(--accent), #ff6b6b);
  -webkit-background-clip: text;
  -webkit-text-fill-color: transparent;
  background-clip: text;
}
.meta {
  color: var(--text-secondary);
  font-size: 0.9rem;
  display: flex;
  justify-content: center;
  gap: 2rem;
}

/* File sections */
.file-section {
  background: var(--bg-secondary);
  border-radius: 12px;
  margin-bottom: 1.5rem;
  overflow: hidden;
  border: 1px solid var(--border);
}
.file-header {
  background: var(--bg-card);
  padding: 0.75rem 1.25rem;
  display: flex;
  justify-content: space-between;
  align-items: center;
}
.file-path {
  font-family: 'Monaco', 'Menlo', monospace;
  font-size: 0.85rem;
  color: var(--text-secondary);
}
.file-count {
  color: var(--text-secondary);
  font-size: 0.8rem;
}

/* Card table */
.card-table { width: 100%; border-collapse: collapse; }
.card-table th {
  padding: 0.6rem 1rem;
  text-align: left;
  color: var(--text-secondary);
  font-weight: 600;
  text-transform: uppercase;
  font-size: 0.7rem;
  letter-spacing: 0.5px;
  border-bottom: 1px solid var(--border);
}
.card-table td {
  padding: 0.75rem 1rem;
  border-bottom: 1px solid var(--border);
  vertical-align: top;
}
.card-table tr:last-child td { border-bottom: none; }
.card-row:hover { background: rgba(255,255,255,0.03); }
.card-index { color: var(--text-secondary); font-size: 0.8rem; width: 40px; }
.card-content { font-size: 0.9rem; line-height: 1.5; }
.card-content ul { margin: 0; padding-left: 1.5rem; }
.card-content li { margin: 0.15rem 0; }
.card-content p { margin: 0; }
.card-content img { max-width: 200px; border-radius: 4px; }
.card-front { width: 35%; }
.card-back { width: 35%; }

/* Type badges */
.type-badge {
  display: inline-block;
  padding: 0.2rem 0.6rem;
  border-radius: 4px;
  font-size: 0.7rem;
  font-weight: 600;
  text-transform: uppercase;
  white-space: nowrap;
}
.type-basic    { background: rgba(138,180,248,0.2); color: #8ab4f8; }
.type-bidi     { background: rgba(138,138,255,0.2); color: #8a8aff; }
.type-sequence { background: rgba(255,193,7,0.2);   color: #ffc107; }

/* Errors */
.errors-section {
  background: rgba(255,71,87,0.1);
  border: 1px solid var(--error);
  border-radius: 12px;
  padding: 1.25rem;
  margin-bottom: 1.5rem;
}
.errors-section h2 { color: var(--error); font-size: 1rem; margin-bottom: 0.75rem; }
.error-item {
  font-family: 'Monaco', 'Menlo', monospace;
  font-size: 0.85rem;
  color: var(--error);
  padding: 0.25rem 0;
}

/* Empty state */
.empty-state { text-align: center; padding: 3rem; color: var(--text-secondary); }
.empty-state h2 { margin-bottom: 0.5rem; }

/* Footer */
footer {
  text-align: center;
  margin-top: 2rem;
  padding-top: 1.5rem;
  border-top: 1px solid var(--border);
  color: var(--text-secondary);
  font-size: 0.8rem;
}
"#;

/// The page up to and including `</head>`.
pub open spec fn shell() -> Seq<char> {
    "<!DOCTYPE html>\n<html lang=\"en\">\n<head>\n"@ + "<meta charset=\"UTF-8\">\n"@
        + "<meta name=\"viewport\" content=\"width=device-width, initial-scale=1.0\">\n"@
        + "<title>acli - Card Preview</title>\n"@ + "<style>\n"@ + CSS@
        + "\n</style>\n</head>\n"@
}

/// `s` after a count other than one.
pub open spec fn plural(n: nat) -> Seq<char> {
    if n == 1 {
        seq![]
    } else {
        "s"@
    }
}

/// The page header: deck name and counts.
pub open spec fn header(deck: Seq<char>, cards: nat, files: nat) -> Seq<char> {
    "<header><h1>Card Preview</h1><div class=\"meta\"><span>Deck: <strong>"@ + escape(deck)
        + "</strong></span><span>"@ + dec(cards) + " card"@ + plural(cards) + " from "@ + dec(
        files,
    ) + " file"@ + plural(files) + "</span></div></header>\n"@
}

/// The first `n` warnings, one item each.
pub open spec fn error_items(errors: Seq<String>, n: int) -> Seq<char>
    decreases n,
{
    if n <= 0 {
        seq![]
    } else {
        error_items(errors, n - 1) + "<div class=\"error-item\">"@ + escape(errors[n - 1]@)
            + "</div>\n"@
    }
}

/// The warnings section, absent when there are none.
pub open spec fn errors_section(errors: Seq<String>) -> Seq<char> {
    if errors.len() == 0 {
        seq![]
    } else {
        "<div class=\"errors-section\">\n<h2>Warnings</h2>\n"@ + error_items(
            errors,
            errors.len() as int,
        ) + "</div>\n"@
    }
}

/// The source file a card is grouped under.
pub open spec fn file_label(c: PreviewCard) -> Seq<char> {
    match c.source_file {
        Some(f) => f@,
        None => "Unknown source"@,
    }
}

/// Whether card `i` opens a group: it is the first card, or its file
/// differs from that of the card before it.
pub open spec fn opens_group(cards: Seq<PreviewCard>, i: int) -> bool {
    i == 0 || file_label(cards[i - 1]) != file_label(cards[i])
}

/// Whether card `i` closes a group: it is the last card, or the next card
/// comes from another file.
pub open spec fn closes_group(cards: Seq<PreviewCard>, i: int) -> bool {
    i + 1 >= cards.len() || file_label(cards[i + 1]) != file_label(cards[i])
}

/// The number of consecutive cards from `i` on with the file of card `i`.
pub open spec fn run_length(cards: Seq<PreviewCard>, i: int) -> nat
    decreases cards.len() - i,
{
    if i < 0 || i + 1 >= cards.len() || file_label(cards[i + 1]) != file_label(cards[i]) {
        1
    } else {
        1 + run_length(cards, i + 1)
    }
}

/// The head of a file's section: its path, card count and table head.
pub open spec fn section_head(file: Seq<char>, count: nat) -> Seq<char> {
    "<div class=\"file-section\"><div class=\"file-header\"><span class=\"file-path\">"@ + escape(
        file,
    ) + "</span><span class=\"file-count\">"@ + dec(count) + " card"@ + plural(count)
        + "</span></div>\n"@
        + "<table class=\"card-table\"><thead><tr><th>#</th><th>Front</th><th>Back</th><th>Type</th></tr></thead>\n<tbody>\n"@
}

/// The end of a file's section.
pub open spec fn section_tail() -> Seq<char> {
    "</tbody></table>\n</div>\n"@
}

/// The table row of a card with its 1-based number.
pub open spec fn card_row(idx: nat, c: PreviewCard) -> Seq<char> {
    "<tr class=\"card-row\"><td class=\"card-index\">"@ + dec(idx)
        + "</td><td class=\"card-front\"><div class=\"card-content\">"@ + card_html(c.front@)
        + "</div></td><td class=\"card-back\"><div class=\"card-content\">"@ + card_html(c.back@)
        + "</div></td><td><span class=\"type-badge type-"@ + css_class_of(c.card_type) + "\">"@
        + label_of(c.card_type) + "</span></td></tr>\n"@
}

/// What card `i` adds to the page: the head of its section if it opens
/// one, its row, and the end of its section if it closes one.
pub open spec fn card_piece(cards: Seq<PreviewCard>, i: int) -> Seq<char> {
    (if opens_group(cards, i) {
        section_head(file_label(cards[i]), run_length(cards, i))
    } else {
        seq![]
    }) + card_row((i + 1) as nat, cards[i]) + (if closes_group(cards, i) {
        section_tail()
    } else {
        seq![]
    })
}

/// The sections of the first `n` cards.
pub open spec fn sections(cards: Seq<PreviewCard>, n: int) -> Seq<char>
    decreases n,
{
    if n <= 0 {
        seq![]
    } else {
        sections(cards, n - 1) + card_piece(cards, n - 1)
    }
}

/// The notice shown when there are no cards.
pub open spec fn empty_state() -> Seq<char> {
    "<div class=\"empty-state\"><h2>No cards found</h2><p>Add flashcard syntax to your markdown files and refresh.</p></div>\n"@
}

/// The whole preview page.
pub open spec fn page(data: PreviewData) -> Seq<char> {
    shell() + "<body>\n<div class=\"container\">\n"@ + header(
        data.deck_name@,
        data.cards@.len(),
        data.files_processed as nat,
    ) + errors_section(data.errors@) + (if data.cards@.len() == 0 {
        empty_state()
    } else {
        sections(data.cards@, data.cards@.len() as int)
    }) + "<footer>Served by acli &middot; Refresh the page to pick up changes</footer>\n"@
        + "</div>\n</body>\n</html>"@
}

/// The page shown when the cards could not be loaded at all.
pub open spec fn error_page(message: Seq<char>) -> Seq<char> {
    shell() + "<body>\n<div class=\"container\">\n"@ + "<header><h1>Card Preview</h1></header>\n"@
        + "<div class=\"errors-section\"><h2>Error</h2><div class=\"error-item\">"@ + escape(message)
        + "</div></div>\n"@ + "<footer>Served by acli &middot; Fix the issue and refresh</footer>\n"@
        + "</div>\n</body>\n</html>"@
}

fn page_shell() -> (r: Vec<char>)
    ensures
        r@ == shell(),
{
    let mut html: Vec<char> = Vec::new();
    push_str(&mut html, "<!DOCTYPE html>\n<html lang=\"en\">\n<head>\n");
    push_str(&mut html, "<meta charset=\"UTF-8\">\n");
    push_str(&mut html, "<meta name=\"viewport\" content=\"width=device-width, initial-scale=1.0\">\n");
    push_str(&mut html, "<title>acli - Card Preview</title>\n");
    push_str(&mut html, "<style>\n");
    push_str(&mut html, CSS);
    push_str(&mut html, "\n</style>\n</head>\n");
    assert(html@ =~= shell());
    html
}

fn push_plural(out: &mut Vec<char>, n: usize)
    ensures
        final(out)@ == old(out)@ + plural(n as nat),
{
    if n != 1 {
        push_str(out, "s");
    } else {
        assert(old(out)@ + plural(n as nat) =~= old(out)@);
    }
}

fn push_escaped(out: &mut Vec<char>, s: &str)
    ensures
        final(out)@ == old(out)@ + escape(s@),
{
    let e = escape_html(s);
    push_str(out, e.as_str());
}

fn push_number(out: &mut Vec<char>, n: usize)
    ensures
        final(out)@ == old(out)@ + dec(n as nat),
{
    let d = dec_chars(n as u64);
    append_all(out, &d);
}

fn push_header(out: &mut Vec<char>, data: &PreviewData)
    ensures
        final(out)@ == old(out)@ + header(
            data.deck_name@,
            data.cards@.len(),
            data.files_processed as nat,
        ),
{
    let card_count = data.cards.len();
    let file_count = data.files_processed;
    push_str(out, "<header><h1>Card Preview</h1><div class=\"meta\"><span>Deck: <strong>");
    push_escaped(out, data.deck_name.as_str());
    push_str(out, "</strong></span><span>");
    push_number(out, card_count);
    push_str(out, " card");
    push_plural(out, card_count);
    push_str(out, " from ");
    push_number(out, file_count);
    push_str(out, " file");
    push_plural(out, file_count);
    push_str(out, "</span></div></header>\n");
    assert(out@ =~= old(out)@ + header(
        data.deck_name@,
        data.cards@.len(),
        data.files_processed as nat,
    ));
}

fn push_errors(out: &mut Vec<char>, errors: &Vec<String>)
    ensures
        final(out)@ == old(out)@ + errors_section(errors@),
{
    if errors.len() == 0 {
        assert(old(out)@ + errors_section(errors@) =~= old(out)@);
        return;
    }
    push_str(out, "<div class=\"errors-section\">\n<h2>Warnings</h2>\n");
    let ghost start = out@;
    let mut i: usize = 0;
    while i < errors.len()
        invariant
            0 <= i <= errors.len(),
            out@ == start + error_items(errors@, i as int),
        decreases errors.len() - i,
    {
        push_str(out, "<div class=\"error-item\">");
        push_escaped(out, errors[i].as_str());
        push_str(out, "</div>\n");
        i = i + 1;
        assert(out@ =~= start + error_items(errors@, i as int));
    }
    push_str(out, "</div>\n");
    assert(out@ =~= old(out)@ + errors_section(errors@));
}

fn file_label_chars(c: &PreviewCard) -> (r: Vec<char>)
    ensures
        r@ == file_label(*c),
{
    match &c.source_file {
        Some(f) => chars_of(f.as_str()),
        None => chars_of("Unknown source"),
    }
}

fn run_length_exec(cards: &Vec<PreviewCard>, i: usize) -> (r: usize)
    requires
        i < cards.len(),
    ensures
        r == run_length(cards@, i as int),
{
    let mut j = i;
    let mut cur = file_label_chars(&cards[i]);
    let mut more = j + 1 < cards.len();
    while more
        invariant
            i <= j < cards.len(),
            cur@ == file_label(cards@[j as int]),
            run_length(cards@, i as int) == (j - i) + run_length(cards@, j as int),
            !more ==> run_length(cards@, j as int) == 1,
            more ==> j + 1 < cards.len(),
        decreases cards.len() - j, (if more { 1int } else { 0int }),
    {
        let next = file_label_chars(&cards[j + 1]);
        if chars_eq(&next, &cur) {
            j = j + 1;
            cur = next;
            more = j + 1 < cards.len();
        } else {
            more = false;
        }
    }
    j - i + 1
}

fn push_row(out: &mut Vec<char>, idx: usize, card: &PreviewCard)
    ensures
        final(out)@ == old(out)@ + card_row(idx as nat, *card),
{
    let front_html = text_to_html(card.front.as_str());
    let back_html = text_to_html(card.back.as_str());
    push_str(out, "<tr class=\"card-row\"><td class=\"card-index\">");
    push_number(out, idx);
    push_str(out, "</td><td class=\"card-front\"><div class=\"card-content\">");
    push_str(out, front_html.as_str());
    push_str(out, "</div></td><td class=\"card-back\"><div class=\"card-content\">");
    push_str(out, back_html.as_str());
    push_str(out, "</div></td><td><span class=\"type-badge type-");
    push_str(out, card.card_type.css_class());
    push_str(out, "\">");
    push_str(out, card.card_type.label());
    push_str(out, "</span></td></tr>\n");
    assert(out@ =~= old(out)@ + card_row(idx as nat, *card));
}

fn push_section_head(out: &mut Vec<char>, file: &Vec<char>, count: usize)
    ensures
        final(out)@ == old(out)@ + section_head(file@, count as nat),
{
    push_str(out, "<div class=\"file-section\"><div class=\"file-header\"><span class=\"file-path\">");
    let f = string_of(file);
    push_escaped(out, f.as_str());
    push_str(out, "</span><span class=\"file-count\">");
    push_number(out, count);
    push_str(out, " card");
    push_plural(out, count);
    push_str(out, "</span></div>\n");
    push_str(
        out,
        "<table class=\"card-table\"><thead><tr><th>#</th><th>Front</th><th>Back</th><th>Type</th></tr></thead>\n<tbody>\n",
    );
    assert(out@ =~= old(out)@ + section_head(file@, count as nat));
}

fn push_card_piece(html: &mut Vec<char>, cards: &Vec<PreviewCard>, i: usize)
    requires
        i < cards.len(),
    ensures
        final(html)@ == old(html)@ + card_piece(cards@, i as int),
{
    let label = file_label_chars(&cards[i]);
    let opens = if i == 0 {
        true
    } else {
        let prev = file_label_chars(&cards[i - 1]);
        !chars_eq(&prev, &label)
    };
    if opens {
        let count = run_length_exec(cards, i);
        push_section_head(html, &label, count);
    }
    push_row(html, i + 1, &cards[i]);
    let closes = if i + 1 >= cards.len() {
        true
    } else {
        let next = file_label_chars(&cards[i + 1]);
        !chars_eq(&next, &label)
    };
    if closes {
        push_str(html, "</tbody></table>\n</div>\n");
    }
    assert(html@ =~= old(html)@ + card_piece(cards@, i as int));
}

/// Appends the cards grouped by source file: consecutive cards from one
/// file form a section with a table of their rows.
pub fn push_card_sections(html: &mut Vec<char>, data: &PreviewData)
    ensures
        final(html)@ == old(html)@ + sections(data.cards@, data.cards@.len() as int),
{
    let cards = &data.cards;
    let ghost start = html@;
    let mut i: usize = 0;
    while i < cards.len()
        invariant
            0 <= i <= cards.len(),
            cards@ == data.cards@,
            html@ == start + sections(cards@, i as int),
        decreases cards.len() - i,
    {
        push_card_piece(html, cards, i);
        i = i + 1;
        assert(html@ =~= start + sections(cards@, i as int));
    }
}

/// The preview page for a set of cards.
pub fn render_page(data: &PreviewData) -> (r: String)
    ensures
        r@ == page(*data),
{
    let mut html = page_shell();
    push_str(&mut html, "<body>\n<div class=\"container\">\n");
    push_header(&mut html, data);
    push_errors(&mut html, &data.errors);
    if data.cards.len() == 0 {
        push_str(
            &mut html,
            "<div class=\"empty-state\"><h2>No cards found</h2><p>Add flashcard syntax to your markdown files and refresh.</p></div>\n",
        );
    } else {
        push_card_sections(&mut html, data);
    }
    push_str(&mut html, "<footer>Served by acli &middot; Refresh the page to pick up changes</footer>\n");
    push_str(&mut html, "</div>\n</body>\n</html>");
    assert(html@ =~= page(*data));
    string_of(&html)
}

/// The page shown when loading the cards failed entirely.
pub fn render_error_page(message: &str) -> (r: String)
    ensures
        r@ == error_page(message@),
{
    let mut html = page_shell();
    push_str(&mut html, "<body>\n<div class=\"container\">\n");
    push_str(&mut html, "<header><h1>Card Preview</h1></header>\n");
    push_str(&mut html, "<div class=\"errors-section\"><h2>Error</h2><div class=\"error-item\">");
    push_escaped(&mut html, message);
    push_str(&mut html, "</div></div>\n");
    push_str(&mut html, "<footer>Served by acli &middot; Fix the issue and refresh</footer>\n");
    push_str(&mut html, "</div>\n</body>\n</html>");
    assert(html@ =~= error_page(message@));
    string_of(&html)
}

} // verus!
