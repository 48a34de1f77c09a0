//! The cards of a set of documents as the web preview shows them.
use crate::doc_parser::error::ParseError;
use crate::doc_parser::markdown::{parse_outcome, DocumentParser, MarkdownParser, ParseOutcome};
use crate::doc_parser::types::{CardType as DocCardType, CardView};
use crate::sync::outcome_message;
use crate::text::{append_all, chars_of, dec, dec_chars, matches_at, push_str, string_of};
use crate::web_preview::types::{CardType as PreviewCardType, PreviewCard};
use crate::web_preview::url_rewriting::{rewrite_html, rewrite_image_urls, rewrite_markdown};
use vstd::prelude::*;

verus! {

/// A document to preview.
pub struct PreviewSource {
    /// How error messages name the document.
    pub path: String,
    /// How the page names the document (its path from the working directory).
    pub display_path: String,
    /// The directory relative image paths of the document start from.
    pub dir: String,
    /// The text of the document, or why it could not be read.
    pub content: Result<String, String>,
}

/// The mathematical value of a preview card.
pub type PreviewCardView = (Seq<char>, Seq<char>, PreviewCardType, Option<Seq<char>>);

/// The value of a preview card.
pub open spec fn preview_card_view(c: PreviewCard) -> PreviewCardView {
    (
        c.front@,
        c.back@,
        c.card_type,
        match c.source_file {
            Some(f) => Some(f@),
            None => None,
        },
    )
}

/// The values of preview cards.
pub open spec fn preview_card_views(s: Seq<PreviewCard>) -> Seq<PreviewCardView> {
    s.map_values(|c: PreviewCard| preview_card_view(c))
}

/// The preview type of a parsed card type.
pub open spec fn preview_type(t: DocCardType) -> PreviewCardType {
    match t {
        DocCardType::Basic => PreviewCardType::Basic,
        DocCardType::Bidirectional => PreviewCardType::Bidirectional,
        DocCardType::Sequence => PreviewCardType::Sequence,
    }
}

/// Field `i`, or nothing when the card has fewer fields.
pub open spec fn field_or_empty(fields: Seq<Seq<char>>, i: int) -> Seq<char> {
    if 0 <= i < fields.len() {
        fields[i]
    } else {
        seq![]
    }
}

/// Card text with its image URLs pointed at the server's media route.
pub open spec fn rewritten(text: Seq<char>, dir: Seq<char>) -> Seq<char> {
    rewrite_markdown(rewrite_html(text, dir), dir)
}

/// A parsed card as the preview shows it: its first two fields with their
/// images rewritten, its type and its document.
pub open spec fn preview_of_card(c: CardView, display: Seq<char>, dir: Seq<char>) -> PreviewCardView {
    (
        rewritten(field_or_empty(c.fields, 0), dir),
        rewritten(field_or_empty(c.fields, 1), dir),
        preview_type(c.card_type),
        Some(display),
    )
}

/// The text of a warning: its line and message.
pub open spec fn warning_text(w: (usize, Seq<char>)) -> Seq<char> {
    "line "@ + dec(w.0 as nat) + ": "@ + w.1
}

/// The preview cards and the error lines of the first `n` documents: a
/// document that cannot be read or parsed gives one error line, an empty
/// one nothing, and a parsed one its cards and a line per warning.
pub open spec fn preview_upto(docs: Seq<PreviewSource>, n: int) -> (Seq<PreviewCardView>, Seq<Seq<char>>)
    decreases n,
{
    if n <= 0 {
        (seq![], seq![])
    } else {
        let prev = preview_upto(docs, n - 1);
        let d = docs[n - 1];
        match d.content {
            Err(e) => (prev.0, prev.1.push(d.path@ + ": "@ + e@)),
            Ok(text) => match parse_outcome(text@) {
                ParseOutcome::Empty => prev,
                ParseOutcome::Doc(cards, _, w) => (
                    prev.0 + cards.map_values(|c: CardView| preview_of_card(c, d.display_path@, d.dir@)),
                    prev.1 + w.map_values(|x: (usize, Seq<char>)| d.path@ + ": "@ + warning_text(x)),
                ),
                o => (prev.0, prev.1.push(d.path@ + ": "@ + outcome_message(o))),
            },
        }
    }
}

fn preview_type_of(t: &DocCardType) -> (r: PreviewCardType)
    ensures
        r == preview_type(*t),
{
    match t {
        DocCardType::Basic => PreviewCardType::Basic,
        DocCardType::Bidirectional => PreviewCardType::Bidirectional,
        DocCardType::Sequence => PreviewCardType::Sequence,
    }
}

fn field_text(fields: &Vec<String>, i: usize) -> (r: &str)
    ensures
        r@ == field_or_empty(fields.deep_view(), i as int),
{
    if i < fields.len() {
        assert(fields.deep_view()[i as int] == fields@[i as int]@);
        fields[i].as_str()
    } else {
        proof {
            reveal_strlit("");
        }
        ""
    }
}

fn tagged_line(path: &str, text: &str) -> (r: String)
    ensures
        r@ == path@ + ": "@ + text@,
{
    let mut m = chars_of(path);
    push_str(&mut m, ": ");
    push_str(&mut m, text);
    string_of(&m)
}

/// The preview cards of a set of documents, with the lines that report
/// unreadable or unparsable documents and parser warnings.
pub fn parse_and_convert_cards(docs: &Vec<PreviewSource>) -> (r: (Vec<PreviewCard>, Vec<String>))
    ensures
        preview_card_views(r.0@) == preview_upto(docs@, docs@.len() as int).0,
        r.1.deep_view() == preview_upto(docs@, docs@.len() as int).1,
{
    let parser = MarkdownParser::new();
    let mut cards: Vec<PreviewCard> = Vec::new();
    let mut errors: Vec<String> = Vec::new();
    assert(preview_card_views(cards@) =~= seq![]);
    assert(errors.deep_view() =~= seq![]);
    let mut k: usize = 0;
    while k < docs.len()
        invariant
            0 <= k <= docs.len(),
            preview_card_views(cards@) == preview_upto(docs@, k as int).0,
            errors.deep_view() == preview_upto(docs@, k as int).1,
        decreases docs.len() - k,
    {
        let d = &docs[k];
        let ghost c0 = preview_card_views(cards@);
        let ghost e0 = errors.deep_view();
        match &d.content {
            Err(e) => {
                errors.push(tagged_line(d.path.as_str(), e.as_str()));
                assert(errors.deep_view() =~= e0.push(d.path@ + ": "@ + e@));
            },
            Ok(text) => {
                let parsed = parser.parse(text.as_str());
                match parsed {
                    Ok(doc) => {
                        let ghost o = parse_outcome(text@);
                        let mut i: usize = 0;
                        while i < doc.warnings.len()
                            invariant
                                0 <= i <= doc.warnings.len(),
                                errors.deep_view() == e0 + doc.warnings@.take(i as int).map_values(
                                    |w: crate::doc_parser::types::Warning| d.path@ + ": "@ + warning_text(w@),
                                ),
                            decreases doc.warnings.len() - i,
                        {
                            let w = &doc.warnings[i];
                            let mut t = chars_of("line ");
                            let n = dec_chars(w.line as u64);
                            append_all(&mut t, &n);
                            push_str(&mut t, ": ");
                            push_str(&mut t, w.message.as_str());
                            let ts = string_of(&t);
                            let ghost eb = errors.deep_view();
                            errors.push(tagged_line(d.path.as_str(), ts.as_str()));
                            i = i + 1;
                            assert(errors.deep_view() =~= eb.push(d.path@ + ": "@ + warning_text(doc.warnings@[i - 1]@)));
                            assert(doc.warnings@.take(i as int) =~= doc.warnings@.take(i - 1).push(doc.warnings@[i - 1]));
                            assert(errors.deep_view() =~= e0 + doc.warnings@.take(i as int).map_values(
                                |w: crate::doc_parser::types::Warning| d.path@ + ": "@ + warning_text(w@),
                            ));
                        }
                        assert(doc.warnings@.take(doc.warnings.len() as int) =~= doc.warnings@);
                        let mut j: usize = 0;
                        while j < doc.cards.len()
                            invariant
                                0 <= j <= doc.cards.len(),
                                preview_card_views(cards@) == c0 + doc.cards@.take(j as int).map_values(
                                    |c: crate::doc_parser::types::Card| preview_of_card(c@, d.display_path@, d.dir@),
                                ),
                            decreases doc.cards.len() - j,
                        {
                            let c = &doc.cards[j];
                            let front = rewrite_image_urls(field_text(&c.fields, 0), d.dir.as_str());
                            let back = rewrite_image_urls(field_text(&c.fields, 1), d.dir.as_str());
                            let pc = PreviewCard {
                                front,
                                back,
                                card_type: preview_type_of(&c.card_type),
                                source_file: Some(d.display_path.clone()),
                            };
                            let ghost cb = cards@;
                            cards.push(pc);
                            j = j + 1;
                            assert(preview_card_views(cards@) =~= preview_card_views(cb).push(preview_card_view(pc)));
                            assert(doc.cards@.take(j as int) =~= doc.cards@.take(j - 1).push(doc.cards@[j - 1]));
                            assert(preview_card_views(cards@) =~= c0 + doc.cards@.take(j as int).map_values(
                                |c: crate::doc_parser::types::Card| preview_of_card(c@, d.display_path@, d.dir@),
                            ));
                        }
                        assert(doc.cards@.take(doc.cards.len() as int) =~= doc.cards@);
                        proof {
                            assert(o is Doc);
                            let cv = o->Doc_0;
                            let wv = o->Doc_2;
                            assert(cv.map_values(|c: CardView| preview_of_card(c, d.display_path@, d.dir@))
                                =~= doc.cards@.map_values(
                                |c: crate::doc_parser::types::Card| preview_of_card(c@, d.display_path@, d.dir@),
                            ));
                            assert(wv.map_values(|x: (usize, Seq<char>)| d.path@ + ": "@ + warning_text(x))
                                =~= doc.warnings@.map_values(
                                |w: crate::doc_parser::types::Warning| d.path@ + ": "@ + warning_text(w@),
                            ));
                        }
                    },
                    Err(ParseError::EmptyDocument) => {},
                    Err(e) => {
                        let msg = e.to_string();
                        errors.push(tagged_line(d.path.as_str(), msg.as_str()));
                        proof {
                            let o = parse_outcome(text@);
                            assert(o is TemplateErr || o is MediaErr);
                            assert(msg@ == outcome_message(o));
                        }
                        assert(errors.deep_view() =~= e0.push(d.path@ + ": "@ + msg@));
                    },
                }
            },
        }
        k = k + 1;
    }
    (cards, errors)
}

/// The preview keeps each card's type: a basic, bidirectional or sequence
/// card shows as one of the same kind, so no two kinds look alike.
pub proof fn preview_keeps_card_types(t: DocCardType, u: DocCardType)
    ensures
        t == DocCardType::Basic <==> preview_type(t) == PreviewCardType::Basic,
        t == DocCardType::Bidirectional <==> preview_type(t) == PreviewCardType::Bidirectional,
        t == DocCardType::Sequence <==> preview_type(t) == PreviewCardType::Sequence,
        preview_type(t) == preview_type(u) ==> t == u,
{
}

/// A card without images shows its question as the front and its answer
/// as the back, under a badge of its own kind, with its document.
pub proof fn preview_shows_question_and_answer(c: CardView, display: Seq<char>, dir: Seq<char>)
    requires
        c.fields.len() == 2,
        forall|k: int, j: int| 0 <= k < 2 && 0 <= j ==> !#[trigger] matches_at(c.fields[k], "<img src=\""@, j),
        forall|k: int, j: int| 0 <= k < 2 && 0 <= j ==> !#[trigger] matches_at(c.fields[k], "!["@, j),
    ensures
        preview_of_card(c, display, dir).0 == c.fields[0],
        preview_of_card(c, display, dir).1 == c.fields[1],
        preview_of_card(c, display, dir).3 == Some(display),
        c.card_type == DocCardType::Basic ==> preview_of_card(c, display, dir).2 == PreviewCardType::Basic,
        c.card_type == DocCardType::Bidirectional ==> preview_of_card(c, display, dir).2
            == PreviewCardType::Bidirectional,
        c.card_type == DocCardType::Sequence ==> preview_of_card(c, display, dir).2 == PreviewCardType::Sequence,
{
    assert forall|j: int| 0 <= j implies !#[trigger] matches_at(c.fields[0], "<img src=\""@, j) by {
        assert(!matches_at(c.fields[0], "<img src=\""@, j));
    }
    assert forall|j: int| 0 <= j implies !#[trigger] matches_at(c.fields[0], "!["@, j) by {
        assert(!matches_at(c.fields[0], "!["@, j));
    }
    assert forall|j: int| 0 <= j implies !#[trigger] matches_at(c.fields[1], "<img src=\""@, j) by {
        assert(!matches_at(c.fields[1], "<img src=\""@, j));
    }
    assert forall|j: int| 0 <= j implies !#[trigger] matches_at(c.fields[1], "!["@, j) by {
        assert(!matches_at(c.fields[1], "!["@, j));
    }
    crate::web_preview::url_rewriting::text_without_images_is_unchanged(c.fields[0], dir);
    crate::web_preview::url_rewriting::text_without_images_is_unchanged(c.fields[1], dir);
}

} // verus!
