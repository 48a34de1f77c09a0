//! Cards, media references and parsed documents.
use crate::doc_parser::error::ParseError;
use crate::text::{append_all, chars_of, hex, hex_chars, hex_padded, hex_padded_chars, push_str, string_of};
use std::hash::BuildHasher;
use vstd::prelude::*;

verus! {

/// A stable identifier derived from a card's content.
#[derive(Debug, Clone, Copy, PartialEq, Eq, Structural, Hash, PartialOrd, Ord)]
pub struct CardId(pub u64);

/// The kind of card parsed from the document.
#[derive(Debug, Clone, Copy, PartialEq, Eq, Structural, Hash)]
pub enum CardType {
    /// A one-way card defined with `text -> answer`.
    Basic,
    /// A two-way card defined with `text <-> answer`.
    Bidirectional,
    /// One step of an ordered sequence (`=>` lines under a label).
    Sequence,
}

/// A single card with its type and fields.
#[derive(Debug, Clone, PartialEq, Eq, Hash)]
pub struct Card {
    /// The kind of this card.
    pub card_type: CardType,
    /// Card fields, typically `[question, answer]`.
    pub fields: Vec<String>,
}

/// The mathematical value of a card.
pub struct CardView {
    pub card_type: CardType,
    pub fields: Seq<Seq<char>>,
}

impl View for Card {
    type V = CardView;

    open spec fn view(&self) -> CardView {
        CardView { card_type: self.card_type, fields: self.fields.deep_view() }
    }
}

/// The value that `DefaultHasher` computes from a card's derived `Hash`
/// (its type, then its fields). It depends on the card's content alone.
pub uninterp spec fn default_hash_of_card(c: CardView) -> u64;

/// Hashes a card with a fresh `DefaultHasher` (zero keys), through
/// `BuildHasher::hash_one`; the result is a function of the card's content.
#[verifier::external_body]
fn hash_card(card: &Card) -> (r: u64)
    ensures
        r == default_hash_of_card(card@),
{
    std::hash::BuildHasherDefault::<std::collections::hash_map::DefaultHasher>::default().hash_one(
        card,
    )
}

impl CardId {
    /// The identifier of a card: the hash of its content.
    pub fn from_card(card: &Card) -> (r: CardId)
        ensures
            r.0 == default_hash_of_card(card@),
    {
        CardId(hash_card(card))
    }

    /// The raw value of this identifier.
    pub fn as_u64(&self) -> (r: u64)
        ensures
            r == self.0,
    {
        self.0
    }

    /// Sixteen lower-case hexadecimal digits (`{:016x}`).
    pub fn to_string(&self) -> (r: String)
        ensures
            r@ == hex_padded(self.0 as nat, 16),
    {
        let v = hex_padded_chars(self.0, 16);
        string_of(&v)
    }
}

impl Card {
    /// The stable identifier of this card.
    pub fn id(&self) -> (r: CardId)
        ensures
            r.0 == default_hash_of_card(self@),
    {
        CardId::from_card(self)
    }
}

/// A card of the given type with a question and an answer.
pub open spec fn card_of(t: CardType, front: Seq<char>, back: Seq<char>) -> CardView {
    CardView { card_type: t, fields: seq![front, back] }
}

/// Builds a two-field card from character vectors.
pub fn make_card_of(t: CardType, front: &Vec<char>, back: &Vec<char>) -> (r: Card)
    ensures
        r@ == card_of(t, front@, back@),
{
    let mut fields: Vec<String> = Vec::new();
    fields.push(string_of(front));
    fields.push(string_of(back));
    let r = Card { card_type: t, fields };
    assert(r@.fields =~= seq![front@, back@]);
    r
}

/// A copy of a card.
pub fn copy_card(c: &Card) -> (r: Card)
    ensures
        r@ == c@,
{
    let mut fields: Vec<String> = Vec::new();
    let mut i: usize = 0;
    while i < c.fields.len()
        invariant
            0 <= i <= c.fields.len(),
            fields.deep_view() == c.fields.deep_view().take(i as int),
        decreases c.fields.len() - i,
    {
        let ghost before = fields.deep_view();
        fields.push(c.fields[i].clone());
        assert(fields.deep_view() =~= before.push(c.fields[i as int]@));
        i = i + 1;
        assert(c.fields.deep_view().take(i as int) =~= c.fields.deep_view().take(i - 1).push(
            c.fields[i - 1]@,
        ));
    }
    assert(c.fields.deep_view().take(c.fields.len() as int) =~= c.fields.deep_view());
    Card { card_type: c.card_type, fields }
}

/// The values of a sequence of cards.
pub open spec fn views(s: Seq<Card>) -> Seq<CardView> {
    s.map_values(|c: Card| c@)
}

/// Copies of the cards of `v`, appended to `out`.
pub fn extend_cards(out: &mut Vec<Card>, v: &Vec<Card>)
    ensures
        views(final(out)@) == views(old(out)@) + views(v@),
{
    let mut i: usize = 0;
    while i < v.len()
        invariant
            0 <= i <= v.len(),
            views(out@) == views(old(out)@) + views(v@).take(i as int),
        decreases v.len() - i,
    {
        let c = copy_card(&v[i]);
        let ghost before = out@;
        out.push(c);
        assert(views(out@) =~= views(before).push(c@));
        i = i + 1;
        assert(views(v@).take(i as int) =~= views(v@).take(i - 1).push(v@[i - 1]@));
    }
    assert(views(v@).take(v.len() as int) =~= views(v@));
}

/// A diagnostic that does not stop parsing.
#[derive(Debug, Clone, PartialEq, Eq)]
pub struct Warning {
    /// One-based line number.
    pub line: usize,
    /// What was found.
    pub message: String,
}

impl View for Warning {
    type V = (usize, Seq<char>);

    open spec fn view(&self) -> (usize, Seq<char>) {
        (self.line, self.message@)
    }
}

/// The values of a sequence of warnings.
pub open spec fn warning_views(s: Seq<Warning>) -> Seq<(usize, Seq<char>)> {
    s.map_values(|w: Warning| w@)
}

impl Warning {
    /// A warning at a line.
    pub fn new(line: usize, message: String) -> (r: Warning)
        ensures
            r.line == line,
            r.message == message,
    {
        Warning { line, message }
    }
}

/// Whether Anki refuses `c` in a media file name.
pub open spec fn is_forbidden_name_char(c: char) -> bool {
    ||| c == '['
    ||| c == ']'
    ||| c == '"'
    ||| c == '*'
    ||| c == ':'
    ||| c == '?'
    ||| c == '|'
    ||| c == '\\'
    ||| (c as u32) < 0x20
    ||| (c as u32) == 0x7f
}

fn is_forbidden_name_char_exec(c: char) -> (r: bool)
    ensures
        r == is_forbidden_name_char(c),
{
    c == '[' || c == ']' || c == '"' || c == '*' || c == ':' || c == '?' || c == '|' || c == '\\'
        || (c as u32) < 0x20 || (c as u32) == 0x7f
}

/// Index of the first forbidden character of `s` at or after `i`.
pub open spec fn first_forbidden_from(s: Seq<char>, i: int) -> Option<int>
    decreases s.len() - i,
{
    if i < 0 || i >= s.len() {
        None
    } else if is_forbidden_name_char(s[i]) {
        Some(i)
    } else {
        first_forbidden_from(s, i + 1)
    }
}

/// `{:?}` of a character that is forbidden in a media name.
pub open spec fn debug_char(c: char) -> Seq<char> {
    let body = if c == '\\' {
        "\\\\"@
    } else if c == '\0' {
        "\\0"@
    } else if c == '\t' {
        "\\t"@
    } else if c == '\n' {
        "\\n"@
    } else if c == '\r' {
        "\\r"@
    } else if (c as u32) < 0x20 || (c as u32) == 0x7f {
        "\\u{"@ + hex(c as nat) + "}"@
    } else {
        seq![c]
    };
    "'"@ + body + "'"@
}

fn debug_char_exec(c: char) -> (r: Vec<char>)
    ensures
        r@ == debug_char(c),
{
    let mut r = chars_of("'");
    if c == '\\' {
        push_str(&mut r, "\\\\");
    } else if c == '\0' {
        push_str(&mut r, "\\0");
    } else if c == '\t' {
        push_str(&mut r, "\\t");
    } else if c == '\n' {
        push_str(&mut r, "\\n");
    } else if c == '\r' {
        push_str(&mut r, "\\r");
    } else if (c as u32) < 0x20 || (c as u32) == 0x7f {
        push_str(&mut r, "\\u{");
        let h = hex_chars(c as u32 as u64);
        append_all(&mut r, &h);
        push_str(&mut r, "}");
    } else {
        r.push(c);
    }
    push_str(&mut r, "'");
    r
}

/// A reference to a media file found while parsing.
#[derive(Debug, Clone, PartialEq, Eq)]
pub struct MediaReference {
    /// Path as written in the Markdown source.
    pub source_path: String,
    /// File name under which the file is stored in the collection.
    pub target_name: String,
    /// Alt text of the image, if any.
    pub alt_text: Option<String>,
}

/// Why a media reference would be refused, if it would.
pub open spec fn media_error(source_path: Seq<char>, target_name: Seq<char>) -> Option<Seq<char>> {
    if source_path.len() == 0 {
        Some("source_path must not be empty"@)
    } else if let Some(k) = first_forbidden_from(target_name, 0) {
        Some("contains forbidden character "@ + debug_char(target_name[k]))
    } else {
        None
    }
}

/// The value of a media reference: source path, target name, alt text.
pub open spec fn media_view(m: MediaReference) -> (Seq<char>, Seq<char>, Option<Seq<char>>) {
    (
        m.source_path@,
        m.target_name@,
        match m.alt_text {
            Some(a) => Some(a@),
            None => None,
        },
    )
}

/// The values of a sequence of media references.
pub open spec fn media_views(s: Seq<MediaReference>) -> Seq<(Seq<char>, Seq<char>, Option<Seq<char>>)> {
    s.map_values(|m: MediaReference| media_view(m))
}

impl MediaReference {
    /// A media reference, refused when `source_path` is empty or
    /// `target_name` holds a character Anki does not permit.
    pub fn new(source_path: String, target_name: String, alt_text: Option<String>, line: usize) -> (r:
        Result<MediaReference, ParseError>)
        ensures
            match media_error(source_path@, target_name@) {
                Some(msg) => r matches Err(ParseError::InvalidMediaName { line: l, name, message })
                    && l == line && name@ == target_name@ && message@ == msg,
                None => r matches Ok(m) && m.source_path == source_path && m.target_name
                    == target_name && m.alt_text == alt_text,
            },
    {
        if source_path.as_str().is_empty() {
            proof {
                assert(source_path@.len() == 0);
            }
            return Err(
                ParseError::InvalidMediaName {
                    line,
                    name: target_name,
                    message: string_of(&chars_of("source_path must not be empty")),
                },
            );
        }
        let t = chars_of(target_name.as_str());
        let mut i: usize = 0;
        while i < t.len()
            invariant
                0 <= i <= t.len(),
                t@ == target_name@,
                source_path@.len() != 0,
                first_forbidden_from(t@, 0) == first_forbidden_from(t@, i as int),
            decreases t.len() - i,
        {
            if is_forbidden_name_char_exec(t[i]) {
                assert(first_forbidden_from(t@, i as int) == Some(i as int));
                let mut m = chars_of("contains forbidden character ");
                let d = debug_char_exec(t[i]);
                append_all(&mut m, &d);
                let msg = string_of(&m);
                assert(msg@ == "contains forbidden character "@ + debug_char(target_name@[i as int]));
                return Err(ParseError::InvalidMediaName { line, name: target_name, message: msg });
            }
            i = i + 1;
        }
        Ok(MediaReference { source_path, target_name, alt_text })
    }
}

/// The result of parsing a document.
#[derive(Debug, Clone, PartialEq)]
pub struct ParsedDocument {
    /// All cards extracted from the document.
    pub cards: Vec<Card>,
    /// All media references discovered in the document.
    pub media: Vec<MediaReference>,
    /// Optional source path for diagnostics.
    pub source_path: Option<String>,
    /// Non-fatal diagnostics.
    pub warnings: Vec<Warning>,
}

impl Default for ParsedDocument {
    fn default() -> (r: ParsedDocument)
        ensures
            r.cards@.len() == 0,
            r.media@.len() == 0,
            r.source_path is None,
            r.warnings@.len() == 0,
    {
        ParsedDocument {
            cards: Vec::new(),
            media: Vec::new(),
            source_path: None,
            warnings: Vec::new(),
        }
    }
}

} // verus!
