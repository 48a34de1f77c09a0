//! The line-based card format: one `- front -> back` or `- front <-> back`
//! card per list line, each card a plain front and back.
use crate::text::{
    chars_of, dec, dec_chars, find, find_exec, matches_at, lines, lines_exec, push_str, slice_of, starts_with,
    starts_with_exec, string_of, trim, trim_chars,
};
use vstd::prelude::*;

verus! {

/// A card: its front and its back.
#[derive(Debug, Clone, PartialEq, Eq)]
pub struct Card {
    pub front: String,
    pub back: String,
}

impl Card {
    /// A card with the given front and back.
    pub fn new(front: &str, back: &str) -> (r: Card)
        ensures
            r.front@ == front@,
            r.back@ == back@,
    {
        Card { front: string_of(&chars_of(front)), back: string_of(&chars_of(back)) }
    }
}

/// The cards of a document.
#[derive(Debug, Clone, Default, PartialEq, Eq)]
pub struct ParsedDocument {
    pub cards: Vec<Card>,
}

/// Why a document could not be read.
#[derive(Debug, Clone)]
pub enum ParseError {
    /// A line that is not a card: its number (from 1) and what is wrong.
    InvalidSyntax { line: usize, message: String },
}

/// The message of an error: `Line {line}: {message}`.
pub open spec fn parse_error_message(e: ParseError) -> Seq<char> {
    match e {
        ParseError::InvalidSyntax { line, message } => "Line "@ + dec(line as nat) + ": "@ + message@,
    }
}

impl ParseError {
    /// The error of line `line` (counted from 1).
    pub fn invalid_line(line: usize, message: &str) -> (r: ParseError)
        ensures
            r matches ParseError::InvalidSyntax { line: l, message: m } && l == line && m@ == message@,
    {
        ParseError::InvalidSyntax { line, message: string_of(&chars_of(message)) }
    }

    /// The message of the error.
    pub fn to_string_lossy(&self) -> (r: String)
        ensures
            r@ == parse_error_message(*self),
    {
        match self {
            ParseError::InvalidSyntax { line, message } => {
                let mut v = chars_of("Line ");
                let d = dec_chars(*line as u64);
                crate::text::append_all(&mut v, &d);
                push_str(&mut v, ": ");
                push_str(&mut v, message.as_str());
                string_of(&v)
            },
        }
    }
}

/// `s` without its leading `"- "` prefixes (`trim_start_matches("- ")`).
pub open spec fn strip_dashes(s: Seq<char>) -> Seq<char>
    decreases s.len(),
{
    if s.len() >= 2 && starts_with(s, "- "@) {
        strip_dashes(s.subrange(2, s.len() as int))
    } else {
        s
    }
}

/// `text` split at the first `pattern`, both sides trimmed; none when the
/// pattern is missing or a side is empty.
pub open spec fn split_arrow(text: Seq<char>, pattern: Seq<char>) -> Option<(Seq<char>, Seq<char>)> {
    match find(text, pattern) {
        None => None,
        Some(i) => {
            let front = trim(text.subrange(0, i));
            let back = trim(text.subrange(i + pattern.len(), text.len() as int));
            if front.len() > 0 && back.len() > 0 {
                Some((front, back))
            } else {
                None
            }
        },
    }
}

/// The cards of the first `n` lines, as `(front, back)` pairs, or the
/// first error as its line number and message.
pub open spec fn line_cards(ls: Seq<Seq<char>>, n: int) -> Result<Seq<(Seq<char>, Seq<char>)>, (nat, Seq<char>)>
    decreases n,
{
    if n <= 0 {
        Ok(seq![])
    } else {
        match line_cards(ls, n - 1) {
            Err(e) => Err(e),
            Ok(cards) => {
                let trimmed = trim(ls[n - 1]);
                if !starts_with(trimmed, "- "@) {
                    Ok(cards)
                } else {
                    let spec = trim(strip_dashes(trimmed));
                    if spec.len() == 0 {
                        Err((n as nat, "Card specification cannot be empty"@))
                    } else {
                        match split_arrow(spec, "<->"@) {
                            Some((f, b)) => Ok(cards.push((f, b)).push((b, f))),
                            None => match split_arrow(spec, "->"@) {
                                Some((f, b)) => Ok(cards.push((f, b))),
                                None => Err((n as nat, "Expected '->' or '<->' in card definition"@)),
                            },
                        }
                    }
                }
            },
        }
    }
}

/// The fronts and backs of cards.
pub open spec fn card_pairs(cards: Seq<Card>) -> Seq<(Seq<char>, Seq<char>)> {
    cards.map_values(|c: Card| (c.front@, c.back@))
}

/// Reads a document into cards.
pub trait DocumentParser {
    fn parse(&self, content: &str) -> Result<ParsedDocument, ParseError>;
}

/// The parser of the line-based card format.
#[derive(Debug, Default, Clone)]
pub struct MarkdownParser;

impl MarkdownParser {
    /// A parser.
    pub fn new() -> (r: MarkdownParser) {
        MarkdownParser
    }
}

fn strip_dashes_exec(s: &Vec<char>) -> (r: Vec<char>)
    ensures
        r@ == strip_dashes(s@),
{
    let dash = chars_of("- ");
    let mut a: usize = 0;
    proof {
        assert(s@.subrange(0, s@.len() as int) =~= s@);
    }
    loop
        invariant
            0 <= a <= s.len(),
            dash@ == "- "@,
            strip_dashes(s@) == strip_dashes(s@.subrange(a as int, s@.len() as int)),
        decreases s.len() - a,
    {
        let rest = slice_of(s, a, s.len());
        if rest.len() >= 2 && starts_with_exec(&rest, &dash) {
            assert(rest@.subrange(2, rest@.len() as int) =~= s@.subrange(a + 2, s@.len() as int));
            a = a + 2;
        } else {
            return rest;
        }
    }
}

fn split_arrow_exec(text: &Vec<char>, pattern: &str) -> (r: Option<(Vec<char>, Vec<char>)>)
    ensures
        match r {
            Some((f, b)) => split_arrow(text@, pattern@) == Some((f@, b@)),
            None => split_arrow(text@, pattern@) is None,
        },
{
    let p = chars_of(pattern);
    match find_exec(text, &p) {
        None => None,
        Some(i) => {
            proof {
                crate::text::lemma_find_from(text@, p@, 0);
                assert(matches_at(text@, p@, i as int));
                assert(i + p@.len() <= text@.len());
            }
            assert(i + p.len() <= text.len());
            let end: usize = i + p.len();
            let f = trim_chars(&slice_of(text, 0, i));
            let b = trim_chars(&slice_of(text, end, text.len()));
            if f.len() > 0 && b.len() > 0 {
                Some((f, b))
            } else {
                None
            }
        },
    }
}

impl DocumentParser for MarkdownParser {
    /// The cards of the `- ` lines: `front <-> back` gives a card each way,
    /// `front -> back` one card; an empty card line, or one with no arrow
    /// between a non-empty front and back, is refused with its line number.
    fn parse(&self, content: &str) -> (r: Result<ParsedDocument, ParseError>)
        ensures
            match line_cards(lines(content@), lines(content@).len() as int) {
                Ok(cards) => r matches Ok(d) && card_pairs(d.cards@) == cards,
                Err((line, message)) => r matches Err(ParseError::InvalidSyntax { line: l, message: m }) && l
                    == line && m@ == message,
            },
    {
        let ls = lines_exec(&chars_of(content));
        let ghost lv = ls.deep_view();
        let mut cards: Vec<Card> = Vec::new();
        let mut n: usize = 0;
        assert(card_pairs(cards@) =~= seq![]);
        while n < ls.len()
            invariant
                0 <= n <= ls.len(),
                lv == ls.deep_view(),
                lv == lines(content@),
                line_cards(lv, n as int) == Ok::<Seq<(Seq<char>, Seq<char>)>, (nat, Seq<char>)>(card_pairs(cards@)),
            decreases ls.len() - n,
        {
            assert(lv[n as int] == ls[n as int]@);
            let trimmed = trim_chars(&ls[n]);
            if starts_with_exec(&trimmed, &chars_of("- ")) {
                let spec = trim_chars(&strip_dashes_exec(&trimmed));
                if spec.len() == 0 {
                    proof {
                        lemma_line_cards_err(lv, n as int + 1, ((n + 1) as nat, "Card specification cannot be empty"@));
                    }
                    return Err(ParseError::invalid_line(n + 1, "Card specification cannot be empty"));
                }
                match split_arrow_exec(&spec, "<->") {
                    Some((f, b)) => {
                        let ghost before = card_pairs(cards@);
                        cards.push(Card { front: string_of(&f), back: string_of(&b) });
                        cards.push(Card { front: string_of(&b), back: string_of(&f) });
                        assert(card_pairs(cards@) =~= before.push((f@, b@)).push((b@, f@)));
                    },
                    None => match split_arrow_exec(&spec, "->") {
                        Some((f, b)) => {
                            let ghost before = card_pairs(cards@);
                            cards.push(Card { front: string_of(&f), back: string_of(&b) });
                            assert(card_pairs(cards@) =~= before.push((f@, b@)));
                        },
                        None => {
                            proof {
                                lemma_line_cards_err(
                                    lv,
                                    n as int + 1,
                                    ((n + 1) as nat, "Expected '->' or '<->' in card definition"@),
                                );
                            }
                            return Err(ParseError::invalid_line(n + 1, "Expected '->' or '<->' in card definition"));
                        },
                    },
                }
            }
            n = n + 1;
        }
        Ok(ParsedDocument { cards })
    }
}

/// An error among the first lines stays the result.
proof fn lemma_line_cards_err(ls: Seq<Seq<char>>, n: int, e: (nat, Seq<char>))
    requires
        0 <= n <= ls.len(),
        line_cards(ls, n) == Err::<Seq<(Seq<char>, Seq<char>)>, (nat, Seq<char>)>(e),
    ensures
        line_cards(ls, ls.len() as int) == Err::<Seq<(Seq<char>, Seq<char>)>, (nat, Seq<char>)>(e),
    decreases ls.len() - n,
{
    if n < ls.len() {
        lemma_line_cards_err(ls, n + 1, e);
    }
}

} // verus!
