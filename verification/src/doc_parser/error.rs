//! Errors reported while parsing a document.
use crate::text::{append_all, dec, dec_chars, push_str, string_of};
use vstd::prelude::*;

verus! {

/// Why a document could not be parsed.
#[derive(Debug, Clone)]
pub enum ParseError {
    /// Malformed card syntax at a position.
    InvalidSyntax { line: usize, column: usize, message: String },
    /// The Markdown itself could not be processed.
    MarkdownError(String),
    /// The document holds no card.
    EmptyDocument,
    /// A template block could not be expanded.
    TemplateError(String),
    /// An image reference names a file that cannot be stored.
    InvalidMediaName { line: usize, name: String, message: String },
}

/// The message of an error, as the user reads it.
pub open spec fn parse_error_message(e: ParseError) -> Seq<char> {
    match e {
        ParseError::InvalidSyntax { line, column, message } => "Invalid syntax at "@ + dec(
            line as nat,
        ) + ":"@ + dec(column as nat) + ": "@ + message@,
        ParseError::MarkdownError(m) => "Markdown parsing error: "@ + m@,
        ParseError::EmptyDocument => "Document contains no cards"@,
        ParseError::TemplateError(m) => "Template error: "@ + m@,
        ParseError::InvalidMediaName { line, name, message } => "Invalid media name '"@ + name@
            + "' at line "@ + dec(line as nat) + ": "@ + message@,
    }
}

impl ParseError {
    /// The message of this error.
    pub fn to_string(&self) -> (r: String)
        ensures
            r@ == parse_error_message(*self),
    {
        let mut v: Vec<char> = Vec::new();
        match self {
            ParseError::InvalidSyntax { line, column, message } => {
                push_str(&mut v, "Invalid syntax at ");
                let l = dec_chars(*line as u64);
                append_all(&mut v, &l);
                push_str(&mut v, ":");
                let c = dec_chars(*column as u64);
                append_all(&mut v, &c);
                push_str(&mut v, ": ");
                push_str(&mut v, message.as_str());
            },
            ParseError::MarkdownError(m) => {
                push_str(&mut v, "Markdown parsing error: ");
                push_str(&mut v, m.as_str());
            },
            ParseError::EmptyDocument => {
                push_str(&mut v, "Document contains no cards");
            },
            ParseError::TemplateError(m) => {
                push_str(&mut v, "Template error: ");
                push_str(&mut v, m.as_str());
            },
            ParseError::InvalidMediaName { line, name, message } => {
                push_str(&mut v, "Invalid media name '");
                push_str(&mut v, name.as_str());
                push_str(&mut v, "' at line ");
                let l = dec_chars(*line as u64);
                append_all(&mut v, &l);
                push_str(&mut v, ": ");
                push_str(&mut v, message.as_str());
            },
        }
        string_of(&v)
    }
}

} // verus!
