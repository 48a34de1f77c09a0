//! Errors of collection operations.
use crate::anki_wrapper::types::{CardId, NoteId};
use crate::text::{append_all, dec, dec_chars, find, push_str, string_of};
use vstd::prelude::*;

verus! {

/// Why a collection operation failed.
#[derive(Debug, Clone, PartialEq, Eq)]
pub enum AnkiWrapperError {
    DeckNotFound { name: String },
    DeckAlreadyExists { name: String },
    CardNotFound { id: CardId },
    NoteNotFound { id: NoteId },
    InvalidCard { reason: String },
    AnkiError(String),
}

/// Decimal notation of a signed integer.
pub open spec fn dec_signed(n: int) -> Seq<char> {
    if n < 0 {
        "-"@ + dec((-n) as nat)
    } else {
        dec(n as nat)
    }
}

/// The decimal notation of a signed integer.
pub fn dec_i64(n: i64) -> (r: Vec<char>)
    ensures
        r@ == dec_signed(n as int),
{
    if n < 0 {
        let m: u64 = (-(n as i128)) as u64;
        let mut r = crate::text::chars_of("-");
        let d = dec_chars(m);
        append_all(&mut r, &d);
        r
    } else {
        dec_chars(n as u64)
    }
}

/// The message of the error says that something was not found.
pub open spec fn says_not_found(e: AnkiWrapperError) -> bool {
    find(anki_error_message(e), "not found"@) is Some
}

/// The message of an error.
pub open spec fn anki_error_message(e: AnkiWrapperError) -> Seq<char> {
    match e {
        AnkiWrapperError::DeckNotFound { name } => "Deck not found: "@ + name@,
        AnkiWrapperError::DeckAlreadyExists { name } => "Deck already exists: "@ + name@,
        AnkiWrapperError::CardNotFound { id } => "Card not found: "@ + dec_signed(id.0 as int),
        AnkiWrapperError::NoteNotFound { id } => "Note not found: "@ + dec_signed(id.0 as int),
        AnkiWrapperError::InvalidCard { reason } => "Invalid card format: "@ + reason@,
        AnkiWrapperError::AnkiError(m) => "Anki collection error: "@ + m@,
    }
}

impl AnkiWrapperError {
    /// The message of this error.
    pub fn to_string(&self) -> (r: String)
        ensures
            r@ == anki_error_message(*self),
    {
        let mut v: Vec<char> = Vec::new();
        match self {
            AnkiWrapperError::DeckNotFound { name } => {
                push_str(&mut v, "Deck not found: ");
                push_str(&mut v, name.as_str());
            },
            AnkiWrapperError::DeckAlreadyExists { name } => {
                push_str(&mut v, "Deck already exists: ");
                push_str(&mut v, name.as_str());
            },
            AnkiWrapperError::CardNotFound { id } => {
                push_str(&mut v, "Card not found: ");
                let d = dec_i64(id.0);
                append_all(&mut v, &d);
            },
            AnkiWrapperError::NoteNotFound { id } => {
                push_str(&mut v, "Note not found: ");
                let d = dec_i64(id.0);
                append_all(&mut v, &d);
            },
            AnkiWrapperError::InvalidCard { reason } => {
                push_str(&mut v, "Invalid card format: ");
                push_str(&mut v, reason.as_str());
            },
            AnkiWrapperError::AnkiError(m) => {
                push_str(&mut v, "Anki collection error: ");
                push_str(&mut v, m.as_str());
            },
        }
        string_of(&v)
    }
}

} // verus!
