//! Why a plan could not be made.
use crate::text::{append_all, dec, dec_chars, push_str, string_of};
use vstd::prelude::*;

verus! {

/// Why a plan could not be made.
#[derive(Debug)]
pub enum PlanError {
    /// The documents hold no card.
    EmptyDocumentSet,
    /// The deck name is blank.
    InvalidDeckName(String),
    /// The documents hold duplicate cards.
    DuplicateCards(usize),
}

/// The message of a plan error.
pub open spec fn plan_error_message(e: PlanError) -> Seq<char> {
    match e {
        PlanError::EmptyDocumentSet => "No cards found in document set"@,
        PlanError::InvalidDeckName(n) => "Invalid deck name: "@ + n@,
        PlanError::DuplicateCards(k) => "Duplicate cards found: "@ + dec(k as nat) + " duplicates"@,
    }
}

impl PlanError {
    /// The message of this error.
    pub fn to_string(&self) -> (r: String)
        ensures
            r@ == plan_error_message(*self),
    {
        let mut v: Vec<char> = Vec::new();
        match self {
            PlanError::EmptyDocumentSet => push_str(&mut v, "No cards found in document set"),
            PlanError::InvalidDeckName(n) => {
                push_str(&mut v, "Invalid deck name: ");
                push_str(&mut v, n.as_str());
            },
            PlanError::DuplicateCards(k) => {
                push_str(&mut v, "Duplicate cards found: ");
                let d = dec_chars(*k as u64);
                append_all(&mut v, &d);
                push_str(&mut v, " duplicates");
            },
        }
        string_of(&v)
    }
}

} // verus!
