//! A collection of decks, notes, cards and reviews, with an in-memory
//! implementation.
pub mod decks;
pub mod error;
pub mod types;

pub use error::AnkiWrapperError;
pub use types::{Card, CardId, CardInfo, CardType, DeckConfig, NoteId, ReviewEntry, ReviewRating};
pub mod collection;
pub use collection::AnkiCollection;
pub mod fake;
pub use fake::FakeAnkiCollection;
