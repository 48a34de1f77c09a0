//! Extraction of flashcards from Markdown documents.
pub mod block;
pub mod error;
pub mod extraction;
pub mod inline;
pub mod markdown;
pub mod pipe_table;
pub mod template;
pub mod sequence;
pub mod shape;
pub mod types;

pub use error::ParseError;
pub use types::{Card, CardId, CardType, MediaReference, ParsedDocument, Warning};
pub use markdown::{DocumentParser, MarkdownParser};
