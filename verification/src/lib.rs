//! Markdown flashcards: parsing, sync planning and an in-memory collection.
pub mod adapter;
pub mod anki_wrapper;
pub mod assoc;
pub mod cli;
pub mod config;
pub mod discovery;
pub mod doc_parser;
pub mod error;
pub mod html;
pub mod line_parser;
pub mod media;
pub mod output;
pub mod preview;
pub mod sync;
pub mod sync_outcome;
pub mod text;
pub mod update_planner_parser;
pub mod web_preview;
