use acli::anki_wrapper::{AnkiWrapperError, CardId, NoteId};
use acli::doc_parser::ParseError;
use acli::error::CliError;
use acli::output::{first_line, CliOutput, SyncResult};
use acli::sync::ValidationResult;

#[test]
fn cli_error_messages() {
    assert_eq!(CliError::InvalidPath("x".into()).to_string(), "Invalid path: x");
    assert_eq!(CliError::IoError("e".into()).to_string(), "IO error: e");
    assert_eq!(CliError::WalkdirError("w".into()).to_string(), "Directory traversal error: w");
    assert_eq!(CliError::ParseError("p".into()).to_string(), "Parse error: p");
    assert_eq!(CliError::PlanError("q".into()).to_string(), "Plan error: q");
    assert_eq!(CliError::AnkiError("a".into()).to_string(), "Anki error: a");
    assert_eq!(CliError::ExecutionError("x".into()).to_string(), "Execution error: x");
    assert_eq!(CliError::NotImplemented.to_string(), "feature not yet implemented");
    assert_eq!(CliError::MediaCollisionError("m".into()).to_string(), "Media filename collision: m");
}

#[test]
fn parse_error_messages() {
    let e = ParseError::InvalidSyntax { line: 3, column: 7, message: "bad".into() };
    assert_eq!(e.to_string(), "Invalid syntax at 3:7: bad");
    assert_eq!(ParseError::MarkdownError("m".into()).to_string(), "Markdown parsing error: m");
    assert_eq!(ParseError::EmptyDocument.to_string(), "Document contains no cards");
    assert_eq!(ParseError::TemplateError("t".into()).to_string(), "Template error: t");
}

#[test]
fn anki_error_messages() {
    assert_eq!(AnkiWrapperError::DeckNotFound { name: "D".into() }.to_string(), "Deck not found: D");
    assert_eq!(AnkiWrapperError::DeckAlreadyExists { name: "D".into() }.to_string(), "Deck already exists: D");
    assert_eq!(AnkiWrapperError::CardNotFound { id: CardId(-12) }.to_string(), "Card not found: -12");
    assert_eq!(AnkiWrapperError::NoteNotFound { id: NoteId(7) }.to_string(), "Note not found: 7");
    assert_eq!(AnkiWrapperError::InvalidCard { reason: "r".into() }.to_string(), "Invalid card format: r");
    assert_eq!(AnkiWrapperError::AnkiError("x".into()).to_string(), "Anki collection error: x");
}

#[test]
fn sync_summary_text() {
    let r = SyncResult::new(2, 5, "Deck".into(), true);
    assert_eq!(
        r.to_string(),
        "Sync Summary:\n  Files processed: 2\n  Cards synced: 5\n  Target deck: Deck\n  Dry run: yes"
    );
    let mut r = SyncResult::new(1, 3, "D".into(), false);
    r.cards_added = 2;
    r.cards_deleted = 1;
    r.media_copied = 4;
    assert_eq!(
        r.to_string(),
        "Sync Summary:\n  Files processed: 1\n  Cards synced: 3\n  Target deck: D\n  Dry run: no\n  Cards added: 2\n  Cards deleted: 1\n  Cards unchanged: 0\n  Media copied: 4\n  Media skipped: 0\n  Media missing: 0"
    );
}

#[test]
fn first_line_truncation() {
    assert_eq!(first_line("short"), "short");
    assert_eq!(first_line("one\ntwo"), "one ...");
    let long = "x".repeat(70);
    assert_eq!(first_line(&long), format!("{}...", "x".repeat(57)));
    assert_eq!(first_line(""), "");
}

#[test]
fn first_line_counts_characters() {
    let mixed = "a\u{e9}".repeat(35);
    assert_eq!(first_line(&mixed), format!("{}a...", "a\u{e9}".repeat(28)));
    assert_eq!(first_line(&"\u{e9}".repeat(40)), "\u{e9}".repeat(40));
    assert_eq!(first_line(&"\u{e9}".repeat(60)), "\u{e9}".repeat(60));
    assert_eq!(first_line(&"\u{e9}".repeat(61)), format!("{}...", "\u{e9}".repeat(57)));
}

#[test]
fn validation_messages() {
    let out = CliOutput;
    assert_eq!(
        out.validation_message(&ValidationResult { total_files: 0, files_with_cards: 0 }),
        (true, "warning: no markdown files found in the current directory".to_string())
    );
    assert_eq!(
        out.validation_message(&ValidationResult { total_files: 3, files_with_cards: 1 }),
        (false, "Validation passed: 1 files with cards, 2 skipped".to_string())
    );
    assert_eq!(
        out.validation_message(&ValidationResult { total_files: 2, files_with_cards: 2 }),
        (false, "Validation passed: 2 files".to_string())
    );
}
