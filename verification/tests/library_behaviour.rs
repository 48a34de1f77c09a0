use acli::adapter::AnkiCollectionAdapter;
use acli::anki_wrapper::{AnkiCollection, CardInfo, CardType as AnkiCardType, FakeAnkiCollection, NoteId};
use acli::anki_wrapper::types::CardId as AnkiCardId;
use acli::cli::{resolve_recursive, resolve_serve_config};
use acli::config::{project_config_candidates, user_config_path_in, ConfigFile};
use acli::discovery::{discover_markdown_files, sort_and_dedup_paths, SourceKind, SourceListing};
use acli::doc_parser::{Card, CardType, DocumentParser, MarkdownParser};
use acli::error::CliError;
use acli::media::{media_copies, media_step, CopyReport, MediaStep};
use acli::preview::{parse_and_convert_cards, PreviewSource};
use acli::sync::{compute_incremental_diff, sync_incremental, AnkiCli, SourceDocument, SyncConfig, ValidationConfig};
use acli::update_planner_parser::{DocumentDiff, DocumentSet};
use acli::web_preview::CardType as PreviewCardType;

fn parse(content: &str) -> Vec<Card> {
    MarkdownParser::new().parse(content).unwrap().cards
}

fn info(id: i64, note: i64, fields: &[&str]) -> CardInfo {
    CardInfo {
        id: AnkiCardId(id),
        note_id: NoteId(note),
        card_type: AnkiCardType::Basic,
        fields: fields.iter().map(|s| s.to_string()).collect(),
    }
}

// ── Incremental diff ─────────────────────────────────────────────────────

#[test]
fn incremental_diff_counts_every_card_once() {
    let parsed = parse("- a -> 1\n- b -> 2\n- c -> 3\n");
    let anki = vec![
        info(1, 10, &["<p>a -&gt; ?</p>", "<p>1</p>"]),
        info(2, 11, &["<p>z</p>", "<p>9</p>"]),
    ];
    let d = compute_incremental_diff(&parsed, &anki);
    assert_eq!(d.to_add.len() + d.unchanged, parsed.len());
    assert_eq!(d.to_delete.len() + d.unchanged, anki.len());
    assert_eq!(d.to_delete, vec![NoteId(11)]);
}

#[test]
fn incremental_diff_of_identical_deck_is_empty() {
    let parsed = parse("- a -> 1\n- a -> 1\n");
    let anki = vec![
        info(1, 10, &["<p>a -&gt; ?</p>", "<p>1</p>"]),
        info(2, 11, &["<p>a -&gt; ?</p>", "<p>1</p>"]),
    ];
    let d = compute_incremental_diff(&parsed, &anki);
    assert!(d.to_add.is_empty());
    assert!(d.to_delete.is_empty());
    assert_eq!(d.unchanged, 2);
}

#[test]
fn resync_of_reordered_documents_changes_nothing() {
    let mut adapter = AnkiCollectionAdapter::fake();
    sync_incremental(&parse("- a -> 1\n- b -> 2\n"), "Deck", &mut adapter).unwrap();
    let counts = sync_incremental(&parse("- c -> 3\n- a -> 1\n"), "Deck", &mut adapter).unwrap();
    assert_eq!((counts.added, counts.deleted, counts.unchanged), (1, 1, 1));
    let counts = sync_incremental(&parse("- c -> 3\n- a -> 1\n"), "Deck", &mut adapter).unwrap();
    assert_eq!((counts.added, counts.deleted, counts.unchanged), (0, 0, 2));
}

#[test]
fn sync_leaves_deck_holding_exactly_the_documents() {
    let mut adapter = AnkiCollectionAdapter::fake();
    sync_incremental(&parse("- a -> 1\n- b -> 2\n- c -> 3\n"), "Deck", &mut adapter).unwrap();
    let cards = parse("- b -> 2\n- d -> 4\n- d -> 4\n");
    sync_incremental(&cards, "Deck", &mut adapter).unwrap();
    let mut notes: Vec<Vec<String>> = adapter
        .get_cards_in_deck("Deck")
        .unwrap()
        .into_iter()
        .map(|c| c.fields)
        .collect();
    notes.sort();
    assert_eq!(
        notes,
        vec![
            vec!["<p>b -&gt; ?</p>".to_string(), "<p>2</p>".to_string()],
            vec!["<p>d -&gt; ?</p>".to_string(), "<p>4</p>".to_string()],
            vec!["<p>d -&gt; ?</p>".to_string(), "<p>4</p>".to_string()],
        ]
    );
}

#[test]
fn fake_collection_note_ids_are_fresh_after_deletes() {
    let mut col = FakeAnkiCollection::new();
    let deck = acli::anki_wrapper::DeckConfig { name: "D".into() };
    let card = acli::anki_wrapper::Card { card_type: AnkiCardType::Basic, fields: vec!["q".into(), "a".into()] };
    col.add_card(&deck, &card).unwrap();
    let first = col.decks.get("D").unwrap()[0].note_id;
    col.delete_note(first).unwrap();
    col.add_card(&deck, &card).unwrap();
    assert_ne!(col.decks.get("D").unwrap()[0].note_id, first);
}

// ── Document diff ────────────────────────────────────────────────────────

#[test]
fn document_diff_with_itself_is_empty() {
    let set = DocumentSet {
        cards: vec![
            acli::update_planner_parser::Card {
                card_type: acli::update_planner_parser::CardType::Basic,
                fields: vec!["Q".into(), "A".into()],
            },
            acli::update_planner_parser::Card {
                card_type: acli::update_planner_parser::CardType::Sequence,
                fields: vec!["S".into(), "1".into()],
            },
        ],
        source_files: vec![],
    };
    let d = DocumentDiff::compute(&set, &set);
    assert!(d.added.is_empty() && d.deleted.is_empty() && d.updated.is_empty());
}

// ── Discovery ────────────────────────────────────────────────────────────

#[test]
fn discovery_filters_sorts_and_dedups() {
    let sources = vec![
        SourceListing {
            path: "notes".into(),
            kind: SourceKind::Dir(vec![
                "notes/b.md".into(),
                "notes/a.MARKDOWN".into(),
                "notes/img.png".into(),
                "notes/a-b.md".into(),
                "notes/a/b.md".into(),
            ]),
        },
        SourceListing { path: "notes/b.md".into(), kind: SourceKind::File },
        SourceListing { path: "readme.txt".into(), kind: SourceKind::File },
    ];
    let files = discover_markdown_files(&sources).unwrap();
    assert_eq!(
        files,
        vec!["notes/a/b.md", "notes/a-b.md", "notes/a.MARKDOWN", "notes/b.md"]
    );
}

#[test]
fn discovery_rejects_missing_source() {
    let sources = vec![
        SourceListing { path: "ok.md".into(), kind: SourceKind::File },
        SourceListing { path: "nope".into(), kind: SourceKind::Missing },
    ];
    match discover_markdown_files(&sources) {
        Err(CliError::InvalidPath(p)) => assert_eq!(p, "nope"),
        _ => panic!("expected InvalidPath"),
    }
    let cli = AnkiCli::new();
    assert!(cli.discover_files(&vec![SourceListing { path: "x".into(), kind: SourceKind::Other }]).is_err());
}

#[test]
fn sort_and_dedup_uses_path_equality() {
    let v = sort_and_dedup_paths(vec!["b/./c.md".into(), "a.md".into(), "b/c.md".into(), "a.md".into()]);
    assert_eq!(v, vec!["a.md", "b/./c.md"]);
}

// ── Config ───────────────────────────────────────────────────────────────

#[test]
fn user_config_path_from_environment() {
    assert_eq!(user_config_path_in(Some("/tmp/xdg-test"), None), "/tmp/xdg-test/acli/config.toml");
    assert_eq!(user_config_path_in(None, Some("/home/u")), "/home/u/.config/acli/config.toml");
    assert_eq!(user_config_path_in(None, None), ".config/acli/config.toml");
}

#[test]
fn project_config_search_walks_up() {
    assert_eq!(
        project_config_candidates("/home/u/proj"),
        vec!["/home/u/proj/.acli.toml", "/home/u/.acli.toml", "/home/.acli.toml", "/.acli.toml"]
    );
    assert_eq!(project_config_candidates("a/b"), vec!["a/b/.acli.toml", "a/.acli.toml", ".acli.toml"]);
}

#[test]
fn serve_and_validate_settings() {
    let cfg = ConfigFile { deck: None, collection: None, media_dir: None, recursive: Some(false) };
    assert_eq!(resolve_serve_config(&cfg, None, false), Ok(("Preview".to_string(), false)));
    assert!(resolve_serve_config(&cfg, Some("a/b".into()), false).is_err());
    assert!(!resolve_recursive(&ConfigFile::default(), true));
    assert!(resolve_recursive(&ConfigFile::default(), false));
}

// ── Media ────────────────────────────────────────────────────────────────

#[test]
fn media_copy_steps_and_report() {
    let refs = vec![acli::doc_parser::MediaReference::new("img/cat.jpg".into(), "cat.jpg".into(), None, 1).unwrap()];
    let copies = media_copies("docs", &refs, "/anki/media");
    assert_eq!(copies[0].source, "docs/img/cat.jpg");
    assert_eq!(copies[0].destination, "/anki/media/cat.jpg");
    assert_eq!(media_step(true, true), MediaStep::Skip);
    assert_eq!(media_step(false, false), MediaStep::Missing);
    assert_eq!(media_step(false, true), MediaStep::Copy);
    let mut report = CopyReport::default();
    report.record(MediaStep::Copy, "a");
    report.record(MediaStep::Skip, "b");
    report.record(MediaStep::Missing, "c");
    assert_eq!(report, CopyReport { copied: 1, skipped: 1, missing: vec!["c".into()] });
}

// ── Preview conversion ───────────────────────────────────────────────────

#[test]
fn preview_conversion_of_documents() {
    let docs = vec![
        PreviewSource {
            path: "/w/a.md".into(),
            display_path: "a.md".into(),
            dir: "".into(),
            content: Ok("- q ![](p.png) -> a\n".into()),
        },
        PreviewSource {
            path: "/w/gone.md".into(),
            display_path: "gone.md".into(),
            dir: "".into(),
            content: Err("No such file".into()),
        },
        PreviewSource {
            path: "/w/empty.md".into(),
            display_path: "empty.md".into(),
            dir: "".into(),
            content: Ok("# nothing here\n".into()),
        },
        PreviewSource {
            path: "/w/seq.md".into(),
            display_path: "sub/seq.md".into(),
            dir: "sub".into(),
            content: Ok("Steps\n=> one\n=> two\n".into()),
        },
    ];
    let (cards, errors) = parse_and_convert_cards(&docs);
    assert_eq!(errors, vec!["/w/gone.md: No such file".to_string()]);
    assert_eq!(cards.len(), 3);
    assert!(cards[0].front.contains("/media/p.png"), "{}", cards[0].front);
    assert!(matches!(cards[0].card_type, PreviewCardType::Basic));
    assert_eq!(cards[0].source_file.as_deref(), Some("a.md"));
    assert!(matches!(cards[1].card_type, PreviewCardType::Sequence));
    assert_eq!(cards[2].source_file.as_deref(), Some("sub/seq.md"));
}

// ── Commands over documents ──────────────────────────────────────────────

#[test]
fn validate_preview_and_sync_commands() {
    let cli = AnkiCli::new();
    let docs = vec![
        SourceDocument { path: "a.md".into(), dir: "".into(), content: "- Q -> A\n".into() },
        SourceDocument { path: "b.md".into(), dir: "".into(), content: "# readme\n".into() },
    ];
    let v = cli.validate(&ValidationConfig { source_dirs: vec![], recursive: true }, &docs).unwrap();
    assert_eq!((v.total_files, v.files_with_cards), (2, 1));
    let mut config = SyncConfig::default();
    config.deck_name = "D".into();
    config.dry_run = true;
    let p = cli.preview(&config, &docs).unwrap();
    assert_eq!(p.cards.len(), 1);
    let mut adapter = AnkiCollectionAdapter::fake();
    let s = cli.sync(&config, &docs, &Vec::new(), &mut adapter).unwrap();
    assert_eq!(s.cards_synced, 1);
    assert!(adapter.inner().decks.names().is_empty(), "a dry run touches nothing");
    config.dry_run = false;
    let s = cli.sync(&config, &docs, &Vec::new(), &mut adapter).unwrap();
    assert!(!s.dry_run);
    assert_eq!((s.cards_added, s.cards_deleted, s.cards_unchanged, s.cards_synced), (1, 0, 0, 1));
    assert_eq!(adapter.inner().decks.get("D").unwrap().len(), 1);
    let again = cli.sync(&config, &docs, &Vec::new(), &mut adapter).unwrap();
    assert_eq!((again.cards_added, again.cards_deleted, again.cards_unchanged, again.cards_synced), (0, 0, 1, 0));
    let bad = vec![SourceDocument { path: "t.md".into(), dir: "".into(), content: "```template\nx\n```\n".into() }];
    let _ = cli.validate(&ValidationConfig { source_dirs: vec![], recursive: true }, &bad);
    let _ = CardType::Basic;
}

#[test]
fn test_sync_with_image_cards_no_media_dir() {
    let content = "- ![photo](photo.jpg) What is this? -> A photograph\n";
    let docs = vec![SourceDocument { path: "cards.md".into(), dir: "".into(), content: content.into() }];
    let cli = AnkiCli::new();
    let config = SyncConfig {
        source_dirs: vec!["docs".into()],
        deck_name: "MediaTest".to_string(),
        anki_collection_path: None,
        anki_media_dir: None,
        recursive: true,
        dry_run: false,
    };
    let mut adapter = AnkiCollectionAdapter::fake();
    let result = cli
        .sync(&config, &docs, &Vec::new(), &mut adapter)
        .expect("sync with image cards should succeed");
    assert!(!result.dry_run);
    assert_eq!(result.files_processed, 1);
    assert_eq!(result.media_copied, 0, "no media dir configured, nothing copied");
    assert_eq!(result.media_skipped, 0);
    assert_eq!(result.media_missing, 0);
}

#[test]
fn sync_reports_media_totals_and_parse_errors() {
    let docs = vec![SourceDocument { path: "a.md".into(), dir: "d".into(), content: "- ![p](p.png) Q -> A\n".into() }];
    let cli = AnkiCli::new();
    let mut config = SyncConfig::default();
    config.deck_name = "M".into();
    let reports = vec![
        CopyReport { copied: 2, skipped: 1, missing: vec!["x.png".into()] },
        CopyReport { copied: 3, skipped: 0, missing: vec![] },
    ];
    let mut adapter = AnkiCollectionAdapter::fake();
    let s = cli.sync(&config, &docs, &reports, &mut adapter).unwrap();
    assert_eq!((s.media_copied, s.media_skipped, s.media_missing), (5, 1, 1));
    let bad = vec![SourceDocument {
        path: "t.md".into(),
        dir: "".into(),
        content: "```template\n- {{a}} -> {{b}}\n```\n| a | b |\n|---|---|\n| x |  |\n".into(),
    }];
    assert!(matches!(cli.sync(&config, &bad, &reports, &mut adapter), Err(CliError::ParseError(_))));
}

#[test]
fn sorted_paths_keep_files_of_different_directories() {
    let files = vec!["d2/cards.md".to_string(), "d1/cards.md".to_string(), "d1/./cards.md".to_string(), "d1//cards.md".to_string()];
    assert_eq!(sort_and_dedup_paths(files), vec!["d1/cards.md".to_string(), "d2/cards.md".to_string()]);
    let ordered = vec!["b".to_string(), "a/z".to_string(), "a".to_string(), "/r".to_string()];
    assert_eq!(sort_and_dedup_paths(ordered), vec!["/r".to_string(), "a".to_string(), "a/z".to_string(), "b".to_string()]);
}

#[test]
fn incremental_diff_pairs_first_cards_of_each_content() {
    let parsed = parse("- a -> 1\n- b -> 2\n- a -> 1\n- a -> 1\n");
    let anki = vec![
        info(1, 10, &["<p>z</p>", "<p>9</p>"]),
        info(2, 11, &["<p>a -&gt; ?</p>", "<p>1</p>"]),
        info(3, 12, &["<p>a -&gt; ?</p>", "<p>1</p>"]),
    ];
    let d = compute_incremental_diff(&parsed, &anki);
    assert_eq!(d.unchanged, 2);
    assert_eq!(d.to_add.len(), 2);
    assert_eq!(d.to_add[0].fields[0], "b -> ?");
    assert_eq!(d.to_add[1].fields[0], "a -> ?");
    assert_eq!(d.to_delete, vec![NoteId(10)]);
}

#[test]
fn sync_counts_add_up_to_documents_and_deck() {
    let mut adapter = AnkiCollectionAdapter::fake();
    sync_incremental(&parse("- a -> 1\n- b -> 2\n- c -> 3\n"), "Deck", &mut adapter).unwrap();
    let c = sync_incremental(&parse("- b -> 2\n- d -> 4\n"), "Deck", &mut adapter).unwrap();
    assert_eq!(c.added + c.unchanged, 2);
    assert_eq!(c.deleted + c.unchanged, 3);
}
