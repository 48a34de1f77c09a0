# acli

Markdown flashcards synced to Anki decks. The library reads `->` / `<->`
cards, sequences, block cards, pipe tables and templates out of Markdown,
plans the changes that bring a deck in line with the documents, carries
them out against a collection, and renders a web preview of the cards.
The library's functions are verified with Verus against their
contracts, except a few small trusted wrappers around calls into
pulldown-cmark and the standard library (Markdown events and HTML, hashing,
`Path` order, equality and parent, lossy UTF-8, `String::push`), whose contracts state what
those calls promise.

The library targets Unix: paths are `/`-separated, and the contracts of
the path functions state `std::path::Path` as it behaves on Unix.

Layout:

- `src/doc_parser` — parsing Markdown documents into cards and media
  references (the Markdown events come from pulldown-cmark).
- `src/update_planner_parser` — card identities, document diffs, sync plans
  and their execution.
- `src/anki_wrapper` — the collection interface and an in-memory collection.
- `src/adapter.rs`, `src/sync.rs`, `src/sync_outcome.rs` — incremental sync
  of a deck with parsed cards, and what the deck holds afterwards.
- `src/web_preview` — the preview page, image URL rewriting, static file
  types and the server's routing.
- `src/cli.rs`, `src/config.rs`, `src/discovery.rs`, `src/media.rs`,
  `src/output.rs`, `src/preview.rs` — command settings, config files,
  file selection, media copies and command output.
- `app/` — the `acli` command: arguments, file system, config file parsing,
  terminal output and the HTTP server loop.
