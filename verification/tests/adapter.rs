use acli::adapter::AnkiCollectionAdapter;
use acli::update_planner_parser::executor::AnkiCollection;
use acli::update_planner_parser::types::{Card as PlannerCard, CardType as PlannerCardType};
use acli::update_planner_parser::{DefaultExecutor, Operation, PlanExecutor, SyncPlan};

#[test]
fn test_adapter_ensure_deck() {
    let mut adapter = AnkiCollectionAdapter::fake();
    adapter.ensure_deck("Test::Deck").unwrap();

    // Verify deck was created
    assert!(adapter.inner().decks.contains_key("Test::Deck"));
}

#[test]
fn test_adapter_add_card() {
    let mut adapter = AnkiCollectionAdapter::fake();
    adapter.ensure_deck("Test").unwrap();

    let card = PlannerCard {
        card_type: PlannerCardType::Basic,
        fields: vec!["front".to_string(), "back".to_string()],
    };
    adapter.add_card("Test", &card).unwrap();

    let cards = adapter.inner().decks.get("Test").unwrap();
    assert_eq!(cards.len(), 1);
    // Fields are rendered as HTML via pulldown-cmark (wrapped in <p> tags)
    assert_eq!(cards[0].fields, vec!["<p>front</p>", "<p>back</p>"]);
}

#[test]
fn test_adapter_converts_newlines_to_html() {
    let mut adapter = AnkiCollectionAdapter::fake();
    adapter.ensure_deck("Test").unwrap();

    let card = PlannerCard {
        card_type: PlannerCardType::Basic,
        fields: vec!["line1\nline2".to_string(), "answer".to_string()],
    };
    adapter.add_card("Test", &card).unwrap();

    let cards = adapter.inner().decks.get("Test").unwrap();
    assert_eq!(cards.len(), 1);
    // Newlines become hard breaks via pulldown-cmark
    assert_eq!(cards[0].fields[0], "<p>line1<br />\nline2</p>");
    assert_eq!(cards[0].fields[1], "<p>answer</p>");
}

#[test]
fn test_adapter_escapes_html_special_chars() {
    let mut adapter = AnkiCollectionAdapter::fake();
    adapter.ensure_deck("Test").unwrap();

    let card = PlannerCard {
        card_type: PlannerCardType::Basic,
        fields: vec!["x < y & y > z".to_string(), "true".to_string()],
    };
    adapter.add_card("Test", &card).unwrap();

    let cards = adapter.inner().decks.get("Test").unwrap();
    assert_eq!(cards.len(), 1);
    // HTML special characters are escaped (wrapped in <p> by pulldown-cmark)
    assert_eq!(cards[0].fields[0], "<p>x &lt; y &amp; y &gt; z</p>");
}

#[test]
fn test_adapter_clear_deck() {
    let mut adapter = AnkiCollectionAdapter::fake();
    adapter.ensure_deck("Test").unwrap();

    let card = PlannerCard {
        card_type: PlannerCardType::Basic,
        fields: vec!["front".to_string(), "back".to_string()],
    };
    adapter.add_card("Test", &card).unwrap();
    assert_eq!(adapter.inner().decks.get("Test").unwrap().len(), 1);

    adapter.clear_deck("Test").unwrap();
    assert_eq!(adapter.inner().decks.get("Test").unwrap().len(), 0);
}

#[test]
fn test_adapter_converts_markdown_list_to_html() {
    let mut adapter = AnkiCollectionAdapter::fake();
    adapter.ensure_deck("Test").unwrap();

    let hierarchical_front = "- Spanish\n    - Greetings\n        - Hello <-> ?";
    let card = PlannerCard {
        card_type: PlannerCardType::Bidirectional,
        fields: vec![hierarchical_front.to_string(), "Hola".to_string()],
    };
    adapter.add_card("Test", &card).unwrap();

    // get_cards_in_deck deduplicates by note — 1 reversed note = 1 entry.
    let cards = adapter.get_cards_in_deck("Test").unwrap();
    assert_eq!(cards.len(), 1);

    // The front field should be a nested HTML list (via pulldown-cmark)
    let front = &cards[0].fields[0];
    assert!(front.contains("<ul>"), "should contain <ul> tags: {front}");
    assert!(front.contains("<li>"), "should contain <li> tags: {front}");
    assert!(
        front.contains("Spanish"),
        "should contain 'Spanish': {front}"
    );
    assert!(
        front.contains("Greetings"),
        "should contain 'Greetings': {front}"
    );
    assert!(
        front.contains("Hello &lt;-&gt; ?"),
        "should contain escaped arrow: {front}"
    );
    assert_eq!(cards[0].fields[1], "<p>Hola</p>");
}

#[test]
fn test_adapter_with_executor() {
    let mut adapter = AnkiCollectionAdapter::fake();
    let executor = DefaultExecutor;

    let plan = SyncPlan {
        deck_name: "MyDeck".to_string(),
        operations: vec![
            Operation::Add(PlannerCard {
                card_type: PlannerCardType::Basic,
                fields: vec!["Q1".to_string(), "A1".to_string()],
            }),
            Operation::Add(PlannerCard {
                card_type: PlannerCardType::Bidirectional,
                fields: vec!["Q2".to_string(), "A2".to_string()],
            }),
        ],
    };

    executor.execute_plan(&plan, &mut adapter).unwrap();

    // get_cards_in_deck returns 2 notes (Basic + Bidirectional).
    // Internally there are 3 cards (1 Basic + 2 for the reversed note),
    // but the public API deduplicates by note.
    let cards = adapter.get_cards_in_deck("MyDeck").unwrap();
    assert_eq!(cards.len(), 2);
}

#[test]
fn read_answer_turns_not_found_into_no_entries() {
    let answer = acli::adapter::read_answer(Err(acli::anki_wrapper::error::AnkiWrapperError::DeckNotFound {
        name: "Missing".to_string(),
    }));
    assert_eq!(answer.unwrap().len(), 0);
}

#[test]
fn read_answer_passes_other_errors_on() {
    let e = acli::anki_wrapper::error::AnkiWrapperError::AnkiError("locked".to_string());
    let answer = acli::adapter::read_answer(Err(e.clone()));
    assert_eq!(answer.unwrap_err(), e);
}

#[test]
fn read_answer_keeps_entries() {
    let answer = acli::adapter::read_answer(Ok(Vec::new()));
    assert!(answer.unwrap().is_empty());
}

#[test]
fn plan_interface_reports_collection_errors_and_refusals() {
    let mut adapter = AnkiCollectionAdapter::fake();
    let missing = AnkiCollection::clear_deck(&mut adapter, "Missing");
    assert_eq!(missing.unwrap_err(), "Deck not found: Missing");

    let card = PlannerCard {
        card_type: PlannerCardType::Basic,
        fields: vec!["q".to_string(), "a".to_string()],
    };
    let update = AnkiCollection::update_card(&mut adapter, "Test", acli::update_planner_parser::types::CardId(1), &card);
    assert_eq!(update.unwrap_err(), "update_card not supported");
    assert!(AnkiCollection::save(&mut adapter).is_ok());
    assert!(adapter.inner().decks.names().is_empty());
}
