use acli::update_planner_parser::types::{Card, CardType, DocumentSet};
use acli::update_planner_parser::{Operation, PlanError, SimplePlanner, UpdatePlanner};

#[test]
fn test_fresh_sync_plan() {
    let cards = vec![
        Card { card_type: CardType::Basic, fields: vec!["Q".into(), "A".into()] },
        Card { card_type: CardType::Bidirectional, fields: vec!["F".into(), "B".into()] },
    ];

    let doc_set = DocumentSet { cards, source_files: vec!["test.md".into()] };
    let planner = SimplePlanner;
    let plan = planner.plan_fresh_sync(&doc_set, "TestDeck").unwrap();

    assert_eq!(plan.operations.len(), 2);
    assert_eq!(plan.deck_name, "TestDeck");
    assert!(matches!(plan.operations[0], Operation::Add(_)));
    assert!(matches!(plan.operations[1], Operation::Add(_)));
}

#[test]
fn test_empty_document_set() {
    let doc_set = DocumentSet { cards: vec![], source_files: vec![] };
    let planner = SimplePlanner;
    let result = planner.plan_fresh_sync(&doc_set, "TestDeck");
    assert!(matches!(result, Err(PlanError::EmptyDocumentSet)));
}

#[test]
fn test_invalid_deck_name() {
    let doc_set = DocumentSet {
        cards: vec![Card { card_type: CardType::Basic, fields: vec!["Q".into(), "A".into()] }],
        source_files: vec![],
    };
    let planner = SimplePlanner;
    let result = planner.plan_fresh_sync(&doc_set, "   ");
    assert!(matches!(result, Err(PlanError::InvalidDeckName(_))));
}

#[test]
fn test_incremental_plan_and_messages() {
    let doc_set = DocumentSet {
        cards: vec![Card { card_type: CardType::Basic, fields: vec!["Q".into(), "A".into()] }],
        source_files: vec![],
    };
    let planner = SimplePlanner;
    let result = planner.plan_incremental_sync(&doc_set, "Deck");
    assert!(matches!(result, Err(PlanError::DuplicateCards(0))));
    let result = planner.plan_incremental_sync(&doc_set, "  ");
    assert!(matches!(result, Err(PlanError::InvalidDeckName(_))));
    assert_eq!(PlanError::EmptyDocumentSet.to_string(), "No cards found in document set");
    assert_eq!(PlanError::InvalidDeckName(" ".into()).to_string(), "Invalid deck name:  ");
    assert_eq!(PlanError::DuplicateCards(3).to_string(), "Duplicate cards found: 3 duplicates");
}
