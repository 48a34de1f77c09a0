use acli::line_parser::{Card, DocumentParser, MarkdownParser, ParseError};

#[test]
fn card_new_keeps_front_and_back() {
    let c = Card::new("front", "back");
    assert_eq!(c.front, "front");
    assert_eq!(c.back, "back");
}

#[test]
fn parse_error_message_names_the_line() {
    let e = ParseError::invalid_line(3, "Expected '->' or '<->' in card definition");
    assert_eq!(e.to_string_lossy(), "Line 3: Expected '->' or '<->' in card definition");
}

#[test]
fn line_cards_one_way_and_both_ways() {
    let doc = MarkdownParser::new().parse("# Title\n- Q -> A\n  - X <-> Y\ntext\n").unwrap();
    assert_eq!(
        doc.cards,
        vec![Card::new("Q", "A"), Card::new("X", "Y"), Card::new("Y", "X")]
    );
}

#[test]
fn line_cards_refuse_bad_lines() {
    match MarkdownParser::new().parse("- ok -> yes\n- -\n") {
        Err(e) => assert_eq!(e.to_string_lossy(), "Line 2: Expected '->' or '<->' in card definition"),
        Ok(_) => panic!("expected an error"),
    }
    assert!(MarkdownParser::new().parse("- \n").unwrap().cards.is_empty());
    match MarkdownParser::new().parse("- no arrow here") {
        Err(ParseError::InvalidSyntax { line, message }) => {
            assert_eq!(line, 1);
            assert_eq!(message, "Expected '->' or '<->' in card definition");
        }
        Ok(_) => panic!("expected an error"),
    }
    match MarkdownParser::new().parse("- - a ->  ") {
        Err(ParseError::InvalidSyntax { line, .. }) => assert_eq!(line, 1),
        Ok(_) => panic!("expected an error"),
    }
}
