use acli::doc_parser::{CardType, DocumentParser, MarkdownParser};

/// An arrow inside a backtick code span must NOT be treated as a delimiter.
#[test]
fn parser_test_arrow_in_code_span_not_split() {
    // The `->` is inside a Code span — split_at_arrow skips it entirely.
    let input = "- `->` is an arrow";
    let result = MarkdownParser::new().parse(input);
    assert!(
        result.is_err(),
        "expected no card for arrow-only-in-code-span, got: {result:?}",
    );
}

/// Inline text content is preserved correctly across the arrow split.
#[test]
fn parser_test_inline_text_preserved() {
    let input = "- hello world -> answer";
    let result = MarkdownParser::new().parse(input).unwrap();
    assert_eq!(result.cards.len(), 1);
    let card = &result.cards[0];
    assert_eq!(card.card_type, CardType::Basic);
    assert_eq!(card.fields[0], "hello world -> ?");
    assert_eq!(card.fields[1], "answer");
}

#[test]
fn parser_test_image_on_front_creates_media_ref() {
    let input = "- ![](image.jpg) -> answer";
    let doc = MarkdownParser::new().parse(input).unwrap();
    assert_eq!(doc.cards.len(), 1);
    assert!(
        doc.cards[0].fields[0].contains("<img"),
        "front: {:?}",
        doc.cards[0].fields[0]
    );
    assert_eq!(doc.cards[0].fields[1], "answer");
    assert_eq!(doc.media.len(), 1);
    assert_eq!(doc.media[0].source_path, "image.jpg");
    assert_eq!(doc.media[0].target_name, "image.jpg");
}

#[test]
fn parser_test_image_on_answer_with_alt_and_dir() {
    let input = "- question -> ![Alt](dir/image.png)";
    let doc = MarkdownParser::new().parse(input).unwrap();
    assert_eq!(doc.cards.len(), 1);
    assert!(
        doc.cards[0].fields[1].contains("<img"),
        "answer: {:?}",
        doc.cards[0].fields[1]
    );
    assert_eq!(doc.media.len(), 1);
    assert_eq!(doc.media[0].source_path, "dir/image.png");
    assert_eq!(doc.media[0].target_name, "image.png");
    assert_eq!(doc.media[0].alt_text, Some("Alt".to_string()));
}

#[test]
fn parser_test_bidirectional_two_images() {
    let input = "- ![](a.jpg) <-> ![](b.jpg)";
    let doc = MarkdownParser::new().parse(input).unwrap();
    assert_eq!(doc.cards.len(), 1);
    assert_eq!(doc.media.len(), 2);
    let paths: Vec<&str> = doc.media.iter().map(|m| m.source_path.as_str()).collect();
    assert!(paths.contains(&"a.jpg"), "paths: {paths:?}");
    assert!(paths.contains(&"b.jpg"), "paths: {paths:?}");
}

#[test]
fn parser_test_dedup_same_image_two_cards() {
    let input = "- ![](shared.jpg) -> first\n- ![](shared.jpg) -> second";
    let doc = MarkdownParser::new().parse(input).unwrap();
    assert_eq!(doc.cards.len(), 2);
    assert_eq!(doc.media.len(), 1, "expected dedup, got: {:?}", doc.media);
    assert_eq!(doc.media[0].source_path, "shared.jpg");
}

#[test]
fn parser_test_nested_context_with_image() {
    let input = "- Animals\n  - ![](cat.jpg) -> Cat";
    let doc = MarkdownParser::new().parse(input).unwrap();
    assert_eq!(doc.cards.len(), 1);
    assert!(
        doc.cards[0].fields[0].contains("Animals"),
        "front: {:?}",
        doc.cards[0].fields[0]
    );
    assert_eq!(doc.media.len(), 1);
    assert_eq!(doc.media[0].source_path, "cat.jpg");
}

#[test]
fn parser_test_card_with_no_images() {
    let input = "- question -> answer";
    let doc = MarkdownParser::new().parse(input).unwrap();
    assert_eq!(doc.cards.len(), 1);
    assert!(
        doc.media.is_empty(),
        "expected empty media, got: {:?}",
        doc.media
    );
}

#[test]
fn mod_test_arrow_in_code_span_not_split() {
    let input = "- `->` is an arrow";
    let result = MarkdownParser::new().parse(input);
    assert!(
        result.is_err(),
        "expected no card for arrow-only-in-code-span, got: {result:?}",
    );
}

#[test]
fn mod_test_inline_text_preserved() {
    let input = "- hello world -> answer";
    let result = MarkdownParser::new().parse(input).unwrap();
    assert_eq!(result.cards.len(), 1);
    let card = &result.cards[0];
    assert_eq!(card.card_type, CardType::Basic);
    assert_eq!(card.fields[0], "hello world -> ?");
    assert_eq!(card.fields[1], "answer");
}

#[test]
fn mod_test_image_on_front_creates_media_ref() {
    let input = "- ![](image.jpg) -> answer";
    let doc = MarkdownParser::new().parse(input).unwrap();
    assert_eq!(doc.cards.len(), 1);
    assert!(
        doc.cards[0].fields[0].contains("<img"),
        "front: {:?}",
        doc.cards[0].fields[0]
    );
    assert_eq!(doc.cards[0].fields[1], "answer");
    assert_eq!(doc.media.len(), 1);
    assert_eq!(doc.media[0].source_path, "image.jpg");
    assert_eq!(doc.media[0].target_name, "image.jpg");
}

#[test]
fn mod_test_image_on_answer_with_alt_and_dir() {
    let input = "- question -> ![Alt](dir/image.png)";
    let doc = MarkdownParser::new().parse(input).unwrap();
    assert_eq!(doc.cards.len(), 1);
    assert!(
        doc.cards[0].fields[1].contains("<img"),
        "answer: {:?}",
        doc.cards[0].fields[1]
    );
    assert_eq!(doc.media.len(), 1);
    assert_eq!(doc.media[0].source_path, "dir/image.png");
    assert_eq!(doc.media[0].target_name, "image.png");
    assert_eq!(doc.media[0].alt_text, Some("Alt".to_string()));
}

#[test]
fn mod_test_bidirectional_two_images() {
    let input = "- ![](a.jpg) <-> ![](b.jpg)";
    let doc = MarkdownParser::new().parse(input).unwrap();
    assert_eq!(doc.cards.len(), 1);
    assert_eq!(doc.media.len(), 2);
    let paths: Vec<&str> = doc.media.iter().map(|m| m.source_path.as_str()).collect();
    assert!(paths.contains(&"a.jpg"), "paths: {paths:?}");
    assert!(paths.contains(&"b.jpg"), "paths: {paths:?}");
}

#[test]
fn mod_test_dedup_same_image_two_cards() {
    let input = "- ![](shared.jpg) -> first\n- ![](shared.jpg) -> second";
    let doc = MarkdownParser::new().parse(input).unwrap();
    assert_eq!(doc.cards.len(), 2);
    assert_eq!(doc.media.len(), 1, "expected dedup, got: {:?}", doc.media);
    assert_eq!(doc.media[0].source_path, "shared.jpg");
}

#[test]
fn mod_test_nested_context_with_image() {
    let input = "- Animals\n  - ![](cat.jpg) -> Cat";
    let doc = MarkdownParser::new().parse(input).unwrap();
    assert_eq!(doc.cards.len(), 1);
    assert!(
        doc.cards[0].fields[0].contains("Animals"),
        "front: {:?}",
        doc.cards[0].fields[0]
    );
    assert_eq!(doc.media.len(), 1);
    assert_eq!(doc.media[0].source_path, "cat.jpg");
}

#[test]
fn mod_test_card_with_no_images() {
    let input = "- question -> answer";
    let doc = MarkdownParser::new().parse(input).unwrap();
    assert_eq!(doc.cards.len(), 1);
    assert!(
        doc.media.is_empty(),
        "expected empty media, got: {:?}",
        doc.media
    );
}

#[test]
fn test_remote_image_url_not_treated_as_media() {
    let input = "- ![badge](https://example.com/badge.svg?branch=main) -> answer";
    let doc = MarkdownParser::new().parse(input).unwrap();
    assert_eq!(doc.cards.len(), 1);
    assert!(
        doc.cards[0].fields[0].contains("<img"),
        "URL image should still render as <img> in HTML"
    );
    assert!(
        doc.media.is_empty(),
        "remote URLs should not be collected as media: {:?}",
        doc.media
    );
}

#[test]
fn test_http_image_skipped_but_local_image_collected() {
    let input = "- ![](https://example.com/remote.png) ![](local.jpg) -> answer";
    let doc = MarkdownParser::new().parse(input).unwrap();
    assert_eq!(doc.cards.len(), 1);
    assert_eq!(doc.media.len(), 1, "only local image should be media");
    assert_eq!(doc.media[0].source_path, "local.jpg");
}

#[test]
fn template_without_table_keeps_following_lines() {
    let text: Vec<char> = "```template\n- {{a}} -> {{b}}\n```\n\nplain line\n".chars().collect();
    let (out, warnings) = acli::doc_parser::template::expand_templates(&text).unwrap();
    let out: String = out.into_iter().collect();
    assert_eq!(out, "```template\n- {{a}} -> {{b}}\n```\n\nplain line");
    assert_eq!(warnings.len(), 1);
}

#[test]
fn text_without_templates_passes_through() {
    let text: Vec<char> = "# Title\n\n- Q -> A\n".chars().collect();
    let (out, warnings) = acli::doc_parser::template::expand_templates(&text).unwrap();
    let out: String = out.into_iter().collect();
    assert_eq!(out, "# Title\n\n- Q -> A");
    assert!(warnings.is_empty());
}

#[test]
fn every_parsed_card_has_a_question_and_an_answer() {
    let input = "- Q -> A\n- X <-> Y\n\nSteps\n=> one\n=> two\n\nsubject | col ->\n--- | ---\nrow | cell\n";
    let doc = MarkdownParser::new().parse(input).unwrap();
    assert!(!doc.cards.is_empty());
    for card in &doc.cards {
        assert_eq!(card.fields.len(), 2);
    }
}

#[test]
fn pipe_tables_take_only_marked_runs() {
    let text: Vec<char> = "intro\nname | value\na | b\n\nsubject | col ->\nrow | cell\n| x |\nend"
        .chars()
        .collect();
    let r = acli::doc_parser::pipe_table::extract_pipe_table_cards(&text);
    let residual: String = r.residual.iter().collect();
    assert_eq!(residual, "intro\nname | value\na | b\n\nend");
    assert!(!r.cards.is_empty());
}
