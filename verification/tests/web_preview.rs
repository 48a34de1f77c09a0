use acli::html::text_to_html;
use acli::web_preview::renderer::{render_error_page, render_page};
use acli::web_preview::server::{page_response, route_request, Route};
use acli::web_preview::static_files::{mime_for_path, percent_decode, percent_decode_bytes};
use acli::web_preview::url_rewriting::rewrite_image_urls;
use acli::web_preview::{CardType, PreviewCard, PreviewData};

// ── URL rewriting ────────────────────────────────────────────────────────

#[test]
fn rewrite_html_img_prepends_media_prefix() {
    let text = r#"<img src="photo.png" alt="pic">"#;
    let result = rewrite_image_urls(text, "chapter1");
    assert_eq!(result, r#"<img src="/media/chapter1/photo.png" alt="pic">"#);
}

#[test]
fn rewrite_html_img_root_dir() {
    let text = r#"<img src="photo.png" alt="">"#;
    let result = rewrite_image_urls(text, "");
    assert_eq!(result, r#"<img src="/media/photo.png" alt="">"#);
}

#[test]
fn rewrite_html_img_leaves_remote_urls() {
    let text = r#"<img src="https://example.com/img.png" alt="">"#;
    let result = rewrite_image_urls(text, "sub");
    assert_eq!(result, text);
}

#[test]
fn rewrite_html_img_leaves_absolute_paths() {
    let text = r#"<img src="/already/absolute.png" alt="">"#;
    let result = rewrite_image_urls(text, "sub");
    assert_eq!(result, text);
}

#[test]
fn rewrite_markdown_img_simple() {
    let text = "![](photo.png)";
    let result = rewrite_image_urls(text, "chapter1");
    assert_eq!(result, "![](/media/chapter1/photo.png)");
}

#[test]
fn rewrite_markdown_img_with_alt() {
    let text = "![team logo](team-logos/brewers.png)";
    let result = rewrite_image_urls(text, "history");
    assert_eq!(result, "![team logo](/media/history/team-logos/brewers.png)");
}

#[test]
fn rewrite_markdown_img_root_dir() {
    let text = "![](photo.png)";
    let result = rewrite_image_urls(text, "");
    assert_eq!(result, "![](/media/photo.png)");
}

#[test]
fn rewrite_markdown_img_leaves_remote_urls() {
    let text = "![](https://example.com/img.png)";
    let result = rewrite_image_urls(text, "sub");
    assert_eq!(result, text);
}

#[test]
fn rewrite_markdown_img_preserves_surrounding_text() {
    let text = "**MLB** (1902)\n![](team-logos/brewers.png)\nsome text";
    let result = rewrite_image_urls(text, "history");
    assert!(
        result.contains("![](/media/history/team-logos/brewers.png)"),
        "should rewrite markdown image: {result}"
    );
    assert!(result.contains("**MLB** (1902)"));
    assert!(result.contains("some text"));
}

#[test]
fn rewrite_markdown_img_multiple() {
    let text = "![](a.png) and ![](b.jpg)";
    let result = rewrite_image_urls(text, "d");
    assert!(result.contains("/media/d/a.png"), "{result}");
    assert!(result.contains("/media/d/b.jpg"), "{result}");
}

#[test]
fn rewrite_no_images() {
    let text = "just plain text with no images";
    let result = rewrite_image_urls(text, "sub");
    assert_eq!(result, text);
}

#[test]
fn rewrite_leaves_data_uris() {
    let html = r#"<img src="data:image/png;base64,abc" alt="">"#;
    let result = rewrite_image_urls(html, "sub");
    assert_eq!(result, html);
}

#[test]
fn rewrite_keeps_unclosed_image_syntax() {
    assert_eq!(rewrite_image_urls("![alt(x.png)", "d"), "![alt(x.png)");
    assert_eq!(rewrite_image_urls("![a](x.png", "d"), "![a](x.png");
    assert_eq!(rewrite_image_urls("<img src=\"x.png", "d"), "<img src=\"x.png");
}

#[test]
fn rewrite_uses_forward_slashes_and_trailing_dir_slash() {
    assert_eq!(rewrite_image_urls("![](a\\b.png)", "d/"), "![](/media/d/a/b.png)");
}

// ── Static files ─────────────────────────────────────────────────────────

#[test]
fn percent_decode_basic() {
    assert_eq!(percent_decode("hello%20world"), "hello world");
    assert_eq!(percent_decode("no%2Fslash"), "no/slash");
    assert_eq!(percent_decode("plain"), "plain");
}

#[test]
fn percent_decode_malformed_keeps_percent() {
    assert_eq!(percent_decode("100%"), "100%");
    assert_eq!(percent_decode("100%zz"), "100%zz");
    assert_eq!(percent_decode("50%off"), "50%off");
    assert_eq!(percent_decode("%zzrest"), "%zzrest");
    assert_eq!(percent_decode("%4"), "%4");
    assert_eq!(percent_decode("%%41"), "%A");
    assert_eq!(percent_decode_bytes(b"a%41b"), b"aAb".to_vec());
}

#[test]
fn percent_decode_invalid_utf8_is_replaced() {
    assert_eq!(percent_decode("%FF"), "\u{FFFD}");
    assert_eq!(percent_decode("caf%C3%A9"), "café");
}

#[test]
fn mime_types_by_extension() {
    assert_eq!(mime_for_path("a/b/photo.PNG"), "image/png");
    assert_eq!(mime_for_path("x.jpeg"), "image/jpeg");
    assert_eq!(mime_for_path("x.jpg"), "image/jpeg");
    assert_eq!(mime_for_path("x.svg"), "image/svg+xml");
    assert_eq!(mime_for_path("x.ico"), "image/x-icon");
    assert_eq!(mime_for_path("x.txt"), "application/octet-stream");
    assert_eq!(mime_for_path("noext"), "application/octet-stream");
}

// ── Renderer ─────────────────────────────────────────────────────────────

fn sample_data() -> PreviewData {
    PreviewData {
        deck_name: "Test::Deck".into(),
        files_processed: 2,
        errors: vec![],
        cards: vec![
            PreviewCard {
                front: "hello".into(),
                back: "world".into(),
                card_type: CardType::Basic,
                source_file: Some("chapter1.md".into()),
            },
            PreviewCard {
                front: "hola".into(),
                back: "hello".into(),
                card_type: CardType::Bidirectional,
                source_file: Some("chapter1.md".into()),
            },
            PreviewCard {
                front: "Boot sequence\n1/2: power on".into(),
                back: "press button".into(),
                card_type: CardType::Sequence,
                source_file: Some("chapter2.md".into()),
            },
        ],
    }
}

#[test]
fn render_page_contains_deck_name() {
    let html = render_page(&sample_data());
    assert!(html.contains("Test::Deck"));
}

#[test]
fn render_page_contains_card_content() {
    let html = render_page(&sample_data());
    assert!(html.contains("hello"));
    assert!(html.contains("world"));
    assert!(html.contains("hola"));
}

#[test]
fn render_page_groups_by_file() {
    let html = render_page(&sample_data());
    assert!(html.contains("chapter1.md"));
    assert!(html.contains("chapter2.md"));
    assert!(html.contains("2 cards"));
    assert!(html.contains("1 card"));
}

#[test]
fn render_page_contains_type_badges() {
    let html = render_page(&sample_data());
    assert!(html.contains("type-basic"));
    assert!(html.contains("type-bidi"));
    assert!(html.contains("type-sequence"));
}

#[test]
fn render_page_renders_markdown_to_html() {
    let data = PreviewData {
        deck_name: "Test".into(),
        files_processed: 1,
        errors: vec![],
        cards: vec![PreviewCard {
            front: "**bold** text".into(),
            back: "- item 1\n- item 2".into(),
            card_type: CardType::Basic,
            source_file: Some("test.md".into()),
        }],
    };
    let html = render_page(&data);
    assert!(html.contains("<strong>bold</strong>"), "should render bold: {html}");
    assert!(html.contains("<li>"), "should render list items: {html}");
}

#[test]
fn render_page_shows_empty_state() {
    let data = PreviewData {
        deck_name: "Empty".into(),
        files_processed: 3,
        errors: vec![],
        cards: vec![],
    };
    let html = render_page(&data);
    assert!(html.contains("No cards found"));
    assert!(html.contains("0 cards"));
}

#[test]
fn render_page_shows_errors() {
    let data = PreviewData {
        deck_name: "Test".into(),
        files_processed: 1,
        errors: vec!["bad.md: unexpected token".into()],
        cards: vec![],
    };
    let html = render_page(&data);
    assert!(html.contains("Warnings"));
    assert!(html.contains("bad.md: unexpected token"));
}

#[test]
fn render_page_escapes_html_in_deck_name() {
    let data = PreviewData {
        deck_name: "Test<script>alert(1)</script>".into(),
        files_processed: 0,
        errors: vec![],
        cards: vec![],
    };
    let html = render_page(&data);
    assert!(!html.contains("<script>"));
    assert!(html.contains("&lt;script&gt;"));
}

#[test]
fn render_error_page_contains_message() {
    let html = render_error_page("something broke");
    assert!(html.contains("something broke"));
    assert!(html.contains("Error"));
}

#[test]
fn text_to_html_renders_basic_text() {
    let result = text_to_html("hello world");
    assert_eq!(result, "<p>hello world</p>");
}

#[test]
fn text_to_html_converts_newlines_to_breaks() {
    let result = text_to_html("line1\nline2");
    assert!(result.contains("<br />"), "should have line break: {result}");
}

#[test]
fn render_page_exact_header_and_sections() {
    let html = render_page(&sample_data());
    assert!(html.starts_with("<!DOCTYPE html>\n<html lang=\"en\">\n<head>\n"));
    assert!(html.contains(
        "<span>Deck: <strong>Test::Deck</strong></span><span>3 cards from 2 files</span>"
    ));
    assert_eq!(html.matches("<div class=\"file-section\">").count(), 2);
    assert_eq!(html.matches("</tbody></table>\n</div>\n").count(), 2);
    assert!(html.contains("<td class=\"card-index\">3</td>"));
    assert!(html.ends_with("</div>\n</body>\n</html>"));
}

#[test]
fn render_page_unknown_source_and_regrouping() {
    let mk = |f: Option<&str>| PreviewCard {
        front: "q".into(),
        back: "a".into(),
        card_type: CardType::Basic,
        source_file: f.map(|s| s.to_string()),
    };
    let data = PreviewData {
        deck_name: "D".into(),
        files_processed: 1,
        errors: vec![],
        cards: vec![mk(Some("a.md")), mk(None), mk(Some("a.md"))],
    };
    let html = render_page(&data);
    assert!(html.contains("Unknown source"));
    // a.md appears as two separate groups because the cards are not consecutive
    assert_eq!(html.matches("<span class=\"file-path\">a.md</span>").count(), 2);
    assert!(html.contains("<span>1 card from 1 file</span>") == false);
    assert!(html.contains("3 cards from 1 file</span>"));
}

// ── Server decisions ─────────────────────────────────────────────────────

#[test]
fn routes_of_requests() {
    assert_eq!(route_request("/"), Route::Page);
    assert_eq!(route_request("/favicon.ico"), Route::Favicon);
    assert_eq!(route_request("/media/a%20b.png"), Route::Media("a%20b.png".to_string()));
    assert_eq!(route_request("/other"), Route::NotFound);
}

#[test]
fn page_response_statuses() {
    let (html, status) = page_response(&Ok(sample_data()));
    assert_eq!(status, 200);
    assert_eq!(html, render_page(&sample_data()));
    let (html, status) = page_response(&Err("boom".to_string()));
    assert_eq!(status, 500);
    assert!(html.contains("boom"));
}
