use ocr_overlay::geometry::PixelPoint;
use ocr_overlay::markup::MarkupNode;
use ocr_overlay::tokenizer::{merge_tokens, retokenize_line, tokenize_text, nodes_to_lines};
use ocr_overlay::words::HocrWord;

fn glyph(text: &str, x0: i64, y0: i64, x1: i64, y1: i64, conf: u32) -> HocrWord {
    HocrWord::new(text.to_string(), PixelPoint::new(x0, y0), PixelPoint::new(x1, y1), conf)
}

#[test]
fn merges_consecutive_glyphs_into_one_token() {
    // Two per-glyph words with adjacent boxes and one dictionary token.
    let words = vec![
        glyph("\u{4e2d}", 0, 0, 40, 40, 92),
        glyph("\u{6587}", 40, 0, 80, 40, 95),
    ];
    let tokens = vec!["\u{4e2d}\u{6587}".to_string()];
    let merged = merge_tokens(&words, &tokens);
    assert_eq!(merged.len(), 1);
    assert_eq!(merged[0].get_text().as_str(), "\u{4e2d}\u{6587}");
    assert_eq!(merged[0].get_min(), PixelPoint::new(0, 0));
    assert_eq!(merged[0].max, PixelPoint::new(80, 40));
    assert_eq!(merged[0].confidence, 92);
}

#[test]
fn box_union_covers_all_subsumed_boxes() {
    let words = vec![
        glyph("a", 10, 5, 20, 30, 80),
        glyph("b", 0, 8, 15, 40, 70),
        glyph("c", 12, 0, 35, 25, 90),
    ];
    let tokens = vec!["abc".to_string()];
    let merged = merge_tokens(&words, &tokens);
    assert_eq!(merged.len(), 1);
    assert_eq!(merged[0].get_min(), PixelPoint::new(0, 0));
    assert_eq!(merged[0].max, PixelPoint::new(35, 40));
    assert_eq!(merged[0].confidence, 70);
}

#[test]
fn skipped_raw_words_pass_through_unmerged() {
    let words = vec![
        glyph("\u{4e2d}", 0, 0, 40, 40, 92),
        glyph("\u{5de5}", 40, 0, 80, 40, 95),
    ];
    // The token matches the second word only; the first passes through.
    let tokens = vec!["\u{5de5}".to_string()];
    let merged = merge_tokens(&words, &tokens);
    assert_eq!(merged.len(), 2);
    assert_eq!(merged[0].get_text().as_str(), "\u{4e2d}");
    assert_eq!(merged[1].get_text().as_str(), "\u{5de5}");
}

#[test]
fn unmatched_tokens_are_silently_skipped() {
    let words = vec![glyph("\u{4e2d}", 0, 0, 40, 40, 92)];
    let tokens = vec!["\u{6587}".to_string()];
    let merged = merge_tokens(&words, &tokens);
    assert!(merged.is_empty());
}

#[test]
fn empty_tokens_are_skipped_without_panicking() {
    let words = vec![glyph("a", 0, 0, 4, 4, 50)];
    let tokens = vec!["".to_string(), "a".to_string()];
    let merged = merge_tokens(&words, &tokens);
    assert_eq!(merged.len(), 1);
    assert_eq!(merged[0].get_text().as_str(), "a");
}

#[test]
fn a_token_longer_than_the_remaining_words_folds_what_is_left() {
    let words = vec![glyph("\u{4e2d}", 0, 0, 40, 40, 92)];
    let tokens = vec!["\u{4e2d}\u{6587}".to_string()];
    let merged = merge_tokens(&words, &tokens);
    assert_eq!(merged.len(), 1);
    assert_eq!(merged[0].get_text().as_str(), "\u{4e2d}");
}

#[test]
fn dictionary_tokenization_segments_real_text() {
    // "ni hao ma" segments into a greeting word and a particle.
    let tokens = tokenize_text("\u{4f60}\u{597d}\u{55ce}");
    let joined: String = tokens.iter().map(|t| t.as_str()).collect::<Vec<&str>>().join("");
    assert_eq!(joined, "\u{4f60}\u{597d}\u{55ce}");
    assert_eq!(tokens.len(), 2);
    assert_eq!(tokens[0], "\u{4f60}\u{597d}");
    assert_eq!(tokens[1], "\u{55ce}");
}

#[test]
fn retokenize_line_merges_per_glyph_ocr_output() {
    let words = vec![
        glyph("\u{4e2d}", 0, 0, 40, 40, 92),
        glyph("\u{6587}", 40, 0, 80, 40, 95),
    ];
    let merged = retokenize_line(&words);
    assert_eq!(merged.len(), 1);
    assert_eq!(merged[0].get_text().as_str(), "\u{4e2d}\u{6587}");
    assert_eq!(merged[0].get_min(), PixelPoint::new(0, 0));
    assert_eq!(merged[0].max, PixelPoint::new(80, 40));
    assert_eq!(merged[0].confidence, 92);
}

#[test]
fn document_pipeline_parses_and_merges() {
    let word = |title: &str, text: &str| MarkupNode::Element {
        classes: Vec::new(),
        title: Some(title.to_string()),
        children: vec![MarkupNode::Text(text.to_string())],
    };
    let doc = vec![MarkupNode::Element {
        classes: vec!["ocr_line".to_string()],
        title: None,
        children: vec![
            word("bbox 0 0 160 160; x_wconf 92", "\u{4e2d}"),
            word("bbox 160 0 320 160; x_wconf 95", "\u{6587}"),
        ],
    }];
    let lines = nodes_to_lines(&doc);
    assert_eq!(lines.len(), 1);
    assert_eq!(lines[0].len(), 1);
    assert_eq!(lines[0][0].get_text().as_str(), "\u{4e2d}\u{6587}");
    // Coordinates divided by the upscale factor, then unioned.
    assert_eq!(lines[0][0].get_min(), PixelPoint::new(0, 0));
    assert_eq!(lines[0][0].max, PixelPoint::new(80, 40));
    assert_eq!(lines[0][0].confidence, 92);
}
