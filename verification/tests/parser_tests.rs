use ocr_overlay::geometry::PixelPoint;
use ocr_overlay::markup::{parse_word_title, get_text_child, extract_lines, has_class, MarkupNode};

fn word_node(title: &str, text: &str) -> MarkupNode {
    MarkupNode::Element {
        classes: Vec::new(),
        title: Some(title.to_string()),
        children: vec![MarkupNode::Text(text.to_string())],
    }
}

fn line_node(children: Vec<MarkupNode>) -> MarkupNode {
    MarkupNode::Element {
        classes: vec!["ocr_line".to_string()],
        title: None,
        children,
    }
}

#[test]
fn parses_a_well_formed_title() {
    let w = parse_word_title("bbox 0 0 40 40; x_wconf 92", "\u{4e2d}".to_string()).unwrap();
    assert_eq!(w.get_text().as_str(), "\u{4e2d}");
    // The reported coordinates are upscaled by 4, so they come back divided.
    assert_eq!(w.get_min(), PixelPoint::new(0, 0));
    assert_eq!(w.max, PixelPoint::new(10, 10));
    assert_eq!(w.confidence, 92);
}

#[test]
fn keeps_only_digits_in_coordinate_fields() {
    // The fourth coordinate carries the separating semicolon.
    let w = parse_word_title("bbox 100 204 140 244; x_wconf 95", "x".to_string()).unwrap();
    assert_eq!(w.get_min(), PixelPoint::new(25, 51));
    assert_eq!(w.max, PixelPoint::new(35, 61));
    assert_eq!(w.confidence, 95);
}

#[test]
fn rejects_short_titles() {
    assert!(parse_word_title("bbox 0 0 40 40", "x".to_string()).is_none());
    assert!(parse_word_title("", "x".to_string()).is_none());
}

#[test]
fn rejects_non_numeric_coordinates() {
    assert!(parse_word_title("bbox a b c d; x_wconf 92", "x".to_string()).is_none());
}

#[test]
fn rejects_bad_confidence() {
    assert!(parse_word_title("bbox 0 0 40 40; x_wconf 101", "x".to_string()).is_none());
    assert!(parse_word_title("bbox 0 0 40 40; x_wconf -3", "x".to_string()).is_none());
    assert!(parse_word_title("bbox 0 0 40 40; x_wconf", "x".to_string()).is_none());
}

#[test]
fn boundary_values_parse_or_fail_exactly() {
    // A confidence of exactly 100 is legal; coordinates up to a billion are.
    let w = parse_word_title("bbox 1000000000 0 1000000000 0; x_wconf 100", "x".to_string()).unwrap();
    assert_eq!(w.confidence, 100);
    assert_eq!(w.get_min(), PixelPoint::new(250000000, 0));
    // One past a billion is treated as malformed.
    assert!(parse_word_title("bbox 1000000001 0 1000000001 0; x_wconf 100", "x".to_string()).is_none());
}

#[test]
fn rejects_empty_text_and_unordered_corners() {
    assert!(parse_word_title("bbox 0 0 40 40; x_wconf 92", "".to_string()).is_none());
    assert!(parse_word_title("bbox 40 0 0 40; x_wconf 92", "x".to_string()).is_none());
}

#[test]
fn zero_size_boxes_are_legal() {
    let w = parse_word_title("bbox 8 8 8 8; x_wconf 50", ",".to_string()).unwrap();
    assert_eq!(w.get_min(), PixelPoint::new(2, 2));
    assert_eq!(w.max, PixelPoint::new(2, 2));
}

#[test]
fn text_child_walks_first_children() {
    let nodes = vec![MarkupNode::Element {
        classes: Vec::new(),
        title: None,
        children: vec![MarkupNode::Text("inner".to_string())],
    }];
    assert_eq!(get_text_child(&nodes), "inner");
    assert_eq!(get_text_child(&Vec::new()), "");
}

#[test]
fn extracts_lines_and_words() {
    let doc = vec![line_node(vec![
        word_node("bbox 0 0 40 40; x_wconf 92", "\u{4e2d}"),
        word_node("bbox 40 0 80 40; x_wconf 95", "\u{6587}"),
    ])];
    let lines = extract_lines(&doc);
    assert_eq!(lines.len(), 1);
    assert_eq!(lines[0].len(), 2);
    assert_eq!(lines[0][0].get_text().as_str(), "\u{4e2d}");
    assert_eq!(lines[0][1].get_text().as_str(), "\u{6587}");
}

#[test]
fn descends_through_wrapper_elements() {
    let doc = vec![MarkupNode::Element {
        classes: vec!["ocr_page".to_string()],
        title: None,
        children: vec![MarkupNode::Element {
            classes: vec!["ocr_carea".to_string()],
            title: None,
            children: vec![line_node(vec![word_node("bbox 0 0 4 4; x_wconf 90", "a")])],
        }],
    }];
    let lines = extract_lines(&doc);
    assert_eq!(lines.len(), 1);
    assert_eq!(lines[0][0].get_text().as_str(), "a");
}

#[test]
fn one_bad_word_does_not_discard_the_line() {
    let doc = vec![line_node(vec![
        word_node("bbox ? ? ? ?; x_wconf 9000", "bad"),
        word_node("bbox 0 0 4 4; x_wconf 90", "good"),
    ])];
    let lines = extract_lines(&doc);
    assert_eq!(lines.len(), 1);
    assert_eq!(lines[0].len(), 1);
    assert_eq!(lines[0][0].get_text().as_str(), "good");
}

#[test]
fn a_line_with_no_parsed_words_is_omitted() {
    let doc = vec![
        line_node(vec![word_node("not a box at all", "x")]),
        line_node(vec![word_node("bbox 0 0 4 4; x_wconf 90", "y")]),
    ];
    let lines = extract_lines(&doc);
    assert_eq!(lines.len(), 1);
    assert_eq!(lines[0][0].get_text().as_str(), "y");
}

#[test]
fn parser_survives_odd_documents() {
    // Deep wrappers, stray text, empty elements: the walk returns cleanly.
    let mut node = line_node(vec![word_node("bbox 0 0 4 4; x_wconf 90", "z")]);
    for _ in 0..64 {
        node = MarkupNode::Element { classes: Vec::new(), title: None, children: vec![node] };
    }
    let doc = vec![
        MarkupNode::Text("stray".to_string()),
        MarkupNode::Element { classes: Vec::new(), title: None, children: Vec::new() },
        node,
    ];
    let lines = extract_lines(&doc);
    assert_eq!(lines.len(), 1);
}

#[test]
fn class_lookup_matches_exactly() {
    let classes = vec!["ocr_page".to_string(), "ocr_line".to_string()];
    assert!(has_class(&classes, &"ocr_line".to_string()));
    assert!(!has_class(&classes, &"ocrx_word".to_string()));
}
