use ocr_overlay::geometry::PixelPoint;
use ocr_overlay::layout::{Measurement, PresentableLine, PresentableWord, Scale, WordEmphasis};
use ocr_overlay::words::HocrWord;

fn glyph(text: &str, x0: i64, y0: i64, x1: i64, y1: i64, conf: u32) -> HocrWord {
    HocrWord::new(text.to_string(), PixelPoint::new(x0, y0), PixelPoint::new(x1, y1), conf)
}

#[test]
fn relayout_places_words_left_to_right() {
    // Noisy reported positions; trustworthy sizes.
    let words = vec![
        glyph("\u{4e2d}", 7, 3, 47, 43, 92),
        glyph("\u{6587}", 39, 1, 79, 41, 95),
    ];
    let ms = vec![Measurement::new(40, 40), Measurement::new(40, 40)];
    let line = PresentableLine::from_hocr(&words, &ms);
    let placed = line.get_words();
    assert_eq!(placed.len(), 2);
    // The line starts at the first word's reported minimum corner.
    assert_eq!(line.get_min(), PixelPoint::new(7, 3));
    assert_eq!(placed[0].get_min(), PixelPoint::new(7, 3));
    // The next offset is the previous word's measured right edge, same top.
    assert_eq!(placed[1].get_min(), PixelPoint::new(47, 3));
    // The line's own maximum corner bounds the accumulated text.
    assert_eq!(line.get_max(), PixelPoint::new(87, 43));
    // Average glyph height of the words: (40 + 40) / 2.
    assert_eq!(line.get_scale(), Scale { x: 40, y: 40 });
    // X offsets never decrease across the line.
    assert!(placed[0].get_min().get_x() <= placed[1].get_min().get_x());
    // Confidence and text carry over; nothing starts highlighted.
    assert_eq!(placed[0].get_confidence(), 92);
    assert!(!placed[0].is_highlighted());
}

#[test]
fn punctuation_does_not_count_toward_the_scale() {
    // The comma counts toward neither the sum nor the divisor: the scale is
    // the average glyph height of the non-punctuation words, (40 + 44) / 2.
    let words = vec![
        glyph("a", 0, 0, 10, 40, 90),
        glyph(",", 10, 0, 12, 40, 90),
        glyph("b", 12, 0, 22, 44, 90),
    ];
    let ms = vec![Measurement::new(10, 40), Measurement::new(2, 40), Measurement::new(10, 44)];
    let line = PresentableLine::from_hocr(&words, &ms);
    assert_eq!(line.get_scale(), Scale { x: 42, y: 42 });
}

#[test]
fn a_line_of_punctuation_alone_gets_scale_zero() {
    // No glyph height to average: the scale falls back to zero.
    let words = vec![glyph(",", 0, 0, 2, 40, 90), glyph(".", 2, 0, 4, 40, 90)];
    let ms = vec![Measurement::new(2, 40), Measurement::new(2, 40)];
    let line = PresentableLine::from_hocr(&words, &ms);
    assert_eq!(line.get_scale(), Scale { x: 0, y: 0 });
}

#[test]
fn hit_test_uses_scale_and_character_count() {
    let w = PresentableWord::new("\u{4e2d}\u{6587}".to_string(), PixelPoint::new(0, 0), 92);
    let scale = Scale { x: 40, y: 40 };
    // One pixel inside the minimum corner: inside.
    assert!(w.is_within_bounds(&PixelPoint::new(1, 1), scale));
    // The derived maximum corner itself: still inside (bounds are inclusive).
    assert!(w.is_within_bounds(&PixelPoint::new(80, 40), scale));
    // One pixel past the derived maximum corner: outside.
    assert!(!w.is_within_bounds(&PixelPoint::new(81, 40), scale));
    assert!(!w.is_within_bounds(&PixelPoint::new(80, 41), scale));
    // The minimum corner itself is excluded (strict on the near edges).
    assert!(!w.is_within_bounds(&PixelPoint::new(0, 1), scale));
    assert!(!w.is_within_bounds(&PixelPoint::new(1, 0), scale));
}

#[test]
fn set_highlighted_reports_changes_only() {
    let mut w = PresentableWord::new("a".to_string(), PixelPoint::new(0, 0), 90);
    assert!(!w.is_highlighted());
    assert!(w.set_highlighted(true));
    assert!(w.is_highlighted());
    assert!(!w.set_highlighted(true));
    assert!(w.set_highlighted(false));
    assert!(!w.is_highlighted());
}

#[test]
fn emphasis_prefers_highlight_then_warns_on_low_confidence() {
    let mut confident = PresentableWord::new("a".to_string(), PixelPoint::new(0, 0), 90);
    assert_eq!(confident.emphasis(), WordEmphasis::Normal);
    confident.set_highlighted(true);
    assert_eq!(confident.emphasis(), WordEmphasis::Highlighted);
    let shaky = PresentableWord::new("b".to_string(), PixelPoint::new(0, 0), 89);
    assert_eq!(shaky.emphasis(), WordEmphasis::LowConfidence);
}

#[test]
fn cursor_moves_report_highlight_changes() {
    let words = vec![
        glyph("\u{4e2d}", 0, 0, 40, 40, 92),
        glyph("\u{6587}", 40, 0, 80, 40, 95),
    ];
    let ms = vec![Measurement::new(40, 40), Measurement::new(40, 40)];
    let mut line = PresentableLine::from_hocr(&words, &ms);
    // Entering the first word changes state...
    assert!(line.handle_cursor(&PixelPoint::new(5, 5)));
    assert!(line.get_words()[0].is_highlighted());
    assert!(!line.get_words()[1].is_highlighted());
    // ...repeating the same position changes nothing (cheap no-op).
    assert!(!line.handle_cursor(&PixelPoint::new(5, 5)));
    // Moving to the second word changes both.
    assert!(line.handle_cursor(&PixelPoint::new(45, 5)));
    assert!(!line.get_words()[0].is_highlighted());
    assert!(line.get_words()[1].is_highlighted());
    // Leaving every word clears the highlight.
    assert!(line.handle_cursor(&PixelPoint::new(200, 200)));
    assert!(!line.get_words()[1].is_highlighted());
}
