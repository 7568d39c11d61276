use ocr_overlay::geometry::{PixelArea, PixelPoint};
use ocr_overlay::words::HocrWord;

#[test]
fn component_min_and_max_work_per_axis() {
    let a = PixelPoint::new(10, 5);
    let b = PixelPoint::new(3, 8);
    assert_eq!(a.component_min(b), PixelPoint::new(3, 5));
    assert_eq!(a.component_max(b), PixelPoint::new(10, 8));
}

#[test]
fn difference_is_component_wise() {
    let a = PixelPoint::new(10, 5);
    let b = PixelPoint::new(3, 8);
    assert_eq!(a.difference(b), PixelPoint::new(7, -3));
}

#[test]
fn area_width_and_height_come_from_the_corners() {
    let area = PixelArea::new(PixelPoint::new(2, 3), PixelPoint::new(12, 23));
    assert_eq!(area.width(), 10);
    assert_eq!(area.height(), 20);
}

#[test]
fn merging_two_words_unions_their_boxes() {
    let a = HocrWord::new("\u{4e2d}".to_string(), PixelPoint::new(0, 0), PixelPoint::new(40, 40), 92);
    let b = HocrWord::new("\u{6587}".to_string(), PixelPoint::new(40, 0), PixelPoint::new(80, 40), 95);
    let m = a.merged_with(&b);
    assert_eq!(m.get_text().as_str(), "\u{4e2d}\u{6587}");
    assert_eq!(m.get_min(), PixelPoint::new(0, 0));
    assert_eq!(m.max, PixelPoint::new(80, 40));
    assert_eq!(m.confidence, 92);
}

#[test]
fn word_scale_is_the_reported_height() {
    let a = HocrWord::new("x".to_string(), PixelPoint::new(0, 5), PixelPoint::new(10, 45), 90);
    assert_eq!(a.get_scale(), 40);
}
