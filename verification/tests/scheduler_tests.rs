use ocr_overlay::geometry::PixelPoint;
use ocr_overlay::layout::{Measurement, PresentableLine};
use ocr_overlay::scheduler::{Geometry, Presentation, Scheduler, Worker, DEBOUNCE_MILLIS};
use ocr_overlay::words::HocrWord;

fn geo(x: i32, y: i32, w: u32, h: u32) -> Geometry {
    Geometry { x, y, width: w, height: h }
}

#[test]
fn two_rapid_triggers_dispatch_one_job_for_the_latest_geometry() {
    // Two resize events 50 ms apart with a 200 ms debounce: exactly one
    // dispatch, carrying the second event's geometry.
    assert_eq!(DEBOUNCE_MILLIS, 200);
    let mut s = Scheduler::new();
    let mut p = Presentation::new();
    let g1 = geo(0, 0, 100, 50);
    let g2 = geo(0, 0, 120, 60);
    s.schedule_ocr_job(&mut p, 0, g1);
    s.schedule_ocr_job(&mut p, 50, g2);
    // Frame ticks before the deadline dispatch nothing.
    assert_eq!(s.poll_expiry(100), None);
    assert_eq!(s.poll_expiry(249), None);
    // The first tick at or after the deadline dispatches the latest geometry.
    assert_eq!(s.poll_expiry(250), Some(g2));
    // And only once.
    assert_eq!(s.poll_expiry(260), None);
}

#[test]
fn a_trigger_invalidates_the_displayed_overlay() {
    let mut s = Scheduler::new();
    let mut p = Presentation::new();
    p.replace(Vec::new());
    assert!(p.get_lines().is_some());
    s.schedule_ocr_job(&mut p, 0, geo(0, 0, 10, 10));
    assert!(p.get_lines().is_none());
}

#[test]
fn a_new_request_supersedes_the_running_job() {
    let mut w = Worker::new();
    let a = w.on_request(geo(0, 0, 10, 10));
    let b = w.on_request(geo(0, 0, 20, 20));
    assert_ne!(a.id, b.id);
    // Job A was cancelled: its late result is discarded...
    assert!(!w.on_complete(a.id));
    // ...and job B's result is the one accepted, exactly once.
    assert!(w.on_complete(b.id));
    assert!(!w.on_complete(b.id));
}

#[test]
fn completions_with_no_running_job_are_discarded() {
    let mut w = Worker::new();
    assert!(!w.on_complete(0));
    let a = w.on_request(geo(1, 2, 3, 4));
    assert_eq!(a.geometry, geo(1, 2, 3, 4));
    assert!(w.on_complete(a.id));
    assert!(!w.on_complete(a.id));
}

fn one_line() -> PresentableLine {
    let words = vec![
        HocrWord::new("\u{4e2d}".to_string(), PixelPoint::new(0, 0), PixelPoint::new(40, 40), 92),
    ];
    let ms = vec![Measurement::new(40, 40)];
    PresentableLine::from_hocr(&words, &ms)
}

#[test]
fn presentation_swaps_collections_wholesale() {
    let mut p = Presentation::new();
    assert!(p.get_lines().is_none());
    p.replace(vec![one_line()]);
    assert_eq!(p.get_lines().as_ref().unwrap().len(), 1);
    p.clear();
    assert!(p.get_lines().is_none());
}

#[test]
fn overlapping_highlights_let_the_last_word_win() {
    // Two words whose derived extents overlap: a cursor in the overlap
    // highlights both, and the later word's popup is the one a click shows.
    let words = vec![
        HocrWord::new("\u{4e2d}".to_string(), PixelPoint::new(0, 0), PixelPoint::new(40, 40), 92),
        HocrWord::new("\u{6587}".to_string(), PixelPoint::new(10, 0), PixelPoint::new(50, 40), 95),
    ];
    let ms = vec![Measurement::new(10, 40), Measurement::new(40, 40)];
    let line = PresentableLine::from_hocr(&words, &ms);
    let mut p = Presentation::new();
    p.replace(vec![line]);
    assert!(p.handle_cursor(&PixelPoint::new(15, 5)));
    let lines = p.get_lines().as_ref().unwrap();
    assert!(lines[0].get_words()[0].is_highlighted());
    assert!(lines[0].get_words()[1].is_highlighted());
    assert_eq!(p.find_highlighted(), Some((0, 1)));
}

#[test]
fn presentation_routes_cursor_moves_to_every_line() {
    let mut p = Presentation::new();
    // No overlay: a cursor move is a no-op.
    assert!(!p.handle_cursor(&PixelPoint::new(5, 5)));
    p.replace(vec![one_line()]);
    assert!(p.handle_cursor(&PixelPoint::new(5, 5)));
    assert_eq!(p.find_highlighted(), Some((0, 0)));
    assert!(!p.handle_cursor(&PixelPoint::new(5, 5)));
    assert!(p.handle_cursor(&PixelPoint::new(500, 500)));
    assert_eq!(p.find_highlighted(), None);
}
