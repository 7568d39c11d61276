use ocr_overlay::geometry::PixelPoint;
use ocr_overlay::languages::SupportedLanguages;
use ocr_overlay::layout::PresentableWord;
use ocr_overlay::translation::{format_entry, format_entries, query_translations, TranslationEntry};

#[test]
fn formats_one_entry_exactly() {
    let e = TranslationEntry {
        traditional: "\u{4e2d}\u{6587}".to_string(),
        pinyin_marks: "zh\u{14d}ng w\u{e9}n".to_string(),
        english: vec!["Chinese language".to_string(), "Chinese".to_string()],
    };
    let s = format_entry(&e);
    assert_eq!(
        s,
        "\u{4e2d}\u{6587}(zh\u{14d}ng w\u{e9}n): \tChinese language\n          Chinese\n"
    );
}

#[test]
fn formats_an_entry_with_no_glosses() {
    let e = TranslationEntry {
        traditional: "x".to_string(),
        pinyin_marks: "p".to_string(),
        english: Vec::new(),
    };
    assert_eq!(format_entry(&e), "x(p): \t\n");
}

#[test]
fn formats_every_entry_in_order() {
    let a = TranslationEntry {
        traditional: "a".to_string(),
        pinyin_marks: "p1".to_string(),
        english: vec!["one".to_string()],
    };
    let b = TranslationEntry {
        traditional: "b".to_string(),
        pinyin_marks: "p2".to_string(),
        english: vec!["two".to_string()],
    };
    let out = format_entries(&vec![a, b]);
    assert_eq!(out.len(), 2);
    assert_eq!(out[0], "a(p1): \tone\n");
    assert_eq!(out[1], "b(p2): \ttwo\n");
}

#[test]
fn dictionary_lookup_returns_entries_for_a_common_word() {
    let entries = query_translations("\u{4e2d}\u{6587}");
    assert!(!entries.is_empty());
    assert_eq!(entries[0].traditional, "\u{4e2d}\u{6587}");
    assert!(!entries[0].english.is_empty());
}

#[test]
fn a_clicked_word_gets_its_popup_paragraphs() {
    let w = PresentableWord::new("\u{4e2d}\u{6587}".to_string(), PixelPoint::new(0, 0), 92);
    let sections = w.generate_translation_section();
    assert!(!sections.is_empty());
    assert!(sections[0].starts_with("\u{4e2d}\u{6587}("));
    assert!(sections[0].contains("): \t"));
    assert!(sections[0].ends_with("\n"));
}

#[test]
fn language_codes_match_the_engine_tags() {
    assert_eq!(SupportedLanguages::ChiTra.language_code(), "chi_tra");
    assert_eq!(SupportedLanguages::ChiSim.language_code(), "chi_sim");
}
