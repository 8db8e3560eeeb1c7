//! Tests for the mini pattern matcher, the scanner rules and the importer
//! probe.

use epubgraph::calibre::CalibreImporter;
use epubgraph::regex_lite::Regex;
use epubgraph::scanner::{is_hidden, Scanner};
use epubgraph::watcher::{classify_event, EventCategory, WatcherEvent};

const SERIES_PATTERN: &str = "\\(([^,]+),\\s*#?(\\d+(?:\\.\\d+)?)\\)";

#[test]
fn test_is_calibre_library() {
    assert!(!CalibreImporter::is_calibre_library("/tmp/not_a_library"));
}

#[test]
fn test_series_pattern_captures() {
    let re = Regex::new(SERIES_PATTERN).unwrap();
    let caps = re.captures("Dune (Dune Saga, #1)").unwrap();
    let series = caps.get(1).unwrap();
    assert_eq!(series.as_str(), "Dune Saga");
    let index = caps.get(2).unwrap();
    assert_eq!(index.as_str(), "#1");
    assert!(caps.get(3).is_none());
}

#[test]
fn test_series_pattern_rejects_non_matches() {
    let re = Regex::new(SERIES_PATTERN).unwrap();
    // no parenthesised group
    assert!(re.captures("Plain Title").is_none());
    // no comma inside the parentheses
    assert!(re.captures("Title (Standalone)").is_none());
    // the number part is not a number
    assert!(re.captures("Title (Series, #one)").is_none());
    // a different pattern never matches
    let other = Regex::new("^(.+?)").unwrap();
    assert!(other.captures("Title (Series, #1)").is_none());
}

#[test]
fn test_series_pattern_decimal_index() {
    let re = Regex::new(SERIES_PATTERN).unwrap();
    let caps = re.captures("Title (Saga, 2.5)").unwrap();
    assert_eq!(caps.get(2).unwrap().as_str(), "2.5");
}

#[test]
fn test_series_pattern_float_forms() {
    let re = Regex::new(SERIES_PATTERN).unwrap();
    // everything the standard float parser takes is a valid index
    assert!(re.captures("Title (Saga, 1e5)").is_some());
    assert!(re.captures("Title (Saga, +2)").is_some());
    assert!(re.captures("Title (Saga, 1.5e-3)").is_some());
    assert!(re.captures("Title (Saga, inf)").is_some());
    // but not arbitrary words
    assert!(re.captures("Title (Saga, 1.2.3)").is_none());
    assert!(re.captures("Title (Saga, e5)").is_none());
}

#[test]
fn test_scanner_book_paths() {
    let scanner = Scanner::new();
    assert!(scanner.is_book_path("/library/book.epub"));
    assert!(scanner.is_book_path("/library/Book.EPUB"));
    assert!(!scanner.is_book_path("/library/book.pdf"));
    assert!(!scanner.is_book_path("/library/book"));
    // a dotted directory does not make an extension
    assert!(!scanner.is_book_path("/library.epub/book"));
}

#[test]
fn test_scanner_hidden_names() {
    assert!(is_hidden(".hidden"));
    assert!(!is_hidden("visible.epub"));
    assert!(!is_hidden(""));
}

#[test]
fn test_scanner_find_cover_missing() {
    let scanner = Scanner::new();
    let dir = tempfile::tempdir().unwrap();
    let path = dir.path().join("book.epub").to_string_lossy().to_string();
    assert!(scanner.find_cover(&path).is_none());
}

#[test]
fn test_classify_event_filters_paths() {
    let paths = vec![
        "a.epub".to_string(),
        "notes.txt".to_string(),
        "b.EPUB".to_string(),
    ];
    match classify_event(EventCategory::Created, paths) {
        Some(WatcherEvent::FileCreated(kept)) => {
            assert_eq!(kept, vec!["a.epub".to_string(), "b.EPUB".to_string()]);
        },
        _ => panic!("expected a created event"),
    }
    // nothing relevant: no event
    assert!(classify_event(EventCategory::Created, vec!["x.txt".to_string()]).is_none());
    // untracked category: no event
    assert!(classify_event(EventCategory::Other, vec!["x.epub".to_string()]).is_none());
}
