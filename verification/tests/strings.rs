//! Tests for the metadata text helpers.

use epubgraph::text::{book_to_embedding_text, generate_author_sort, generate_sort_title};
use epubgraph::watcher::is_epub_file;
use epubgraph::worker::md5_hash;

#[test]
fn test_sort_title() {
    assert_eq!(generate_sort_title("The Great Gatsby"), "Great Gatsby");
    assert_eq!(generate_sort_title("A Tale of Two Cities"), "Tale of Two Cities");
    assert_eq!(generate_sort_title("1984"), "1984");
}

#[test]
fn test_author_sort() {
    assert_eq!(generate_author_sort("John Smith"), "Smith, John");
    assert_eq!(generate_author_sort("J.R.R. Tolkien"), "Tolkien, J.R.R.");
    assert_eq!(generate_author_sort("Plato"), "Plato");
}

#[test]
fn test_author_sort_multiple_authors() {
    assert_eq!(generate_author_sort("John Smith, Jane Doe"), "Smith, John");
    assert_eq!(generate_author_sort("  Ada Lovelace  "), "Lovelace, Ada");
}

#[test]
fn test_sort_title_case_insensitive() {
    assert_eq!(generate_sort_title("THE Trial"), "Trial");
    assert_eq!(generate_sort_title("la Peste"), "Peste");
    assert_eq!(generate_sort_title("Theodore"), "Theodore");
}

#[test]
fn test_embedding_text_generation() {
    let text = book_to_embedding_text(
        "The Great Gatsby",
        Some("F. Scott Fitzgerald"),
        Some("A story about the American Dream"),
        None,
    );

    assert!(text.contains("The Great Gatsby"));
    assert!(text.contains("F. Scott Fitzgerald"));
    assert!(text.contains("American Dream"));
}

#[test]
fn test_embedding_text_exact_layout() {
    let text = book_to_embedding_text("T", Some("A"), None, Some("S"));
    assert_eq!(text, "Title: T\nAuthor: A\nSeries: S");
    let bare = book_to_embedding_text("T", None, None, None);
    assert_eq!(bare, "Title: T");
}

#[test]
fn test_embedding_text_truncates_long_description() {
    let long: String = "x".repeat(2000);
    let text = book_to_embedding_text("T", None, Some(&long), None);
    assert!(text.ends_with("..."));
    assert_eq!(text, format!("Title: T\nDescription: {}...", "x".repeat(1000)));
}

#[test]
fn test_is_epub_file() {
    assert!(is_epub_file("book.epub"));
    assert!(is_epub_file("Book.EPUB"));
    assert!(!is_epub_file("book.pdf"));
    assert!(!is_epub_file("book"));
}

#[test]
fn test_md5_hash() {
    let hash1 = md5_hash("hello world");
    let hash2 = md5_hash("hello world");
    let hash3 = md5_hash("different text");

    assert_eq!(hash1, hash2);
    assert_ne!(hash1, hash3);
}
