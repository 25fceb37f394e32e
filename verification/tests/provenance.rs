//! Content hash and provenance tests.

use qalam::provenance::{ContentHash, Provenance};

#[test]
fn content_hash_is_deterministic() {
    let a = ContentHash::of(b"hello");
    let b = ContentHash::of(b"hello");
    assert_eq!(a, b);
}

#[test]
fn content_hash_differs_on_different_input() {
    let a = ContentHash::of(b"hello");
    let b = ContentHash::of(b"world");
    assert_ne!(a, b);
}

#[test]
fn content_hash_hex_length() {
    let h = ContentHash::of(b"anything");
    assert_eq!(h.as_str().len(), 64);
}

// --- Further cases ---------------------------------------------------------

#[test]
fn content_hash_is_blake3_hex() {
    // BLAKE3 of the empty input.
    assert_eq!(
        ContentHash::of(b"").as_str(),
        "af1349b9f5f9a1a6a0404dea36dcc9499bcb25c9adc112b7cc9a93cae41f3262"
    );
    assert!(ContentHash::of(b"x")
        .as_str()
        .chars()
        .all(|c| c.is_ascii_digit() || ('a'..='f').contains(&c)));
}

#[test]
fn short_form_is_twelve_hex_digits_and_dots() {
    let h = ContentHash::of(b"");
    assert_eq!(h.short_form(), "af1349b9f5f9...");
    assert_eq!(ContentHash("abc".to_string()).short_form(), "abc...");
}

#[test]
fn new_provenance_is_empty() {
    let h = ContentHash::of(b"lexicon");
    let p = Provenance::new(h.clone());
    assert_eq!(p.lexicon_hash, h);
    assert!(p.rules.is_empty());
    assert!(p.lex_entries.is_empty());
    assert!(p.decisions.is_none());
}

#[test]
fn duplicate_keeps_the_digest() {
    let h = ContentHash::of(b"abc");
    assert_eq!(h.duplicate(), h);
}
