//! Word-frequency tests.

use qalam::freq::word_frequencies;
use qalam::morph_ir::ByteSpan;
use qalam::tokenize::tokenize;

#[test]
fn empty_input_yields_no_entries() {
    assert!(word_frequencies(&tokenize("")).is_empty());
}

#[test]
fn counts_repeated_word() {
    let entries = word_frequencies(&tokenize("كتاب كتاب كتاب"));
    assert_eq!(entries.len(), 1);
    assert_eq!(entries[0].count, 3);
    assert_eq!(entries[0].normalized, "كتاب");
}

#[test]
fn collapses_normalization_variants() {
    let entries = word_frequencies(&tokenize("أحمد احمد"));
    assert_eq!(entries.len(), 1, "variants must collapse to one group");
    assert_eq!(entries[0].count, 2);
    assert_eq!(entries[0].normalized, "احمد");
    assert_eq!(
        entries[0].variants,
        vec!["أحمد".to_string(), "احمد".to_string()]
    );
}

#[test]
fn excludes_punct_digits_whitespace() {
    let entries = word_frequencies(&tokenize("كتاب، ١٢٣ كتاب"));
    assert_eq!(entries.len(), 1);
    assert_eq!(entries[0].count, 2);
}

#[test]
fn ranks_by_count_then_alpha() {
    let entries = word_frequencies(&tokenize("ا ب ب"));
    assert_eq!(entries[0].normalized, "ب");
    assert_eq!(entries[0].count, 2);
    assert_eq!(entries[1].normalized, "ا");
}

#[test]
fn deterministic_across_calls() {
    let toks = tokenize("كتاب مدرسة كتاب مكتبة مدرسة كتاب");
    assert_eq!(word_frequencies(&toks), word_frequencies(&toks));
}

// --- Further cases ---------------------------------------------------------

#[test]
fn first_span_is_the_earliest_occurrence() {
    let entries = word_frequencies(&tokenize("abc احمد أحمد احمد"));
    let e = entries.iter().find(|e| e.normalized == "احمد").unwrap();
    assert_eq!(e.count, 3);
    assert_eq!(e.first_span, ByteSpan::new(4, 12));
    assert_eq!(e.variants, vec!["أحمد".to_string(), "احمد".to_string()]);
}

#[test]
fn equal_counts_rank_by_normalized_form() {
    let entries = word_frequencies(&tokenize("ب zeta ا alpha"));
    let forms: Vec<&str> = entries.iter().map(|e| e.normalized.as_str()).collect();
    assert_eq!(forms, vec!["alpha", "zeta", "ا", "ب"]);
    assert!(entries.iter().all(|e| e.count == 1));
}

#[test]
fn latin_words_count_and_other_tokens_do_not() {
    let entries = word_frequencies(&tokenize("word word € ‰ 12"));
    assert_eq!(entries.len(), 1);
    assert_eq!(entries[0].normalized, "word");
    assert_eq!(entries[0].count, 2);
    assert_eq!(entries[0].variants, vec!["word".to_string()]);
}

#[test]
fn every_counted_word_has_exactly_one_group() {
    let toks = tokenize("كتاب قلم كتاب ورقة قلم كتاب");
    let entries = word_frequencies(&toks);
    assert_eq!(entries.len(), 3);
    let total: usize = entries.iter().map(|e| e.count).sum();
    assert_eq!(total, 6);
    assert_eq!(entries[0].normalized, "كتاب");
    assert_eq!(entries[1].normalized, "قلم");
    assert_eq!(entries[2].normalized, "ورقة");
}
