//! Root extraction tests.

use qalam::patterns::PatternTable;
use qalam::roots::{analyze_stem, best_root};

#[test]
fn extracts_root_through_normalization_and_tashkil() {
    let table = PatternTable::builtin();
    let root = best_root("كَاتِب", &table).expect("should match فاعل");
    assert_eq!(root.radicals.as_slice(), ['ك', 'ت', 'ب']);
}

#[test]
fn unknown_shape_yields_empty() {
    let table = PatternTable::builtin();
    assert!(analyze_stem("abcdef", &table).is_empty());
}

#[test]
fn roots_deterministic() {
    let table = PatternTable::builtin();
    assert_eq!(analyze_stem("مكتوب", &table), analyze_stem("مكتوب", &table));
}

// --- Further cases ---------------------------------------------------------

#[test]
fn alef_variants_and_tatweel_are_folded_before_matching() {
    let table = PatternTable::builtin();
    // أكتساب folds to اكتساب (Form VIII) and the tatweel is dropped.
    let root = best_root("أكتســاب", &table).expect("Form VIII match");
    assert_eq!(root.radicals.as_slice(), ['ك', 'س', 'ب']);
}

#[test]
fn hollow_stem_yields_its_waw_reading_first() {
    let table = PatternTable::builtin();
    let root = best_root("قال", &table).expect("hollow match");
    assert_eq!(root.radicals.as_slice(), ['ق', 'و', 'ل']);
}

#[test]
fn no_candidate_gives_no_best_root() {
    let table = PatternTable::builtin();
    assert!(best_root("xy", &table).is_none());
}
