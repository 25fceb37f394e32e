//! Normalization, diacritic stripping and fold-table tests.

use qalam::provenance::ContentHash;
use qalam::unicode::{
    builtin_fold_file, fold_table, fold_table_hash, normalize, strip_tashkil, FoldEntry, FoldFile,
    FoldTable, FoldTableError, FOLDS_TOML,
};

#[test]
fn folds_alef_with_hamza_above() {
    assert_eq!(normalize("أحمد"), "احمد");
}

#[test]
fn folds_alef_with_hamza_below() {
    assert_eq!(normalize("إسلام"), "اسلام");
}

#[test]
fn folds_alef_with_madda() {
    assert_eq!(normalize("آدم"), "ادم");
}

#[test]
fn folds_alef_wasla() {
    assert_eq!(normalize("\u{0671}بن"), "ابن");
}

#[test]
fn strips_tatweel() {
    assert_eq!(normalize("كــــتاب"), "كتاب");
}

#[test]
fn preserves_teh_marbuta() {
    let s = "مدرسة";
    assert_eq!(normalize(s), s);
}

#[test]
fn preserves_alef_maqsura_distinct_from_yeh() {
    assert_ne!(normalize("ى"), normalize("ي"));
    assert_eq!(normalize("ى"), "ى");
}

#[test]
fn preserves_hamza_carrier_letters() {
    for s in ["ء", "ؤ", "ئ", "بئر", "مؤمن"] {
        assert_eq!(
            normalize(s),
            s,
            "expected hamza-bearing letter preserved in {:?}",
            s
        );
    }
}

#[test]
fn preserves_diacritics() {
    let s = "كَتَبَ";
    assert_eq!(normalize(s), s);
}

#[test]
fn preserves_non_arabic() {
    assert_eq!(normalize("Hello 123 world."), "Hello 123 world.");
}

#[test]
fn strip_tashkil_removes_diacritics_only() {
    assert_eq!(strip_tashkil("كَتَبَ"), "كتب");
    assert_eq!(strip_tashkil("كتاب"), "كتاب");
    assert_eq!(strip_tashkil("كــتاب"), "كتاب");
}

#[test]
fn empty_input() {
    assert_eq!(normalize(""), "");
}

#[test]
fn idempotent_on_curated_examples() {
    for s in [
        "",
        "كتاب",
        "أهلاً وسهلاً",
        "Hello",
        "ـ",
        "ـــــــ",
        "123 السلام",
        "أحمد إسلام آدم",
        "كــــتاب",
    ] {
        let once = normalize(s);
        let twice = normalize(&once);
        assert_eq!(
            once, twice,
            "not idempotent on {:?}: once={:?} twice={:?}",
            s, once, twice
        );
    }
}

#[test]
fn fold_table_hash_is_deterministic_across_calls() {
    assert_eq!(fold_table_hash(), fold_table_hash());
}

#[test]
fn fold_table_hash_matches_raw_blake3_of_file_bytes() {
    let expected = ContentHash::of(FOLDS_TOML.as_bytes());
    assert_eq!(fold_table_hash(), expected);
}

#[test]
fn fold_table_hash_has_expected_length() {
    assert_eq!(fold_table_hash().as_str().len(), 64);
}

// --- Further cases ---------------------------------------------------------

#[test]
fn builtin_fold_file_matches_published_toml() {
    let doc: toml::Value = toml::from_str(FOLDS_TOML).expect("fold table parses");
    let map = doc.get("map").and_then(|m| m.as_array()).expect("map array");
    let strip = doc.get("strip").and_then(|s| s.as_array()).expect("strip array");
    let parsed = FoldFile {
        map: map
            .iter()
            .map(|e| FoldEntry {
                from: e.get("from").and_then(|v| v.as_str()).unwrap().to_string(),
                to: e.get("to").and_then(|v| v.as_str()).unwrap().to_string(),
            })
            .collect(),
        strip: strip
            .iter()
            .map(|s| s.as_str().unwrap().to_string())
            .collect(),
    };
    assert_eq!(parsed, builtin_fold_file());
    // The table built from the parsed text is the one normalization uses.
    assert_eq!(FoldTable::from_file(&parsed), Ok(fold_table()));
    // And the hash covers exactly that text.
    assert_eq!(fold_table_hash(), ContentHash::of(FOLDS_TOML.as_bytes()));
}

#[test]
fn builtin_fold_table_is_valid() {
    let t = FoldTable::from_file(&builtin_fold_file()).expect("builtin table is valid");
    let chars: Vec<char> = "أإآ\u{0671}ـب".chars().collect();
    assert_eq!(t.fold(&chars), "ااااب");
    let _ = fold_table();
}

fn entry(from: &str, to: &str) -> FoldEntry {
    FoldEntry {
        from: from.to_string(),
        to: to.to_string(),
    }
}

#[test]
fn fold_file_with_long_source_is_refused() {
    let f = FoldFile {
        map: vec![entry("أأ", "ا")],
        strip: vec![],
    };
    assert_eq!(
        FoldTable::from_file(&f),
        Err(FoldTableError::SourceNotOneChar(0))
    );
}

#[test]
fn fold_file_with_empty_target_is_refused() {
    let f = FoldFile {
        map: vec![entry("أ", "ا"), entry("إ", "")],
        strip: vec![],
    };
    assert_eq!(
        FoldTable::from_file(&f),
        Err(FoldTableError::TargetNotOneChar(1))
    );
}

#[test]
fn fold_file_with_duplicate_source_is_refused() {
    let f = FoldFile {
        map: vec![entry("أ", "ا"), entry("أ", "ب")],
        strip: vec![],
    };
    assert_eq!(
        FoldTable::from_file(&f),
        Err(FoldTableError::DuplicateSource(1))
    );
}

#[test]
fn fold_file_with_long_strip_entry_is_refused() {
    let f = FoldFile {
        map: vec![entry("أ", "ا")],
        strip: vec!["ـ".to_string(), "ــ".to_string()],
    };
    assert_eq!(
        FoldTable::from_file(&f),
        Err(FoldTableError::StripNotOneChar(1))
    );
}

#[test]
fn fold_file_with_chained_fold_is_refused() {
    let f = FoldFile {
        map: vec![entry("أ", "ا"), entry("ا", "ب")],
        strip: vec![],
    };
    assert_eq!(
        FoldTable::from_file(&f),
        Err(FoldTableError::TargetIsSource(0))
    );
}

#[test]
fn fold_file_with_stripped_target_is_refused() {
    let f = FoldFile {
        map: vec![entry("أ", "ا")],
        strip: vec!["ا".to_string()],
    };
    assert_eq!(
        FoldTable::from_file(&f),
        Err(FoldTableError::TargetIsStripped(0))
    );
}

#[test]
fn normalize_is_idempotent_when_settled() {
    // Law: once a further pass changes nothing, normalizing again changes nothing.
    let once = normalize("الكِتَابُ أَحْمَد وإِسْلام");
    assert_eq!(normalize(&once), once);
}

#[test]
fn normalize_repeats_passes_when_folding_exposes_a_composition() {
    // Alef, then two combining hamza-above marks: NFC composes the first into
    // أ, the fold turns that into bare alef, and a second pass composes and
    // folds the remaining mark, so normalization ends at bare alef.
    let s = "\u{0627}\u{0654}\u{0654}";
    let once = normalize(s);
    assert_eq!(once, "\u{0627}");
    assert_eq!(normalize(&once), once);
}

#[test]
fn normalize_settles_three_stacked_marks() {
    let s = "\u{0623}\u{0654}\u{0654}";
    let once = normalize(s);
    assert_eq!(once, "\u{0627}");
    assert_eq!(normalize(&once), once);
}

#[test]
fn strip_tashkil_is_idempotent() {
    let once = strip_tashkil("كَتَبَ الكِتَابَ ـ مُعَلِّمٌ");
    assert_eq!(strip_tashkil(&once), once);
}

#[test]
fn normalize_output_has_no_folded_characters() {
    let out = normalize("أإآ\u{0671}ـــ كتاب");
    for ch in ['\u{0623}', '\u{0625}', '\u{0622}', '\u{0671}', '\u{0640}'] {
        assert!(!out.contains(ch));
    }
    assert_eq!(out, "اااا كتاب");
}
