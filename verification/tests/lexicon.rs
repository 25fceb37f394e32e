//! Bootstrap lexicon tests.

use qalam::lexicon::{builtin_lexicon_file, BootstrapLexicon, Lexicon, LEXICON_TOML};
use qalam::morph_ir::{Radicals, Root};
use qalam::provenance::{ContentHash, LexEntryId};

fn root(s: &str) -> Root {
    let cs: Vec<char> = s.chars().collect();
    Root::from_chars(&cs)
}

#[test]
fn known_roots_are_found() {
    let lex = BootstrapLexicon::load();
    assert!(lex.root_id(&root("كتب")).is_some());
    assert!(lex.root_id(&root("سلم")).is_some());
    assert!(lex.root_id(&root("درس")).is_some());
}

#[test]
fn unknown_root_is_not_found() {
    let lex = BootstrapLexicon::load();
    assert!(lex.root_id(&root("خزق")).is_none());
}

#[test]
fn weak_roots_are_present() {
    let lex = BootstrapLexicon::load();
    assert!(lex.root_id(&root("قول")).is_some());
    assert!(lex.root_id(&root("رمي")).is_some());
    assert!(lex.root_id(&root("وصل")).is_some());
    assert!(lex.root_id(&root("قيل")).is_none());
}

#[test]
fn irregular_forms_resolve_to_roots() {
    let lex = BootstrapLexicon::load();
    let (_, r) = lex.irregular("قِ").expect("قِ should be an irregular");
    assert_eq!(r.radicals.as_slice(), ['و', 'ق', 'ي']);
    let (_, r2) = lex.irregular("قل").expect("قل should be an irregular");
    assert_eq!(r2.radicals.as_slice(), ['ق', 'و', 'ل']);
    assert!(lex.irregular("كتاب").is_none());
}

#[test]
fn particles_are_found_in_normalized_form() {
    let lex = BootstrapLexicon::load();
    assert!(lex.particle_id("في").is_some());
    assert!(lex.particle_id("الى").is_some());
    assert!(lex.particle_id("كتاب").is_none());
}

#[test]
fn hash_is_stable_and_blake3_of_file() {
    let lex = BootstrapLexicon::load();
    assert_eq!(lex.hash(), ContentHash::of(LEXICON_TOML.as_bytes()));
    assert_eq!(lex.hash().as_str().len(), 64);
}

#[test]
fn root_radicals_smallvec_lookup() {
    let lex = BootstrapLexicon::load();
    let r = Root {
        radicals: Radicals::from_vec(vec!['ك', 'ت', 'ب']),
    };
    assert!(lex.root_id(&r).is_some());
}

// --- Further cases ---------------------------------------------------------

#[test]
fn entry_ids_follow_file_order_in_disjoint_ranges() {
    let lex = BootstrapLexicon::load();
    assert_eq!(lex.root_id(&root("كتب")), Some(LexEntryId(1)));
    assert_eq!(lex.root_id(&root("سلم")), Some(LexEntryId(2)));
    assert_eq!(lex.particle_id("في"), Some(LexEntryId(1_000_000)));
    assert_eq!(lex.particle_id("من"), Some(LexEntryId(1_000_001)));
    // Irregular forms are numbered in ascending order of surface.
    assert_eq!(lex.irregular("خذ").map(|e| e.0), Some(LexEntryId(2_000_000)));
    assert_eq!(lex.irregular("قِ").map(|e| e.0), Some(LexEntryId(2_000_004)));
}

#[test]
fn particle_lookup_needs_the_normalized_spelling() {
    let lex = BootstrapLexicon::load();
    assert!(lex.particle_id("إلى").is_none());
    assert!(lex.irregular("ق").is_none());
}

#[test]
fn builtin_lexicon_file_matches_published_toml() {
    let doc: toml::Value = toml::from_str(LEXICON_TOML).expect("lexicon parses");
    let strings = |key: &str| -> Vec<String> {
        doc.get(key)
            .and_then(|v| v.as_array())
            .expect("array")
            .iter()
            .map(|s| s.as_str().unwrap().to_string())
            .collect()
    };
    let file = builtin_lexicon_file();
    assert_eq!(file.roots, strings("roots"));
    assert_eq!(file.particles, strings("particles"));
    let table = doc.get("irregulars").and_then(|v| v.as_table()).expect("table");
    let mut irregulars: Vec<(String, String)> = table
        .iter()
        .map(|(k, v)| (k.clone(), v.as_str().unwrap().to_string()))
        .collect();
    irregulars.sort();
    assert_eq!(file.irregulars, irregulars);
    // The loaded lexicon numbers exactly the parsed entries and hashes the text.
    let lex = BootstrapLexicon::load();
    for (i, r) in strings("roots").iter().enumerate() {
        assert_eq!(lex.root_id(&root(r)), Some(LexEntryId(i as u32 + 1)));
    }
    for (i, p) in strings("particles").iter().enumerate() {
        assert_eq!(lex.particle_id(p), Some(LexEntryId(1_000_000 + i as u32)));
    }
    for (i, (k, v)) in irregulars.iter().enumerate() {
        let (id, r) = lex.irregular(k).expect("irregular form");
        assert_eq!(id, LexEntryId(2_000_000 + i as u32));
        assert_eq!(r.radicals.as_slice(), v.chars().collect::<Vec<char>>().as_slice());
    }
    assert_eq!(lex.hash(), ContentHash::of(LEXICON_TOML.as_bytes()));
    assert_eq!(file.roots.len(), 99);
    assert_eq!(file.particles.len(), 37);
    assert_eq!(file.irregulars.len(), 5);
}

#[test]
fn default_is_the_embedded_lexicon() {
    let a = BootstrapLexicon::default();
    let b = BootstrapLexicon::load();
    assert_eq!(a.hash(), b.hash());
    assert_eq!(a.root_id(&root("ضحك")), b.root_id(&root("ضحك")));
}
