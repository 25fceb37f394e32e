//! Pattern table and skeleton matching tests.

use qalam::morph_ir::{PatternId, Pos};
use qalam::patterns::PatternTable;

fn root_of(s: &str) -> Vec<char> {
    let table = PatternTable::builtin();
    let m = table.match_skeleton(s);
    m.as_slice()
        .first()
        .map(|m| m.root.radicals.as_slice().to_vec())
        .unwrap_or_default()
}

#[test]
fn table_parses_without_panic() {
    let t = PatternTable::builtin();
    assert_eq!(t.patterns().len(), 16);
}

#[test]
fn active_participle_root() {
    assert_eq!(root_of("كاتب"), vec!['ك', 'ت', 'ب']);
}

#[test]
fn passive_participle_root() {
    assert_eq!(root_of("مكتوب"), vec!['ك', 'ت', 'ب']);
}

#[test]
fn verbal_noun_root() {
    assert_eq!(root_of("كتاب"), vec!['ك', 'ت', 'ب']);
}

#[test]
fn place_noun_fem_root() {
    assert_eq!(root_of("مدرسة"), vec!['د', 'ر', 'س']);
}

#[test]
fn form_viii_root() {
    assert_eq!(root_of("اكتساب"), vec!['ك', 'س', 'ب']);
}

#[test]
fn hollow_root_enumerates_waw_and_ya() {
    let table = PatternTable::builtin();
    let m = table.match_skeleton("قال");
    let roots: Vec<Vec<char>> = m
        .as_slice()
        .iter()
        .map(|m| m.root.radicals.as_slice().to_vec())
        .collect();
    assert!(roots.contains(&vec!['ق', 'و', 'ل']), "should yield ق-و-ل");
    assert!(
        roots.contains(&vec!['ق', 'ي', 'ل']),
        "should also enumerate ق-ي-ل"
    );
    assert!(
        m.as_slice()
            .iter()
            .all(|m| !m.root.radicals.as_slice().contains(&'ا')),
        "must never claim ا as a radical"
    );
}

#[test]
fn defective_roots_recover_final_weak() {
    assert_eq!(root_of("دعا"), vec!['د', 'ع', 'و']);
    assert_eq!(root_of("رمى"), vec!['ر', 'م', 'ي']);
}

#[test]
fn mithal_root_recovers_initial_waw() {
    assert_eq!(root_of("وصل"), vec!['و', 'ص', 'ل']);
}

#[test]
fn one_stem_can_match_multiple_patterns() {
    let table = PatternTable::builtin();
    let m = table.match_skeleton("كتب");
    assert!(m
        .as_slice()
        .iter()
        .any(|m| m.root.radicals.as_slice() == ['ك', 'ت', 'ب']));
}

// --- Further cases ---------------------------------------------------------

#[test]
fn matches_rank_by_prior_then_pattern_id() {
    // مكتب matches مفعل (7, 0.50); كتب matches فعل (1, 0.40) and the
    // mithal/defective shapes do not apply.
    let table = PatternTable::builtin();
    let m = table.match_skeleton("مكتب");
    let ids: Vec<u32> = m.as_slice().iter().map(|m| m.pattern.0).collect();
    assert_eq!(ids, vec![7]);
    assert_eq!(m.as_slice()[0].confidence.millionths(), 500_000);
    let m = table.match_skeleton("وصل");
    let got: Vec<(u32, u32)> = m
        .as_slice()
        .iter()
        .map(|m| (m.confidence.millionths(), m.pattern.0))
        .collect();
    assert_eq!(got, vec![(450_000, 23)]);
}

#[test]
fn hollow_match_yields_waw_before_ya() {
    let table = PatternTable::builtin();
    let m = table.match_skeleton("قال");
    let roots: Vec<Vec<char>> = m
        .as_slice()
        .iter()
        .map(|m| m.root.radicals.as_slice().to_vec())
        .collect();
    assert_eq!(roots, vec![vec!['ق', 'و', 'ل'], vec!['ق', 'ي', 'ل']]);
    assert!(m.as_slice().iter().all(|m| m.pattern == PatternId(20)));
}

#[test]
fn strong_slot_rejects_weak_letters() {
    let table = PatternTable::builtin();
    // فعل cannot take ا as its middle radical; only the hollow pattern applies.
    let m = table.match_skeleton("باع");
    assert!(m.as_slice().iter().all(|m| m.pattern.0 == 20));
    assert!(table.match_skeleton("abcdef").is_empty());
    assert!(table.match_skeleton("").is_empty());
}

#[test]
fn pos_of_looks_up_pattern_pos() {
    let table = PatternTable::builtin();
    assert_eq!(table.pos_of(PatternId(2)), Some(Pos::Noun));
    assert_eq!(table.pos_of(PatternId(6)), Some(Pos::Adj));
    assert_eq!(table.pos_of(PatternId(20)), Some(Pos::Verb));
    assert_eq!(table.pos_of(PatternId(99)), None);
}
