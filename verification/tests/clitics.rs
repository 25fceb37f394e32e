//! Clitic splitting tests.

use qalam::clitics::{split, CliticSplit};
use qalam::tokenize::tokenize;

/// Split the first token of `s`.
fn split_first(s: &str) -> Vec<CliticSplit> {
    let toks = tokenize(s);
    split(&toks[0]).as_slice().to_vec()
}

fn has_split(forest: &[CliticSplit], procs: &[&str], stem: &str, encs: &[&str]) -> bool {
    forest.iter().any(|c| {
        c.proclitics
            .as_slice()
            .iter()
            .map(|p| p.form.as_str())
            .eq(procs.iter().copied())
            && c.stem.surface.as_str() == stem
            && c.enclitics
                .as_slice()
                .iter()
                .map(|e| e.form.as_str())
                .eq(encs.iter().copied())
    })
}

fn char_count(s: &str) -> usize {
    s.chars().count()
}

#[test]
fn identity_always_present_and_first() {
    let forest = split_first("كتاب");
    assert!(has_split(&forest, &[], "كتاب", &[]));
    assert!(forest[0].proclitics.is_empty() && forest[0].enclitics.is_empty());
}

#[test]
fn non_arabic_token_only_identity() {
    let forest = split_first("hello");
    assert_eq!(forest.len(), 1);
    assert!(forest[0].proclitics.is_empty());
}

#[test]
fn peels_definite_article_with_conjunction_and_preposition() {
    let forest = split_first("وبالكتاب");
    assert!(has_split(&forest, &["و", "ب", "ال"], "كتاب", &[]));
}

#[test]
fn peels_enclitic_pronoun() {
    let forest = split_first("كتابه");
    assert!(has_split(&forest, &[], "كتاب", &["ه"]));
}

#[test]
fn clitic_spans_are_raw_anchored() {
    let input = "وبالكتاب";
    let toks = tokenize(input);
    let forest = split(&toks[0]);
    for cand in forest.as_slice() {
        for c in cand
            .proclitics
            .as_slice()
            .iter()
            .chain(cand.enclitics.as_slice().iter())
        {
            assert_eq!(
                &input[c.span.start as usize..c.span.end as usize],
                c.form.as_str(),
                "clitic span must slice the raw input to the clitic form",
            );
        }
    }
}

#[test]
fn respects_min_stem_length() {
    let forest = split_first("له");
    assert!(forest
        .iter()
        .all(|c| char_count(c.stem.surface.as_str()) >= 1));
    assert!(has_split(&forest, &[], "له", &[]));
}

#[test]
fn forest_is_bounded() {
    let forest = split_first("وبكتابهم");
    assert!(forest.len() <= 4);
}

// --- Further cases ---------------------------------------------------------

#[test]
fn split_forest_ranks_and_scores_candidates() {
    // وبكتابهم: identity (0.6), procs only and enc only (0.5), both (0.45).
    let forest = split_first("وبكتابهم");
    assert_eq!(forest.len(), 4);
    let confs: Vec<u32> = forest.iter().map(|c| c.confidence.millionths()).collect();
    assert_eq!(confs, vec![600_000, 500_000, 500_000, 450_000]);
    assert!(forest[0].proclitics.is_empty() && forest[0].enclitics.is_empty());
    assert_eq!(forest[0].stem.surface, "وبكتابهم");
    // Ties rank by stem surface: "كتابهم" < "وبكتاب" in code point order.
    assert_eq!(forest[1].stem.surface, "كتابهم");
    assert_eq!(forest[2].stem.surface, "وبكتاب");
    assert!(has_split(&forest, &["و", "ب"], "كتاب", &["هم"]));
}

#[test]
fn split_reassembles_token_and_keeps_spans_inside() {
    let input = "قال فبالمدرسة";
    for t in tokenize(input) {
        for c in split(&t).as_slice() {
            let procs: String = c.proclitics.as_slice().iter().map(|p| p.form.as_str()).collect();
            let encs: String = c.enclitics.as_slice().iter().map(|e| e.form.as_str()).collect();
            assert_eq!(format!("{}{}{}", procs, c.stem.surface, encs), t.raw);
            for k in c.proclitics.as_slice().iter().chain(c.enclitics.as_slice().iter()) {
                assert!(k.span.start >= t.span.start && k.span.end <= t.span.end);
            }
        }
    }
}

#[test]
fn split_candidates_are_distinct() {
    let forest = split_first("فكتابه");
    for i in 0..forest.len() {
        for j in (i + 1)..forest.len() {
            assert_ne!(forest[i], forest[j]);
        }
    }
}
