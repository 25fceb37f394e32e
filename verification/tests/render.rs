//! Rendering tests.

use qalam::analyzer::{Analyzer, BasicAnalyzer};
use qalam::clitics::split;
use qalam::freq::word_frequencies;
use qalam::morph_ir::{PatternId, Root};
use qalam::render::{first_ambiguous, fmt_analysis, fmt_freq_entry, fmt_pattern, fmt_root, fmt_split};
use qalam::tokenize::tokenize;

#[test]
fn split_renders_as_proclitics_stem_enclitics() {
    let toks = tokenize("وبكتابهم");
    let forest = split(&toks[0]);
    let rendered: Vec<String> = forest.as_slice().iter().map(fmt_split).collect();
    assert_eq!(
        rendered,
        vec![
            "وبكتابهم".to_string(),
            "و+ب · كتابهم".to_string(),
            "وبكتاب · هم".to_string(),
            "و+ب · كتاب · هم".to_string(),
        ]
    );
}

#[test]
fn analysis_renders_its_segmentation() {
    let a = BasicAnalyzer::default();
    let f = a.analyze_token("وبالكتاب");
    assert!(f
        .analyses
        .as_slice()
        .iter()
        .any(|an| fmt_analysis(an) == "و+ب+ال · كتاب"));
}

#[test]
fn roots_and_patterns_render_or_dash() {
    assert_eq!(fmt_root(&Some(Root::from_chars(&['ك', 'ت', 'ب']))), "ك-ت-ب");
    assert_eq!(fmt_root(&None), "\u{2014}");
    assert_eq!(fmt_pattern(Some(PatternId(11))), "11");
    assert_eq!(fmt_pattern(None), "\u{2014}");
}

#[test]
fn frequency_lines_align_counts_and_list_variants() {
    let entries = word_frequencies(&tokenize("أحمد احمد كتاب"));
    assert_eq!(fmt_freq_entry(&entries[0]), "     2  احمد  [variants: أحمد, احمد]");
    assert_eq!(fmt_freq_entry(&entries[1]), "     1  كتاب");
}

#[test]
fn first_ambiguous_finds_the_first_multi_analysis_forest() {
    let a = BasicAnalyzer::default();
    let forests = a.analyze_text("hello كتاب");
    assert_eq!(forests[0].analyses.len(), 1);
    assert!(forests[1].analyses.len() > 1);
    assert_eq!(first_ambiguous(&forests), Some(1));
    assert_eq!(first_ambiguous(&forests[..1]), None);
}
