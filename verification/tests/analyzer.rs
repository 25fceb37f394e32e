//! Analyzer tests.

use qalam::analyzer::{Analyzer, AnalyzerConfig, BasicAnalyzer, DialectHint};
use qalam::lexicon::{BootstrapLexicon, Lexicon};
use qalam::morph_ir::{ByteSpan, PatternId, Pos};
use qalam::provenance::{ContentHash, LexEntryId, RuleId};
use qalam::tokenize::{tokenize, TokenKind};
use qalam::trace::{TraceEvent, TraceLevel};

#[test]
fn analyzes_active_participle() {
    let a = BasicAnalyzer::default();
    let forest = a.analyze_token("كاتب");
    assert!(forest.analyses.as_slice().iter().any(|an| {
        an.root
            .as_ref()
            .is_some_and(|r| r.radicals.as_slice() == ['ك', 'ت', 'ب'])
    }));
}

#[test]
fn analyzes_with_clitics() {
    let a = BasicAnalyzer::default();
    let forest = a.analyze_token("الكتاب");
    assert!(forest.analyses.as_slice().iter().any(|an| {
        an.proclitics
            .as_slice()
            .iter()
            .any(|c| c.form.as_str() == "ال")
            && an
                .root
                .as_ref()
                .is_some_and(|r| r.radicals.as_slice() == ['ك', 'ت', 'ب'])
    }));
}

#[test]
fn hollow_weak_root_is_confirmed_and_ranks_first() {
    let a = BasicAnalyzer::default();
    let top = a
        .analyze_token("قال")
        .best()
        .cloned()
        .expect("non-empty forest");
    assert_eq!(
        top.root.as_ref().map(|r| r.radicals.as_slice()),
        Some(['ق', 'و', 'ل'].as_slice())
    );
    assert!(
        !top.provenance.lex_entries.is_empty(),
        "confirmed -> lex entry"
    );
}

#[test]
fn irregular_imperative_resolves_to_root() {
    let a = BasicAnalyzer::default();
    let top = a
        .analyze_token("قِ")
        .best()
        .cloned()
        .expect("non-empty forest");
    assert_eq!(
        top.root.as_ref().map(|r| r.radicals.as_slice()),
        Some(['و', 'ق', 'ي'].as_slice())
    );
}

#[test]
fn analyzer_deterministic() {
    let a = BasicAnalyzer::default();
    assert_eq!(
        a.analyze_text("وبالكتاب مدرسة"),
        a.analyze_text("وبالكتاب مدرسة")
    );
}

#[test]
fn forest_respects_cap() {
    let cfg = AnalyzerConfig {
        max_analyses_per_token: 2,
        ..AnalyzerConfig::default()
    };
    let a = BasicAnalyzer::new(cfg);
    for forest in a.analyze_text("وبالكتاب") {
        assert!(forest.analyses.len() <= 2);
    }
}

#[test]
fn lexicon_hash_is_the_bootstrap_hash() {
    let a = BasicAnalyzer::default();
    assert_eq!(a.lexicon_hash(), BootstrapLexicon::load().hash());
    assert_eq!(a.lexicon_hash().as_str().len(), 64);
}

#[test]
fn lexicon_confirmed_root_ranks_first() {
    let a = BasicAnalyzer::default();
    let best = a.analyze_token("كتاب");
    let top = best.best().expect("non-empty forest");
    assert_eq!(
        top.root.as_ref().map(|r| r.radicals.as_slice()),
        Some(['ك', 'ت', 'ب'].as_slice()),
        "lexicon-confirmed root should be the top analysis",
    );
    assert!(!top.provenance.lex_entries.is_empty());
}

#[test]
fn particle_is_recognized() {
    let a = BasicAnalyzer::default();
    let forest = a.analyze_token("في");
    let top = forest.best().expect("non-empty forest");
    assert_eq!(top.features.pos, Some(Pos::Part));
    assert!(top.root.is_none());
}

// --- Further cases ---------------------------------------------------------

#[test]
fn confirmed_root_confidence_is_the_noisy_or_with_the_lexicon_prior() {
    // كتاب, identity split (0.6) AND فعال (0.55) = 0.33; OR 0.7 = 0.799.
    let a = BasicAnalyzer::default();
    let f = a.analyze_token("كتاب");
    let top = f.best().unwrap();
    assert_eq!(top.confidence.millionths(), 799_000);
    assert_eq!(top.pattern, Some(PatternId(4)));
    assert_eq!(top.features.pos, Some(Pos::Noun));
    assert_eq!(top.provenance.rules.as_slice(), [RuleId(4)]);
    assert_eq!(top.provenance.lex_entries.as_slice(), [LexEntryId(1)]);
    assert!(top.provenance.decisions.is_none());
    assert_eq!(top.provenance.lexicon_hash, a.lexicon_hash());
    assert_eq!(top.span, ByteSpan::new(0, 8));
}

#[test]
fn unconfirmed_root_is_down_weighted() {
    // قال's ق-ي-ل reading: 0.6 AND 0.5 = 0.3, AND 0.4 = 0.12.
    let a = BasicAnalyzer::default();
    let f = a.analyze_token("قال");
    let qyl = f
        .analyses
        .as_slice()
        .iter()
        .find(|an| {
            an.proclitics.is_empty()
                && an.root.as_ref().map(|r| r.radicals.as_slice()) == Some(['ق', 'ي', 'ل'].as_slice())
        })
        .expect("ق-ي-ل reading");
    assert_eq!(qyl.confidence.millionths(), 120_000);
    assert!(qyl.provenance.lex_entries.is_empty());
}

#[test]
fn forests_are_ranked_by_confidence() {
    let a = BasicAnalyzer::new(AnalyzerConfig {
        max_analyses_per_token: 0,
        ..AnalyzerConfig::default()
    });
    for f in a.analyze_text("وبالكتاب قال في المدرسة") {
        let cs: Vec<u32> = f
            .analyses
            .as_slice()
            .iter()
            .map(|an| an.confidence.millionths())
            .collect();
        assert!(cs.windows(2).all(|w| w[0] >= w[1]));
        assert!(!f.truncated);
    }
}

#[test]
fn cap_truncates_and_marks_the_forest() {
    let unlimited = BasicAnalyzer::new(AnalyzerConfig {
        max_analyses_per_token: 0,
        ..AnalyzerConfig::default()
    });
    let capped = BasicAnalyzer::new(AnalyzerConfig {
        max_analyses_per_token: 1,
        ..AnalyzerConfig::default()
    });
    let all = unlimited.analyze_token("وبالكتاب");
    let one = capped.analyze_token("وبالكتاب");
    assert!(all.analyses.len() > 1);
    assert_eq!(one.analyses.len(), 1);
    assert!(one.truncated);
    assert_eq!(one.analyses.as_slice()[0], all.analyses.as_slice()[0]);
}

#[test]
fn non_arabic_tokens_get_one_leaf_analysis() {
    let a = BasicAnalyzer::default();
    let forests = a.analyze_text("hello ١٢٣");
    assert_eq!(forests.len(), 2);
    for f in &forests {
        assert_eq!(f.analyses.len(), 1);
        let an = &f.analyses.as_slice()[0];
        assert_eq!(an.confidence.millionths(), 1_000_000);
        assert!(an.root.is_none() && an.pattern.is_none());
        assert_eq!(an.stem.surface, f.token);
    }
    assert_eq!(forests[0].span, ByteSpan::new(0, 5));
    assert_eq!(forests[1].span, ByteSpan::new(6, 12));
}

#[test]
fn whitespace_is_skipped_and_empty_input_has_no_forest() {
    let a = BasicAnalyzer::default();
    assert!(a.analyze_text("   ").is_empty());
    assert!(a.analyze_text("").is_empty());
    let f = a.analyze_token("");
    assert!(f.is_empty());
    assert_eq!(f.span, ByteSpan::new(0, 0));
    assert!(!f.truncated);
}

#[test]
fn unanalyzed_stem_is_penalized() {
    // A six-letter nonsense Arabic token matches no pattern, particle or
    // irregular: identity 0.6 AND 0.3 = 0.18.
    let a = BasicAnalyzer::default();
    let f = a.analyze_token("ثثثثثث");
    assert_eq!(f.analyses.len(), 1);
    let an = &f.analyses.as_slice()[0];
    assert_eq!(an.confidence.millionths(), 180_000);
    assert!(an.features.pos.is_none());
}

#[test]
fn config_hash_covers_the_configuration_text() {
    let a = BasicAnalyzer::default();
    assert_eq!(
        a.config_hash(),
        ContentHash::of("max=8;backoff=true;trace=None;dialect=Auto".as_bytes())
    );
    let b = BasicAnalyzer::new(AnalyzerConfig {
        max_analyses_per_token: 12,
        backoff_enabled: false,
        trace_level: TraceLevel::Full,
        dialect_hint: DialectHint::Egyptian,
    });
    assert_eq!(
        b.config_hash(),
        ContentHash::of("max=12;backoff=false;trace=Full;dialect=Egyptian".as_bytes())
    );
    assert_ne!(a.config_hash(), b.config_hash());
}

#[test]
fn particle_confidence_and_entry() {
    let a = BasicAnalyzer::default();
    let f = a.analyze_token("في");
    let top = f.best().unwrap();
    // identity 0.6 OR 0.85 = 0.94.
    assert_eq!(top.confidence.millionths(), 940_000);
    assert_eq!(top.provenance.lex_entries.as_slice(), [LexEntryId(1_000_000)]);
}

#[test]
fn lexicon_trait_reports_the_analyzer_lexicon() {
    let lex = BootstrapLexicon::load();
    assert_eq!(
        BasicAnalyzer::default().lexicon_hash(),
        Lexicon::hash(&lex)
    );
}

#[test]
fn analyzed_spans_slice_the_raw_input() {
    let input = "قال أحمد: وبالكتاب وكتابهم، hello ١٢";
    let a = BasicAnalyzer::default();
    for f in a.analyze_text(input) {
        assert_eq!(&input[f.span.start as usize..f.span.end as usize], f.token);
        for an in f.analyses.as_slice() {
            for c in an
                .proclitics
                .as_slice()
                .iter()
                .chain(an.enclitics.as_slice().iter())
            {
                assert_eq!(&input[c.span.start as usize..c.span.end as usize], c.form);
            }
        }
    }
}

#[test]
fn lexicon_knowledge_outranks_unconfirmed_readings() {
    let a = BasicAnalyzer::new(AnalyzerConfig {
        max_analyses_per_token: 0,
        ..AnalyzerConfig::default()
    });
    for f in a.analyze_text("قال كتاب في ثثثثثث") {
        for an in f.analyses.as_slice() {
            if an.provenance.lex_entries.is_empty() {
                assert!(an.confidence.millionths() <= 400_000);
            } else {
                assert!(an.confidence.millionths() >= 700_000);
            }
        }
    }
}

#[test]
fn backoff_off_drops_unrecognized_stems() {
    let a = BasicAnalyzer::new(AnalyzerConfig {
        backoff_enabled: false,
        ..AnalyzerConfig::default()
    });
    // No pattern, irregular or particle: the forest is empty.
    let f = a.analyze_token("ثثثثثث");
    assert!(f.is_empty());
    assert!(!f.truncated);
    // Known stems still analyze.
    let top = a.analyze_token("في").best().cloned().expect("particle");
    assert_eq!(top.features.pos, Some(Pos::Part));
    let top = a.analyze_token("كتاب").best().cloned().expect("root");
    assert_eq!(top.confidence.millionths(), 799_000);
    // Non-Arabic tokens keep their leaf.
    assert_eq!(a.analyze_token("hello").analyses.len(), 1);
    // With the backoff on, the unrecognized stem gets its penalized analysis.
    assert_eq!(BasicAnalyzer::default().analyze_token("ثثثثثث").analyses.len(), 1);
}

#[test]
fn full_tracing_attaches_decisions() {
    let a = BasicAnalyzer::new(AnalyzerConfig {
        trace_level: TraceLevel::Full,
        ..AnalyzerConfig::default()
    });
    let f = a.analyze_token("كتاب");
    let top = f.best().unwrap();
    let ds = top.provenance.decisions.as_ref().expect("decisions under full tracing");
    assert_eq!(ds.len(), 2);
    match &ds[0] {
        TraceEvent::PatternMatch { stem, pattern, root, conf, rule_id } => {
            assert_eq!(stem, "كتاب");
            assert_eq!(*pattern, PatternId(4));
            assert_eq!(root.as_ref().unwrap().radicals.as_slice(), ['ك', 'ت', 'ب']);
            assert_eq!(conf.millionths(), 550_000);
            assert_eq!(*rule_id, 4);
        }
        other => panic!("unexpected {other:?}"),
    }
    assert_eq!(
        ds[1],
        TraceEvent::LexLookup {
            stem: "كتاب".to_string(),
            entry_id: 1,
            confirms: true
        }
    );
    for an in f.analyses.as_slice() {
        assert!(an.provenance.decisions.is_some());
    }
    let p = a.analyze_token("في");
    assert_eq!(
        p.best().unwrap().provenance.decisions,
        Some(vec![TraceEvent::LexLookup {
            stem: "في".to_string(),
            entry_id: 1_000_000,
            confirms: true
        }])
    );
    assert_eq!(
        a.analyze_token("hello").best().unwrap().provenance.decisions,
        Some(vec![])
    );
    // Other levels attach none.
    for level in [TraceLevel::Off, TraceLevel::Concise] {
        let b = BasicAnalyzer::new(AnalyzerConfig {
            trace_level: level,
            ..AnalyzerConfig::default()
        });
        for an in b.analyze_token("كتاب").analyses.as_slice() {
            assert!(an.provenance.decisions.is_none());
        }
    }
}

#[test]
fn equal_confidences_rank_by_canonical_id() {
    // Within a forest, analyses of equal confidence are ordered by the BLAKE3
    // digest of their canonical key.
    let a = BasicAnalyzer::new(AnalyzerConfig {
        max_analyses_per_token: 0,
        ..AnalyzerConfig::default()
    });
    let key = |an: &qalam::morph_ir::MorphAnalysis| {
        let root: String = an
            .root
            .as_ref()
            .map(|r| r.radicals.as_slice().iter().collect())
            .unwrap_or_default();
        let pat = an.pattern.map(|p| p.0).unwrap_or(0);
        let procs: String = an.proclitics.as_slice().iter().map(|c| c.form.as_str()).collect();
        let encs: String = an.enclitics.as_slice().iter().map(|c| c.form.as_str()).collect();
        let text = format!("{root}|{pat}|{}|{procs}|{encs}", an.stem.surface);
        ContentHash::of(text.as_bytes())
    };
    let mut ties = 0;
    for f in a.analyze_text("وبالكتاب قال فكتابه") {
        let xs = f.analyses.as_slice();
        for w in xs.windows(2) {
            if w[0].confidence == w[1].confidence {
                ties += 1;
                assert!(key(&w[0]).as_str() <= key(&w[1]).as_str());
            }
        }
    }
    assert!(ties > 0);
}

#[test]
fn text_forests_are_the_forests_of_non_whitespace_tokens() {
    let a = BasicAnalyzer::default();
    let text = "وبالكتاب  قال، ١٢٣";
    let words: Vec<_> = tokenize(text)
        .into_iter()
        .filter(|t| t.kind != TokenKind::Whitespace)
        .collect();
    let forests = a.analyze_text(text);
    assert_eq!(words.len(), 4);
    assert_eq!(forests.len(), words.len());
    for (f, t) in forests.iter().zip(words.iter()) {
        assert_eq!(f.token, t.raw);
        assert_eq!(f.span, t.span);
    }
    assert_eq!(forests[0], a.analyze_token("وبالكتاب"));
}
