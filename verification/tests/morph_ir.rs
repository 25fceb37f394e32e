//! IR and trace type tests.

use qalam::conf::Conf;
use qalam::morph_ir::{ByteSpan, FeatureSet, MorphForest, PatternId, Root};
use qalam::trace::{Trace, TraceEvent, TraceLevel};

#[test]
fn byte_span_length_and_emptiness() {
    let s = ByteSpan::new(3, 10);
    assert_eq!(s.len(), 7);
    assert!(!s.is_empty());
    assert!(ByteSpan::new(4, 4).is_empty());
    assert_eq!(ByteSpan::new(4, 4).len(), 0);
}

#[test]
fn new_forest_is_empty_and_has_no_best() {
    let f = MorphForest::new("كتاب".to_string(), ByteSpan::new(0, 8));
    assert!(f.is_empty());
    assert!(f.best().is_none());
    assert!(!f.truncated);
    assert_eq!(f.token, "كتاب");
}

#[test]
fn root_from_chars_and_duplicate() {
    let r = Root::from_chars(&['ك', 'ت', 'ب']);
    assert_eq!(r.radicals.as_slice(), ['ك', 'ت', 'ب']);
    assert_eq!(r.radicals.len(), 3);
    assert_eq!(r.duplicate(), r);
}

#[test]
fn default_features_are_unknown() {
    let f = FeatureSet::default();
    assert!(f.pos.is_none() && f.gender.is_none() && f.register.is_none());
}

#[test]
fn trace_levels_keep_their_events() {
    let tok = TraceEvent::Tokenize {
        span: ByteSpan::new(0, 2),
        text: "في".to_string(),
    };
    let pm = TraceEvent::PatternMatch {
        stem: "كتاب".to_string(),
        pattern: PatternId(4),
        root: None,
        conf: Conf::one(),
        rule_id: 4,
    };
    let mut off = Trace::new(TraceLevel::Off);
    off.record(tok.clone());
    assert!(off.events.is_empty());
    let mut concise = Trace::new(TraceLevel::Concise);
    concise.record(tok.clone());
    concise.record(pm.clone());
    assert_eq!(concise.events, vec![tok.clone()]);
    let mut full = Trace::new(TraceLevel::Full);
    full.record(tok.clone());
    full.record(pm.clone());
    assert_eq!(full.events, vec![tok, pm]);
    assert_eq!(TraceLevel::default(), TraceLevel::Off);
}
