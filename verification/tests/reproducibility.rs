//! Reproducibility and raw-span tests over a small mixed-script corpus.

use qalam::freq::word_frequencies;
use qalam::tokenize::tokenize;
use qalam::unicode::normalize;

/// A corpus mixing plain, diacritized, tatweel-stretched and alef-variant
/// Arabic with Latin words, digits and punctuation.
const CORPUS: &str = "\
بسم الله الرحمن الرحيم
ذهب الطالب إلى المدرسة، وقرأ كتاباً جديداً.
أحمد وإسلام وآدم و\u{0671}بن يكتبون الدروس في المكتبة.
كَتَبَ الكاتبُ رسالةً طويلةً إلى صديقه.
كــــتاب جميــل، ومكتبة كبيرة.
The Qalam engine 2025 handles mixed text: Arabic + English.
العدد ١٢٣ والعدد 456 مختلفان؟ نعم!
قال الرجل: وبالكتاب نتعلم، وكتابهم مفيد.
";

#[test]
fn normalize_is_deterministic() {
    assert_eq!(normalize(CORPUS), normalize(CORPUS));
}

#[test]
fn normalize_is_idempotent_on_corpus() {
    let once = normalize(CORPUS);
    assert_eq!(normalize(&once), once);
}

#[test]
fn tokenize_is_deterministic() {
    assert_eq!(tokenize(CORPUS), tokenize(CORPUS));
}

#[test]
fn freq_is_deterministic() {
    let toks = tokenize(CORPUS);
    assert_eq!(word_frequencies(&toks), word_frequencies(&toks));
}

#[test]
fn spans_are_raw_anchored_and_cover_corpus() {
    let toks = tokenize(CORPUS);
    let mut cursor = 0u32;
    for t in &toks {
        assert_eq!(t.span.start, cursor, "gap or overlap before token {t:?}");
        assert_eq!(
            &CORPUS[t.span.start as usize..t.span.end as usize],
            t.raw.as_str(),
            "span does not slice the raw corpus to the token's raw surface",
        );
        cursor = t.span.end;
    }
    assert_eq!(
        cursor as usize,
        CORPUS.len(),
        "tokens do not cover the whole corpus"
    );
}

#[test]
fn frequencies_group_by_normalized_form() {
    let toks = tokenize(CORPUS);
    let entries = word_frequencies(&toks);
    for e in &entries {
        for ch in ['\u{0623}', '\u{0625}', '\u{0622}', '\u{0671}', '\u{0640}'] {
            assert!(
                !e.normalized.contains(ch),
                "normalized key {:?} still contains a foldable/strippable char",
                e.normalized
            );
        }
        assert!(e.count >= 1);
        assert!(!e.variants.is_empty());
    }
}
