//! Tokenizer tests.

use qalam::morph_ir::ByteSpan;
use qalam::tokenize::{tokenize, TokenKind};

fn kinds(input: &str) -> Vec<TokenKind> {
    tokenize(input).into_iter().map(|t| t.kind).collect()
}

#[test]
fn empty_input_yields_no_tokens() {
    assert!(tokenize("").is_empty());
}

#[test]
fn single_arabic_word() {
    let toks = tokenize("كتاب");
    assert_eq!(toks.len(), 1);
    assert_eq!(toks[0].kind, TokenKind::Arabic);
    assert_eq!(toks[0].raw.as_str(), "كتاب");
    assert_eq!(toks[0].span, ByteSpan::new(0, 8));
}

#[test]
fn splits_on_whitespace_and_keeps_it() {
    assert_eq!(
        kinds("كتاب مفيد"),
        vec![TokenKind::Arabic, TokenKind::Whitespace, TokenKind::Arabic]
    );
}

#[test]
fn splits_on_script_boundary() {
    assert_eq!(kinds("abcمرحبا"), vec![TokenKind::Latin, TokenKind::Arabic]);
}

#[test]
fn arabic_punctuation_is_punct_not_arabic() {
    assert_eq!(
        kinds("نعم، لا؟"),
        vec![
            TokenKind::Arabic,
            TokenKind::Punct,
            TokenKind::Whitespace,
            TokenKind::Arabic,
            TokenKind::Punct
        ]
    );
}

#[test]
fn arabic_indic_digits_are_digit() {
    assert_eq!(kinds("١٢٣"), vec![TokenKind::Digit]);
}

#[test]
fn tatweel_stays_within_arabic_token() {
    let toks = tokenize("كــتاب");
    assert_eq!(toks.len(), 1);
    assert_eq!(toks[0].kind, TokenKind::Arabic);
    assert_eq!(toks[0].normalized.as_str(), "كتاب");
    assert_eq!(toks[0].raw.as_str(), "كــتاب");
}

#[test]
fn normalized_field_folds_alef_variants() {
    let toks = tokenize("أحمد");
    assert_eq!(toks[0].raw.as_str(), "أحمد");
    assert_eq!(toks[0].normalized.as_str(), "احمد");
}

#[test]
fn spans_are_raw_anchored() {
    let input = "أحمد وكتاب";
    for t in tokenize(input) {
        assert_eq!(
            &input[t.span.start as usize..t.span.end as usize],
            t.raw.as_str()
        );
    }
}

#[test]
fn spans_cover_input_contiguously() {
    let input = "كتاب، abc ١٢٣";
    let toks = tokenize(input);
    let mut cursor = 0u32;
    for t in &toks {
        assert_eq!(t.span.start, cursor, "gap/overlap before {t:?}");
        cursor = t.span.end;
    }
    assert_eq!(cursor as usize, input.len());
}

// --- Further cases ---------------------------------------------------------

#[test]
fn tokens_reconstruct_the_input() {
    let input = "وقال: «كتابٌ» 42 times!\tok\n";
    let joined: String = tokenize(input).iter().map(|t| t.raw.as_str()).collect();
    assert_eq!(joined, input);
}

#[test]
fn neighbouring_tokens_differ_in_kind() {
    let toks = tokenize("abc  def١٢ ،؛ كتاب");
    for w in toks.windows(2) {
        assert_ne!(w[0].kind, w[1].kind);
    }
    assert_eq!(
        kinds("abc  def"),
        vec![TokenKind::Latin, TokenKind::Whitespace, TokenKind::Latin]
    );
}

#[test]
fn latin_and_ascii_digits_and_other() {
    assert_eq!(
        kinds("Hello123€"),
        vec![TokenKind::Latin, TokenKind::Digit, TokenKind::Other]
    );
}

#[test]
fn multibyte_spans_count_bytes() {
    let toks = tokenize("a كـ");
    assert_eq!(toks[0].span, ByteSpan::new(0, 1));
    assert_eq!(toks[1].span, ByteSpan::new(1, 2));
    assert_eq!(toks[2].span, ByteSpan::new(2, 6));
}

#[test]
fn whitespace_class_matches_std() {
    let extra = [0x180Eu32, 0x200B, 0xFEFF, 0x10FFFF];
    for code in (0u32..=0x3100).chain(extra.iter().copied()) {
        if let Some(c) = char::from_u32(code) {
            let s = format!("a{}a", c);
            let has_ws = tokenize(&s).iter().any(|t| t.kind == TokenKind::Whitespace);
            assert_eq!(has_ws, c.is_whitespace(), "U+{:04X}", code);
        }
    }
}
