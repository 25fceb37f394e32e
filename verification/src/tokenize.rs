//! Token segmentation.
//!
//! Splits **raw** Arabic text into tokens at script-class boundaries, then
//! normalizes each token's surface separately. Every token carries its raw
//! substring, its normalized form, and a [`ByteSpan`] into the raw input.
//!
//! Normalization can change byte length, so tokens are cut from the raw text
//! and each token is normalized on its own: spans always index the user's
//! document.
use vstd::prelude::*;

use crate::morph_ir::ByteSpan;
use crate::text::{
    byte_len, chars_of, lemma_byte_len_concat, lemma_byte_len_is_utf8_len,
    lemma_byte_len_prefix_mono, lemma_byte_len_prefix_step, push_char, utf8_width,
};
use vstd::utf8::encode_utf8;
use crate::unicode::{normalize, normalized};

verus! {

/// Script/character class of a token.
#[derive(Debug, Clone, Copy, PartialEq, Eq, Hash, Structural)]
pub enum TokenKind {
    /// Arabic letters and combining marks (incl. tatweel, diacritics).
    Arabic,
    /// Latin (and other alphabetic non-Arabic) letters.
    Latin,
    /// Digits: ASCII, Arabic-Indic (٠-٩), or Extended Arabic-Indic (۰-۹).
    Digit,
    /// Punctuation: ASCII punctuation plus common Arabic marks (، ؛ ؟ ٪ ۔).
    Punct,
    /// Whitespace runs.
    Whitespace,
    /// Anything else (format chars, symbols, emoji, unhandled punctuation).
    Other,
}

/// A single token: a maximal run of same-kind characters from the raw input.
#[derive(Debug, Clone, PartialEq, Eq)]
pub struct Token {
    /// Surface text exactly as it appears in the raw input.
    pub raw: String,
    /// Normalized form of `raw` (NFC + Arabic fold table).
    pub normalized: String,
    /// Byte span into the **raw** input.
    pub span: ByteSpan,
    /// Script/character class of this token.
    pub kind: TokenKind,
}

/// Whether `c` has the Unicode White_Space property: U+0009..U+000D, U+0020,
/// U+0085, U+00A0, U+1680, U+2000..U+200A, U+2028, U+2029, U+202F, U+205F
/// and U+3000.
pub open spec fn char_is_whitespace(c: char) -> bool {
    ('\u{0009}' <= c && c <= '\u{000D}') || c == '\u{0020}' || c == '\u{0085}' || c == '\u{00A0}'
        || c == '\u{1680}' || ('\u{2000}' <= c && c <= '\u{200A}') || c == '\u{2028}' || c
        == '\u{2029}' || c == '\u{202F}' || c == '\u{205F}' || c == '\u{3000}'
}

/// Whether `c` has the Unicode Alphabetic property (`char::is_alphabetic`).
pub uninterp spec fn char_is_alphabetic(c: char) -> bool;

/// Whether `c` is white space in the sense of `char::is_whitespace`: the
/// Unicode White_Space property, whose code points [`char_is_whitespace`]
/// lists.
fn is_whitespace(c: char) -> (r: bool)
    ensures
        r == char_is_whitespace(c),
{
    ('\u{0009}' <= c && c <= '\u{000D}') || c == '\u{0020}' || c == '\u{0085}' || c == '\u{00A0}'
        || c == '\u{1680}' || ('\u{2000}' <= c && c <= '\u{200A}') || c == '\u{2028}' || c
        == '\u{2029}' || c == '\u{202F}' || c == '\u{205F}' || c == '\u{3000}'
}

/// `char::is_alphabetic`: whether `c` has the Alphabetic property; the
/// contract only names that result.
#[verifier::external_body]
fn is_alphabetic(c: char) -> (r: bool)
    ensures
        r == char_is_alphabetic(c),
{
    c.is_alphabetic()
}

/// ASCII, Arabic-Indic and Extended Arabic-Indic digits.
pub open spec fn is_digit_char(c: char) -> bool {
    ('0' <= c && c <= '9') || ('\u{0660}' <= c && c <= '\u{0669}') || ('\u{06F0}' <= c && c
        <= '\u{06F9}')
}

/// ASCII punctuation (`char::is_ascii_punctuation`) plus the Arabic comma,
/// date separator, semicolon, question mark, percent sign, decimal and
/// thousands separators, five-pointed star and full stop.
pub open spec fn is_punct_char(c: char) -> bool {
    ('!' <= c && c <= '/') || (':' <= c && c <= '@') || ('[' <= c && c <= '`') || ('{' <= c
        && c <= '~') || c == '\u{060C}' || c == '\u{060D}' || c == '\u{061B}' || c == '\u{061F}'
        || c == '\u{066A}' || c == '\u{066B}' || c == '\u{066C}' || c == '\u{066D}' || c
        == '\u{06D4}'
}

/// The Arabic, Arabic Supplement, Arabic Extended-A and Arabic Presentation
/// Forms blocks.
pub open spec fn is_arabic_block(c: char) -> bool {
    ('\u{0600}' <= c && c <= '\u{06FF}') || ('\u{0750}' <= c && c <= '\u{077F}') || ('\u{08A0}'
        <= c && c <= '\u{08FF}') || ('\u{FB50}' <= c && c <= '\u{FDFF}') || ('\u{FE70}' <= c && c
        <= '\u{FEFF}')
}

/// The class of a character. Digits and punctuation are checked before the
/// Arabic block, since Arabic-Indic digits and Arabic punctuation live inside
/// it.
pub open spec fn classify_char(c: char) -> TokenKind {
    if char_is_whitespace(c) {
        TokenKind::Whitespace
    } else if is_digit_char(c) {
        TokenKind::Digit
    } else if is_punct_char(c) {
        TokenKind::Punct
    } else if is_arabic_block(c) {
        TokenKind::Arabic
    } else if char_is_alphabetic(c) {
        TokenKind::Latin
    } else {
        TokenKind::Other
    }
}

/// Classify a single character into a [`TokenKind`].
pub fn classify(c: char) -> (r: TokenKind)
    ensures
        r == classify_char(c),
{
    if is_whitespace(c) {
        TokenKind::Whitespace
    } else if ('0' <= c && c <= '9') || ('\u{0660}' <= c && c <= '\u{0669}') || ('\u{06F0}' <= c
        && c <= '\u{06F9}') {
        TokenKind::Digit
    } else if ('!' <= c && c <= '/') || (':' <= c && c <= '@') || ('[' <= c && c <= '`') || ('{'
        <= c && c <= '~') || c == '\u{060C}' || c == '\u{060D}' || c == '\u{061B}' || c
        == '\u{061F}' || c == '\u{066A}' || c == '\u{066B}' || c == '\u{066C}' || c == '\u{066D}'
        || c == '\u{06D4}' {
        TokenKind::Punct
    } else if ('\u{0600}' <= c && c <= '\u{06FF}') || ('\u{0750}' <= c && c <= '\u{077F}') || (
    '\u{08A0}' <= c && c <= '\u{08FF}') || ('\u{FB50}' <= c && c <= '\u{FDFF}') || ('\u{FE70}'
        <= c && c <= '\u{FEFF}') {
        TokenKind::Arabic
    } else if is_alphabetic(c) {
        TokenKind::Latin
    } else {
        TokenKind::Other
    }
}

/// The end of the maximal same-class run containing position `i`, scanning
/// forward: the first position after `i` whose class differs, or the length.
pub open spec fn run_end(s: Seq<char>, i: int) -> int
    decreases s.len() - i,
{
    if i + 1 >= s.len() {
        s.len() as int
    } else if classify_char(s[i + 1]) != classify_char(s[i]) {
        i + 1
    } else {
        run_end(s, i + 1)
    }
}

/// A run ends after it starts and within the text; every character of the
/// run has the class of its first; the character after it (if any) differs.
pub proof fn lemma_run_end(s: Seq<char>, i: int)
    requires
        0 <= i < s.len(),
    ensures
        i < run_end(s, i) <= s.len(),
        forall|k: int| i <= k < run_end(s, i) ==> classify_char(#[trigger] s[k]) == classify_char(s[i]),
        run_end(s, i) < s.len() ==> classify_char(s[run_end(s, i)]) != classify_char(s[i]),
    decreases s.len() - i,
{
    if i + 1 < s.len() && classify_char(s[i + 1]) == classify_char(s[i]) {
        lemma_run_end(s, i + 1);
    }
}

/// The `(start, end)` character positions of the maximal same-class runs of
/// `s` from position `i` on.
pub open spec fn runs_from(s: Seq<char>, i: int) -> Seq<(int, int)>
    decreases s.len() - i,
{
    if i < 0 || i >= s.len() {
        Seq::<(int, int)>::empty()
    } else {
        proof {
            lemma_run_end(s, i);
        }
        seq![(i, run_end(s, i))] + runs_from(s, run_end(s, i))
    }
}

/// What a token holds: raw characters, normalized characters, span, kind.
pub open spec fn token_view(t: Token) -> (Seq<char>, Seq<char>, ByteSpan, TokenKind) {
    (t.raw@, t.normalized@, t.span, t.kind)
}

/// The token for the run `s[a..b]`.
pub open spec fn run_token(s: Seq<char>, a: int, b: int) -> (
    Seq<char>,
    Seq<char>,
    ByteSpan,
    TokenKind,
) {
    (
        s.subrange(a, b),
        normalized(s.subrange(a, b)),
        ByteSpan { start: byte_len(s.take(a)) as u32, end: byte_len(s.take(b)) as u32 },
        classify_char(s[a]),
    )
}

/// The tokens of `s`: one per maximal same-class run, in order.
pub open spec fn tokens_of(s: Seq<char>) -> Seq<(Seq<char>, Seq<char>, ByteSpan, TokenKind)> {
    runs_from(s, 0).map_values(|r: (int, int)| run_token(s, r.0, r.1))
}

/// Tokenize raw input into a sequence of tokens covering the entire input:
/// one token per maximal run of characters of the same [`TokenKind`].
///
/// Input must be under 4 GiB (spans are `u32`).
pub fn tokenize(input: &str) -> (r: Vec<Token>)
    requires
        byte_len(input@) <= u32::MAX,
    ensures
        r@.map_values(|t: Token| token_view(t)) == tokens_of(input@),
{
    let cs = chars_of(input);
    let ghost s = input@;
    let n = cs.len();
    let mut tokens: Vec<Token> = Vec::new();
    let ghost mut done: Seq<(int, int)> = Seq::empty();
    let mut a: usize = 0;
    let mut pos: u32 = 0;
    assert(s.take(0) =~= Seq::<char>::empty());
    while a < n
        invariant
            cs@ == s,
            n == s.len(),
            byte_len(s) <= u32::MAX,
            a <= n,
            pos == byte_len(s.take(a as int)),
            runs_from(s, 0) == done + runs_from(s, a as int),
            tokens@.map_values(|t: Token| token_view(t)) == done.map_values(
                |r: (int, int)| run_token(s, r.0, r.1),
            ),
        decreases n - a,
    {
        let kind = classify(cs[a]);
        let mut raw = String::new();
        push_char(&mut raw, cs[a]);
        proof {
            lemma_byte_len_prefix_step(s, a as int);
            lemma_byte_len_prefix_mono(s, a as int + 1, n as int);
            assert(s.take(n as int) =~= s);
            assert(s.subrange(0, a as int + 1) =~= s.take(a as int + 1));
            assert(s.subrange(0, a as int) =~= s.take(a as int));
        }
        let mut end: u32 = pos + utf8_width(cs[a]);
        let mut j: usize = a + 1;
        assert(raw@ =~= s.subrange(a as int, j as int));
        while j < n && classify(cs[j]) == kind
            invariant
                cs@ == s,
                n == s.len(),
                byte_len(s) <= u32::MAX,
                a < j <= n,
                kind == classify_char(s[a as int]),
                raw@ == s.subrange(a as int, j as int),
                end == byte_len(s.take(j as int)),
                run_end(s, a as int) == run_end(s, j as int - 1),
                forall|k: int| a <= k < j ==> classify_char(#[trigger] s[k]) == kind,
            decreases n - j,
        {
            proof {
                lemma_byte_len_prefix_step(s, j as int);
                lemma_byte_len_prefix_mono(s, j as int + 1, n as int);
                assert(s.take(n as int) =~= s);
                assert(s.subrange(0, j as int + 1) =~= s.take(j as int + 1));
                assert(s.subrange(0, j as int) =~= s.take(j as int));
            }
            push_char(&mut raw, cs[j]);
            end = end + utf8_width(cs[j]);
            j = j + 1;
            assert(raw@ =~= s.subrange(a as int, j as int));
        }
        proof {
            assert(run_end(s, j as int - 1) == j);
            assert(run_end(s, a as int) == j);
            lemma_run_end(s, a as int);
            assert(runs_from(s, a as int) == seq![(a as int, j as int)] + runs_from(s, j as int));
            lemma_byte_len_prefix_mono(s, a as int, j as int);
        }
        let norm = normalize(raw.as_str());
        let span = ByteSpan::new(pos, end);
        let tok = Token { raw, normalized: norm, span, kind };
        let ghost old_tokens = tokens@;
        tokens.push(tok);
        proof {
            let old_done = done;
            done = done.push((a as int, j as int));
            assert(runs_from(s, 0) =~= done + runs_from(s, j as int));
            assert(token_view(tok) == run_token(s, a as int, j as int));
            let tv = tokens@.map_values(|t: Token| token_view(t));
            let dv = done.map_values(|r: (int, int)| run_token(s, r.0, r.1));
            let otv = old_tokens.map_values(|t: Token| token_view(t));
            let odv = old_done.map_values(|r: (int, int)| run_token(s, r.0, r.1));
            assert(tokens@ == old_tokens.push(tok));
            assert(otv == odv);
            assert(otv.len() == old_tokens.len());
            assert(odv.len() == old_done.len());
            assert(old_tokens.len() == old_done.len());
            assert forall|k: int| 0 <= k < done.len() implies #[trigger] tv[k] == dv[k] by {
                if k < old_done.len() {
                    assert(tokens@[k] == old_tokens[k]);
                    assert(done[k] == old_done[k]);
                    assert(otv[k] == odv[k]);
                }
            }
            assert(tv =~= dv);
        }
        a = j;
        pos = end;
    }
    proof {
        assert(runs_from(s, n as int) =~= Seq::<(int, int)>::empty());
        assert(done + Seq::<(int, int)>::empty() =~= done);
    }
    tokens
}


/// The runs from `i` tile `s[i..]`: they start at `i`, each starts where the
/// previous ended, the last ends at the end of `s`; each run is non-empty,
/// all of one class, and followed by a character of another class.
pub proof fn lemma_runs_from(s: Seq<char>, i: int)
    requires
        0 <= i <= s.len(),
    ensures
        (runs_from(s, i).len() == 0) <==> (i == s.len()),
        runs_from(s, i).len() > 0 ==> runs_from(s, i)[0].0 == i && runs_from(s, i).last().1
            == s.len(),
        forall|k: int|
            0 <= k < runs_from(s, i).len() ==> i <= (#[trigger] runs_from(s, i)[k]).0 < runs_from(
                s,
                i,
            )[k].1 <= s.len(),
        forall|k: int|
            0 <= k < runs_from(s, i).len() - 1 ==> (#[trigger] runs_from(s, i)[k]).1 == runs_from(
                s,
                i,
            )[k + 1].0,
        forall|k: int, p: int|
            0 <= k < runs_from(s, i).len() && (#[trigger] runs_from(s, i)[k]).0 <= p
                < runs_from(s, i)[k].1 ==> classify_char(#[trigger] s[p]) == classify_char(
                s[runs_from(s, i)[k].0],
            ),
        forall|k: int|
            0 <= k < runs_from(s, i).len() && (#[trigger] runs_from(s, i)[k]).1 < s.len()
                ==> classify_char(s[runs_from(s, i)[k].1]) != classify_char(
                s[runs_from(s, i)[k].0],
            ),
    decreases s.len() - i,
{
    if i < s.len() {
        lemma_run_end(s, i);
        let e = run_end(s, i);
        lemma_runs_from(s, e);
        let rest = runs_from(s, e);
        let r = runs_from(s, i);
        assert(r == seq![(i, e)] + rest);
        assert forall|k: int| 1 <= k < r.len() implies r[k] == rest[k - 1] by {}
        if rest.len() > 0 {
            assert(r.last() == rest.last());
        }
    }
}

/// The concatenation of the raw surfaces of `ts`, in order.
pub open spec fn concat_raw(ts: Seq<(Seq<char>, Seq<char>, ByteSpan, TokenKind)>) -> Seq<char>
    decreases ts.len(),
{
    if ts.len() == 0 {
        Seq::<char>::empty()
    } else {
        ts[0].0 + concat_raw(ts.drop_first())
    }
}

proof fn lemma_concat_runs_from(s: Seq<char>, i: int)
    requires
        0 <= i <= s.len(),
    ensures
        concat_raw(runs_from(s, i).map_values(|r: (int, int)| run_token(s, r.0, r.1)))
            == s.subrange(i, s.len() as int),
    decreases s.len() - i,
{
    let ts = runs_from(s, i).map_values(|r: (int, int)| run_token(s, r.0, r.1));
    if i == s.len() {
        assert(runs_from(s, i) =~= Seq::<(int, int)>::empty());
        assert(ts =~= Seq::<(Seq<char>, Seq<char>, ByteSpan, TokenKind)>::empty());
        assert(s.subrange(i, s.len() as int) =~= Seq::<char>::empty());
    } else {
        lemma_run_end(s, i);
        let e = run_end(s, i);
        lemma_concat_runs_from(s, e);
        let rest = runs_from(s, e);
        assert(runs_from(s, i) == seq![(i, e)] + rest);
        assert(ts.drop_first() =~= rest.map_values(|r: (int, int)| run_token(s, r.0, r.1)));
        assert(ts[0] == run_token(s, i, e));
        assert(s.subrange(i, e) + s.subrange(e, s.len() as int) =~= s.subrange(i, s.len() as int));
    }
}

/// Coverage: concatenating the raw surfaces of the tokens, in order,
/// reproduces the input exactly.
pub proof fn law_tokens_cover_input(s: Seq<char>)
    ensures
        concat_raw(tokens_of(s)) == s,
{
    lemma_concat_runs_from(s, 0);
    assert(s.subrange(0, s.len() as int) =~= s);
}

/// Tokens are maximal runs: every character of a token has the token's kind,
/// the raw surface is non-empty, and neighbouring tokens differ in kind.
pub proof fn law_tokens_are_maximal_runs(s: Seq<char>)
    ensures
        forall|k: int, p: int|
            0 <= k < tokens_of(s).len() && 0 <= p < (#[trigger] tokens_of(s)[k]).0.len()
                ==> classify_char(#[trigger] tokens_of(s)[k].0[p]) == tokens_of(s)[k].3,
        forall|k: int|
            0 <= k < tokens_of(s).len() ==> (#[trigger] tokens_of(s)[k]).0.len() > 0,
        forall|k: int|
            0 <= k < tokens_of(s).len() - 1 ==> (#[trigger] tokens_of(s)[k]).3 != tokens_of(s)[k
                + 1].3,
{
    lemma_runs_from(s, 0);
    let rs = runs_from(s, 0);
    let ts = tokens_of(s);
    assert forall|k: int, p: int| 0 <= k < ts.len() && 0 <= p < (#[trigger] ts[k]).0.len() implies
        classify_char(#[trigger] ts[k].0[p]) == ts[k].3 by {
        assert(ts[k] == run_token(s, rs[k].0, rs[k].1));
        assert(ts[k].0[p] == s[rs[k].0 + p]);
    }
    assert forall|k: int| 0 <= k < ts.len() implies (#[trigger] ts[k]).0.len() > 0 by {
        assert(ts[k] == run_token(s, rs[k].0, rs[k].1));
    }
    assert forall|k: int| 0 <= k < ts.len() - 1 implies (#[trigger] ts[k]).3 != ts[k + 1].3 by {
        assert(ts[k] == run_token(s, rs[k].0, rs[k].1));
        assert(ts[k + 1] == run_token(s, rs[k + 1].0, rs[k + 1].1));
        assert(rs[k].1 == rs[k + 1].0);
        let e = rs[k].1;
        assert(rs[k].0 <= e - 1 < rs[k].1);
        assert(classify_char(s[e - 1]) == classify_char(s[rs[k].0]));
    }
}

/// Spans are contiguous byte ranges of the raw input: the first starts at 0,
/// each starts where the previous ended, the last ends at the input's byte
/// length; each covers exactly the UTF-8 bytes of its raw surface.
pub proof fn law_token_spans_tile_input(s: Seq<char>)
    requires
        byte_len(s) <= u32::MAX,
    ensures
        tokens_of(s).len() > 0 ==> tokens_of(s)[0].2.start == 0 && tokens_of(s).last().2.end
            == byte_len(s),
        forall|k: int|
            0 <= k < tokens_of(s).len() - 1 ==> (#[trigger] tokens_of(s)[k]).2.end == tokens_of(
                s,
            )[k + 1].2.start,
        forall|k: int|
            0 <= k < tokens_of(s).len() ==> (#[trigger] tokens_of(s)[k]).2.start
                <= tokens_of(s)[k].2.end && encode_utf8(s).subrange(
                tokens_of(s)[k].2.start as int,
                tokens_of(s)[k].2.end as int,
            ) == encode_utf8(tokens_of(s)[k].0),
{
    lemma_runs_from(s, 0);
    let rs = runs_from(s, 0);
    let ts = tokens_of(s);
    assert(s.take(0) =~= Seq::<char>::empty());
    assert(s.take(s.len() as int) =~= s);
    if ts.len() > 0 {
        assert(ts[0] == run_token(s, rs[0].0, rs[0].1));
        assert(ts.last() == run_token(s, rs.last().0, rs.last().1));
    }
    assert forall|k: int| 0 <= k < ts.len() - 1 implies (#[trigger] ts[k]).2.end == ts[k
        + 1].2.start by {
        assert(ts[k] == run_token(s, rs[k].0, rs[k].1));
        assert(ts[k + 1] == run_token(s, rs[k + 1].0, rs[k + 1].1));
    }
    assert forall|k: int| 0 <= k < ts.len() implies (#[trigger] ts[k]).2.start <= ts[k].2.end
        && encode_utf8(s).subrange(ts[k].2.start as int, ts[k].2.end as int) == encode_utf8(
        ts[k].0,
    ) by {
        let a = rs[k].0;
        let b = rs[k].1;
        assert(ts[k] == run_token(s, a, b));
        lemma_byte_len_prefix_mono(s, a, b);
        lemma_byte_len_prefix_mono(s, b, s.len() as int);
        lemma_byte_len_utf8_slice(s, a, b);
    }
}

/// Punctuation is classified as punctuation: ASCII punctuation, and the
/// Arabic comma (U+060C), date separator (U+060D), semicolon (U+061B),
/// question mark (U+061F), percent sign (U+066A), decimal and thousands
/// separators (U+066B, U+066C), five-pointed star (U+066D) and full stop
/// (U+06D4).
pub proof fn law_classify_punctuation(c: char)
    ensures
        (('!' <= c && c <= '/') || (':' <= c && c <= '@') || ('[' <= c && c <= '`') || ('{' <= c
            && c <= '~') || c == '\u{060C}' || c == '\u{060D}' || c == '\u{061B}' || c
            == '\u{061F}' || c == '\u{066A}' || c == '\u{066B}' || c == '\u{066C}' || c
            == '\u{066D}' || c == '\u{06D4}') ==> classify_char(c) == TokenKind::Punct,
{
}

/// Punctuation never joins a word: every punctuation character (as listed in
/// [`law_classify_punctuation`]) of the input lies in a punctuation token, so
/// no Arabic token holds one; and an Arabic token holds only characters of the
/// Arabic blocks (U+0600..U+06FF, U+0750..U+077F, U+08A0..U+08FF,
/// U+FB50..U+FDFF, U+FE70..U+FEFF) other than the Arabic-Indic and Extended
/// Arabic-Indic digits.
pub proof fn law_punctuation_never_joins_a_word(s: Seq<char>)
    ensures
        forall|k: int, p: int|
            0 <= k < tokens_of(s).len() && 0 <= p < (#[trigger] tokens_of(s)[k]).0.len() ==> {
                let c = #[trigger] tokens_of(s)[k].0[p];
                &&& (('!' <= c && c <= '/') || (':' <= c && c <= '@') || ('[' <= c && c <= '`')
                    || ('{' <= c && c <= '~') || c == '\u{060C}' || c == '\u{060D}' || c
                    == '\u{061B}' || c == '\u{061F}' || c == '\u{066A}' || c == '\u{066B}' || c
                    == '\u{066C}' || c == '\u{066D}' || c == '\u{06D4}') ==> tokens_of(s)[k].3
                    == TokenKind::Punct
                &&& tokens_of(s)[k].3 == TokenKind::Arabic ==> {
                    &&& (('\u{0600}' <= c && c <= '\u{06FF}') || ('\u{0750}' <= c && c <= '\u{077F}')
                        || ('\u{08A0}' <= c && c <= '\u{08FF}') || ('\u{FB50}' <= c && c
                        <= '\u{FDFF}') || ('\u{FE70}' <= c && c <= '\u{FEFF}'))
                    &&& !('\u{0660}' <= c && c <= '\u{0669}')
                    &&& !('\u{06F0}' <= c && c <= '\u{06F9}')
                    &&& c != '\u{060C}' && c != '\u{060D}' && c != '\u{061B}' && c != '\u{061F}'
                    &&& c != '\u{066A}' && c != '\u{066B}' && c != '\u{066C}' && c != '\u{066D}'
                    &&& c != '\u{06D4}'
                }
            },
{
    law_tokens_are_maximal_runs(s);
}

/// White space and digits form their own tokens: every character with the
/// White_Space property (U+0009..U+000D, U+0020, U+0085, U+00A0, U+1680,
/// U+2000..U+200A, U+2028, U+2029, U+202F, U+205F, U+3000) lies in a
/// whitespace token, and every ASCII, Arabic-Indic (U+0660..U+0669) or
/// Extended Arabic-Indic (U+06F0..U+06F9) digit lies in a digit token.
pub proof fn law_whitespace_and_digits_tokens(s: Seq<char>)
    ensures
        forall|k: int, p: int|
            0 <= k < tokens_of(s).len() && 0 <= p < (#[trigger] tokens_of(s)[k]).0.len() ==> {
                let c = #[trigger] tokens_of(s)[k].0[p];
                &&& (('\u{0009}' <= c && c <= '\u{000D}') || c == '\u{0020}' || c == '\u{0085}'
                    || c == '\u{00A0}' || c == '\u{1680}' || ('\u{2000}' <= c && c <= '\u{200A}')
                    || c == '\u{2028}' || c == '\u{2029}' || c == '\u{202F}' || c == '\u{205F}'
                    || c == '\u{3000}') ==> tokens_of(s)[k].3 == TokenKind::Whitespace
                &&& (('0' <= c && c <= '9') || ('\u{0660}' <= c && c <= '\u{0669}') || ('\u{06F0}'
                    <= c && c <= '\u{06F9}')) ==> tokens_of(s)[k].3 == TokenKind::Digit
            },
{
    law_tokens_are_maximal_runs(s);
}

/// The UTF-8 bytes of `s[a..b]` sit at byte offsets `byte_len(s[..a])` to
/// `byte_len(s[..b])` of the encoding of `s`.
pub proof fn lemma_byte_len_utf8_slice(s: Seq<char>, a: int, b: int)
    requires
        0 <= a <= b <= s.len(),
    ensures
        encode_utf8(s).subrange(byte_len(s.take(a)) as int, byte_len(s.take(b)) as int)
            == encode_utf8(s.subrange(a, b)),
{
    let p = s.take(a);
    let m = s.subrange(a, b);
    let q = s.skip(b);
    assert(s =~= p + m + q);
    assert(s.take(b) =~= p + m);
    crate::text::lemma_encode_utf8_concat(p + m, q);
    crate::text::lemma_encode_utf8_concat(p, m);
    lemma_byte_len_is_utf8_len(p);
    lemma_byte_len_is_utf8_len(p + m);
    lemma_byte_len_concat(p, m);
    let ep = encode_utf8(p);
    let em = encode_utf8(m);
    let eq = encode_utf8(q);
    assert(encode_utf8(s) == ep + em + eq);
    assert((ep + em + eq).subrange(ep.len() as int, (ep.len() + em.len()) as int) =~= em);
}

/// Every token lies within the input: its start plus its raw byte length is at
/// most the input's byte length.
pub proof fn lemma_token_within_input(s: Seq<char>, k: int)
    requires
        byte_len(s) <= u32::MAX,
        0 <= k < tokens_of(s).len(),
    ensures
        tokens_of(s)[k].2.start + byte_len(tokens_of(s)[k].0) <= byte_len(s),
{
    lemma_runs_from(s, 0);
    let r = runs_from(s, 0)[k];
    let a = r.0;
    let b = r.1;
    assert(tokens_of(s)[k] == run_token(s, a, b));
    lemma_byte_len_prefix_mono(s, a, b);
    lemma_byte_len_prefix_mono(s, b, s.len() as int);
    assert(s.take(a) + s.subrange(a, b) =~= s.take(b));
    lemma_byte_len_concat(s.take(a), s.subrange(a, b));
    assert(s.take(s.len() as int) =~= s);
}

/// The span of token `k` of `s` slices the UTF-8 bytes of `s` to those of
/// the token's raw surface.
pub proof fn lemma_token_bytes(s: Seq<char>, k: int)
    requires
        byte_len(s) <= u32::MAX,
        0 <= k < tokens_of(s).len(),
    ensures
        tokens_of(s)[k].2.start <= tokens_of(s)[k].2.end <= encode_utf8(s).len(),
        encode_utf8(s).subrange(tokens_of(s)[k].2.start as int, tokens_of(s)[k].2.end as int)
            == encode_utf8(tokens_of(s)[k].0),
{
    lemma_runs_from(s, 0);
    let r = runs_from(s, 0)[k];
    let a = r.0;
    let b = r.1;
    assert(tokens_of(s)[k] == run_token(s, a, b));
    lemma_byte_len_prefix_mono(s, a, b);
    lemma_byte_len_prefix_mono(s, b, s.len() as int);
    assert(s.take(s.len() as int) =~= s);
    lemma_byte_len_is_utf8_len(s);
    lemma_byte_len_utf8_slice(s, a, b);
}
} // verus!
