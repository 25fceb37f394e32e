//! Lexicon access.
//!
//! The library ships a [`BootstrapLexicon`]: a small, hand-curated set of
//! common roots, particles and irregular forms, published as [`LEXICON_TOML`].
//! It confirms extracted roots and gives provenance a real lexicon hash. A
//! larger lexicon implements the same [`Lexicon`] trait, so the analyzer does
//! not change when it is swapped in.
use vstd::prelude::*;
use vstd::utf8::encode_utf8;

use crate::morph_ir::Root;
use crate::provenance::{blake3_hex, ContentHash, LexEntryId};
use crate::text::{chars_eq, chars_of, chars_of_string, push_char};

verus! {

/// The bootstrap lexicon, in its published TOML form. Its exact bytes are what
/// the lexicon hash covers; [`builtin_lexicon_file`] holds its contents.
pub const LEXICON_TOML: &'static str = "\
# Bootstrap lexicon: common roots, particles and irregular forms.
#
# Roots are written as their radicals. Particles are written in normalized
# spelling (alef variants folded, no diacritics). Irregular forms are written
# normalized with their diacritics kept, each mapped to its root.

roots = [
  \"كتب\", \"سلم\", \"درس\", \"قول\", \"رمي\", \"وصل\", \"علم\", \"عمل\", \"فعل\", \"حكم\",
  \"نظر\", \"ذهب\", \"رجع\", \"خرج\", \"دخل\", \"جلس\", \"شرب\", \"لعب\", \"سمع\", \"فتح\",
  \"حمل\", \"نصر\", \"ضرب\", \"طلب\", \"عرف\", \"فهم\", \"كسب\", \"جمع\", \"صنع\", \"زرع\",
  \"حفظ\", \"شكر\", \"صبر\", \"غفر\", \"رحم\", \"قدر\", \"حسب\", \"حسن\", \"كبر\", \"صغر\",
  \"قرب\", \"بعد\", \"سكن\", \"سفر\", \"وجد\", \"وعد\", \"وضع\", \"وقف\", \"ولد\", \"يسر\",
  \"دعو\", \"رضي\", \"بقي\", \"مشي\", \"قوم\", \"كون\", \"سير\", \"نوم\", \"بيع\", \"خوف\",
  \"زور\", \"عود\", \"طير\", \"صوم\", \"شرح\", \"بحث\", \"فكر\", \"قطع\", \"كسر\", \"ملك\",
  \"نزل\", \"ركب\", \"رسم\", \"سجد\", \"سرق\", \"شهد\", \"صدق\", \"طبخ\", \"ظلم\", \"عبد\",
  \"عدل\", \"غسل\", \"فرح\", \"قتل\", \"لبس\", \"مسك\", \"نجح\", \"نفع\", \"هرب\", \"وزن\",
  \"وهب\", \"جهد\", \"حرب\", \"خلق\", \"دفع\", \"ربح\", \"رفع\", \"سبح\", \"ضحك\",
]

particles = [
  \"في\", \"من\", \"الى\", \"على\", \"عن\", \"مع\", \"حتى\", \"منذ\", \"لكن\", \"او\",
  \"ام\", \"ثم\", \"بل\", \"لا\", \"لم\", \"لن\", \"ما\", \"قد\", \"ان\", \"اذا\",
  \"اذ\", \"لو\", \"كي\", \"هل\", \"نعم\", \"كلا\", \"ليس\", \"هذا\", \"هذه\", \"ذلك\",
  \"تلك\", \"الذي\", \"التي\", \"هو\", \"هي\", \"نحن\", \"انا\",
]

[irregulars]
\"خذ\" = \"اخذ\"
\"ع\u{0650}\" = \"وعي\"
\"ف\u{0650}\" = \"وفي\"
\"قل\" = \"قول\"
\"ق\u{0650}\" = \"وقي\"
";

/// A read-only lexicon. The analyzer depends only on what this trait states,
/// so the bootstrap can be swapped for a larger lexicon.
pub trait Lexicon: Send + Sync {
    /// The known roots (by radicals) and their entry ids.
    spec fn known_roots(&self) -> Map<Seq<char>, nat>;

    /// The known particles (normalized, no diacritics) and their entry ids.
    spec fn known_particles(&self) -> Map<Seq<char>, nat>;

    /// The known irregular forms (normalized, diacritics kept), each with its
    /// entry id and the radicals of its root.
    spec fn known_irregulars(&self) -> Map<Seq<char>, (nat, Seq<char>)>;

    /// The content hash of the lexicon, as hex characters.
    spec fn content_hash(&self) -> Seq<char>;

    /// The entry id if `root` is a known root, else `None`.
    fn root_id(&self, root: &Root) -> (r: Option<LexEntryId>)
        ensures
            r is Some <==> self.known_roots().dom().contains(root@),
            r matches Some(id) ==> id.0 == self.known_roots()[root@],
    ;

    /// The entry id if `surface` (normalized) is a known particle, else `None`.
    fn particle_id(&self, surface: &str) -> (r: Option<LexEntryId>)
        ensures
            r is Some <==> self.known_particles().dom().contains(surface@),
            r matches Some(id) ==> id.0 == self.known_particles()[surface@],
    ;

    /// The entry id and root if `surface` (normalized, diacritics kept) is a
    /// known irregular form whose root no rule recovers, else `None`.
    fn irregular(&self, surface: &str) -> (r: Option<(LexEntryId, Root)>)
        ensures
            r is Some <==> self.known_irregulars().dom().contains(surface@),
            r matches Some(e) ==> e.0.0 == self.known_irregulars()[surface@].0 && e.1@
                == self.known_irregulars()[surface@].1,
    ;

    /// The content hash of the lexicon; recorded in every analysis's provenance.
    fn hash(&self) -> (r: ContentHash)
        ensures
            r.0@ == self.content_hash(),
    ;
}

/// A lexicon entry (reserved for a richer lexicon; the bootstrap only needs
/// ids).
#[derive(Debug, Clone, PartialEq, Eq)]
pub struct LexEntry {
    pub id: LexEntryId,
    pub lemma: String,
}

/// The contents of a lexicon file: roots (as radicals), particles, and
/// irregular forms with their roots.
#[derive(Debug, Clone, PartialEq, Eq)]
pub struct LexiconFile {
    pub roots: Vec<String>,
    pub particles: Vec<String>,
    /// `(surface, root)` pairs, in ascending order of surface, as a TOML table
    /// yields them.
    pub irregulars: Vec<(String, String)>,
}

/// What a lexicon file holds, as character sequences.
pub open spec fn lexicon_file_view(f: LexiconFile) -> (
    Seq<Seq<char>>,
    Seq<Seq<char>>,
    Seq<(Seq<char>, Seq<char>)>,
) {
    (
        f.roots@.map_values(|s: String| s@),
        f.particles@.map_values(|s: String| s@),
        f.irregulars@.map_values(|p: (String, String)| (p.0@, p.1@)),
    )
}

/// Whether the surfaces of `irs` strictly ascend in code point order.
pub open spec fn irregulars_ascending(irs: Seq<(Seq<char>, Seq<char>)>) -> bool {
    forall|i: int, j: int|
        0 <= i < j < irs.len() ==> crate::rank::key_lt(
            crate::rank::chars_key(#[trigger] irs[i].0),
            crate::rank::chars_key(#[trigger] irs[j].0),
        )
}

/// Entry `i` of `keys` gets id `base + i`; a key given twice keeps the id of
/// its last occurrence.
pub open spec fn id_map(keys: Seq<Seq<char>>, base: nat) -> Map<Seq<char>, nat>
    decreases keys.len(),
{
    if keys.len() == 0 {
        Map::empty()
    } else {
        id_map(keys.drop_last(), base).insert(keys.last(), (base + keys.len() - 1) as nat)
    }
}

/// Irregular form `i` of `irs` gets id `base + i`, with its root.
pub open spec fn irregular_map(irs: Seq<(Seq<char>, Seq<char>)>, base: nat) -> Map<
    Seq<char>,
    (nat, Seq<char>),
>
    decreases irs.len(),
{
    if irs.len() == 0 {
        Map::empty()
    } else {
        irregular_map(irs.drop_last(), base).insert(
            irs.last().0,
            ((base + irs.len() - 1) as nat, irs.last().1),
        )
    }
}

/// The first id given to a root.
pub const ROOT_ID_BASE: u32 = 1;

/// The first id given to a particle.
pub const PARTICLE_ID_BASE: u32 = 1_000_000;

/// The first id given to an irregular form.
pub const IRREGULAR_ID_BASE: u32 = 2_000_000;

/// The roots of [`LEXICON_TOML`].
pub open spec fn builtin_roots() -> Seq<Seq<char>> {
    seq![
        seq!['ك', 'ت', 'ب'],
        seq!['س', 'ل', 'م'],
        seq!['د', 'ر', 'س'],
        seq!['ق', 'و', 'ل'],
        seq!['ر', 'م', 'ي'],
        seq!['و', 'ص', 'ل'],
        seq!['ع', 'ل', 'م'],
        seq!['ع', 'م', 'ل'],
        seq!['ف', 'ع', 'ل'],
        seq!['ح', 'ك', 'م'],
        seq!['ن', 'ظ', 'ر'],
        seq!['ذ', 'ه', 'ب'],
        seq!['ر', 'ج', 'ع'],
        seq!['خ', 'ر', 'ج'],
        seq!['د', 'خ', 'ل'],
        seq!['ج', 'ل', 'س'],
        seq!['ش', 'ر', 'ب'],
        seq!['ل', 'ع', 'ب'],
        seq!['س', 'م', 'ع'],
        seq!['ف', 'ت', 'ح'],
        seq!['ح', 'م', 'ل'],
        seq!['ن', 'ص', 'ر'],
        seq!['ض', 'ر', 'ب'],
        seq!['ط', 'ل', 'ب'],
        seq!['ع', 'ر', 'ف'],
        seq!['ف', 'ه', 'م'],
        seq!['ك', 'س', 'ب'],
        seq!['ج', 'م', 'ع'],
        seq!['ص', 'ن', 'ع'],
        seq!['ز', 'ر', 'ع'],
        seq!['ح', 'ف', 'ظ'],
        seq!['ش', 'ك', 'ر'],
        seq!['ص', 'ب', 'ر'],
        seq!['غ', 'ف', 'ر'],
        seq!['ر', 'ح', 'م'],
        seq!['ق', 'د', 'ر'],
        seq!['ح', 'س', 'ب'],
        seq!['ح', 'س', 'ن'],
        seq!['ك', 'ب', 'ر'],
        seq!['ص', 'غ', 'ر'],
        seq!['ق', 'ر', 'ب'],
        seq!['ب', 'ع', 'د'],
        seq!['س', 'ك', 'ن'],
        seq!['س', 'ف', 'ر'],
        seq!['و', 'ج', 'د'],
        seq!['و', 'ع', 'د'],
        seq!['و', 'ض', 'ع'],
        seq!['و', 'ق', 'ف'],
        seq!['و', 'ل', 'د'],
        seq!['ي', 'س', 'ر'],
        seq!['د', 'ع', 'و'],
        seq!['ر', 'ض', 'ي'],
        seq!['ب', 'ق', 'ي'],
        seq!['م', 'ش', 'ي'],
        seq!['ق', 'و', 'م'],
        seq!['ك', 'و', 'ن'],
        seq!['س', 'ي', 'ر'],
        seq!['ن', 'و', 'م'],
        seq!['ب', 'ي', 'ع'],
        seq!['خ', 'و', 'ف'],
        seq!['ز', 'و', 'ر'],
        seq!['ع', 'و', 'د'],
        seq!['ط', 'ي', 'ر'],
        seq!['ص', 'و', 'م'],
        seq!['ش', 'ر', 'ح'],
        seq!['ب', 'ح', 'ث'],
        seq!['ف', 'ك', 'ر'],
        seq!['ق', 'ط', 'ع'],
        seq!['ك', 'س', 'ر'],
        seq!['م', 'ل', 'ك'],
        seq!['ن', 'ز', 'ل'],
        seq!['ر', 'ك', 'ب'],
        seq!['ر', 'س', 'م'],
        seq!['س', 'ج', 'د'],
        seq!['س', 'ر', 'ق'],
        seq!['ش', 'ه', 'د'],
        seq!['ص', 'د', 'ق'],
        seq!['ط', 'ب', 'خ'],
        seq!['ظ', 'ل', 'م'],
        seq!['ع', 'ب', 'د'],
        seq!['ع', 'د', 'ل'],
        seq!['غ', 'س', 'ل'],
        seq!['ف', 'ر', 'ح'],
        seq!['ق', 'ت', 'ل'],
        seq!['ل', 'ب', 'س'],
        seq!['م', 'س', 'ك'],
        seq!['ن', 'ج', 'ح'],
        seq!['ن', 'ف', 'ع'],
        seq!['ه', 'ر', 'ب'],
        seq!['و', 'ز', 'ن'],
        seq!['و', 'ه', 'ب'],
        seq!['ج', 'ه', 'د'],
        seq!['ح', 'ر', 'ب'],
        seq!['خ', 'ل', 'ق'],
        seq!['د', 'ف', 'ع'],
        seq!['ر', 'ب', 'ح'],
        seq!['ر', 'ف', 'ع'],
        seq!['س', 'ب', 'ح'],
        seq!['ض', 'ح', 'ك'],
    ]
}

/// The particles of [`LEXICON_TOML`].
pub open spec fn builtin_particles() -> Seq<Seq<char>> {
    seq![
        seq!['ف', 'ي'],
        seq!['م', 'ن'],
        seq!['ا', 'ل', 'ى'],
        seq!['ع', 'ل', 'ى'],
        seq!['ع', 'ن'],
        seq!['م', 'ع'],
        seq!['ح', 'ت', 'ى'],
        seq!['م', 'ن', 'ذ'],
        seq!['ل', 'ك', 'ن'],
        seq!['ا', 'و'],
        seq!['ا', 'م'],
        seq!['ث', 'م'],
        seq!['ب', 'ل'],
        seq!['ل', 'ا'],
        seq!['ل', 'م'],
        seq!['ل', 'ن'],
        seq!['م', 'ا'],
        seq!['ق', 'د'],
        seq!['ا', 'ن'],
        seq!['ا', 'ذ', 'ا'],
        seq!['ا', 'ذ'],
        seq!['ل', 'و'],
        seq!['ك', 'ي'],
        seq!['ه', 'ل'],
        seq!['ن', 'ع', 'م'],
        seq!['ك', 'ل', 'ا'],
        seq!['ل', 'ي', 'س'],
        seq!['ه', 'ذ', 'ا'],
        seq!['ه', 'ذ', 'ه'],
        seq!['ذ', 'ل', 'ك'],
        seq!['ت', 'ل', 'ك'],
        seq!['ا', 'ل', 'ذ', 'ي'],
        seq!['ا', 'ل', 'ت', 'ي'],
        seq!['ه', 'و'],
        seq!['ه', 'ي'],
        seq!['ن', 'ح', 'ن'],
        seq!['ا', 'ن', 'ا'],
    ]
}

/// The irregular forms of [`LEXICON_TOML`], in ascending order of surface.
pub open spec fn builtin_irregulars() -> Seq<(Seq<char>, Seq<char>)> {
    seq![
        (seq!['خ', 'ذ'], seq!['ا', 'خ', 'ذ']),
        (seq!['ع', '\u{0650}'], seq!['و', 'ع', 'ي']),
        (seq!['ف', '\u{0650}'], seq!['و', 'ف', 'ي']),
        (seq!['ق', 'ل'], seq!['ق', 'و', 'ل']),
        (seq!['ق', '\u{0650}'], seq!['و', 'ق', 'ي']),
    ]
}

fn word2(a: char, b: char) -> (r: String)
    ensures
        r@ == seq![a, b],
{
    let mut s = String::new();
    push_char(&mut s, a);
    push_char(&mut s, b);
    s
}

fn word3(a: char, b: char, c: char) -> (r: String)
    ensures
        r@ == seq![a, b, c],
{
    let mut s = word2(a, b);
    push_char(&mut s, c);
    s
}

fn word4(a: char, b: char, c: char, d: char) -> (r: String)
    ensures
        r@ == seq![a, b, c, d],
{
    let mut s = word3(a, b, c);
    push_char(&mut s, d);
    s
}

#[verifier::rlimit(60)]
fn builtin_root_words() -> (r: Vec<String>)
    ensures
        r@.map_values(|s: String| s@) == builtin_roots(),
{
    let mut v: Vec<String> = Vec::new();
    v.push(word3('ك', 'ت', 'ب'));
    v.push(word3('س', 'ل', 'م'));
    v.push(word3('د', 'ر', 'س'));
    v.push(word3('ق', 'و', 'ل'));
    v.push(word3('ر', 'م', 'ي'));
    v.push(word3('و', 'ص', 'ل'));
    v.push(word3('ع', 'ل', 'م'));
    v.push(word3('ع', 'م', 'ل'));
    v.push(word3('ف', 'ع', 'ل'));
    v.push(word3('ح', 'ك', 'م'));
    assert(v@.map_values(|s: String| s@) =~= builtin_roots().take(10));
    v.push(word3('ن', 'ظ', 'ر'));
    v.push(word3('ذ', 'ه', 'ب'));
    v.push(word3('ر', 'ج', 'ع'));
    v.push(word3('خ', 'ر', 'ج'));
    v.push(word3('د', 'خ', 'ل'));
    v.push(word3('ج', 'ل', 'س'));
    v.push(word3('ش', 'ر', 'ب'));
    v.push(word3('ل', 'ع', 'ب'));
    v.push(word3('س', 'م', 'ع'));
    v.push(word3('ف', 'ت', 'ح'));
    assert(v@.map_values(|s: String| s@) =~= builtin_roots().take(20));
    v.push(word3('ح', 'م', 'ل'));
    v.push(word3('ن', 'ص', 'ر'));
    v.push(word3('ض', 'ر', 'ب'));
    v.push(word3('ط', 'ل', 'ب'));
    v.push(word3('ع', 'ر', 'ف'));
    v.push(word3('ف', 'ه', 'م'));
    v.push(word3('ك', 'س', 'ب'));
    v.push(word3('ج', 'م', 'ع'));
    v.push(word3('ص', 'ن', 'ع'));
    v.push(word3('ز', 'ر', 'ع'));
    assert(v@.map_values(|s: String| s@) =~= builtin_roots().take(30));
    v.push(word3('ح', 'ف', 'ظ'));
    v.push(word3('ش', 'ك', 'ر'));
    v.push(word3('ص', 'ب', 'ر'));
    v.push(word3('غ', 'ف', 'ر'));
    v.push(word3('ر', 'ح', 'م'));
    v.push(word3('ق', 'د', 'ر'));
    v.push(word3('ح', 'س', 'ب'));
    v.push(word3('ح', 'س', 'ن'));
    v.push(word3('ك', 'ب', 'ر'));
    v.push(word3('ص', 'غ', 'ر'));
    assert(v@.map_values(|s: String| s@) =~= builtin_roots().take(40));
    v.push(word3('ق', 'ر', 'ب'));
    v.push(word3('ب', 'ع', 'د'));
    v.push(word3('س', 'ك', 'ن'));
    v.push(word3('س', 'ف', 'ر'));
    v.push(word3('و', 'ج', 'د'));
    v.push(word3('و', 'ع', 'د'));
    v.push(word3('و', 'ض', 'ع'));
    v.push(word3('و', 'ق', 'ف'));
    v.push(word3('و', 'ل', 'د'));
    v.push(word3('ي', 'س', 'ر'));
    assert(v@.map_values(|s: String| s@) =~= builtin_roots().take(50));
    v.push(word3('د', 'ع', 'و'));
    v.push(word3('ر', 'ض', 'ي'));
    v.push(word3('ب', 'ق', 'ي'));
    v.push(word3('م', 'ش', 'ي'));
    v.push(word3('ق', 'و', 'م'));
    v.push(word3('ك', 'و', 'ن'));
    v.push(word3('س', 'ي', 'ر'));
    v.push(word3('ن', 'و', 'م'));
    v.push(word3('ب', 'ي', 'ع'));
    v.push(word3('خ', 'و', 'ف'));
    assert(v@.map_values(|s: String| s@) =~= builtin_roots().take(60));
    v.push(word3('ز', 'و', 'ر'));
    v.push(word3('ع', 'و', 'د'));
    v.push(word3('ط', 'ي', 'ر'));
    v.push(word3('ص', 'و', 'م'));
    v.push(word3('ش', 'ر', 'ح'));
    v.push(word3('ب', 'ح', 'ث'));
    v.push(word3('ف', 'ك', 'ر'));
    v.push(word3('ق', 'ط', 'ع'));
    v.push(word3('ك', 'س', 'ر'));
    v.push(word3('م', 'ل', 'ك'));
    assert(v@.map_values(|s: String| s@) =~= builtin_roots().take(70));
    v.push(word3('ن', 'ز', 'ل'));
    v.push(word3('ر', 'ك', 'ب'));
    v.push(word3('ر', 'س', 'م'));
    v.push(word3('س', 'ج', 'د'));
    v.push(word3('س', 'ر', 'ق'));
    v.push(word3('ش', 'ه', 'د'));
    v.push(word3('ص', 'د', 'ق'));
    v.push(word3('ط', 'ب', 'خ'));
    v.push(word3('ظ', 'ل', 'م'));
    v.push(word3('ع', 'ب', 'د'));
    assert(v@.map_values(|s: String| s@) =~= builtin_roots().take(80));
    v.push(word3('ع', 'د', 'ل'));
    v.push(word3('غ', 'س', 'ل'));
    v.push(word3('ف', 'ر', 'ح'));
    v.push(word3('ق', 'ت', 'ل'));
    v.push(word3('ل', 'ب', 'س'));
    v.push(word3('م', 'س', 'ك'));
    v.push(word3('ن', 'ج', 'ح'));
    v.push(word3('ن', 'ف', 'ع'));
    v.push(word3('ه', 'ر', 'ب'));
    v.push(word3('و', 'ز', 'ن'));
    assert(v@.map_values(|s: String| s@) =~= builtin_roots().take(90));
    v.push(word3('و', 'ه', 'ب'));
    v.push(word3('ج', 'ه', 'د'));
    v.push(word3('ح', 'ر', 'ب'));
    v.push(word3('خ', 'ل', 'ق'));
    v.push(word3('د', 'ف', 'ع'));
    v.push(word3('ر', 'ب', 'ح'));
    v.push(word3('ر', 'ف', 'ع'));
    v.push(word3('س', 'ب', 'ح'));
    v.push(word3('ض', 'ح', 'ك'));
    assert(v@.map_values(|s: String| s@) =~= builtin_roots().take(99));
    assert(builtin_roots().take(99) =~= builtin_roots());
    v
}

fn builtin_particle_words() -> (r: Vec<String>)
    ensures
        r@.map_values(|s: String| s@) == builtin_particles(),
{
    let mut v: Vec<String> = Vec::new();
    v.push(word2('ف', 'ي'));
    v.push(word2('م', 'ن'));
    v.push(word3('ا', 'ل', 'ى'));
    v.push(word3('ع', 'ل', 'ى'));
    v.push(word2('ع', 'ن'));
    v.push(word2('م', 'ع'));
    v.push(word3('ح', 'ت', 'ى'));
    v.push(word3('م', 'ن', 'ذ'));
    v.push(word3('ل', 'ك', 'ن'));
    v.push(word2('ا', 'و'));
    v.push(word2('ا', 'م'));
    v.push(word2('ث', 'م'));
    v.push(word2('ب', 'ل'));
    v.push(word2('ل', 'ا'));
    v.push(word2('ل', 'م'));
    v.push(word2('ل', 'ن'));
    v.push(word2('م', 'ا'));
    v.push(word2('ق', 'د'));
    v.push(word2('ا', 'ن'));
    v.push(word3('ا', 'ذ', 'ا'));
    v.push(word2('ا', 'ذ'));
    v.push(word2('ل', 'و'));
    v.push(word2('ك', 'ي'));
    v.push(word2('ه', 'ل'));
    v.push(word3('ن', 'ع', 'م'));
    v.push(word3('ك', 'ل', 'ا'));
    v.push(word3('ل', 'ي', 'س'));
    v.push(word3('ه', 'ذ', 'ا'));
    v.push(word3('ه', 'ذ', 'ه'));
    v.push(word3('ذ', 'ل', 'ك'));
    v.push(word3('ت', 'ل', 'ك'));
    v.push(word4('ا', 'ل', 'ذ', 'ي'));
    v.push(word4('ا', 'ل', 'ت', 'ي'));
    v.push(word2('ه', 'و'));
    v.push(word2('ه', 'ي'));
    v.push(word3('ن', 'ح', 'ن'));
    v.push(word3('ا', 'ن', 'ا'));
    assert(v@.map_values(|s: String| s@) =~= builtin_particles());
    v
}

fn builtin_irregular_words() -> (r: Vec<(String, String)>)
    ensures
        r@.map_values(|p: (String, String)| (p.0@, p.1@)) == builtin_irregulars(),
{
    let mut v: Vec<(String, String)> = Vec::new();
    v.push((word2('خ', 'ذ'), word3('ا', 'خ', 'ذ')));
    v.push((word2('ع', '\u{0650}'), word3('و', 'ع', 'ي')));
    v.push((word2('ف', '\u{0650}'), word3('و', 'ف', 'ي')));
    v.push((word2('ق', 'ل'), word3('ق', 'و', 'ل')));
    v.push((word2('ق', '\u{0650}'), word3('و', 'ق', 'ي')));
    assert(v@.map_values(|p: (String, String)| (p.0@, p.1@)) =~= builtin_irregulars());
    v
}

/// The contents of [`LEXICON_TOML`], entry for entry: the published text and
/// this file are kept equal (the test suite parses the text and compares).
pub fn builtin_lexicon_file() -> (r: LexiconFile)
    ensures
        lexicon_file_view(r) == (builtin_roots(), builtin_particles(), builtin_irregulars()),
{
    LexiconFile {
        roots: builtin_root_words(),
        particles: builtin_particle_words(),
        irregulars: builtin_irregular_words(),
    }
}

/// The entries of a lookup table, key characters to entry id; a later entry
/// for a key overrides an earlier one.
pub open spec fn entries_map(v: Seq<(Vec<char>, LexEntryId)>) -> Map<Seq<char>, nat>
    decreases v.len(),
{
    if v.len() == 0 {
        Map::empty()
    } else {
        entries_map(v.drop_last()).insert(v.last().0@, v.last().1.0 as nat)
    }
}

/// The entries of an irregular-form table, surface to entry id and radicals.
pub open spec fn irregular_entries_map(v: Seq<(Vec<char>, LexEntryId, Root)>) -> Map<
    Seq<char>,
    (nat, Seq<char>),
>
    decreases v.len(),
{
    if v.len() == 0 {
        Map::empty()
    } else {
        irregular_entries_map(v.drop_last()).insert(
            v.last().0@,
            (v.last().1.0 as nat, v.last().2@),
        )
    }
}

proof fn lemma_entries_at(v: Seq<(Vec<char>, LexEntryId)>, i: int, k: Seq<char>)
    requires
        0 <= i < v.len(),
        v[i].0@ == k,
        forall|m: int| i < m < v.len() ==> (#[trigger] v[m]).0@ != k,
    ensures
        entries_map(v).dom().contains(k),
        entries_map(v)[k] == v[i].1.0,
    decreases v.len(),
{
    if i < v.len() - 1 {
        lemma_entries_at(v.drop_last(), i, k);
    }
}

proof fn lemma_entries_absent(v: Seq<(Vec<char>, LexEntryId)>, k: Seq<char>)
    requires
        forall|m: int| 0 <= m < v.len() ==> (#[trigger] v[m]).0@ != k,
    ensures
        !entries_map(v).dom().contains(k),
    decreases v.len(),
{
    if v.len() > 0 {
        lemma_entries_absent(v.drop_last(), k);
    }
}

proof fn lemma_irregular_entries_at(v: Seq<(Vec<char>, LexEntryId, Root)>, i: int, k: Seq<char>)
    requires
        0 <= i < v.len(),
        v[i].0@ == k,
        forall|m: int| i < m < v.len() ==> (#[trigger] v[m]).0@ != k,
    ensures
        irregular_entries_map(v).dom().contains(k),
        irregular_entries_map(v)[k] == (v[i].1.0 as nat, v[i].2@),
    decreases v.len(),
{
    if i < v.len() - 1 {
        lemma_irregular_entries_at(v.drop_last(), i, k);
    }
}

proof fn lemma_irregular_entries_absent(v: Seq<(Vec<char>, LexEntryId, Root)>, k: Seq<char>)
    requires
        forall|m: int| 0 <= m < v.len() ==> (#[trigger] v[m]).0@ != k,
    ensures
        !irregular_entries_map(v).dom().contains(k),
    decreases v.len(),
{
    if v.len() > 0 {
        lemma_irregular_entries_absent(v.drop_last(), k);
    }
}

/// The id of `key` in `v`: that of its last entry.
fn lookup(v: &Vec<(Vec<char>, LexEntryId)>, key: &[char]) -> (r: Option<LexEntryId>)
    ensures
        r is Some <==> entries_map(v@).dom().contains(key@),
        r matches Some(id) ==> id.0 == entries_map(v@)[key@],
{
    let mut j: usize = v.len();
    while j > 0
        invariant
            j <= v@.len(),
            forall|m: int| j <= m < v@.len() ==> (#[trigger] v@[m]).0@ != key@,
        decreases j,
    {
        if chars_eq(v[j - 1].0.as_slice(), key) {
            proof {
                lemma_entries_at(v@, j - 1, key@);
            }
            return Some(v[j - 1].1);
        }
        j = j - 1;
    }
    proof {
        lemma_entries_absent(v@, key@);
    }
    None
}

/// The id and root of `key` in `v`: those of its last entry.
fn lookup_irregular(v: &Vec<(Vec<char>, LexEntryId, Root)>, key: &[char]) -> (r: Option<
    (LexEntryId, Root),
>)
    ensures
        r is Some <==> irregular_entries_map(v@).dom().contains(key@),
        r matches Some(e) ==> e.0.0 == irregular_entries_map(v@)[key@].0 && e.1@
            == irregular_entries_map(v@)[key@].1,
{
    let mut j: usize = v.len();
    while j > 0
        invariant
            j <= v@.len(),
            forall|m: int| j <= m < v@.len() ==> (#[trigger] v@[m]).0@ != key@,
        decreases j,
    {
        if chars_eq(v[j - 1].0.as_slice(), key) {
            proof {
                lemma_irregular_entries_at(v@, j - 1, key@);
            }
            return Some((v[j - 1].1, v[j - 1].2.duplicate()));
        }
        j = j - 1;
    }
    proof {
        lemma_irregular_entries_absent(v@, key@);
    }
    None
}

/// The embedded bootstrap lexicon.
#[derive(Debug, Clone)]
pub struct BootstrapLexicon {
    /// Root radicals and entry ids.
    roots: Vec<(Vec<char>, LexEntryId)>,
    /// Particle surfaces (normalized) and entry ids.
    particles: Vec<(Vec<char>, LexEntryId)>,
    /// Irregular surfaces (normalized, diacritics kept), entry ids and roots.
    irregulars: Vec<(Vec<char>, LexEntryId, Root)>,
    hash: ContentHash,
}

/// Entry `i` of `words` keyed by its characters, with id `base + i`.
fn id_entries(words: &Vec<String>, base: u32) -> (r: Vec<(Vec<char>, LexEntryId)>)
    requires
        base + words@.len() <= u32::MAX,
    ensures
        entries_map(r@) == id_map(words@.map_values(|s: String| s@), base as nat),
{
    let ghost keys = words@.map_values(|s: String| s@);
    let mut out: Vec<(Vec<char>, LexEntryId)> = Vec::new();
    let mut i: usize = 0;
    assert(keys.take(0) =~= Seq::<Seq<char>>::empty());
    while i < words.len()
        invariant
            keys == words@.map_values(|s: String| s@),
            base + words@.len() <= u32::MAX,
            i <= words@.len(),
            entries_map(out@) == id_map(keys.take(i as int), base as nat),
        decreases words@.len() - i,
    {
        let k = chars_of_string(&words[i]);
        let ghost before = out@;
        out.push((k, LexEntryId(base + i as u32)));
        proof {
            assert(out@.drop_last() =~= before);
            assert(keys.take(i as int + 1).drop_last() =~= keys.take(i as int));
            assert(keys.take(i as int + 1).last() == keys[i as int]);
        }
        i = i + 1;
    }
    assert(keys.take(words@.len() as int) =~= keys);
    out
}

/// Irregular form `i` of `pairs` keyed by its surface, with id `base + i` and
/// the root its second string spells.
fn irregular_entries(pairs: &Vec<(String, String)>, base: u32) -> (r: Vec<
    (Vec<char>, LexEntryId, Root),
>)
    requires
        base + pairs@.len() <= u32::MAX,
    ensures
        irregular_entries_map(r@) == irregular_map(
            pairs@.map_values(|p: (String, String)| (p.0@, p.1@)),
            base as nat,
        ),
{
    let ghost irs = pairs@.map_values(|p: (String, String)| (p.0@, p.1@));
    let mut out: Vec<(Vec<char>, LexEntryId, Root)> = Vec::new();
    let mut i: usize = 0;
    assert(irs.take(0) =~= Seq::<(Seq<char>, Seq<char>)>::empty());
    while i < pairs.len()
        invariant
            irs == pairs@.map_values(|p: (String, String)| (p.0@, p.1@)),
            base + pairs@.len() <= u32::MAX,
            i <= pairs@.len(),
            irregular_entries_map(out@) == irregular_map(irs.take(i as int), base as nat),
        decreases pairs@.len() - i,
    {
        let k = chars_of_string(&pairs[i].0);
        let rc = chars_of_string(&pairs[i].1);
        let root = Root::from_chars(rc.as_slice());
        let ghost before = out@;
        out.push((k, LexEntryId(base + i as u32), root));
        proof {
            assert(out@.drop_last() =~= before);
            assert(irs.take(i as int + 1).drop_last() =~= irs.take(i as int));
            assert(irs.take(i as int + 1).last() == irs[i as int]);
        }
        i = i + 1;
    }
    assert(irs.take(pairs@.len() as int) =~= irs);
    out
}

impl BootstrapLexicon {
    /// The lexicon a file describes, with the given content hash. Roots get
    /// ids from [`ROOT_ID_BASE`], particles from [`PARTICLE_ID_BASE`],
    /// irregular forms from [`IRREGULAR_ID_BASE`], each in file order.
    fn from_file(file: &LexiconFile, hash: ContentHash) -> (r: BootstrapLexicon)
        requires
            file.roots@.len() < PARTICLE_ID_BASE - ROOT_ID_BASE,
            file.particles@.len() < IRREGULAR_ID_BASE - PARTICLE_ID_BASE,
            file.irregulars@.len() < IRREGULAR_ID_BASE,
        ensures
            r.known_roots() == id_map(lexicon_file_view(*file).0, ROOT_ID_BASE as nat),
            r.known_particles() == id_map(lexicon_file_view(*file).1, PARTICLE_ID_BASE as nat),
            r.known_irregulars() == irregular_map(
                lexicon_file_view(*file).2,
                IRREGULAR_ID_BASE as nat,
            ),
            r.content_hash() == hash.0@,
    {
        BootstrapLexicon {
            roots: id_entries(&file.roots, ROOT_ID_BASE),
            particles: id_entries(&file.particles, PARTICLE_ID_BASE),
            irregulars: irregular_entries(&file.irregulars, IRREGULAR_ID_BASE),
            hash,
        }
    }

    /// The embedded lexicon [`LEXICON_TOML`]: roots numbered from 1, particles
    /// from 1 000 000, irregular forms from 2 000 000 in ascending order of
    /// surface; its hash is the BLAKE3 digest of the published bytes.
    pub fn load() -> (r: BootstrapLexicon)
        ensures
            r.known_roots() == id_map(builtin_roots(), ROOT_ID_BASE as nat),
            r.known_particles() == id_map(builtin_particles(), PARTICLE_ID_BASE as nat),
            r.known_irregulars() == irregular_map(builtin_irregulars(), IRREGULAR_ID_BASE as nat),
            r.content_hash() == blake3_hex(encode_utf8(LEXICON_TOML@)),
    {
        let file = builtin_lexicon_file();
        let hash = ContentHash::of(LEXICON_TOML.as_bytes());
        BootstrapLexicon::from_file(&file, hash)
    }
}

impl Default for BootstrapLexicon {
    /// The embedded lexicon.
    fn default() -> (r: BootstrapLexicon)
        ensures
            r.known_roots() == id_map(builtin_roots(), ROOT_ID_BASE as nat),
            r.known_particles() == id_map(builtin_particles(), PARTICLE_ID_BASE as nat),
            r.known_irregulars() == irregular_map(builtin_irregulars(), IRREGULAR_ID_BASE as nat),
            r.content_hash() == blake3_hex(encode_utf8(LEXICON_TOML@)),
    {
        BootstrapLexicon::load()
    }
}

impl Lexicon for BootstrapLexicon {
    closed spec fn known_roots(&self) -> Map<Seq<char>, nat> {
        entries_map(self.roots@)
    }

    closed spec fn known_particles(&self) -> Map<Seq<char>, nat> {
        entries_map(self.particles@)
    }

    closed spec fn known_irregulars(&self) -> Map<Seq<char>, (nat, Seq<char>)> {
        irregular_entries_map(self.irregulars@)
    }

    closed spec fn content_hash(&self) -> Seq<char> {
        self.hash.0@
    }

    fn root_id(&self, root: &Root) -> (r: Option<LexEntryId>) {
        lookup(&self.roots, root.radicals.as_slice())
    }

    fn particle_id(&self, surface: &str) -> (r: Option<LexEntryId>) {
        let k = chars_of(surface);
        lookup(&self.particles, k.as_slice())
    }

    fn irregular(&self, surface: &str) -> (r: Option<(LexEntryId, Root)>) {
        let k = chars_of(surface);
        lookup_irregular(&self.irregulars, k.as_slice())
    }

    fn hash(&self) -> (r: ContentHash) {
        self.hash.duplicate()
    }
}

proof fn lemma_id_map_range(keys: Seq<Seq<char>>, base: nat)
    ensures
        forall|k: Seq<char>|
            #[trigger] id_map(keys, base).dom().contains(k) ==> base <= id_map(keys, base)[k] < base
                + keys.len(),
    decreases keys.len(),
{
    if keys.len() > 0 {
        let rest = keys.drop_last();
        lemma_id_map_range(rest, base);
        assert forall|k: Seq<char>| #[trigger] id_map(keys, base).dom().contains(k) implies base
            <= id_map(keys, base)[k] < base + keys.len() by {
            if k != keys.last() {
                assert(id_map(rest, base).dom().contains(k));
            }
        }
    }
}

proof fn lemma_irregular_map_range(irs: Seq<(Seq<char>, Seq<char>)>, base: nat)
    ensures
        forall|k: Seq<char>|
            #[trigger] irregular_map(irs, base).dom().contains(k) ==> base <= irregular_map(
                irs,
                base,
            )[k].0 < base + irs.len(),
    decreases irs.len(),
{
    if irs.len() > 0 {
        let rest = irs.drop_last();
        lemma_irregular_map_range(rest, base);
        assert forall|k: Seq<char>| #[trigger] irregular_map(irs, base).dom().contains(k) implies base
            <= irregular_map(irs, base)[k].0 < base + irs.len() by {
            if k != irs.last().0 {
                assert(irregular_map(rest, base).dom().contains(k));
            }
        }
    }
}

/// Entry ids lie in disjoint ranges: when there are fewer roots than the gap
/// up to [`PARTICLE_ID_BASE`] and fewer particles than the gap up to
/// [`IRREGULAR_ID_BASE`], root ids are below [`PARTICLE_ID_BASE`], particle
/// ids from there below [`IRREGULAR_ID_BASE`], and irregular-form ids from
/// there on.
pub proof fn law_entry_ids_disjoint(
    roots: Seq<Seq<char>>,
    particles: Seq<Seq<char>>,
    irregulars: Seq<(Seq<char>, Seq<char>)>,
)
    requires
        roots.len() < PARTICLE_ID_BASE - ROOT_ID_BASE,
        particles.len() < IRREGULAR_ID_BASE - PARTICLE_ID_BASE,
    ensures
        forall|k: Seq<char>|
            #[trigger] id_map(roots, ROOT_ID_BASE as nat).dom().contains(k) ==> ROOT_ID_BASE
                <= id_map(roots, ROOT_ID_BASE as nat)[k] < PARTICLE_ID_BASE,
        forall|k: Seq<char>|
            #[trigger] id_map(particles, PARTICLE_ID_BASE as nat).dom().contains(k)
                ==> PARTICLE_ID_BASE <= id_map(particles, PARTICLE_ID_BASE as nat)[k]
                < IRREGULAR_ID_BASE,
        forall|k: Seq<char>|
            #[trigger] irregular_map(irregulars, IRREGULAR_ID_BASE as nat).dom().contains(k)
                ==> IRREGULAR_ID_BASE <= irregular_map(irregulars, IRREGULAR_ID_BASE as nat)[k].0,
{
    lemma_id_map_range(roots, ROOT_ID_BASE as nat);
    lemma_id_map_range(particles, PARTICLE_ID_BASE as nat);
    lemma_irregular_map_range(irregulars, IRREGULAR_ID_BASE as nat);
}

} // verus!
