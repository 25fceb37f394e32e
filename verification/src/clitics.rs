//! Clitic splitting — proclitic and enclitic segmentation.
//!
//! Peels recognized clitics off a token to expose its stem, emitting a *forest*
//! of candidate splits (always including the identity "no split" candidate)
//! rather than committing to one segmentation. Undiacritized Arabic is
//! genuinely ambiguous here — «كتابه» is كتاب+ه ("his book"), but the leading
//! «ك» of any word could also be the ka- proclitic — so later stages re-rank
//! these candidates. Until then the identity candidate ranks highest.
//!
//! Clitics are matched on the token's RAW surface and their spans are global
//! byte offsets into the raw input (`token.span.start + local offset`).
//!
//! Scope: proclitics peeled in order — conjunction (و ف), particle /
//! preposition / future (ب ك ل س), definite article (ال); at most one
//! pronominal enclitic. The splitter deliberately over-generates; a lexicon
//! stage prunes.
use vstd::prelude::*;
use vstd::utf8::encode_utf8;

use crate::conf::{Conf, CONF_SCALE};
use crate::morph_ir::{ByteSpan, Clitic, CliticId, Enclitics, Proclitics, Stem, enclitics_items, proclitics_items, clitic_views};
use crate::rank::{Ranked, chars_key, key_lt, lemma_key_lt_cons, sort_by_key, sort_ranked, rank_of, lemma_sort_by_key_map};
use crate::text::{byte_len, chars_of_string, lemma_byte_len_prefix_mono, lemma_byte_len_prefix_step, string_of, utf8_width, lemma_byte_len_concat};
use crate::tokenize::{Token, TokenKind};

verus! {

/// What a clitic holds: form, identifier, span.
pub type CliticView = (Seq<char>, CliticId, ByteSpan);

/// What a stem holds: surface and optional lemma.
pub open spec fn stem_view(s: Stem) -> (Seq<char>, Option<Seq<char>>) {
    (
        s.surface@,
        match s.lemma {
            Some(l) => Some(l@),
            None => None,
        },
    )
}

/// One candidate decomposition of a token into proclitics + stem + enclitics.
#[derive(Debug, Clone, PartialEq, Eq, Hash)]
pub struct CliticSplit {
    pub proclitics: Proclitics,
    pub stem: Stem,
    pub enclitics: Enclitics,
    pub confidence: Conf,
}

/// What a split holds: proclitics, stem, enclitics, confidence (millionths).
pub type SplitView = (Seq<CliticView>, (Seq<char>, Option<Seq<char>>), Seq<CliticView>, nat);

/// The view of a split.
pub open spec fn split_view(c: CliticSplit) -> SplitView {
    (
        clitic_views(proclitics_items(c.proclitics)),
        stem_view(c.stem),
        clitic_views(enclitics_items(c.enclitics)),
        c.confidence@,
    )
}

/// Splits rank by confidence, highest first, then by stem surface.
pub open spec fn split_rank(v: SplitView) -> Seq<int> {
    seq![-(v.3 as int)] + chars_key(v.1.0)
}

/// Conjunction proclitics (position 1) and their stable ids.
pub open spec fn conj_table() -> Seq<(Seq<char>, u16)> {
    seq![(seq!['\u{0648}'], 100u16), (seq!['\u{0641}'], 101u16)]
}

/// Particle / preposition / future proclitics (position 2).
pub open spec fn particle_table() -> Seq<(Seq<char>, u16)> {
    seq![
        (seq!['\u{0628}'], 110u16),
        (seq!['\u{0643}'], 111u16),
        (seq!['\u{0644}'], 112u16),
        (seq!['\u{0633}'], 113u16),
    ]
}

/// The definite article (position 3).
pub open spec fn article_form() -> Seq<char> {
    seq!['\u{0627}', '\u{0644}']
}

/// The definite article's stable id.
pub const ARTICLE_ID: u16 = 120;

/// Enclitic pronominal suffixes, longest first for greedy matching.
pub open spec fn enclitic_table() -> Seq<(Seq<char>, u16)> {
    seq![
        (seq!['\u{0647}', '\u{0645}', '\u{0627}'], 200u16),
        (seq!['\u{0643}', '\u{0645}', '\u{0627}'], 201u16),
        (seq!['\u{0647}', '\u{0645}'], 202u16),
        (seq!['\u{0647}', '\u{0646}'], 203u16),
        (seq!['\u{0643}', '\u{0645}'], 204u16),
        (seq!['\u{0643}', '\u{0646}'], 205u16),
        (seq!['\u{0646}', '\u{0627}'], 206u16),
        (seq!['\u{0647}', '\u{0627}'], 207u16),
        (seq!['\u{0646}', '\u{064A}'], 208u16),
        (seq!['\u{0647}'], 209u16),
        (seq!['\u{0643}'], 210u16),
        (seq!['\u{064A}'], 211u16),
    ]
}

/// Minimum stem length (in chars) for a peel candidate to be offered.
pub const MIN_STEM_CHARS: usize = 2;

/// Confidence prior of the identity split (millionths).
pub const CONF_IDENTITY: u32 = 600_000;

/// Confidence prior of a split peeling proclitics or an enclitic (millionths).
pub const CONF_SINGLE_AFFIX: u32 = 500_000;

/// Confidence prior of a split peeling both (millionths).
pub const CONF_BOTH_AFFIXES: u32 = 450_000;

/// `p` is a prefix of `s`.
pub open spec fn is_prefix(p: Seq<char>, s: Seq<char>) -> bool {
    p.len() <= s.len() && s.take(p.len() as int) == p
}

/// `p` is a suffix of `s`.
pub open spec fn is_suffix(p: Seq<char>, s: Seq<char>) -> bool {
    p.len() <= s.len() && s.skip(s.len() - p.len()) == p
}

/// The first table entry whose form is a prefix of `s`.
pub open spec fn first_prefix(s: Seq<char>, t: Seq<(Seq<char>, u16)>) -> Option<(Seq<char>, u16)>
    decreases t.len(),
{
    if t.len() == 0 {
        None
    } else if is_prefix(t[0].0, s) {
        Some(t[0])
    } else {
        first_prefix(s, t.drop_first())
    }
}

/// The first table entry whose form is a suffix of `s`.
pub open spec fn first_suffix(s: Seq<char>, t: Seq<(Seq<char>, u16)>) -> Option<(Seq<char>, u16)>
    decreases t.len(),
{
    if t.len() == 0 {
        None
    } else if is_suffix(t[0].0, s) {
        Some(t[0])
    } else {
        first_suffix(s, t.drop_first())
    }
}

/// The clitic `f` (id `id`) found at character position `off` of `raw`, whose
/// first byte is at `base` in the input.
pub open spec fn clitic_at(f: Seq<char>, id: u16, base: u32, raw: Seq<char>, off: int) -> CliticView {
    (
        f,
        CliticId(id),
        ByteSpan {
            start: (base + byte_len(raw.take(off))) as u32,
            end: (base + byte_len(raw.take(off)) + byte_len(f)) as u32,
        },
    )
}

/// Peel one optional clitic from table `t` at position `off`.
pub open spec fn peel_from(t: Seq<(Seq<char>, u16)>, raw: Seq<char>, base: u32, off: int) -> (
    Seq<CliticView>,
    int,
) {
    match first_prefix(raw.skip(off), t) {
        Some(e) => (seq![clitic_at(e.0, e.1, base, raw, off)], off + e.0.len()),
        None => (Seq::<CliticView>::empty(), off),
    }
}

/// The proclitic sequence (conjunction?, particle?, article?) peeled off the
/// front of `raw`, and the character position where the stem begins.
pub open spec fn peel_proclitics(raw: Seq<char>, base: u32) -> (Seq<CliticView>, int) {
    let (c1, o1) = peel_from(conj_table(), raw, base, 0);
    let (c2, o2) = peel_from(particle_table(), raw, base, o1);
    let (c3, o3) = peel_from(seq![(article_form(), ARTICLE_ID)], raw, base, o2);
    (c1 + c2 + c3, o3)
}

/// The enclitic peeled off the end of `raw`, and where it begins.
pub open spec fn peel_enclitic(raw: Seq<char>, base: u32) -> Option<(CliticView, int)> {
    match first_suffix(raw, enclitic_table()) {
        Some(e) => Some(
            (
                clitic_at(e.0, e.1, base, raw, raw.len() - e.0.len()),
                raw.len() - e.0.len(),
            ),
        ),
        None => None,
    }
}

/// Append the candidate with stem `raw[a..b]` unless that stem is shorter
/// than [`MIN_STEM_CHARS`].
pub open spec fn push_candidate(
    out: Seq<SplitView>,
    raw: Seq<char>,
    procs: Seq<CliticView>,
    encs: Seq<CliticView>,
    a: int,
    b: int,
    conf: nat,
) -> Seq<SplitView> {
    if b <= a || b - a < MIN_STEM_CHARS {
        out
    } else {
        out.push((procs, (raw.subrange(a, b), None), encs, conf))
    }
}

/// The candidate splits of a token, in the order they are generated: the
/// identity; for Arabic tokens then proclitics + enclitic, proclitics only,
/// enclitic only — each if its clitics were found and its stem is long enough.
pub open spec fn split_candidates(raw: Seq<char>, base: u32, kind: TokenKind) -> Seq<SplitView> {
    let identity: SplitView = (Seq::empty(), (raw, None), Seq::empty(), CONF_IDENTITY as nat);
    if kind != TokenKind::Arabic {
        seq![identity]
    } else {
        let (procs, po) = peel_proclitics(raw, base);
        let enc = peel_enclitic(raw, base);
        let es = match enc {
            Some(e) => e.1,
            None => raw.len() as int,
        };
        let encs = match enc {
            Some(e) => seq![e.0],
            None => Seq::<CliticView>::empty(),
        };
        let l0 = seq![identity];
        let l1 = if procs.len() > 0 && enc is Some {
            push_candidate(l0, raw, procs, encs, po, es, CONF_BOTH_AFFIXES as nat)
        } else {
            l0
        };
        let l2 = if procs.len() > 0 {
            push_candidate(l1, raw, procs, Seq::empty(), po, raw.len() as int, CONF_SINGLE_AFFIX as nat)
        } else {
            l1
        };
        if enc is Some {
            push_candidate(l2, raw, Seq::empty(), encs, 0, es, CONF_SINGLE_AFFIX as nat)
        } else {
            l2
        }
    }
}

/// The forest of splits of a token: its candidates ranked by confidence
/// (highest first), ties by stem surface.
pub open spec fn split_forest(raw: Seq<char>, base: u32, kind: TokenKind) -> Seq<SplitView> {
    sort_by_key(split_candidates(raw, base, kind), |v: SplitView| split_rank(v))
}

/// A forest of clitic splits, kept inline for up to four.
#[verifier::external_body]
#[derive(Debug, PartialEq, Eq, Hash)]
pub struct SplitForest {
    inner: smallvec::SmallVec<[CliticSplit; 4]>,
}

/// The items held by a `SplitForest`, in order.
pub uninterp spec fn split_forest_items(v: SplitForest) -> Seq<CliticSplit>;

/// `SmallVec::from_vec`: the inline vector holding exactly `v`'s items.
#[verifier::external_body]
fn split_forest_from_vec(v: Vec<CliticSplit>) -> (r: SplitForest)
    ensures
        split_forest_items(r) == v@,
{
    SplitForest { inner: smallvec::SmallVec::from_vec(v) }
}

/// `SmallVec::as_slice`: the items in order.
#[verifier::external_body]
fn split_forest_as_slice(v: &SplitForest) -> (r: &[CliticSplit])
    ensures
        r@ == split_forest_items(*v),
{
    v.inner.as_slice()
}

impl Clone for SplitForest {
    /// `SmallVec::clone`: a vector with the same items.
    #[verifier::external_body]
    fn clone(&self) -> (r: Self)
        ensures
            split_forest_items(r) == split_forest_items(*self),
    {
        SplitForest { inner: self.inner.clone() }
    }
}

impl SplitForest {
    /// The inline vector holding exactly `v`'s items.
    pub fn from_vec(v: Vec<CliticSplit>) -> (r: SplitForest)
        ensures
            split_forest_items(r) == v@,
    {
        split_forest_from_vec(v)
    }

    /// The items in order.
    pub fn as_slice(&self) -> (r: &[CliticSplit])
        ensures
            r@ == split_forest_items(*self),
    {
        split_forest_as_slice(self)
    }

    /// The number of items.
    pub fn len(&self) -> (r: usize)
        ensures
            r == split_forest_items(*self).len(),
    {
        split_forest_as_slice(self).len()
    }

    /// True when there are no items.
    pub fn is_empty(&self) -> (r: bool)
        ensures
            r == (split_forest_items(*self).len() == 0),
    {
        split_forest_as_slice(self).len() == 0
    }
}


impl Ranked for CliticSplit {
    open spec fn rank_key(&self) -> Seq<int> {
        split_rank(split_view(*self))
    }

    fn ranks_before(&self, other: &Self) -> (r: bool) {
        let a = self.confidence.millionths();
        let b = other.confidence.millionths();
        proof {
            lemma_key_lt_cons(-(a as int), chars_key(self.stem.surface@), -(b as int), chars_key(other.stem.surface@));
        }
        if a != b {
            a > b
        } else {
            let x = chars_of_string(&self.stem.surface);
            let y = chars_of_string(&other.stem.surface);
            chars_lt(x.as_slice(), y.as_slice())
        }
    }
}

/// Whether `a` comes strictly before `b` in code point order.
pub fn chars_lt(a: &[char], b: &[char]) -> (r: bool)
    ensures
        r == key_lt(chars_key(a@), chars_key(b@)),
{
    assert(a@.skip(0) =~= a@);
    assert(b@.skip(0) =~= b@);
    let mut i: usize = 0;
    while i < a.len() && i < b.len() && a[i] == b[i]
        invariant
            i <= a@.len(),
            i <= b@.len(),
            key_lt(chars_key(a@), chars_key(b@)) == key_lt(chars_key(a@.skip(i as int)), chars_key(b@.skip(i as int))),
        decreases a@.len() - i,
    {
        proof {
            let x = chars_key(a@.skip(i as int));
            let y = chars_key(b@.skip(i as int));
            assert(x.drop_first() =~= chars_key(a@.skip(i as int + 1)));
            assert(y.drop_first() =~= chars_key(b@.skip(i as int + 1)));
        }
        i = i + 1;
    }
    let ghost x = chars_key(a@.skip(i as int));
    let ghost y = chars_key(b@.skip(i as int));
    if i == a.len() {
        assert(x.len() == 0);
        i < b.len()
    } else if i == b.len() {
        false
    } else {
        assert(x[0] == a@[i as int] as int);
        assert(y[0] == b@[i as int] as int);
        a[i] < b[i]
    }
}


/// The forms and ids of a clitic table.
pub open spec fn table_view(t: Seq<(Vec<char>, u16)>) -> Seq<(Seq<char>, u16)> {
    t.map_values(|e: (Vec<char>, u16)| (e.0@, e.1))
}

fn form1(a: char) -> (r: Vec<char>)
    ensures
        r@ == seq![a],
{
    let mut v = Vec::new();
    v.push(a);
    assert(v@ =~= seq![a]);
    v
}

fn form2(a: char, b: char) -> (r: Vec<char>)
    ensures
        r@ == seq![a, b],
{
    let mut v = Vec::new();
    v.push(a);
    v.push(b);
    assert(v@ =~= seq![a, b]);
    v
}

fn form3(a: char, b: char, c: char) -> (r: Vec<char>)
    ensures
        r@ == seq![a, b, c],
{
    let mut v = Vec::new();
    v.push(a);
    v.push(b);
    v.push(c);
    assert(v@ =~= seq![a, b, c]);
    v
}

fn conj_entries() -> (r: Vec<(Vec<char>, u16)>)
    ensures
        table_view(r@) == conj_table(),
{
    let mut r = Vec::new();
    r.push((form1('\u{0648}'), 100u16));
    r.push((form1('\u{0641}'), 101u16));
    assert(table_view(r@) =~= conj_table());
    r
}

fn particle_entries() -> (r: Vec<(Vec<char>, u16)>)
    ensures
        table_view(r@) == particle_table(),
{
    let mut r = Vec::new();
    r.push((form1('\u{0628}'), 110u16));
    r.push((form1('\u{0643}'), 111u16));
    r.push((form1('\u{0644}'), 112u16));
    r.push((form1('\u{0633}'), 113u16));
    assert(table_view(r@) =~= particle_table());
    r
}

fn article_entries() -> (r: Vec<(Vec<char>, u16)>)
    ensures
        table_view(r@) == seq![(article_form(), ARTICLE_ID)],
{
    let mut r = Vec::new();
    r.push((form2('\u{0627}', '\u{0644}'), ARTICLE_ID));
    assert(table_view(r@) =~= seq![(article_form(), ARTICLE_ID)]);
    r
}

fn enclitic_entries() -> (r: Vec<(Vec<char>, u16)>)
    ensures
        table_view(r@) == enclitic_table(),
{
    let mut r = Vec::new();
    r.push((form3('\u{0647}', '\u{0645}', '\u{0627}'), 200u16));
    r.push((form3('\u{0643}', '\u{0645}', '\u{0627}'), 201u16));
    r.push((form2('\u{0647}', '\u{0645}'), 202u16));
    r.push((form2('\u{0647}', '\u{0646}'), 203u16));
    r.push((form2('\u{0643}', '\u{0645}'), 204u16));
    r.push((form2('\u{0643}', '\u{0646}'), 205u16));
    r.push((form2('\u{0646}', '\u{0627}'), 206u16));
    r.push((form2('\u{0647}', '\u{0627}'), 207u16));
    r.push((form2('\u{0646}', '\u{064A}'), 208u16));
    r.push((form1('\u{0647}'), 209u16));
    r.push((form1('\u{0643}'), 210u16));
    r.push((form1('\u{064A}'), 211u16));
    assert(table_view(r@) =~= enclitic_table());
    r
}

/// The entry `first_prefix` finds is a prefix.
proof fn lemma_first_prefix(s: Seq<char>, t: Seq<(Seq<char>, u16)>)
    ensures
        first_prefix(s, t) matches Some(e) ==> is_prefix(e.0, s),
    decreases t.len(),
{
    if t.len() > 0 && !is_prefix(t[0].0, s) {
        lemma_first_prefix(s, t.drop_first());
    }
}

/// The entry `first_suffix` finds is a suffix.
proof fn lemma_first_suffix(s: Seq<char>, t: Seq<(Seq<char>, u16)>)
    ensures
        first_suffix(s, t) matches Some(e) ==> is_suffix(e.0, s),
    decreases t.len(),
{
    if t.len() > 0 && !is_suffix(t[0].0, s) {
        lemma_first_suffix(s, t.drop_first());
    }
}

/// Whether `p` occurs in `s` at position `off`.
fn has_prefix_at(s: &[char], off: usize, p: &[char]) -> (r: bool)
    requires
        off <= s@.len(),
    ensures
        r == is_prefix(p@, s@.skip(off as int)),
{
    if p.len() > s.len() - off {
        return false;
    }
    let mut i: usize = 0;
    while i < p.len()
        invariant
            p@.len() <= s@.len() - off,
            off <= s@.len(),
            i <= p@.len(),
            forall|k: int| 0 <= k < i ==> s@[off + k] == p@[k],
        decreases p@.len() - i,
    {
        assert(off + i < s.len());
        if s[off + i] != p[i] {
            assert(s@.skip(off as int).take(p@.len() as int)[i as int] != p@[i as int]);
            return false;
        }
        i = i + 1;
    }
    assert(s@.skip(off as int).take(p@.len() as int) =~= p@);
    true
}

/// Whether `p` ends `s`.
fn has_suffix(s: &[char], p: &[char]) -> (r: bool)
    ensures
        r == is_suffix(p@, s@),
{
    if p.len() > s.len() {
        return false;
    }
    let off = s.len() - p.len();
    let r = has_prefix_at(s, off, p);
    assert(s@.skip(off as int).take(p@.len() as int) =~= s@.skip(off as int));
    r
}

/// The index of the first entry of `t` whose form occurs in `s` at `off`.
fn find_prefix(s: &[char], off: usize, t: &Vec<(Vec<char>, u16)>) -> (r: Option<usize>)
    requires
        off <= s@.len(),
    ensures
        match first_prefix(s@.skip(off as int), table_view(t@)) {
            Some(e) => r matches Some(k) && k < t@.len() && table_view(t@)[k as int] == e,
            None => r is None,
        },
{
    let ghost tv = table_view(t@);
    assert(tv.skip(0) =~= tv);
    let mut i: usize = 0;
    while i < t.len()
        invariant
            tv == table_view(t@),
            off <= s@.len(),
            i <= t@.len(),
            first_prefix(s@.skip(off as int), tv) == first_prefix(s@.skip(off as int), tv.skip(i as int)),
        decreases t@.len() - i,
    {
        assert(tv.skip(i as int)[0] == tv[i as int]);
        assert(tv.skip(i as int).drop_first() =~= tv.skip(i as int + 1));
        if has_prefix_at(s, off, t[i].0.as_slice()) {
            return Some(i);
        }
        i = i + 1;
    }
    None
}

/// The index of the first entry of `t` whose form ends `s`.
fn find_suffix(s: &[char], t: &Vec<(Vec<char>, u16)>) -> (r: Option<usize>)
    ensures
        match first_suffix(s@, table_view(t@)) {
            Some(e) => r matches Some(k) && k < t@.len() && table_view(t@)[k as int] == e,
            None => r is None,
        },
{
    let ghost tv = table_view(t@);
    assert(tv.skip(0) =~= tv);
    let mut i: usize = 0;
    while i < t.len()
        invariant
            tv == table_view(t@),
            i <= t@.len(),
            first_suffix(s@, tv) == first_suffix(s@, tv.skip(i as int)),
        decreases t@.len() - i,
    {
        assert(tv.skip(i as int)[0] == tv[i as int]);
        assert(tv.skip(i as int).drop_first() =~= tv.skip(i as int + 1));
        if has_suffix(s, t[i].0.as_slice()) {
            return Some(i);
        }
        i = i + 1;
    }
    None
}

/// The UTF-8 byte length of `cs[..k]`.
pub fn prefix_bytes(cs: &[char], k: usize) -> (r: u32)
    requires
        k <= cs@.len(),
        byte_len(cs@) <= u32::MAX,
    ensures
        r == byte_len(cs@.take(k as int)),
{
    let mut n: u32 = 0;
    let mut i: usize = 0;
    assert(cs@.take(0) =~= Seq::<char>::empty());
    while i < k
        invariant
            k <= cs@.len(),
            byte_len(cs@) <= u32::MAX,
            i <= k,
            n == byte_len(cs@.take(i as int)),
        decreases k - i,
    {
        proof {
            crate::text::lemma_byte_len_prefix_step(cs@, i as int);
            lemma_byte_len_prefix_mono(cs@, i as int + 1, cs@.len() as int);
            assert(cs@.subrange(0, i as int + 1) =~= cs@.take(i as int + 1));
            assert(cs@.subrange(0, i as int) =~= cs@.take(i as int));
            assert(cs@.take(cs@.len() as int) =~= cs@);
        }
        n = n + utf8_width(cs[i]);
        i = i + 1;
    }
    n
}

/// The string of `cs[a..b]`.
fn string_of_range(cs: &[char], a: usize, b: usize) -> (r: String)
    requires
        a <= b <= cs@.len(),
    ensures
        r@ == cs@.subrange(a as int, b as int),
{
    string_of(&cs[a..b])
}

/// The clitic `form` with identifier `id`, found at character `off` of `raw`
/// (whose first byte is at `base`).
fn mk_clitic(form: &[char], id: u16, raw: &[char], off: usize, base: u32) -> (r: Clitic)
    requires
        off + form@.len() <= raw@.len(),
        raw@.subrange(off as int, off + form@.len()) == form@,
        base + byte_len(raw@) <= u32::MAX,
    ensures
        r@ == clitic_at(form@, id, base, raw@, off as int),
{
    proof {
        lemma_byte_len_prefix_mono(raw@, off as int, off + form@.len());
        lemma_byte_len_prefix_mono(raw@, off + form@.len(), raw@.len() as int);
        assert(raw@.take(raw@.len() as int) =~= raw@);
        assert(raw@.take(off + form@.len()) =~= raw@.take(off as int) + form@);
        lemma_byte_len_concat(raw@.take(off as int), form@);
        lemma_byte_len_prefix_mono(raw@, 0, raw@.len() as int);
    }
    let start: u32 = base + prefix_bytes(raw, off);
    let width: u32 = prefix_bytes(form, form.len());
    assert(form@.take(form@.len() as int) =~= form@);
    let end: u32 = start + width;
    Clitic { form: string_of(form), clitic_id: CliticId(id), span: ByteSpan::new(start, end) }
}

/// Copies of `cs`, with equal views.
fn duplicate_clitics(cs: &Vec<Clitic>) -> (r: Vec<Clitic>)
    ensures
        clitic_views(r@) == clitic_views(cs@),
{
    let mut out: Vec<Clitic> = Vec::new();
    let mut i: usize = 0;
    while i < cs.len()
        invariant
            i <= cs@.len(),
            clitic_views(out@) == clitic_views(cs@.take(i as int)),
        decreases cs@.len() - i,
    {
        let ghost before = out@;
        let d = cs[i].duplicate();
        out.push(d);
        assert(cs@.take(i as int + 1) =~= cs@.take(i as int).push(cs@[i as int]));
        assert(clitic_views(out@) =~= clitic_views(before).push(d@));
        assert(clitic_views(cs@.take(i as int + 1)) =~= clitic_views(cs@.take(i as int)).push(
            cs@[i as int]@,
        ));
        i = i + 1;
    }
    assert(cs@.take(cs@.len() as int) =~= cs@);
    out
}

/// Peel one clitic of table `t` off `raw` at character `off`, appending it.
fn peel_one(
    t: &Vec<(Vec<char>, u16)>,
    raw: &[char],
    base: u32,
    off: usize,
    procs: &mut Vec<Clitic>,
) -> (r: usize)
    requires
        off <= raw@.len(),
        base + byte_len(raw@) <= u32::MAX,
    ensures
        r <= raw@.len(),
        clitic_views(final(procs)@) == clitic_views(old(procs)@) + peel_from(
            table_view(t@),
            raw@,
            base,
            off as int,
        ).0,
        r == peel_from(table_view(t@), raw@, base, off as int).1,
{
    proof {
        lemma_first_prefix(raw@.skip(off as int), table_view(t@));
    }
    match find_prefix(raw, off, t) {
        Some(k) => {
            let form = &t[k].0;
            assert(raw@.skip(off as int).take(form@.len() as int) =~= raw@.subrange(
                off as int,
                off + form@.len(),
            ));
            let c = mk_clitic(form.as_slice(), t[k].1, raw, off, base);
            let ghost before = procs@;
            procs.push(c);
            assert(clitic_views(procs@) =~= clitic_views(before) + seq![c@]);
            assert(off + form@.len() <= raw.len());
            off + form.len()
        },
        None => {
            assert(clitic_views(procs@) =~= clitic_views(procs@) + Seq::<CliticView>::empty());
            off
        },
    }
}

/// Peel the proclitic sequence off `raw`; returns the clitics and where the
/// stem begins.
fn peel_proclitics_exec(raw: &[char], base: u32) -> (r: (Vec<Clitic>, usize))
    requires
        base + byte_len(raw@) <= u32::MAX,
    ensures
        clitic_views(r.0@) == peel_proclitics(raw@, base).0,
        r.1 == peel_proclitics(raw@, base).1,
        r.1 <= raw@.len(),
{
    let mut procs: Vec<Clitic> = Vec::new();
    let conj = conj_entries();
    let particle = particle_entries();
    let article = article_entries();
    let o1 = peel_one(&conj, raw, base, 0, &mut procs);
    let o2 = peel_one(&particle, raw, base, o1, &mut procs);
    let o3 = peel_one(&article, raw, base, o2, &mut procs);
    assert(clitic_views(Seq::<Clitic>::empty()) =~= Seq::<CliticView>::empty());
    (procs, o3)
}

/// Peel the enclitic off the end of `raw`, if any; returns it and where it
/// begins.
fn peel_enclitic_exec(raw: &[char], base: u32) -> (r: Option<(Clitic, usize)>)
    requires
        base + byte_len(raw@) <= u32::MAX,
    ensures
        match peel_enclitic(raw@, base) {
            Some(e) => r matches Some(x) && x.0@ == e.0 && x.1 == e.1,
            None => r is None,
        },
{
    let t = enclitic_entries();
    proof {
        lemma_first_suffix(raw@, table_view(t@));
    }
    match find_suffix(raw, &t) {
        Some(k) => {
            let form = &t[k].0;
            let start = raw.len() - form.len();
            assert(raw@.skip(start as int) =~= raw@.subrange(start as int, start + form@.len()));
            let c = mk_clitic(form.as_slice(), t[k].1, raw, start, base);
            Some((c, start))
        },
        None => None,
    }
}

/// Append the candidate with stem `raw[a..b]` unless that stem is shorter
/// than [`MIN_STEM_CHARS`].
fn push_candidate_exec(
    out: &mut Vec<CliticSplit>,
    raw: &[char],
    procs: Vec<Clitic>,
    encs: Vec<Clitic>,
    a: usize,
    b: usize,
    conf: u32,
)
    requires
        a <= raw@.len(),
        b <= raw@.len(),
        conf <= CONF_SCALE,
    ensures
        final(out)@.map_values(|c: CliticSplit| split_view(c)) == push_candidate(
            old(out)@.map_values(|c: CliticSplit| split_view(c)),
            raw@,
            clitic_views(procs@),
            clitic_views(encs@),
            a as int,
            b as int,
            conf as nat,
        ),
{
    if b <= a || b - a < MIN_STEM_CHARS {
        return;
    }
    let cand = CliticSplit {
        proclitics: Proclitics::from_vec(procs),
        stem: Stem { surface: string_of_range(raw, a, b), lemma: None },
        enclitics: Enclitics::from_vec(encs),
        confidence: Conf::clamp_millionths(conf),
    };
    let ghost before = out@;
    out.push(cand);
    assert(out@.map_values(|c: CliticSplit| split_view(c)) =~= before.map_values(
        |c: CliticSplit| split_view(c),
    ).push(split_view(cand)));
}

/// The identity split of a token: no clitics, the whole raw surface as stem.
fn identity(token: &Token) -> (r: CliticSplit)
    ensures
        split_view(r) == (
            Seq::<CliticView>::empty(),
            (token.raw@, None::<Seq<char>>),
            Seq::<CliticView>::empty(),
            CONF_IDENTITY as nat,
        ),
{
    let r = CliticSplit {
        proclitics: Proclitics::from_vec(Vec::new()),
        stem: Stem { surface: token.raw.clone(), lemma: None },
        enclitics: Enclitics::from_vec(Vec::new()),
        confidence: Conf::clamp_millionths(CONF_IDENTITY),
    };
    assert(clitic_views(Seq::<Clitic>::empty()) =~= Seq::<CliticView>::empty());
    r
}

/// Compute the forest of plausible clitic splits for a token.
///
/// Always returns at least the identity split. Candidates are ordered by
/// confidence (highest first), ties by stem surface — deterministic and total.
pub fn split(token: &Token) -> (r: SplitForest)
    requires
        token.span.start + byte_len(token.raw@) <= u32::MAX,
    ensures
        split_forest_items(r).map_values(|c: CliticSplit| split_view(c)) == split_forest(
            token.raw@,
            token.span.start,
            token.kind,
        ),
{
    let raw = chars_of_string(&token.raw);
    let base = token.span.start;
    let ghost rv = raw@;
    let mut out: Vec<CliticSplit> = Vec::new();
    out.push(identity(token));
    let ghost id_view = split_view(out@[0]);
    assert(out@.map_values(|c: CliticSplit| split_view(c)) =~= seq![id_view]);
    if token.kind == TokenKind::Arabic {
        let (procs, proc_off) = peel_proclitics_exec(raw.as_slice(), base);
        let enc = peel_enclitic_exec(raw.as_slice(), base);
        let len = raw.len();
        let has_procs = procs.len() > 0;
        assert(has_procs == (peel_proclitics(rv, base).0.len() > 0));
        match enc {
            Some((e, enc_start)) => {
                let e2 = e.duplicate();
                let mut encs1: Vec<Clitic> = Vec::new();
                encs1.push(e);
                let mut encs2: Vec<Clitic> = Vec::new();
                encs2.push(e2);
                assert(clitic_views(encs1@) =~= seq![e@]);
                assert(clitic_views(encs2@) =~= seq![e@]);
                if has_procs {
                    let p1 = duplicate_clitics(&procs);
                    push_candidate_exec(&mut out, raw.as_slice(), p1, encs1, proc_off, enc_start, CONF_BOTH_AFFIXES);
                    push_candidate_exec(&mut out, raw.as_slice(), procs, Vec::new(), proc_off, len, CONF_SINGLE_AFFIX);
                }
                assert(clitic_views(Seq::<Clitic>::empty()) =~= Seq::<CliticView>::empty());
                push_candidate_exec(&mut out, raw.as_slice(), Vec::new(), encs2, 0, enc_start, CONF_SINGLE_AFFIX);
            },
            None => {
                if has_procs {
                    assert(clitic_views(Seq::<Clitic>::empty()) =~= Seq::<CliticView>::empty());
                    push_candidate_exec(&mut out, raw.as_slice(), procs, Vec::new(), proc_off, len, CONF_SINGLE_AFFIX);
                }
            },
        }
    }
    assert(out@.map_values(|c: CliticSplit| split_view(c)) == split_candidates(rv, base, token.kind));
    let sorted = sort_ranked(out);
    proof {
        assert forall|t: CliticSplit| #[trigger] rank_of(t) == split_rank(split_view(t)) by {}
        lemma_sort_by_key_map(
            out@,
            |c: CliticSplit| split_view(c),
            |t: CliticSplit| rank_of(t),
            |v: SplitView| split_rank(v),
        );
    }
    SplitForest::from_vec(sorted)
}


/// The forms of `cs`, concatenated in order.
pub open spec fn forms_concat(cs: Seq<CliticView>) -> Seq<char>
    decreases cs.len(),
{
    if cs.len() == 0 {
        Seq::<char>::empty()
    } else {
        forms_concat(cs.drop_last()) + cs.last().0
    }
}

/// The span of clitic `c` lies within bytes `lo..hi`.
pub open spec fn span_within(c: CliticView, lo: int, hi: int) -> bool {
    lo <= c.2.start && c.2.start <= c.2.end && c.2.end <= hi
}

/// Splits are reassemblable: proclitic forms, stem and enclitic forms
/// concatenate to the raw surface; every clitic span lies within the token.
pub open spec fn split_well_formed(v: SplitView, raw: Seq<char>, base: u32) -> bool {
    &&& forms_concat(v.0) + v.1.0 + forms_concat(v.2) == raw
    &&& forall|k: int|
        0 <= k < v.0.len() ==> span_within(#[trigger] v.0[k], base as int, base + byte_len(raw))
    &&& forall|k: int|
        0 <= k < v.2.len() ==> span_within(#[trigger] v.2[k], base as int, base + byte_len(raw))
}

proof fn lemma_clitic_at_within(f: Seq<char>, id: u16, base: u32, raw: Seq<char>, off: int)
    requires
        0 <= off,
        off + f.len() <= raw.len(),
        raw.subrange(off, off + f.len()) == f,
        base + byte_len(raw) <= u32::MAX,
    ensures
        span_within(clitic_at(f, id, base, raw, off), base as int, base + byte_len(raw)),
{
    lemma_byte_len_prefix_mono(raw, off + f.len(), raw.len() as int);
    assert(raw.take(raw.len() as int) =~= raw);
    assert(raw.take(off + f.len()) =~= raw.take(off) + f);
    lemma_byte_len_concat(raw.take(off), f);
}

proof fn lemma_peel_from(t: Seq<(Seq<char>, u16)>, raw: Seq<char>, base: u32, off: int)
    requires
        0 <= off <= raw.len(),
        base + byte_len(raw) <= u32::MAX,
    ensures
        off <= peel_from(t, raw, base, off).1 <= raw.len(),
        forms_concat(peel_from(t, raw, base, off).0) == raw.subrange(
            off,
            peel_from(t, raw, base, off).1,
        ),
        peel_from(t, raw, base, off).0.len() <= 1,
        forall|k: int|
            0 <= k < peel_from(t, raw, base, off).0.len() ==> span_within(
                #[trigger] peel_from(t, raw, base, off).0[k],
                base as int,
                base + byte_len(raw),
            ),
{
    lemma_first_prefix(raw.skip(off), t);
    match first_prefix(raw.skip(off), t) {
        Some(e) => {
            assert(raw.skip(off).take(e.0.len() as int) =~= raw.subrange(off, off + e.0.len()));
            lemma_clitic_at_within(e.0, e.1, base, raw, off);
            lemma_single_forms(clitic_at(e.0, e.1, base, raw, off));
        },
        None => {
            assert(raw.subrange(off, off) =~= Seq::<char>::empty());
        },
    }
}

proof fn lemma_forms_concat_append(a: Seq<CliticView>, b: Seq<CliticView>)
    ensures
        forms_concat(a + b) == forms_concat(a) + forms_concat(b),
    decreases b.len(),
{
    if b.len() == 0 {
        assert(a + b =~= a);
        assert(forms_concat(a) + Seq::<char>::empty() =~= forms_concat(a));
    } else {
        lemma_forms_concat_append(a, b.drop_last());
        assert((a + b).drop_last() =~= a + b.drop_last());
        assert((a + b).last() == b.last());
    }
}

/// The peeled proclitics are the text in front of the stem, and lie within
/// the token.
proof fn lemma_peel_proclitics(raw: Seq<char>, base: u32)
    requires
        base + byte_len(raw) <= u32::MAX,
    ensures
        peel_proclitics(raw, base).1 <= raw.len(),
        forms_concat(peel_proclitics(raw, base).0) == raw.take(peel_proclitics(raw, base).1),
        forall|k: int|
            0 <= k < peel_proclitics(raw, base).0.len() ==> span_within(
                #[trigger] peel_proclitics(raw, base).0[k],
                base as int,
                base + byte_len(raw),
            ),
{
    let (c1, o1) = peel_from(conj_table(), raw, base, 0);
    lemma_peel_from(conj_table(), raw, base, 0);
    let (c2, o2) = peel_from(particle_table(), raw, base, o1);
    lemma_peel_from(particle_table(), raw, base, o1);
    let (c3, o3) = peel_from(seq![(article_form(), ARTICLE_ID)], raw, base, o2);
    lemma_peel_from(seq![(article_form(), ARTICLE_ID)], raw, base, o2);
    lemma_forms_concat_append(c1, c2);
    lemma_forms_concat_append(c1 + c2, c3);
    assert(raw.subrange(0, o1) + raw.subrange(o1, o2) + raw.subrange(o2, o3) =~= raw.take(o3));
    let all = c1 + c2 + c3;
    assert forall|k: int| 0 <= k < all.len() implies span_within(
        #[trigger] all[k],
        base as int,
        base + byte_len(raw),
    ) by {
        if k < c1.len() {
            assert(all[k] == c1[k]);
        } else if k < c1.len() + c2.len() {
            assert(all[k] == c2[k - c1.len()]);
        } else {
            assert(all[k] == c3[k - c1.len() - c2.len()]);
        }
    }
}

/// The peeled enclitic is the text after its start, and lies in the token.
proof fn lemma_peel_enclitic(raw: Seq<char>, base: u32)
    requires
        base + byte_len(raw) <= u32::MAX,
    ensures
        peel_enclitic(raw, base) matches Some(e) ==> 0 <= e.1 <= raw.len() && e.0.0 == raw.skip(
            e.1,
        ) && span_within(e.0, base as int, base + byte_len(raw)),
{
    lemma_first_suffix(raw, enclitic_table());
    match first_suffix(raw, enclitic_table()) {
        Some(e) => {
            let st = raw.len() - e.0.len();
            assert(raw.skip(st) =~= raw.subrange(st, st + e.0.len()));
            lemma_clitic_at_within(e.0, e.1, base, raw, st);
        },
        None => {},
    }
}

proof fn lemma_single_forms(c: CliticView)
    ensures
        forms_concat(seq![c]) == c.0,
{
    reveal_with_fuel(forms_concat, 2);
    assert(seq![c].drop_last() =~= Seq::<CliticView>::empty());
    assert(Seq::<char>::empty() + c.0 =~= c.0);
}

/// The candidate peeling proclitics and the enclitic.
pub open spec fn both_candidate(raw: Seq<char>, base: u32) -> SplitView {
    let (procs, po) = peel_proclitics(raw, base);
    let e = peel_enclitic(raw, base)->0;
    (procs, (raw.subrange(po, e.1), None), seq![e.0], CONF_BOTH_AFFIXES as nat)
}

/// The candidate peeling proclitics only.
pub open spec fn procs_candidate(raw: Seq<char>, base: u32) -> SplitView {
    let (procs, po) = peel_proclitics(raw, base);
    (procs, (raw.subrange(po, raw.len() as int), None), Seq::empty(), CONF_SINGLE_AFFIX as nat)
}

/// The candidate peeling the enclitic only.
pub open spec fn enc_candidate(raw: Seq<char>, base: u32) -> SplitView {
    let e = peel_enclitic(raw, base)->0;
    (Seq::empty(), (raw.subrange(0, e.1), None), seq![e.0], CONF_SINGLE_AFFIX as nat)
}

/// The identity candidate.
pub open spec fn identity_candidate(raw: Seq<char>) -> SplitView {
    (Seq::empty(), (raw, None), Seq::empty(), CONF_IDENTITY as nat)
}

/// A stem `raw[a..b]` long enough to offer.
pub open spec fn stem_ok(a: int, b: int) -> bool {
    !(b <= a || b - a < MIN_STEM_CHARS)
}

proof fn lemma_candidates_shape(raw: Seq<char>, base: u32, kind: TokenKind)
    ensures
        ({
            let c = split_candidates(raw, base, kind);
            let (procs, po) = peel_proclitics(raw, base);
            let enc = peel_enclitic(raw, base);
            let p = kind == TokenKind::Arabic && procs.len() > 0;
            let e = kind == TokenKind::Arabic && enc is Some;
            let l1 = if p && e && stem_ok(po, (enc->0).1) {
                seq![identity_candidate(raw), both_candidate(raw, base)]
            } else {
                seq![identity_candidate(raw)]
            };
            let l2 = if p && stem_ok(po, raw.len() as int) {
                l1.push(procs_candidate(raw, base))
            } else {
                l1
            };
            c == if e && stem_ok(0, (enc->0).1) {
                l2.push(enc_candidate(raw, base))
            } else {
                l2
            }
        }),
{
    assert(seq![identity_candidate(raw)].push(both_candidate(raw, base)) =~= seq![
        identity_candidate(raw),
        both_candidate(raw, base),
    ]);
}

#[verifier::spinoff_prover]
#[verifier::rlimit(40)]
proof fn lemma_wf_candidates(raw: Seq<char>, base: u32)
    requires
        base + byte_len(raw) <= u32::MAX,
    ensures
        split_well_formed(identity_candidate(raw), raw, base),
        peel_proclitics(raw, base).0.len() > 0 && peel_enclitic(raw, base) is Some && stem_ok(
            peel_proclitics(raw, base).1,
            (peel_enclitic(raw, base)->0).1,
        ) ==> split_well_formed(both_candidate(raw, base), raw, base),
        peel_proclitics(raw, base).0.len() > 0 && stem_ok(
            peel_proclitics(raw, base).1,
            raw.len() as int,
        ) ==> split_well_formed(procs_candidate(raw, base), raw, base),
        peel_enclitic(raw, base) is Some && stem_ok(0, (peel_enclitic(raw, base)->0).1)
            ==> split_well_formed(enc_candidate(raw, base), raw, base),
{
    reveal_with_fuel(forms_concat, 1);
    assert(Seq::<char>::empty() + raw + Seq::<char>::empty() =~= raw);
    let (procs, po) = peel_proclitics(raw, base);
    let enc = peel_enclitic(raw, base);
    lemma_peel_proclitics(raw, base);
    lemma_peel_enclitic(raw, base);
    if let Some(e) = enc {
        lemma_single_forms(e.0);
        if procs.len() > 0 && stem_ok(po, e.1) {
            assert(raw.take(po) + raw.subrange(po, e.1) + raw.skip(e.1) =~= raw);
        }
        if stem_ok(0, e.1) {
            assert(Seq::<char>::empty() + raw.subrange(0, e.1) + raw.skip(e.1) =~= raw);
        }
    }
    if procs.len() > 0 && stem_ok(po, raw.len() as int) {
        assert(raw.take(po) + raw.subrange(po, raw.len() as int) + Seq::<char>::empty() =~= raw);
    }
}

/// The candidates: the identity first and at most three more, each with
/// lower confidence than the identity, each well formed, no two equal.
#[verifier::spinoff_prover]
proof fn lemma_split_candidates(raw: Seq<char>, base: u32, kind: TokenKind)
    requires
        base + byte_len(raw) <= u32::MAX,
    ensures
        ({
            let c = split_candidates(raw, base, kind);
            &&& 1 <= c.len() <= 4
            &&& c[0] == identity_candidate(raw)
            &&& forall|k: int| 1 <= k < c.len() ==> (#[trigger] c[k]).3 < CONF_IDENTITY
            &&& forall|k: int| 0 <= k < c.len() ==> split_well_formed(#[trigger] c[k], raw, base)
            &&& forall|i: int, j: int| 0 <= i < j < c.len() ==> c[i] != c[j]
        }),
{
    lemma_candidates_shape(raw, base, kind);
    lemma_wf_candidates(raw, base);
    let c = split_candidates(raw, base, kind);
    let ic = identity_candidate(raw);
    let bc = both_candidate(raw, base);
    let pc = procs_candidate(raw, base);
    let ec = enc_candidate(raw, base);
    assert(pc.2.len() == 0);
    assert(bc.2.len() == 1);
    assert(ec.0.len() == 0);
    assert(forall|k: int| 0 <= k < c.len() ==> c[k] == ic || c[k] == bc || c[k] == pc || c[k] == ec);
    assert(forall|k: int| 0 <= k < c.len() && c[k] == bc ==> k == 1);
    assert(forall|k: int| 0 <= k < c.len() && c[k] == pc ==> pc.0.len() > 0);
}

/// The forest always holds the identity split (no clitics, the whole raw
/// surface as stem) and ranks it first; it holds at most four splits, no two
/// alike; it is ranked by confidence, then stem; every split reassembles to
/// the raw surface and every clitic span lies within the token's bytes.
pub proof fn law_split_forest(raw: Seq<char>, base: u32, kind: TokenKind)
    requires
        base + byte_len(raw) <= u32::MAX,
    ensures
        ({
            let f = split_forest(raw, base, kind);
            &&& 1 <= f.len() <= 4
            &&& f[0] == (
                Seq::<CliticView>::empty(),
                (raw, None::<Seq<char>>),
                Seq::<CliticView>::empty(),
                CONF_IDENTITY as nat,
            )
            &&& crate::rank::sorted_by_key(f, |v: SplitView| split_rank(v))
            &&& forall|k: int| 0 <= k < f.len() ==> split_well_formed(#[trigger] f[k], raw, base)
            &&& forall|i: int, j: int| 0 <= i < j < f.len() ==> f[i] != f[j]
        }),
{
    let key = |v: SplitView| split_rank(v);
    let c = split_candidates(raw, base, kind);
    let f = split_forest(raw, base, kind);
    lemma_split_candidates(raw, base, kind);
    crate::rank::lemma_sort_by_key_permutes(c, key);
    crate::rank::lemma_sort_by_key_sorted(c, key);
    assert forall|x: SplitView| f.contains(x) implies c.contains(x) by {
        crate::rank::lemma_multiset_contains(f, c, x);
    }
    assert forall|k: int| 0 <= k < f.len() implies split_well_formed(#[trigger] f[k], raw, base) by {
        assert(f.contains(f[k]));
        let j = choose|j: int| 0 <= j < c.len() && c[j] == f[k];
    }
    let id = c[0];
    assert(c.contains(id));
    crate::rank::lemma_multiset_contains(c, f, id);
    let p = choose|p: int| 0 <= p < f.len() && f[p] == id;
    if p != 0 {
        assert(f.contains(f[0]));
        let j = choose|j: int| 0 <= j < c.len() && c[j] == f[0];
        if j == 0 {
            assert(c.to_multiset().count(id) == 1) by {
                crate::rank::lemma_distinct_count(c, 0);
            }
            crate::rank::lemma_count_two(f, 0, p);
        } else {
            assert(c[j].3 < CONF_IDENTITY);
            crate::rank::lemma_key_lt_cons(
                -(id.3 as int),
                chars_key(id.1.0),
                -(f[0].3 as int),
                chars_key(f[0].1.0),
            );
            assert(key_lt(key(f[p]), key(f[0])));
        }
    }
    assert forall|i: int, j: int| 0 <= i < j < f.len() implies f[i] != f[j] by {
        if f[i] == f[j] {
            assert(f.contains(f[i]));
            let a = choose|a: int| 0 <= a < c.len() && c[a] == f[i];
            crate::rank::lemma_distinct_count(c, a);
            crate::rank::lemma_count_two(f, i, j);
        }
    }
}

proof fn lemma_first_suffix_at(s: Seq<char>, t: Seq<(Seq<char>, u16)>, k: int)
    requires
        0 <= k < t.len(),
        is_suffix(t[k].0, s),
        forall|j: int| 0 <= j < k ==> !is_suffix(#[trigger] t[j].0, s),
    ensures
        first_suffix(s, t) == Some(t[k]),
    decreases k,
{
    if k > 0 {
        assert(!is_suffix(t[0].0, s));
        let r = t.drop_first();
        assert forall|j: int| 0 <= j < k - 1 implies !is_suffix(#[trigger] r[j].0, s) by {
            assert(r[j] == t[j + 1]);
        }
        lemma_first_suffix_at(s, r, k - 1);
        assert(r[k - 1] == t[k]);
    }
}

/// Every listed pronoun suffix is peeled, the longest listed one first: the
/// suffixes هما كما هم هن كم كن نا ها ني ه ك ي carry ids 200 to 211 in that
/// order. When the `k`-th of them ends an Arabic token, none listed before it
/// does, and at least two characters precede it, the forest offers the split
/// with no proclitic, the token minus that suffix as its stem, the suffix
/// (with its id, spanning its bytes) as its single enclitic, and the
/// single-affix confidence.
pub proof fn law_split_peels_listed_enclitic(raw: Seq<char>, base: u32, k: int)
    requires
        ({
            let l = seq![
                (seq!['\u{0647}', '\u{0645}', '\u{0627}'], 200u16),
                (seq!['\u{0643}', '\u{0645}', '\u{0627}'], 201u16),
                (seq!['\u{0647}', '\u{0645}'], 202u16),
                (seq!['\u{0647}', '\u{0646}'], 203u16),
                (seq!['\u{0643}', '\u{0645}'], 204u16),
                (seq!['\u{0643}', '\u{0646}'], 205u16),
                (seq!['\u{0646}', '\u{0627}'], 206u16),
                (seq!['\u{0647}', '\u{0627}'], 207u16),
                (seq!['\u{0646}', '\u{064A}'], 208u16),
                (seq!['\u{0647}'], 209u16),
                (seq!['\u{0643}'], 210u16),
                (seq!['\u{064A}'], 211u16),
            ];
            &&& 0 <= k < l.len()
            &&& is_suffix(l[k].0, raw)
            &&& forall|j: int| 0 <= j < k ==> !is_suffix(#[trigger] l[j].0, raw)
            &&& raw.len() - l[k].0.len() >= 2
        }),
    ensures
        ({
            let l = seq![
                (seq!['\u{0647}', '\u{0645}', '\u{0627}'], 200u16),
                (seq!['\u{0643}', '\u{0645}', '\u{0627}'], 201u16),
                (seq!['\u{0647}', '\u{0645}'], 202u16),
                (seq!['\u{0647}', '\u{0646}'], 203u16),
                (seq!['\u{0643}', '\u{0645}'], 204u16),
                (seq!['\u{0643}', '\u{0646}'], 205u16),
                (seq!['\u{0646}', '\u{0627}'], 206u16),
                (seq!['\u{0647}', '\u{0627}'], 207u16),
                (seq!['\u{0646}', '\u{064A}'], 208u16),
                (seq!['\u{0647}'], 209u16),
                (seq!['\u{0643}'], 210u16),
                (seq!['\u{064A}'], 211u16),
            ];
            let f = l[k].0;
            let off = raw.len() - f.len();
            split_forest(raw, base, TokenKind::Arabic).contains(
                (
                    Seq::<CliticView>::empty(),
                    (raw.take(off), None::<Seq<char>>),
                    seq![
                        (
                            f,
                            CliticId(l[k].1),
                            ByteSpan {
                                start: (base + byte_len(raw.take(off))) as u32,
                                end: (base + byte_len(raw.take(off)) + byte_len(f)) as u32,
                            },
                        ),
                    ],
                    500000nat,
                ),
            )
        }),
{
    let l = seq![
                (seq!['\u{0647}', '\u{0645}', '\u{0627}'], 200u16),
                (seq!['\u{0643}', '\u{0645}', '\u{0627}'], 201u16),
                (seq!['\u{0647}', '\u{0645}'], 202u16),
                (seq!['\u{0647}', '\u{0646}'], 203u16),
                (seq!['\u{0643}', '\u{0645}'], 204u16),
                (seq!['\u{0643}', '\u{0646}'], 205u16),
                (seq!['\u{0646}', '\u{0627}'], 206u16),
                (seq!['\u{0647}', '\u{0627}'], 207u16),
                (seq!['\u{0646}', '\u{064A}'], 208u16),
                (seq!['\u{0647}'], 209u16),
                (seq!['\u{0643}'], 210u16),
                (seq!['\u{064A}'], 211u16),
            ];
    let t = enclitic_table();
    assert(t =~= l);
    lemma_first_suffix_at(raw, t, k);
    let f = l[k].0;
    let n = raw.len() as int;
    let off = n - f.len();
    let x: SplitView = (
        Seq::<CliticView>::empty(),
        (raw.take(off), None::<Seq<char>>),
        seq![clitic_at(f, l[k].1, base, raw, off)],
        CONF_SINGLE_AFFIX as nat,
    );
    let c = split_candidates(raw, base, TokenKind::Arabic);
    assert(c.last() == x);
    assert(c.contains(x)) by {
        assert(c[c.len() - 1] == x);
    }
    let key = |v: SplitView| split_rank(v);
    crate::rank::lemma_sort_by_key_permutes(c, key);
    crate::rank::lemma_multiset_contains(c, split_forest(raw, base, TokenKind::Arabic), x);
}

/// The pronoun suffix ها (her, id 207) is peeled: for an Arabic token that
/// ends in ها with at least two characters before it, the forest offers the
/// split with no proclitic, the token minus ها as its stem, ها as its single
/// enclitic (spanning the suffix's bytes) and the single-affix confidence.
pub proof fn law_split_peels_ha(raw: Seq<char>, base: u32)
    requires
        raw.len() >= 4,
        raw[raw.len() - 2] == '\u{0647}',
        raw[raw.len() - 1] == '\u{0627}',
    ensures
        split_forest(raw, base, TokenKind::Arabic).contains(
            (
                Seq::<CliticView>::empty(),
                (raw.take(raw.len() - 2), None::<Seq<char>>),
                seq![
                    (
                        seq!['\u{0647}', '\u{0627}'],
                        CliticId(207),
                        ByteSpan {
                            start: (base + byte_len(raw.take(raw.len() - 2))) as u32,
                            end: (base + byte_len(raw.take(raw.len() - 2)) + byte_len(
                                seq!['\u{0647}', '\u{0627}'],
                            )) as u32,
                        },
                    ),
                ],
                500000nat,
            ),
        ),
{
    let n = raw.len() as int;
    let ha = seq!['\u{0647}', '\u{0627}'];
    let t = enclitic_table();
    assert(raw.skip(n - 2) =~= ha);
    let t3 = raw.skip(n - 3);
    assert(t3[1] == '\u{0647}' && t3[2] == '\u{0627}');
    assert(!is_suffix(t[0].0, raw)) by {
        if is_suffix(t[0].0, raw) {
            assert(t3[1] == t[0].0[1]);
        }
    }
    assert(!is_suffix(t[1].0, raw)) by {
        if is_suffix(t[1].0, raw) {
            assert(t3[2] == t[1].0[2]);
            assert(t3[1] == t[1].0[1]);
        }
    }
    assert(!is_suffix(t[2].0, raw)) by {
        if is_suffix(t[2].0, raw) {
            assert(raw.skip(n - 2)[1] == t[2].0[1]);
        }
    }
    assert(!is_suffix(t[3].0, raw)) by {
        if is_suffix(t[3].0, raw) {
            assert(raw.skip(n - 2)[1] == t[3].0[1]);
        }
    }
    assert(!is_suffix(t[4].0, raw)) by {
        if is_suffix(t[4].0, raw) {
            assert(raw.skip(n - 2)[1] == t[4].0[1]);
        }
    }
    assert(!is_suffix(t[5].0, raw)) by {
        if is_suffix(t[5].0, raw) {
            assert(raw.skip(n - 2)[1] == t[5].0[1]);
        }
    }
    assert(!is_suffix(t[6].0, raw)) by {
        if is_suffix(t[6].0, raw) {
            assert(raw.skip(n - 2)[0] == t[6].0[0]);
        }
    }
    assert(is_suffix(t[7].0, raw));
    assert(t.drop_first().drop_first().drop_first().drop_first().drop_first().drop_first().drop_first()[0] == t[7]);
    reveal_with_fuel(first_suffix, 9);
    assert(first_suffix(raw, t) == Some(t[7]));
    let enc = peel_enclitic(raw, base);
    let x: SplitView = (
        Seq::<CliticView>::empty(),
        (raw.take(n - 2), None::<Seq<char>>),
        seq![clitic_at(ha, 207u16, base, raw, n - 2)],
        CONF_SINGLE_AFFIX as nat,
    );
    assert(enc == Some((clitic_at(ha, 207u16, base, raw, n - 2), n - 2)));
    let c = split_candidates(raw, base, TokenKind::Arabic);
    assert(c.last() == x);
    assert(c.contains(x)) by {
        assert(c[c.len() - 1] == x);
    }
    let key = |v: SplitView| split_rank(v);
    crate::rank::lemma_sort_by_key_permutes(c, key);
    crate::rank::lemma_multiset_contains(c, split_forest(raw, base, TokenKind::Arabic), x);
}

/// Clitic `c` of a token with raw surface `raw`, whose first byte is at
/// `base`, is raw-anchored: its span lies within the token's bytes and covers
/// exactly the UTF-8 bytes of its form.
pub open spec fn clitic_anchored(c: CliticView, raw: Seq<char>, base: u32) -> bool {
    &&& base <= c.2.start <= c.2.end <= base + byte_len(raw)
    &&& encode_utf8(raw).subrange(c.2.start - base, c.2.end - base) == encode_utf8(c.0)
}

/// Every clitic of a split is raw-anchored.
pub open spec fn split_anchored(v: SplitView, raw: Seq<char>, base: u32) -> bool {
    &&& forall|k: int| 0 <= k < v.0.len() ==> clitic_anchored(#[trigger] v.0[k], raw, base)
    &&& forall|k: int| 0 <= k < v.2.len() ==> clitic_anchored(#[trigger] v.2[k], raw, base)
}

proof fn lemma_clitic_at_anchored(f: Seq<char>, id: u16, base: u32, raw: Seq<char>, off: int)
    requires
        0 <= off,
        off + f.len() <= raw.len(),
        raw.subrange(off, off + f.len()) == f,
        base + byte_len(raw) <= u32::MAX,
    ensures
        clitic_anchored(clitic_at(f, id, base, raw, off), raw, base),
{
    lemma_clitic_at_within(f, id, base, raw, off);
    assert(raw.take(off + f.len()) =~= raw.take(off) + f);
    lemma_byte_len_concat(raw.take(off), f);
    crate::tokenize::lemma_byte_len_utf8_slice(raw, off, off + f.len());
    let c = clitic_at(f, id, base, raw, off);
    let a = byte_len(raw.take(off));
    let b = byte_len(raw.take(off + f.len()));
    assert(b == a + byte_len(f));
    lemma_byte_len_prefix_mono(raw, off + f.len(), raw.len() as int);
    assert(raw.take(raw.len() as int) =~= raw);
    assert(base + b <= u32::MAX);
    assert(c.2.start == base + a);
    assert(c.2.end == base + b);
    assert(c.2.start - base == a);
    assert(c.2.end - base == b);
}

proof fn lemma_peel_from_anchored(t: Seq<(Seq<char>, u16)>, raw: Seq<char>, base: u32, off: int)
    requires
        0 <= off <= raw.len(),
        base + byte_len(raw) <= u32::MAX,
    ensures
        forall|k: int|
            0 <= k < peel_from(t, raw, base, off).0.len() ==> clitic_anchored(
                #[trigger] peel_from(t, raw, base, off).0[k],
                raw,
                base,
            ),
{
    lemma_first_prefix(raw.skip(off), t);
    match first_prefix(raw.skip(off), t) {
        Some(e) => {
            assert(raw.skip(off).take(e.0.len() as int) =~= raw.subrange(off, off + e.0.len()));
            lemma_clitic_at_anchored(e.0, e.1, base, raw, off);
        },
        None => {},
    }
}

proof fn lemma_peel_proclitics_anchored(raw: Seq<char>, base: u32)
    requires
        base + byte_len(raw) <= u32::MAX,
    ensures
        forall|k: int|
            0 <= k < peel_proclitics(raw, base).0.len() ==> clitic_anchored(
                #[trigger] peel_proclitics(raw, base).0[k],
                raw,
                base,
            ),
{
    let (c1, o1) = peel_from(conj_table(), raw, base, 0);
    lemma_peel_from(conj_table(), raw, base, 0);
    lemma_peel_from_anchored(conj_table(), raw, base, 0);
    let (c2, o2) = peel_from(particle_table(), raw, base, o1);
    lemma_peel_from(particle_table(), raw, base, o1);
    lemma_peel_from_anchored(particle_table(), raw, base, o1);
    let (c3, o3) = peel_from(seq![(article_form(), ARTICLE_ID)], raw, base, o2);
    lemma_peel_from_anchored(seq![(article_form(), ARTICLE_ID)], raw, base, o2);
    let all = c1 + c2 + c3;
    assert forall|k: int| 0 <= k < all.len() implies clitic_anchored(#[trigger] all[k], raw, base) by {
        if k < c1.len() {
            assert(all[k] == c1[k]);
        } else if k < c1.len() + c2.len() {
            assert(all[k] == c2[k - c1.len()]);
        } else {
            assert(all[k] == c3[k - c1.len() - c2.len()]);
        }
    }
}

proof fn lemma_peel_enclitic_anchored(raw: Seq<char>, base: u32)
    requires
        base + byte_len(raw) <= u32::MAX,
    ensures
        peel_enclitic(raw, base) matches Some(e) ==> clitic_anchored(e.0, raw, base),
{
    lemma_first_suffix(raw, enclitic_table());
    match first_suffix(raw, enclitic_table()) {
        Some(e) => {
            let st = raw.len() - e.0.len();
            assert(raw.skip(st) =~= raw.subrange(st, st + e.0.len()));
            lemma_clitic_at_anchored(e.0, e.1, base, raw, st);
        },
        None => {},
    }
}

/// Clitic spans are raw-anchored: in every split of the forest of a token
/// with raw surface `raw` whose first byte is at `base`, the span of every
/// proclitic and enclitic lies within the token's bytes and covers exactly
/// the UTF-8 bytes of the clitic's form.
pub proof fn law_clitic_spans_are_raw_anchored(raw: Seq<char>, base: u32, kind: TokenKind)
    requires
        base + byte_len(raw) <= u32::MAX,
    ensures
        forall|k: int|
            0 <= k < split_forest(raw, base, kind).len() ==> split_anchored(
                #[trigger] split_forest(raw, base, kind)[k],
                raw,
                base,
            ),
{
    broadcast use vstd::seq_lib::group_to_multiset_ensures;

    lemma_peel_proclitics_anchored(raw, base);
    lemma_peel_enclitic_anchored(raw, base);
    lemma_candidates_shape(raw, base, kind);
    let c = split_candidates(raw, base, kind);
    let ic = identity_candidate(raw);
    let bc = both_candidate(raw, base);
    let pc = procs_candidate(raw, base);
    let ec = enc_candidate(raw, base);
    assert(forall|k: int| 0 <= k < c.len() ==> c[k] == ic || c[k] == bc || c[k] == pc || c[k] == ec);
    assert forall|k: int| 0 <= k < c.len() implies split_anchored(#[trigger] c[k], raw, base) by {
        if c[k] == bc || c[k] == ec {
            assert(peel_enclitic(raw, base) is Some);
        }
    }
    let key = |v: SplitView| split_rank(v);
    let f = split_forest(raw, base, kind);
    crate::rank::lemma_sort_by_key_permutes(c, key);
    assert forall|k: int| 0 <= k < f.len() implies split_anchored(#[trigger] f[k], raw, base) by {
        assert(f.contains(f[k]));
        crate::rank::lemma_multiset_contains(f, c, f[k]);
    }
}

} // verus!
