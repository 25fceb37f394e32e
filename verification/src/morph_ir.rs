//! Morphological IR — the central data structures of the pipeline.
use vstd::prelude::*;

use crate::conf::Conf;
use crate::provenance::Provenance;

verus! {

/// A byte span into the source text: `start..end`, in UTF-8 bytes of the
/// **raw** input.
#[derive(Debug, Clone, Copy, PartialEq, Eq, Hash, PartialOrd, Ord, Structural)]
pub struct ByteSpan {
    pub start: u32,
    pub end: u32,
}

impl ByteSpan {
    /// The span `start..end`.
    pub fn new(start: u32, end: u32) -> (r: ByteSpan)
        requires
            start <= end,
        ensures
            r.start == start,
            r.end == end,
    {
        ByteSpan { start, end }
    }

    /// The number of bytes covered.
    pub fn len(self) -> (r: u32)
        requires
            self.start <= self.end,
        ensures
            r == self.end - self.start,
    {
        self.end - self.start
    }

    /// True when the span covers no bytes.
    pub fn is_empty(self) -> (r: bool)
        ensures
            r == (self.start == self.end),
    {
        self.start == self.end
    }
}

/// The radicals of a root, kept inline for up to four.
#[verifier::external_body]
#[derive(Debug, PartialEq, Eq, Hash, PartialOrd, Ord)]
pub struct Radicals {
    inner: smallvec::SmallVec<[char; 4]>,
}

/// The items held by a `Radicals`, in order.
pub uninterp spec fn radicals_items(v: Radicals) -> Seq<char>;

/// `SmallVec::from_vec`: the inline vector holding exactly `v`'s items.
#[verifier::external_body]
fn radicals_from_vec(v: Vec<char>) -> (r: Radicals)
    ensures
        radicals_items(r) == v@,
{
    Radicals { inner: smallvec::SmallVec::from_vec(v) }
}

/// `SmallVec::as_slice`: the items in order.
#[verifier::external_body]
fn radicals_as_slice(v: &Radicals) -> (r: &[char])
    ensures
        r@ == radicals_items(*v),
{
    v.inner.as_slice()
}

impl Clone for Radicals {
    /// `SmallVec::clone`: a vector with the same items.
    #[verifier::external_body]
    fn clone(&self) -> (r: Self)
        ensures
            radicals_items(r) == radicals_items(*self),
    {
        Radicals { inner: self.inner.clone() }
    }
}

impl Radicals {
    /// The inline vector holding exactly `v`'s items.
    pub fn from_vec(v: Vec<char>) -> (r: Radicals)
        ensures
            radicals_items(r) == v@,
    {
        radicals_from_vec(v)
    }

    /// The items in order.
    pub fn as_slice(&self) -> (r: &[char])
        ensures
            r@ == radicals_items(*self),
    {
        radicals_as_slice(self)
    }

    /// The number of items.
    pub fn len(&self) -> (r: usize)
        ensures
            r == radicals_items(*self).len(),
    {
        radicals_as_slice(self).len()
    }

    /// True when there are no items.
    pub fn is_empty(&self) -> (r: bool)
        ensures
            r == (radicals_items(*self).len() == 0),
    {
        radicals_as_slice(self).len() == 0
    }
}


/// A 3- or 4-consonant Arabic root (e.g. ك-ت-ب).
#[derive(Debug, Clone, PartialEq, Eq, Hash, PartialOrd, Ord)]
pub struct Root {
    pub radicals: Radicals,
}

impl View for Root {
    type V = Seq<char>;

    /// The radicals in order.
    open spec fn view(&self) -> Seq<char> {
        radicals_items(self.radicals)
    }
}

impl Root {
    /// The root whose radicals are `cs`, in order.
    pub fn from_chars(cs: &[char]) -> (r: Root)
        ensures
            r@ == cs@,
    {
        let mut v: Vec<char> = Vec::new();
        let mut i: usize = 0;
        while i < cs.len()
            invariant
                i <= cs@.len(),
                v@ == cs@.take(i as int),
            decreases cs@.len() - i,
        {
            v.push(cs[i]);
            i = i + 1;
            assert(v@ =~= cs@.take(i as int));
        }
        assert(cs@.take(cs@.len() as int) =~= cs@);
        Root { radicals: Radicals::from_vec(v) }
    }

    /// A root with the same radicals.
    pub fn duplicate(&self) -> (r: Root)
        ensures
            r@ == self@,
    {
        Root { radicals: self.radicals.clone() }
    }
}

/// A stable identifier for a morphological pattern in the static pattern table.
#[derive(Debug, Clone, Copy, PartialEq, Eq, Hash, PartialOrd, Ord, Structural)]
pub struct PatternId(pub u32);

/// A clitic identifier referencing the static clitic table.
#[derive(Debug, Clone, Copy, PartialEq, Eq, Hash, PartialOrd, Ord, Structural)]
pub struct CliticId(pub u16);

/// A pro-clitic or en-clitic with its source span.
#[derive(Debug, Clone, PartialEq, Eq, Hash)]
pub struct Clitic {
    pub form: String,
    pub clitic_id: CliticId,
    pub span: ByteSpan,
}

impl View for Clitic {
    type V = (Seq<char>, CliticId, ByteSpan);

    /// The form's characters, the identifier and the span.
    open spec fn view(&self) -> (Seq<char>, CliticId, ByteSpan) {
        (self.form@, self.clitic_id, self.span)
    }
}

impl Clitic {
    /// A clitic with the same form, identifier and span.
    pub fn duplicate(&self) -> (r: Clitic)
        ensures
            r@ == self@,
    {
        Clitic { form: self.form.clone(), clitic_id: self.clitic_id, span: self.span }
    }
}

/// The views of a sequence of clitics.
pub open spec fn clitic_views(cs: Seq<Clitic>) -> Seq<(Seq<char>, CliticId, ByteSpan)> {
    cs.map_values(|c: Clitic| c@)
}

/// The proclitics of a split, kept inline for up to four.
#[verifier::external_body]
#[derive(Debug, PartialEq, Eq, Hash)]
pub struct Proclitics {
    inner: smallvec::SmallVec<[Clitic; 4]>,
}

/// The items held by a `Proclitics`, in order.
pub uninterp spec fn proclitics_items(v: Proclitics) -> Seq<Clitic>;

/// `SmallVec::from_vec`: the inline vector holding exactly `v`'s items.
#[verifier::external_body]
fn proclitics_from_vec(v: Vec<Clitic>) -> (r: Proclitics)
    ensures
        proclitics_items(r) == v@,
{
    Proclitics { inner: smallvec::SmallVec::from_vec(v) }
}

/// `SmallVec::as_slice`: the items in order.
#[verifier::external_body]
fn proclitics_as_slice(v: &Proclitics) -> (r: &[Clitic])
    ensures
        r@ == proclitics_items(*v),
{
    v.inner.as_slice()
}

impl Clone for Proclitics {
    /// `SmallVec::clone`: a vector with the same items.
    #[verifier::external_body]
    fn clone(&self) -> (r: Self)
        ensures
            proclitics_items(r) == proclitics_items(*self),
    {
        Proclitics { inner: self.inner.clone() }
    }
}

impl Proclitics {
    /// The inline vector holding exactly `v`'s items.
    pub fn from_vec(v: Vec<Clitic>) -> (r: Proclitics)
        ensures
            proclitics_items(r) == v@,
    {
        proclitics_from_vec(v)
    }

    /// The items in order.
    pub fn as_slice(&self) -> (r: &[Clitic])
        ensures
            r@ == proclitics_items(*self),
    {
        proclitics_as_slice(self)
    }

    /// The number of items.
    pub fn len(&self) -> (r: usize)
        ensures
            r == proclitics_items(*self).len(),
    {
        proclitics_as_slice(self).len()
    }

    /// True when there are no items.
    pub fn is_empty(&self) -> (r: bool)
        ensures
            r == (proclitics_items(*self).len() == 0),
    {
        proclitics_as_slice(self).len() == 0
    }
}


/// The enclitics of a split, kept inline for up to two.
#[verifier::external_body]
#[derive(Debug, PartialEq, Eq, Hash)]
pub struct Enclitics {
    inner: smallvec::SmallVec<[Clitic; 2]>,
}

/// The items held by a `Enclitics`, in order.
pub uninterp spec fn enclitics_items(v: Enclitics) -> Seq<Clitic>;

/// `SmallVec::from_vec`: the inline vector holding exactly `v`'s items.
#[verifier::external_body]
fn enclitics_from_vec(v: Vec<Clitic>) -> (r: Enclitics)
    ensures
        enclitics_items(r) == v@,
{
    Enclitics { inner: smallvec::SmallVec::from_vec(v) }
}

/// `SmallVec::as_slice`: the items in order.
#[verifier::external_body]
fn enclitics_as_slice(v: &Enclitics) -> (r: &[Clitic])
    ensures
        r@ == enclitics_items(*v),
{
    v.inner.as_slice()
}

impl Clone for Enclitics {
    /// `SmallVec::clone`: a vector with the same items.
    #[verifier::external_body]
    fn clone(&self) -> (r: Self)
        ensures
            enclitics_items(r) == enclitics_items(*self),
    {
        Enclitics { inner: self.inner.clone() }
    }
}

impl Enclitics {
    /// The inline vector holding exactly `v`'s items.
    pub fn from_vec(v: Vec<Clitic>) -> (r: Enclitics)
        ensures
            enclitics_items(r) == v@,
    {
        enclitics_from_vec(v)
    }

    /// The items in order.
    pub fn as_slice(&self) -> (r: &[Clitic])
        ensures
            r@ == enclitics_items(*self),
    {
        enclitics_as_slice(self)
    }

    /// The number of items.
    pub fn len(&self) -> (r: usize)
        ensures
            r == enclitics_items(*self).len(),
    {
        enclitics_as_slice(self).len()
    }

    /// True when there are no items.
    pub fn is_empty(&self) -> (r: bool)
        ensures
            r == (enclitics_items(*self).len() == 0),
    {
        enclitics_as_slice(self).len() == 0
    }
}


/// The morphological core of a token: stem surface and (optionally) lemma.
#[derive(Debug, Clone, PartialEq, Eq, Hash)]
pub struct Stem {
    pub surface: String,
    pub lemma: Option<String>,
}

impl Stem {
    /// A stem with the same surface and lemma.
    pub fn duplicate(&self) -> (r: Stem)
        ensures
            r.surface@ == self.surface@,
            r.lemma is Some <==> self.lemma is Some,
            r.lemma matches Some(l) ==> l@ == self.lemma->0@,
    {
        let lemma = match &self.lemma {
            Some(l) => Some(l.clone()),
            None => None,
        };
        Stem { surface: self.surface.clone(), lemma }
    }
}

/// Morpho-syntactic features. All optional — many tokens (foreign words,
/// particles) carry only some.
#[derive(Debug, Clone, Copy, PartialEq, Eq, Hash, Structural)]
pub struct FeatureSet {
    pub pos: Option<Pos>,
    pub gender: Option<Gender>,
    pub number: Option<Number>,
    pub person: Option<Person>,
    pub case: Option<Case>,
    pub state: Option<State>,
    pub voice: Option<Voice>,
    pub mood: Option<Mood>,
    pub aspect: Option<Aspect>,
    pub register: Option<Register>,
}

impl FeatureSet {
    /// The feature set with only `pos` possibly given.
    pub open spec fn only_pos(pos: Option<Pos>) -> FeatureSet {
        FeatureSet {
            pos,
            gender: None,
            number: None,
            person: None,
            case: None,
            state: None,
            voice: None,
            mood: None,
            aspect: None,
            register: None,
        }
    }

    /// The feature set with only `pos` possibly given.
    pub fn with_pos(pos: Option<Pos>) -> (r: FeatureSet)
        ensures
            r == FeatureSet::only_pos(pos),
    {
        FeatureSet {
            pos,
            gender: None,
            number: None,
            person: None,
            case: None,
            state: None,
            voice: None,
            mood: None,
            aspect: None,
            register: None,
        }
    }
}

impl Default for FeatureSet {
    /// No feature is known.
    fn default() -> (r: FeatureSet)
        ensures
            r == FeatureSet::only_pos(None),
    {
        FeatureSet::with_pos(None)
    }
}

/// Part of speech.
#[derive(Debug, Clone, Copy, PartialEq, Eq, Hash, Structural)]
pub enum Pos {
    Noun,
    Verb,
    Adj,
    Adv,
    Pron,
    Prep,
    Conj,
    Part,
    Num,
    Det,
    Punct,
    Foreign,
}

/// Grammatical gender.
#[derive(Debug, Clone, Copy, PartialEq, Eq, Hash, Structural)]
pub enum Gender {
    Masc,
    Fem,
}

/// Grammatical number.
#[derive(Debug, Clone, Copy, PartialEq, Eq, Hash, Structural)]
pub enum Number {
    Sg,
    Du,
    Pl,
}

/// Grammatical person.
#[derive(Debug, Clone, Copy, PartialEq, Eq, Hash, Structural)]
pub enum Person {
    First,
    Second,
    Third,
}

/// Grammatical case.
#[derive(Debug, Clone, Copy, PartialEq, Eq, Hash, Structural)]
pub enum Case {
    Nom,
    Acc,
    Gen,
}

/// Nominal state.
#[derive(Debug, Clone, Copy, PartialEq, Eq, Hash, Structural)]
pub enum State {
    Definite,
    Indefinite,
    Construct,
}

/// Verbal voice.
#[derive(Debug, Clone, Copy, PartialEq, Eq, Hash, Structural)]
pub enum Voice {
    Active,
    Passive,
}

/// Verbal mood.
#[derive(Debug, Clone, Copy, PartialEq, Eq, Hash, Structural)]
pub enum Mood {
    Indicative,
    Subjunctive,
    Jussive,
    Imperative,
}

/// Verbal aspect.
#[derive(Debug, Clone, Copy, PartialEq, Eq, Hash, Structural)]
pub enum Aspect {
    Perfective,
    Imperfective,
}

/// Register of the text.
#[derive(Debug, Clone, Copy, PartialEq, Eq, Hash, Structural)]
pub enum Register {
    Msa,
    Colloquial,
}

/// A single morphological analysis of a token.
#[derive(Debug, Clone, PartialEq, Eq, Hash)]
pub struct MorphAnalysis {
    pub surface: String,
    pub span: ByteSpan,
    pub proclitics: Proclitics,
    pub stem: Stem,
    pub enclitics: Enclitics,
    pub root: Option<Root>,
    pub pattern: Option<PatternId>,
    pub features: FeatureSet,
    pub confidence: Conf,
    pub provenance: Provenance,
}

/// The analyses of a forest, kept inline for up to four.
#[verifier::external_body]
#[derive(Debug, PartialEq, Eq, Hash)]
pub struct Analyses {
    inner: smallvec::SmallVec<[MorphAnalysis; 4]>,
}

/// The items held by a `Analyses`, in order.
pub uninterp spec fn analyses_items(v: Analyses) -> Seq<MorphAnalysis>;

/// `SmallVec::from_vec`: the inline vector holding exactly `v`'s items.
#[verifier::external_body]
fn analyses_from_vec(v: Vec<MorphAnalysis>) -> (r: Analyses)
    ensures
        analyses_items(r) == v@,
{
    Analyses { inner: smallvec::SmallVec::from_vec(v) }
}

/// `SmallVec::as_slice`: the items in order.
#[verifier::external_body]
fn analyses_as_slice(v: &Analyses) -> (r: &[MorphAnalysis])
    ensures
        r@ == analyses_items(*v),
{
    v.inner.as_slice()
}

impl Clone for Analyses {
    /// `SmallVec::clone`: a vector with the same items.
    #[verifier::external_body]
    fn clone(&self) -> (r: Self)
        ensures
            analyses_items(r) == analyses_items(*self),
    {
        Analyses { inner: self.inner.clone() }
    }
}

impl Analyses {
    /// The inline vector holding exactly `v`'s items.
    pub fn from_vec(v: Vec<MorphAnalysis>) -> (r: Analyses)
        ensures
            analyses_items(r) == v@,
    {
        analyses_from_vec(v)
    }

    /// The items in order.
    pub fn as_slice(&self) -> (r: &[MorphAnalysis])
        ensures
            r@ == analyses_items(*self),
    {
        analyses_as_slice(self)
    }

    /// The number of items.
    pub fn len(&self) -> (r: usize)
        ensures
            r == analyses_items(*self).len(),
    {
        analyses_as_slice(self).len()
    }

    /// True when there are no items.
    pub fn is_empty(&self) -> (r: bool)
        ensures
            r == (analyses_items(*self).len() == 0),
    {
        analyses_as_slice(self).len() == 0
    }
}


/// An ambiguity set of analyses for a single token.
///
/// Analyses are stored ranked by confidence, highest first.
#[derive(Debug, Clone, PartialEq, Eq)]
pub struct MorphForest {
    pub token: String,
    pub span: ByteSpan,
    pub analyses: Analyses,
    /// True if the analyzer hit the configured `max_analyses_per_token` cap
    /// and dropped lower-confidence candidates.
    pub truncated: bool,
}

impl MorphForest {
    /// An empty, untruncated forest for `token`.
    pub fn new(token: String, span: ByteSpan) -> (r: MorphForest)
        ensures
            r.token == token,
            r.span == span,
            analyses_items(r.analyses) == Seq::<MorphAnalysis>::empty(),
            !r.truncated,
    {
        MorphForest { token, span, analyses: Analyses::from_vec(Vec::new()), truncated: false }
    }

    /// True when the forest holds no analysis.
    pub fn is_empty(&self) -> (r: bool)
        ensures
            r == (analyses_items(self.analyses).len() == 0),
    {
        self.analyses.is_empty()
    }

    /// The highest-ranked analysis, or `None` if the forest is empty.
    pub fn best(&self) -> (r: Option<&MorphAnalysis>)
        ensures
            analyses_items(self.analyses).len() == 0 ==> r is None,
            analyses_items(self.analyses).len() > 0 ==> r == Some(
                &analyses_items(self.analyses)[0],
            ),
    {
        let items = self.analyses.as_slice();
        if items.len() == 0 {
            None
        } else {
            Some(&items[0])
        }
    }
}

} // verus!
