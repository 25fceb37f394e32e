//! The top-level morphological analyzer.
//!
//! [`BasicAnalyzer`] composes the lower stages into a [`MorphForest`]: clitic
//! splitting × pattern/root matching. Each `(clitic split, root candidate)`
//! pair becomes one [`MorphAnalysis`]; their confidences combine via
//! [`Conf::and`]; the forest is ranked by confidence, ties broken by each
//! analysis's content-derived BLAKE3 canonical id, and capped to the top `k`.
//!
//! Provenance: the lexicon hash is that of the bootstrap lexicon. An analysis
//! whose extracted root the lexicon confirms records the entry id and is
//! promoted; unconfirmed (likely spurious) pattern matches are down-weighted;
//! recognized particles and irregular forms are promoted. Under full tracing
//! each analysis records its pattern-match and lexicon-lookup decisions.
use vstd::prelude::*;
use vstd::utf8::encode_utf8;

use crate::clitics::{
    chars_lt, clitic_anchored, forms_concat, split, split_anchored, split_forest,
    split_forest_items, split_view, CliticSplit, CliticView, SplitView,
};
use crate::conf::{conf_and, conf_or, Conf, CONF_SCALE};
use crate::lexicon::{
    builtin_irregulars, builtin_particles, builtin_roots, id_map, irregular_map,
    BootstrapLexicon, Lexicon, IRREGULAR_ID_BASE, LEXICON_TOML, PARTICLE_ID_BASE, ROOT_ID_BASE,
};
use crate::morph_ir::{
    analyses_items, clitic_views, enclitics_items, proclitics_items, ByteSpan, Clitic,
    Enclitics, FeatureSet, MorphAnalysis, MorphForest, PatternId, Pos, Proclitics, Root, Stem,
    Analyses,
};
use crate::patterns::{
    builtin_patterns, match_view, pattern_matches_items, pos_lookup, MatchView, PatternMatch,
    PatternTable, PatternView,
};
use crate::provenance::{
    blake3_hex, lex_entry_ids_items, rule_ids_items, ContentHash, LexEntryId, LexEntryIds,
    Provenance, RuleId, RuleIds,
};
use crate::rank::{
    chars_key, key_lt, lemma_key_lt_cons, lemma_sort_by_key_map, rank_of, sort_by_key,
    sort_ranked, Ranked,
};
use crate::roots::{analyze_stem, stem_candidates};
use crate::text::{append_chars, byte_len, chars_of, chars_of_string, decimal, push_decimal, string_of};
use crate::tokenize::{lemma_token_within_input, token_view, tokenize, tokens_of, Token, TokenKind};
use crate::trace::{enclitic_ids_items, proclitic_ids_items, TraceEvent, TraceLevel};
use crate::unicode::{normalize, normalized, strip_tashkil, strip_tashkil_seq};

verus! {

/// Confidence (millionths) contributed by a lexicon-confirmed root, via
/// noisy-or: confirming an extracted root is strong positive evidence.
pub const LEXICON_CONFIRM: u32 = 700_000;

/// Confidence factor (millionths) for an extracted root the lexicon does not
/// know — likely a spurious pattern match, so down-weighted.
pub const UNCONFIRMED_PENALTY: u32 = 400_000;

/// Confidence (millionths) contributed by a recognized particle (a
/// closed-class function word), via noisy-or.
pub const PARTICLE_CONFIRM: u32 = 850_000;

/// Confidence factor (millionths) for an analysis that found neither a root
/// nor a particle. Without it, AND-combining clitic and pattern confidences
/// (both below one) would rank rooted analyses below their rootless siblings.
pub const UNANALYZED_PENALTY: u32 = 300_000;

/// Hint about which dialect the input is expected to be in.
#[derive(Debug, Clone, Copy, PartialEq, Eq, Hash, Structural)]
pub enum DialectHint {
    Msa,
    Egyptian,
    Auto,
}

/// Runtime configuration for the analyzer.
#[derive(Debug, Clone)]
pub struct AnalyzerConfig {
    /// Maximum analyses kept per token before truncating to the top `k`.
    /// `0` means unlimited (strict mode).
    pub max_analyses_per_token: u8,
    /// If `false`, an unrecognized stem (no pattern matches it and the
    /// lexicon knows it neither as an irregular form nor as a particle)
    /// yields no analysis rather than the down-weighted unanalyzed one of the
    /// out-of-vocabulary backoff, so a token with only such stems has an
    /// empty forest.
    pub backoff_enabled: bool,
    /// How much detail to record in traces: under [`TraceLevel::Full`] every
    /// analysis carries its decision events in its provenance.
    pub trace_level: TraceLevel,
    /// Hint about which dialect the input is expected to be in.
    pub dialect_hint: DialectHint,
}

impl Default for AnalyzerConfig {
    /// At most eight analyses per token, backoff on, no tracing, any dialect.
    fn default() -> (r: AnalyzerConfig)
        ensures
            r.max_analyses_per_token == 8,
            r.backoff_enabled,
            r.trace_level == TraceLevel::Off,
            r.dialect_hint == DialectHint::Auto,
    {
        AnalyzerConfig {
            max_analyses_per_token: 8,
            backoff_enabled: true,
            trace_level: TraceLevel::Off,
            dialect_hint: DialectHint::Auto,
        }
    }
}

/// What a trace event holds: a tag (0 tokenize, 1 clitic split, 2 pattern
/// match, 3 lexicon lookup, 4 final), its text (token text or stem), two
/// numbers (span start and end; token id; pattern and rule ids; entry id;
/// analysis count), a root, a confidence (millionths), whether a lookup
/// confirmed, and the proclitic and enclitic ids of a split.
pub type EventView = (nat, Seq<char>, nat, nat, Option<Seq<char>>, nat, bool, Seq<u16>, Seq<u16>);

/// The view of a trace event.
pub open spec fn event_view(e: TraceEvent) -> EventView {
    match e {
        TraceEvent::Tokenize { span, text } => (
            0,
            text@,
            span.start as nat,
            span.end as nat,
            None,
            0,
            false,
            Seq::empty(),
            Seq::empty(),
        ),
        TraceEvent::CliticSplit { token_id, proclitic_ids, stem, enclitic_ids } => (
            1,
            stem@,
            token_id as nat,
            0,
            None,
            0,
            false,
            proclitic_ids_items(proclitic_ids),
            enclitic_ids_items(enclitic_ids),
        ),
        TraceEvent::PatternMatch { stem, pattern, root, conf, rule_id } => (
            2,
            stem@,
            pattern.0 as nat,
            rule_id as nat,
            root_view(root),
            conf@,
            false,
            Seq::empty(),
            Seq::empty(),
        ),
        TraceEvent::LexLookup { stem, entry_id, confirms } => (
            3,
            stem@,
            entry_id as nat,
            0,
            None,
            0,
            confirms,
            Seq::empty(),
            Seq::empty(),
        ),
        TraceEvent::Final { token, analysis_count, best_conf } => (
            4,
            token@,
            analysis_count as nat,
            0,
            None,
            best_conf@,
            false,
            Seq::empty(),
            Seq::empty(),
        ),
    }
}

/// The pattern-match event of stem `stem` matching `m`.
pub open spec fn pattern_event(stem: Seq<char>, m: MatchView) -> EventView {
    (2, stem, m.0.0 as nat, m.0.0 as nat, Some(m.1), m.2, false, Seq::empty(), Seq::empty())
}

/// The lexicon-lookup event for `stem`: the entry id found (0 when none) and
/// whether it confirmed.
pub open spec fn lookup_event(stem: Seq<char>, entry: nat, confirms: bool) -> EventView {
    (3, stem, entry, 0, None, 0, confirms, Seq::empty(), Seq::empty())
}

/// What a provenance record holds: lexicon hash, rules fired, lexicon entry
/// ids, and the decision events, if traced.
pub type ProvView = (Seq<char>, Seq<RuleId>, Seq<nat>, Option<Seq<EventView>>);

/// The view of a provenance record.
pub open spec fn prov_view(p: Provenance) -> ProvView {
    (
        p.lexicon_hash.0@,
        rule_ids_items(p.rules),
        lex_entry_ids_items(p.lex_entries).map_values(|e: LexEntryId| e.0 as nat),
        match p.decisions {
            Some(v) => Some(v@.map_values(|e: TraceEvent| event_view(e))),
            None => None,
        },
    )
}

/// The decision events kept at trace level `t`: `events` under full
/// tracing, none otherwise.
pub open spec fn traced(t: TraceLevel, events: Seq<EventView>) -> Option<Seq<EventView>> {
    if t == TraceLevel::Full {
        Some(events)
    } else {
        None
    }
}

/// The radicals of an optional root.
pub open spec fn root_view(r: Option<Root>) -> Option<Seq<char>> {
    match r {
        Some(x) => Some(x@),
        None => None,
    }
}

/// What an analysis holds: surface, span, proclitics, stem, enclitics, root,
/// pattern, features, confidence (millionths) and provenance.
pub type AnalysisView = (
    Seq<char>,
    ByteSpan,
    Seq<CliticView>,
    (Seq<char>, Option<Seq<char>>),
    Seq<CliticView>,
    Option<Seq<char>>,
    Option<PatternId>,
    FeatureSet,
    nat,
    ProvView,
);

/// The view of an analysis.
pub open spec fn analysis_view(a: MorphAnalysis) -> AnalysisView {
    (
        a.surface@,
        a.span,
        clitic_views(proclitics_items(a.proclitics)),
        crate::clitics::stem_view(a.stem),
        clitic_views(enclitics_items(a.enclitics)),
        root_view(a.root),
        a.pattern,
        a.features,
        a.confidence@,
        prov_view(a.provenance),
    )
}

/// What a lexicon knows: roots, particles, irregular forms (with entry ids)
/// and its content hash.
pub type LexView = (
    Map<Seq<char>, nat>,
    Map<Seq<char>, nat>,
    Map<Seq<char>, (nat, Seq<char>)>,
    Seq<char>,
);

/// The analysis of token `raw` at `span` through split `sp` and root
/// candidate `m`: the candidate's root and pattern, the pattern's POS, the
/// split and pattern confidences AND-ed, then promoted (noisy-or with
/// [`LEXICON_CONFIRM`]) when the lexicon knows the root, else down-weighted
/// (AND with [`UNCONFIRMED_PENALTY`]). Under full tracing its decisions are
/// the pattern match and the lexicon lookup of the root.
pub open spec fn rooted_view(
    lex: LexView,
    table: Seq<PatternView>,
    t: TraceLevel,
    raw: Seq<char>,
    span: ByteSpan,
    sp: SplitView,
    m: MatchView,
) -> AnalysisView {
    let base = conf_and(sp.3, m.2);
    let confirmed = lex.0.dom().contains(m.1);
    (
        raw,
        span,
        sp.0,
        sp.1,
        sp.2,
        Some(m.1),
        Some(m.0),
        FeatureSet::only_pos(pos_lookup(table, m.0)),
        if confirmed {
            conf_or(base, LEXICON_CONFIRM as nat)
        } else {
            conf_and(base, UNCONFIRMED_PENALTY as nat)
        },
        (
            lex.3,
            seq![RuleId(m.0.0)],
            if confirmed {
                seq![lex.0[m.1]]
            } else {
                Seq::empty()
            },
            traced(
                t,
                seq![
                    pattern_event(sp.1.0, m),
                    lookup_event(sp.1.0, if confirmed { lex.0[m.1] } else { 0 }, confirmed),
                ],
            ),
        ),
    )
}

/// The analysis of token `raw` at `span` through split `sp` when no pattern
/// matches its stem: an irregular form the lexicon knows (a verb with the
/// lexicon's root), else a known particle, else unanalyzed. Under full
/// tracing its decisions are the lexicon lookup that succeeded (none when
/// unanalyzed).
pub open spec fn bare_view(
    lex: LexView,
    t: TraceLevel,
    raw: Seq<char>,
    span: ByteSpan,
    sp: SplitView,
) -> AnalysisView {
    let norm = normalized(sp.1.0);
    let key = strip_tashkil_seq(norm);
    if lex.2.dom().contains(norm) {
        (
            raw,
            span,
            sp.0,
            sp.1,
            sp.2,
            Some(lex.2[norm].1),
            None,
            FeatureSet::only_pos(Some(Pos::Verb)),
            conf_or(sp.3, LEXICON_CONFIRM as nat),
            (
                lex.3,
                Seq::empty(),
                seq![lex.2[norm].0],
                traced(t, seq![lookup_event(norm, lex.2[norm].0, true)]),
            ),
        )
    } else if lex.1.dom().contains(key) {
        (
            raw,
            span,
            sp.0,
            sp.1,
            sp.2,
            None,
            None,
            FeatureSet::only_pos(Some(Pos::Part)),
            conf_or(sp.3, PARTICLE_CONFIRM as nat),
            (lex.3, Seq::empty(), seq![lex.1[key]], traced(t, seq![lookup_event(key, lex.1[key], true)])),
        )
    } else {
        (
            raw,
            span,
            sp.0,
            sp.1,
            sp.2,
            None,
            None,
            FeatureSet::only_pos(None),
            conf_and(sp.3, UNANALYZED_PENALTY as nat),
            (lex.3, Seq::empty(), Seq::empty(), traced(t, Seq::empty())),
        )
    }
}

/// Whether the lexicon knows the stem of split `sp` as an irregular form or
/// a particle.
pub open spec fn stem_known(lex: LexView, sp: SplitView) -> bool {
    lex.2.dom().contains(normalized(sp.1.0)) || lex.1.dom().contains(
        strip_tashkil_seq(normalized(sp.1.0)),
    )
}

/// The analyses one split yields: one per root candidate of its stem; when
/// there is none, the bare analysis — unless the stem is unrecognized and
/// the out-of-vocabulary backoff is off, in which case nothing.
pub open spec fn split_analyses(
    lex: LexView,
    table: Seq<PatternView>,
    c: AnalyzerConfig,
    raw: Seq<char>,
    span: ByteSpan,
    sp: SplitView,
) -> Seq<AnalysisView> {
    let cands = stem_candidates(sp.1.0, table);
    if cands.len() == 0 {
        if c.backoff_enabled || stem_known(lex, sp) {
            seq![bare_view(lex, c.trace_level, raw, span, sp)]
        } else {
            Seq::empty()
        }
    } else {
        cands.map_values(|m: MatchView| rooted_view(lex, table, c.trace_level, raw, span, sp, m))
    }
}

/// The analyses of all splits, split by split, in order.
pub open spec fn analysis_candidates(
    lex: LexView,
    table: Seq<PatternView>,
    c: AnalyzerConfig,
    raw: Seq<char>,
    span: ByteSpan,
    splits: Seq<SplitView>,
) -> Seq<AnalysisView>
    decreases splits.len(),
{
    if splits.len() == 0 {
        Seq::empty()
    } else {
        analysis_candidates(lex, table, c, raw, span, splits.drop_last()) + split_analyses(
            lex,
            table,
            c,
            raw,
            span,
            splits.last(),
        )
    }
}

/// The content of an analysis that its canonical id hashes: root radicals,
/// pattern id in decimal (`0` when none), stem surface, proclitic forms and
/// enclitic forms, separated by `|`.
pub open spec fn canonical_key(a: AnalysisView) -> Seq<char> {
    let root = match a.5 {
        Some(r) => r,
        None => Seq::empty(),
    };
    let pat: nat = match a.6 {
        Some(p) => p.0 as nat,
        None => 0,
    };
    root + seq!['|'] + decimal(pat) + seq!['|'] + a.3.0 + seq!['|'] + forms_concat(a.2) + seq!['|']
        + forms_concat(a.4)
}

/// The content-derived canonical id of an analysis: the BLAKE3 digest (in
/// hex) of the UTF-8 bytes of its canonical key.
pub open spec fn canonical_id(a: AnalysisView) -> Seq<char> {
    blake3_hex(encode_utf8(canonical_key(a)))
}

/// Analyses rank by confidence, highest first, then by canonical id.
pub open spec fn analysis_rank(a: AnalysisView) -> Seq<int> {
    seq![-(a.8 as int)] + chars_key(canonical_id(a))
}

/// The single analysis of a token that is not Arabic: the whole token as the
/// stem, full confidence, nothing else (no decisions even under full
/// tracing).
pub open spec fn leaf_view(lex: LexView, t: TraceLevel, raw: Seq<char>, span: ByteSpan) -> AnalysisView {
    (
        raw,
        span,
        Seq::empty(),
        (raw, None),
        Seq::empty(),
        None,
        None,
        FeatureSet::only_pos(None),
        CONF_SCALE as nat,
        (lex.3, Seq::empty(), Seq::empty(), traced(t, Seq::empty())),
    )
}

/// What a forest holds: token, span, analyses, whether it was truncated.
pub type ForestView = (Seq<char>, ByteSpan, Seq<AnalysisView>, bool);

/// The view of a forest.
pub open spec fn forest_view(f: MorphForest) -> ForestView {
    (
        f.token@,
        f.span,
        analyses_items(f.analyses).map_values(|a: MorphAnalysis| analysis_view(a)),
        f.truncated,
    )
}

/// The forest of a token (raw, normalized, span, kind) under configuration
/// `c`: a non-Arabic token has its one leaf analysis; an Arabic token has the
/// analyses of all its clitic splits, ranked, and cut to the first
/// `c.max_analyses_per_token` when that is positive and exceeded.
pub open spec fn token_forest(
    lex: LexView,
    table: Seq<PatternView>,
    c: AnalyzerConfig,
    tok: (Seq<char>, Seq<char>, ByteSpan, TokenKind),
) -> ForestView {
    let raw = tok.0;
    let span = tok.2;
    let cap = c.max_analyses_per_token as nat;
    if tok.3 != TokenKind::Arabic {
        (raw, span, seq![leaf_view(lex, c.trace_level, raw, span)], false)
    } else {
        let ranked = sort_by_key(
            analysis_candidates(lex, table, c, raw, span, split_forest(raw, span.start, tok.3)),
            |a: AnalysisView| analysis_rank(a),
        );
        if cap > 0 && ranked.len() > cap {
            (raw, span, ranked.take(cap as int), true)
        } else {
            (raw, span, ranked, false)
        }
    }
}

impl Ranked for MorphAnalysis {
    open spec fn rank_key(&self) -> Seq<int> {
        analysis_rank(analysis_view(*self))
    }

    fn ranks_before(&self, other: &Self) -> (r: bool) {
        let a = self.confidence.millionths();
        let b = other.confidence.millionths();
        proof {
            lemma_key_lt_cons(
                -(a as int),
                chars_key(canonical_id(analysis_view(*self))),
                -(b as int),
                chars_key(canonical_id(analysis_view(*other))),
            );
        }
        if a != b {
            a > b
        } else {
            let x = canonical_id_chars(self);
            let y = canonical_id_chars(other);
            chars_lt(x.as_slice(), y.as_slice())
        }
    }
}

/// Appends the forms of `cs`, in order, to `v`.
fn append_forms(v: &mut Vec<char>, cs: &[Clitic])
    ensures
        final(v)@ == old(v)@ + forms_concat(clitic_views(cs@)),
{
    let ghost start = v@;
    let mut i: usize = 0;
    assert(clitic_views(cs@.take(0)) =~= Seq::<CliticView>::empty());
    while i < cs.len()
        invariant
            i <= cs@.len(),
            v@ == start + forms_concat(clitic_views(cs@.take(i as int))),
        decreases cs@.len() - i,
    {
        let f = chars_of_string(&cs[i].form);
        append_chars(v, f.as_slice());
        proof {
            let next = clitic_views(cs@.take(i as int + 1));
            assert(next.drop_last() =~= clitic_views(cs@.take(i as int)));
            assert(next.last() == cs@[i as int]@);
        }
        i = i + 1;
        assert(v@ =~= start + forms_concat(clitic_views(cs@.take(i as int))));
    }
    assert(cs@.take(cs@.len() as int) =~= cs@);
}

/// The canonical tie-break key of `a`.
fn canonical_key_chars(a: &MorphAnalysis) -> (r: Vec<char>)
    ensures
        r@ == canonical_key(analysis_view(*a)),
{
    let mut v: Vec<char> = Vec::new();
    match &a.root {
        Some(root) => append_chars(&mut v, root.radicals.as_slice()),
        None => {},
    }
    v.push('|');
    let pat: u32 = match a.pattern {
        Some(p) => p.0,
        None => 0,
    };
    push_decimal(&mut v, pat as u64);
    v.push('|');
    let stem = chars_of_string(&a.stem.surface);
    append_chars(&mut v, stem.as_slice());
    v.push('|');
    append_forms(&mut v, a.proclitics.as_slice());
    v.push('|');
    append_forms(&mut v, a.enclitics.as_slice());
    let ghost av = analysis_view(*a);
    let ghost root = match av.5 {
        Some(r) => r,
        None => Seq::<char>::empty(),
    };
    assert(v@ =~= root + seq!['|'] + decimal(pat as nat) + seq!['|'] + av.3.0 + seq!['|']
        + forms_concat(av.2) + seq!['|'] + forms_concat(av.4));
    v
}

/// The canonical id of `a`.
fn canonical_id_chars(a: &MorphAnalysis) -> (r: Vec<char>)
    ensures
        r@ == canonical_id(analysis_view(*a)),
{
    let k = canonical_key_chars(a);
    let text = string_of(k.as_slice());
    let h = ContentHash::of(text.as_str().as_bytes());
    chars_of_string(&h.0)
}

/// The morphological analyzer: clitic splitting and pattern matching against
/// the builtin pattern table, confirmed against the bootstrap lexicon.
#[derive(Debug, Clone)]
pub struct BasicAnalyzer {
    config: AnalyzerConfig,
    patterns: PatternTable,
    lexicon: BootstrapLexicon,
}

/// What the bootstrap lexicon knows.
pub open spec fn builtin_lex_view() -> LexView {
    (
        id_map(builtin_roots(), ROOT_ID_BASE as nat),
        id_map(builtin_particles(), PARTICLE_ID_BASE as nat),
        irregular_map(builtin_irregulars(), IRREGULAR_ID_BASE as nat),
        blake3_hex(encode_utf8(LEXICON_TOML@)),
    )
}

impl BasicAnalyzer {
    /// What the analyzer's lexicon knows.
    pub closed spec fn lex_view(&self) -> LexView {
        (
            self.lexicon.known_roots(),
            self.lexicon.known_particles(),
            self.lexicon.known_irregulars(),
            self.lexicon.content_hash(),
        )
    }

    /// The analyzer's pattern table.
    pub closed spec fn table_view(&self) -> Seq<PatternView> {
        self.patterns@
    }

    /// The analyzer's configuration.
    pub closed spec fn config_view(&self) -> AnalyzerConfig {
        self.config
    }

    /// An analyzer with `config`, the builtin pattern table and the bootstrap
    /// lexicon.
    pub fn new(config: AnalyzerConfig) -> (r: BasicAnalyzer)
        ensures
            r.config_view() == config,
            r.table_view() == builtin_patterns(),
            r.lex_view() == builtin_lex_view(),
    {
        BasicAnalyzer { config, patterns: PatternTable::builtin(), lexicon: BootstrapLexicon::load() }
    }

    /// The analysis of `token` through `split` and, when given, the root
    /// candidate `rc`.
    fn build(&self, token: &Token, split: &CliticSplit, rc: Option<&PatternMatch>) -> (r: MorphAnalysis)
        ensures
            analysis_view(r) == (match rc {
                Some(m) => rooted_view(
                    self.lex_view(),
                    self.table_view(),
                    self.config_view().trace_level,
                    token.raw@,
                    token.span,
                    split_view(*split),
                    match_view(*m),
                ),
                None => bare_view(
                    self.lex_view(),
                    self.config_view().trace_level,
                    token.raw@,
                    token.span,
                    split_view(*split),
                ),
            }),
    {
        let hash = self.lexicon.hash();
        let mut rules: Vec<RuleId> = Vec::new();
        let mut entries: Vec<LexEntryId> = Vec::new();
        let mut events: Vec<TraceEvent> = Vec::new();
        let root: Option<Root>;
        let pattern: Option<PatternId>;
        let pos: Option<Pos>;
        let confidence: Conf;
        match rc {
            Some(m) => {
                rules.push(RuleId(m.pattern.0));
                let base = split.confidence.and(m.confidence);
                pos = self.patterns.pos_of(m.pattern);
                root = Some(m.root.duplicate());
                pattern = Some(m.pattern);
                events.push(
                    TraceEvent::PatternMatch {
                        stem: split.stem.surface.clone(),
                        pattern: m.pattern,
                        root: Some(m.root.duplicate()),
                        conf: m.confidence,
                        rule_id: m.pattern.0,
                    },
                );
                match self.lexicon.root_id(&m.root) {
                    Some(eid) => {
                        entries.push(eid);
                        events.push(
                            TraceEvent::LexLookup {
                                stem: split.stem.surface.clone(),
                                entry_id: eid.0,
                                confirms: true,
                            },
                        );
                        confidence = base.or(Conf::clamp_millionths(LEXICON_CONFIRM));
                    },
                    None => {
                        events.push(
                            TraceEvent::LexLookup {
                                stem: split.stem.surface.clone(),
                                entry_id: 0,
                                confirms: false,
                            },
                        );
                        confidence = base.and(Conf::clamp_millionths(UNCONFIRMED_PENALTY));
                    },
                }
            },
            None => {
                let norm = normalize(split.stem.surface.as_str());
                pattern = None;
                match self.lexicon.irregular(norm.as_str()) {
                    Some((eid, r)) => {
                        entries.push(eid);
                        events.push(
                            TraceEvent::LexLookup { stem: norm.clone(), entry_id: eid.0, confirms: true },
                        );
                        root = Some(r);
                        pos = Some(Pos::Verb);
                        confidence = split.confidence.or(Conf::clamp_millionths(LEXICON_CONFIRM));
                    },
                    None => {
                        root = None;
                        let key = strip_tashkil(norm.as_str());
                        match self.lexicon.particle_id(key.as_str()) {
                            Some(eid) => {
                                entries.push(eid);
                                events.push(
                                    TraceEvent::LexLookup {
                                        stem: key.clone(),
                                        entry_id: eid.0,
                                        confirms: true,
                                    },
                                );
                                pos = Some(Pos::Part);
                                confidence = split.confidence.or(
                                    Conf::clamp_millionths(PARTICLE_CONFIRM),
                                );
                            },
                            None => {
                                pos = None;
                                confidence = split.confidence.and(
                                    Conf::clamp_millionths(UNANALYZED_PENALTY),
                                );
                            },
                        }
                    },
                }
            },
        }
        let ghost ev = entries@;
        let ghost tv = events@;
        let decisions = match self.config.trace_level {
            TraceLevel::Full => Some(events),
            _ => None,
        };
        let provenance = Provenance {
            lexicon_hash: hash,
            rules: RuleIds::from_vec(rules),
            lex_entries: LexEntryIds::from_vec(entries),
            decisions,
        };
        let r = MorphAnalysis {
            surface: token.raw.clone(),
            span: token.span,
            proclitics: split.proclitics.clone(),
            stem: split.stem.duplicate(),
            enclitics: split.enclitics.clone(),
            root,
            pattern,
            features: FeatureSet::with_pos(pos),
            confidence,
            provenance,
        };
        proof {
            assert(lex_entry_ids_items(r.provenance.lex_entries).map_values(
                |e: LexEntryId| e.0 as nat,
            ) =~= ev.map_values(|e: LexEntryId| e.0 as nat));
            let tvv = tv.map_values(|e: TraceEvent| event_view(e));
            match rc {
                Some(m) => {
                    let conf = self.lex_view().0.dom().contains(m.root@);
                    assert(tvv =~= seq![
                        pattern_event(split.stem.surface@, match_view(*m)),
                        lookup_event(
                            split.stem.surface@,
                            if conf { self.lex_view().0[m.root@] } else { 0 },
                            conf,
                        ),
                    ]);
                },
                None => {
                    let norm = normalized(split.stem.surface@);
                    let key = strip_tashkil_seq(norm);
                    if self.lex_view().2.dom().contains(norm) {
                        assert(tvv =~= seq![lookup_event(norm, self.lex_view().2[norm].0, true)]);
                    } else if self.lex_view().1.dom().contains(key) {
                        assert(tvv =~= seq![lookup_event(key, self.lex_view().1[key], true)]);
                    } else {
                        assert(tvv =~= Seq::<EventView>::empty());
                    }
                },
            }
        }
        r
    }

    /// The single analysis of a non-Arabic token.
    fn leaf(&self, token: &Token) -> (r: MorphAnalysis)
        ensures
            analysis_view(r) == leaf_view(
                self.lex_view(),
                self.config_view().trace_level,
                token.raw@,
                token.span,
            ),
    {
        let mut provenance = Provenance::new(self.lexicon.hash());
        match self.config.trace_level {
            TraceLevel::Full => {
                provenance.decisions = Some(Vec::new());
            },
            _ => {},
        }
        let r = MorphAnalysis {
            surface: token.raw.clone(),
            span: token.span,
            proclitics: Proclitics::from_vec(Vec::new()),
            stem: Stem { surface: token.raw.clone(), lemma: None },
            enclitics: Enclitics::from_vec(Vec::new()),
            root: None,
            pattern: None,
            features: FeatureSet::with_pos(None),
            confidence: Conf::one(),
            provenance,
        };
        proof {
            assert(Seq::<TraceEvent>::empty().map_values(|e: TraceEvent| event_view(e))
                =~= Seq::<EventView>::empty());
            assert(clitic_views(Seq::<Clitic>::empty()) =~= Seq::<CliticView>::empty());
            assert(lex_entry_ids_items(r.provenance.lex_entries).map_values(
                |e: LexEntryId| e.0 as nat,
            ) =~= Seq::<nat>::empty());
        }
        r
    }

    /// The analyses of one split, appended to `out`.
    fn push_split_analyses(&self, out: &mut Vec<MorphAnalysis>, token: &Token, sp: &CliticSplit)
        ensures
            final(out)@.map_values(|a: MorphAnalysis| analysis_view(a)) == old(out)@.map_values(
                |a: MorphAnalysis| analysis_view(a),
            ) + split_analyses(
                self.lex_view(),
                self.table_view(),
                self.config_view(),
                token.raw@,
                token.span,
                split_view(*sp),
            ),
    {
        let ghost lex = self.lex_view();
        let ghost table = self.table_view();
        let ghost t = self.config_view().trace_level;
        let ghost base = old(out)@.map_values(|a: MorphAnalysis| analysis_view(a));
        let roots = analyze_stem(sp.stem.surface.as_str(), &self.patterns);
        let rs = roots.as_slice();
        let ghost cands = stem_candidates(sp.stem.surface@, table);
        assert(rs@.map_values(|m: PatternMatch| match_view(m)) == cands);
        if rs.len() == 0 {
            let a = self.build(token, sp, None);
            assert(analysis_view(a).9.2.len() > 0 <==> stem_known(lex, split_view(*sp)));
            if self.config.backoff_enabled || a.provenance.lex_entries.len() > 0 {
                out.push(a);
                assert(out@.map_values(|a: MorphAnalysis| analysis_view(a)) =~= base + seq![
                    bare_view(lex, t, token.raw@, token.span, split_view(*sp)),
                ]);
            } else {
                assert(out@.map_values(|a: MorphAnalysis| analysis_view(a)) =~= base + Seq::<
                    AnalysisView,
                >::empty());
            }
        } else {
            let mut j: usize = 0;
            while j < rs.len()
                invariant
                    j <= rs@.len(),
                    lex == self.lex_view(),
                    table == self.table_view(),
                    t == self.config_view().trace_level,
                    rs@.map_values(|m: PatternMatch| match_view(m)) == cands,
                    out@.map_values(|a: MorphAnalysis| analysis_view(a)) == base + cands.take(
                        j as int,
                    ).map_values(
                        |m: MatchView| rooted_view(lex, table, t, token.raw@, token.span, split_view(*sp), m),
                    ),
                decreases rs@.len() - j,
            {
                let a = self.build(token, sp, Some(&rs[j]));
                let ghost before = out@;
                out.push(a);
                proof {
                    assert(cands[j as int] == match_view(rs@[j as int]));
                    assert(out@.map_values(|a: MorphAnalysis| analysis_view(a)) =~= before.map_values(
                        |a: MorphAnalysis| analysis_view(a),
                    ).push(analysis_view(a)));
                    assert(cands.take(j as int + 1) =~= cands.take(j as int).push(cands[j as int]));
                    assert(cands.take(j as int + 1).map_values(
                        |m: MatchView| rooted_view(lex, table, t, token.raw@, token.span, split_view(*sp), m),
                    ) =~= cands.take(j as int).map_values(
                        |m: MatchView| rooted_view(lex, table, t, token.raw@, token.span, split_view(*sp), m),
                    ).push(rooted_view(lex, table, t, token.raw@, token.span, split_view(*sp), cands[j as int])));
                }
                j = j + 1;
            }
            assert(cands.take(rs@.len() as int) =~= cands);
        }
    }

    /// The forest of one token.
    fn analyze_one(&self, token: &Token) -> (r: MorphForest)
        requires
            token.span.start + byte_len(token.raw@) <= u32::MAX,
        ensures
            forest_view(r) == token_forest(
                self.lex_view(),
                self.table_view(),
                self.config_view(),
                token_view(*token),
            ),
    {
        let ghost lex = self.lex_view();
        let ghost table = self.table_view();
        if token.kind != TokenKind::Arabic {
            let mut v: Vec<MorphAnalysis> = Vec::new();
            v.push(self.leaf(token));
            let r = MorphForest {
                token: token.raw.clone(),
                span: token.span,
                analyses: Analyses::from_vec(v),
                truncated: false,
            };
            assert(forest_view(r).2 =~= seq![
                leaf_view(lex, self.config_view().trace_level, token.raw@, token.span),
            ]);
            return r;
        }
        let splits = split(token);
        let ss = splits.as_slice();
        let ghost sf = split_forest(token.raw@, token.span.start, token.kind);
        let mut analyses: Vec<MorphAnalysis> = Vec::new();
        let mut i: usize = 0;
        assert(sf.take(0) =~= Seq::<SplitView>::empty());
        assert(analyses@.map_values(|a: MorphAnalysis| analysis_view(a)) =~= Seq::<AnalysisView>::empty());
        while i < ss.len()
            invariant
                i <= ss@.len(),
                lex == self.lex_view(),
                table == self.table_view(),
                ss@.map_values(|c: CliticSplit| split_view(c)) == sf,
                analyses@.map_values(|a: MorphAnalysis| analysis_view(a)) == analysis_candidates(
                    lex,
                    table,
                    self.config_view(),
                    token.raw@,
                    token.span,
                    sf.take(i as int),
                ),
            decreases ss@.len() - i,
        {
            self.push_split_analyses(&mut analyses, token, &ss[i]);
            proof {
                assert(sf.take(i as int + 1).drop_last() =~= sf.take(i as int));
                assert(sf.take(i as int + 1).last() == split_view(ss@[i as int]));
            }
            i = i + 1;
        }
        assert(sf.take(ss@.len() as int) =~= sf);
        let ghost all = analyses@;
        let mut sorted = sort_ranked(analyses);
        proof {
            assert forall|t: MorphAnalysis| #[trigger] rank_of(t) == analysis_rank(analysis_view(t)) by {}
            lemma_sort_by_key_map(
                all,
                |a: MorphAnalysis| analysis_view(a),
                |t: MorphAnalysis| rank_of(t),
                |v: AnalysisView| analysis_rank(v),
            );
        }
        let ghost ranked = sorted@.map_values(|a: MorphAnalysis| analysis_view(a));
        let cap = self.config.max_analyses_per_token as usize;
        let mut truncated = false;
        if cap > 0 && sorted.len() > cap {
            sorted.truncate(cap);
            truncated = true;
            assert(sorted@.map_values(|a: MorphAnalysis| analysis_view(a)) =~= ranked.take(cap as int));
        }
        MorphForest {
            token: token.raw.clone(),
            span: token.span,
            analyses: Analyses::from_vec(sorted),
            truncated,
        }
    }
}

/// The analyses the top-level analyzer gives. Implementations keep the
/// determinism contract: for fixed input, lexicon and configuration, the
/// forests are identical from run to run and across platforms.
pub trait Analyzer: Send + Sync {
    /// The forest of the first token of `token` (an empty forest if it has
    /// none). Input must be under 4 GiB (spans are `u32`).
    fn analyze_token(&self, token: &str) -> MorphForest
        requires
            byte_len(token@) <= u32::MAX,
    ;

    /// The forests of every token of `text` that is not whitespace, in order.
    /// Input must be under 4 GiB (spans are `u32`).
    fn analyze_text(&self, text: &str) -> Vec<MorphForest>
        requires
            byte_len(text@) <= u32::MAX,
    ;

    /// The content hash of the lexicon in use.
    fn lexicon_hash(&self) -> ContentHash;

    /// The content hash of the configuration in use.
    fn config_hash(&self) -> ContentHash;
}

/// The forest [`Analyzer::analyze_token`] gives for `s`: that of its first
/// token, or an empty forest for the whole input at span `0..0` when it has
/// no token.
pub open spec fn first_token_forest(
    lex: LexView,
    table: Seq<PatternView>,
    c: AnalyzerConfig,
    s: Seq<char>,
) -> ForestView {
    if tokens_of(s).len() > 0 {
        token_forest(lex, table, c, tokens_of(s)[0])
    } else {
        (s, ByteSpan { start: 0, end: 0 }, Seq::empty(), false)
    }
}

/// The forests of the tokens `ts` that are not whitespace, in order.
pub open spec fn text_forests(
    lex: LexView,
    table: Seq<PatternView>,
    c: AnalyzerConfig,
    ts: Seq<(Seq<char>, Seq<char>, ByteSpan, TokenKind)>,
) -> Seq<ForestView>
    decreases ts.len(),
{
    if ts.len() == 0 {
        Seq::empty()
    } else {
        let r = text_forests(lex, table, c, ts.drop_last());
        if ts.last().3 == TokenKind::Whitespace {
            r
        } else {
            r.push(token_forest(lex, table, c, ts.last()))
        }
    }
}

/// `true` or `false`.
pub open spec fn bool_text(b: bool) -> Seq<char> {
    if b {
        seq!['t', 'r', 'u', 'e']
    } else {
        seq!['f', 'a', 'l', 's', 'e']
    }
}

/// The name of a trace level in the configuration text.
pub open spec fn trace_level_text(t: TraceLevel) -> Seq<char> {
    match t {
        TraceLevel::Off => seq!['N', 'o', 'n', 'e'],
        TraceLevel::Concise => seq!['C', 'o', 'n', 'c', 'i', 's', 'e'],
        TraceLevel::Full => seq!['F', 'u', 'l', 'l'],
    }
}

/// The name of a dialect hint in the configuration text.
pub open spec fn dialect_text(d: DialectHint) -> Seq<char> {
    match d {
        DialectHint::Msa => seq!['M', 's', 'a'],
        DialectHint::Egyptian => seq!['E', 'g', 'y', 'p', 't', 'i', 'a', 'n'],
        DialectHint::Auto => seq!['A', 'u', 't', 'o'],
    }
}

/// The text a configuration is hashed as:
/// `max=<k>;backoff=<bool>;trace=<level>;dialect=<hint>`.
pub open spec fn config_text(c: AnalyzerConfig) -> Seq<char> {
    seq!['m', 'a', 'x', '='] + decimal(c.max_analyses_per_token as nat) + seq![';', 'b', 'a', 'c', 'k', 'o', 'f', 'f', '=']
        + bool_text(c.backoff_enabled) + seq![';', 't', 'r', 'a', 'c', 'e', '='] + trace_level_text(c.trace_level)
        + seq![';', 'd', 'i', 'a', 'l', 'e', 'c', 't', '='] + dialect_text(c.dialect_hint)
}

fn push_max_label(v: &mut Vec<char>)
    ensures
        final(v)@ == old(v)@ + seq!['m', 'a', 'x', '='],
{
    let ghost start = v@;
    v.push('m');
    v.push('a');
    v.push('x');
    v.push('=');
    assert(v@ =~= start + seq!['m', 'a', 'x', '=']);
}

fn push_backoff_label(v: &mut Vec<char>)
    ensures
        final(v)@ == old(v)@ + seq![';', 'b', 'a', 'c', 'k', 'o', 'f', 'f', '='],
{
    let ghost start = v@;
    v.push(';');
    v.push('b');
    v.push('a');
    v.push('c');
    v.push('k');
    v.push('o');
    v.push('f');
    v.push('f');
    v.push('=');
    assert(v@ =~= start + seq![';', 'b', 'a', 'c', 'k', 'o', 'f', 'f', '=']);
}

fn push_trace_label(v: &mut Vec<char>)
    ensures
        final(v)@ == old(v)@ + seq![';', 't', 'r', 'a', 'c', 'e', '='],
{
    let ghost start = v@;
    v.push(';');
    v.push('t');
    v.push('r');
    v.push('a');
    v.push('c');
    v.push('e');
    v.push('=');
    assert(v@ =~= start + seq![';', 't', 'r', 'a', 'c', 'e', '=']);
}

fn push_dialect_label(v: &mut Vec<char>)
    ensures
        final(v)@ == old(v)@ + seq![';', 'd', 'i', 'a', 'l', 'e', 'c', 't', '='],
{
    let ghost start = v@;
    v.push(';');
    v.push('d');
    v.push('i');
    v.push('a');
    v.push('l');
    v.push('e');
    v.push('c');
    v.push('t');
    v.push('=');
    assert(v@ =~= start + seq![';', 'd', 'i', 'a', 'l', 'e', 'c', 't', '=']);
}

fn push_bool_text(v: &mut Vec<char>, b: bool)
    ensures
        final(v)@ == old(v)@ + bool_text(b),
{
    let ghost start = v@;
    if b {
        v.push('t');
        v.push('r');
        v.push('u');
        v.push('e');
    } else {
        v.push('f');
        v.push('a');
        v.push('l');
        v.push('s');
        v.push('e');
    }
    assert(v@ =~= start + bool_text(b));
}

fn push_trace_level_text(v: &mut Vec<char>, t: TraceLevel)
    ensures
        final(v)@ == old(v)@ + trace_level_text(t),
{
    let ghost start = v@;
    match t {
        TraceLevel::Off => {
            v.push('N');
            v.push('o');
            v.push('n');
            v.push('e');
        },
        TraceLevel::Concise => {
            v.push('C');
            v.push('o');
            v.push('n');
            v.push('c');
            v.push('i');
            v.push('s');
            v.push('e');
        },
        TraceLevel::Full => {
            v.push('F');
            v.push('u');
            v.push('l');
            v.push('l');
        },
    }
    assert(v@ =~= start + trace_level_text(t));
}

fn push_dialect_text(v: &mut Vec<char>, d: DialectHint)
    ensures
        final(v)@ == old(v)@ + dialect_text(d),
{
    let ghost start = v@;
    match d {
        DialectHint::Msa => {
            v.push('M');
            v.push('s');
            v.push('a');
        },
        DialectHint::Egyptian => {
            v.push('E');
            v.push('g');
            v.push('y');
            v.push('p');
            v.push('t');
            v.push('i');
            v.push('a');
            v.push('n');
        },
        DialectHint::Auto => {
            v.push('A');
            v.push('u');
            v.push('t');
            v.push('o');
        },
    }
    assert(v@ =~= start + dialect_text(d));
}

/// The configuration text of `c`.
fn config_chars(c: &AnalyzerConfig) -> (r: Vec<char>)
    ensures
        r@ == config_text(*c),
{
    let mut v: Vec<char> = Vec::new();
    push_max_label(&mut v);
    push_decimal(&mut v, c.max_analyses_per_token as u64);
    push_backoff_label(&mut v);
    push_bool_text(&mut v, c.backoff_enabled);
    push_trace_label(&mut v);
    push_trace_level_text(&mut v, c.trace_level);
    push_dialect_label(&mut v);
    push_dialect_text(&mut v, c.dialect_hint);
    assert(v@ =~= config_text(*c));
    v
}

impl Default for BasicAnalyzer {
    /// An analyzer with the default configuration.
    fn default() -> (r: BasicAnalyzer)
        ensures
            r.config_view().max_analyses_per_token == 8,
            r.config_view().backoff_enabled,
            r.config_view().trace_level == TraceLevel::Off,
            r.config_view().dialect_hint == DialectHint::Auto,
            r.table_view() == builtin_patterns(),
            r.lex_view() == builtin_lex_view(),
    {
        BasicAnalyzer::new(AnalyzerConfig::default())
    }
}

impl Analyzer for BasicAnalyzer {
    fn analyze_token(&self, token: &str) -> (r: MorphForest)
        ensures
            forest_view(r) == first_token_forest(
                self.lex_view(),
                self.table_view(),
                self.config_view(),
                token@,
            ),
    {
        let toks = tokenize(token);
        if toks.len() > 0 {
            proof {
                lemma_token_within_input(token@, 0);
                assert(token_view(toks@[0]) == tokens_of(token@)[0]);
            }
            self.analyze_one(&toks[0])
        } else {
            let cs = chars_of(token);
            let r = MorphForest::new(string_of(cs.as_slice()), ByteSpan::new(0, 0));
            assert(forest_view(r).2 =~= Seq::<AnalysisView>::empty());
            r
        }
    }

    fn analyze_text(&self, text: &str) -> (r: Vec<MorphForest>)
        ensures
            r@.map_values(|f: MorphForest| forest_view(f)) == text_forests(
                self.lex_view(),
                self.table_view(),
                self.config_view(),
                tokens_of(text@),
            ),
    {
        let ghost lex = self.lex_view();
        let ghost table = self.table_view();
        let ghost c = self.config_view();
        let ghost ts = tokens_of(text@);
        let toks = tokenize(text);
        let mut out: Vec<MorphForest> = Vec::new();
        let mut i: usize = 0;
        assert(ts.take(0) =~= Seq::<(Seq<char>, Seq<char>, ByteSpan, TokenKind)>::empty());
        assert(out@.map_values(|f: MorphForest| forest_view(f)) =~= Seq::<ForestView>::empty());
        while i < toks.len()
            invariant
                i <= toks@.len(),
                byte_len(text@) <= u32::MAX,
                lex == self.lex_view(),
                table == self.table_view(),
                c == self.config_view(),
                ts == tokens_of(text@),
                toks@.map_values(|t: Token| token_view(t)) == ts,
                out@.map_values(|f: MorphForest| forest_view(f)) == text_forests(
                    lex,
                    table,
                    c,
                    ts.take(i as int),
                ),
            decreases toks@.len() - i,
        {
            proof {
                assert(token_view(toks@[i as int]) == ts[i as int]);
                assert(ts.take(i as int + 1).drop_last() =~= ts.take(i as int));
                assert(ts.take(i as int + 1).last() == ts[i as int]);
            }
            if toks[i].kind != TokenKind::Whitespace {
                proof {
                    lemma_token_within_input(text@, i as int);
                }
                let f = self.analyze_one(&toks[i]);
                let ghost before = out@;
                out.push(f);
                assert(out@.map_values(|f: MorphForest| forest_view(f)) =~= before.map_values(
                    |f: MorphForest| forest_view(f),
                ).push(forest_view(f)));
            }
            i = i + 1;
        }
        assert(ts.take(toks@.len() as int) =~= ts);
        out
    }

    fn lexicon_hash(&self) -> (r: ContentHash)
        ensures
            r.0@ == self.lex_view().3,
    {
        self.lexicon.hash()
    }

    fn config_hash(&self) -> (r: ContentHash)
        ensures
            r.0@ == blake3_hex(encode_utf8(config_text(self.config_view()))),
    {
        let v = config_chars(&self.config);
        let s = string_of(v.as_slice());
        ContentHash::of(s.as_str().as_bytes())
    }
}

/// Every clitic of analysis `a` of a token with raw surface `raw`, whose
/// first byte is at `base`, is raw-anchored.
pub open spec fn analysis_anchored(a: AnalysisView, raw: Seq<char>, base: u32) -> bool {
    &&& forall|k: int| 0 <= k < a.2.len() ==> clitic_anchored(#[trigger] a.2[k], raw, base)
    &&& forall|k: int| 0 <= k < a.4.len() ==> clitic_anchored(#[trigger] a.4[k], raw, base)
}

/// Every analysis a split yields is of the token's surface and span, records
/// the lexicon hash and carries decisions exactly under full tracing; with
/// the backoff on, each split yields at least one.
proof fn lemma_candidates_props(
    lex: LexView,
    table: Seq<PatternView>,
    c: AnalyzerConfig,
    raw: Seq<char>,
    span: ByteSpan,
    splits: Seq<SplitView>,
)
    ensures
        c.backoff_enabled ==> analysis_candidates(lex, table, c, raw, span, splits).len()
            >= splits.len(),
        forall|k: int|
            0 <= k < analysis_candidates(lex, table, c, raw, span, splits).len() ==> {
                let a = #[trigger] analysis_candidates(lex, table, c, raw, span, splits)[k];
                &&& a.0 == raw
                &&& a.1 == span
                &&& a.9.0 == lex.3
                &&& (a.9.3 is Some <==> c.trace_level == TraceLevel::Full)
            },
        (forall|k: int| 0 <= k < splits.len() ==> split_anchored(#[trigger] splits[k], raw, span.start))
            ==> forall|k: int|
            0 <= k < analysis_candidates(lex, table, c, raw, span, splits).len() ==> analysis_anchored(
                #[trigger] analysis_candidates(lex, table, c, raw, span, splits)[k],
                raw,
                span.start,
            ),
    decreases splits.len(),
{
    if splits.len() > 0 {
        let rest = splits.drop_last();
        lemma_candidates_props(lex, table, c, raw, span, rest);
        let a = analysis_candidates(lex, table, c, raw, span, rest);
        let b = split_analyses(lex, table, c, raw, span, splits.last());
        assert(analysis_candidates(lex, table, c, raw, span, splits) == a + b);
        assert(c.backoff_enabled ==> b.len() >= 1);
        assert forall|k: int| 0 <= k < (a + b).len() implies {
            let x = #[trigger] (a + b)[k];
            &&& x.0 == raw
            &&& x.1 == span
            &&& x.9.0 == lex.3
            &&& (x.9.3 is Some <==> c.trace_level == TraceLevel::Full)
        } by {
            if k >= a.len() {
                assert((a + b)[k] == b[k - a.len()]);
            } else {
                assert((a + b)[k] == a[k]);
            }
        }
        if forall|k: int| 0 <= k < splits.len() ==> split_anchored(#[trigger] splits[k], raw, span.start) {
            assert forall|k: int| 0 <= k < rest.len() implies split_anchored(#[trigger] rest[k], raw, span.start) by {
                assert(rest[k] == splits[k]);
            }
            let sp = splits.last();
            assert(split_anchored(splits[splits.len() - 1], raw, span.start));
            assert forall|k: int| 0 <= k < b.len() implies analysis_anchored(#[trigger] b[k], raw, span.start) by {
                assert(b[k].2 == sp.0 && b[k].4 == sp.2);
            }
            assert forall|k: int| 0 <= k < (a + b).len() implies analysis_anchored(
                #[trigger] (a + b)[k],
                raw,
                span.start,
            ) by {
                if k >= a.len() {
                    assert((a + b)[k] == b[k - a.len()]);
                } else {
                    assert((a + b)[k] == a[k]);
                }
            }
        }
    }
}

/// The forest of a token: of the token's surface and span; never empty while
/// the backoff is on or the token is not Arabic; at most the configured cap
/// of analyses when that is positive, exactly the cap when marked truncated;
/// ranked by confidence (highest first), then canonical id; every analysis of
/// the token's surface and span, recording the lexicon hash, carrying
/// decisions exactly under full tracing, with raw-anchored clitic spans. A
/// token that is not Arabic has exactly its leaf analysis.
pub proof fn law_token_forest(
    lex: LexView,
    table: Seq<PatternView>,
    c: AnalyzerConfig,
    tok: (Seq<char>, Seq<char>, ByteSpan, TokenKind),
)
    requires
        tok.2.start + byte_len(tok.0) <= u32::MAX,
    ensures
        ({
            let f = token_forest(lex, table, c, tok);
            &&& f.0 == tok.0
            &&& f.1 == tok.2
            &&& (c.backoff_enabled || tok.3 != TokenKind::Arabic) ==> f.2.len() >= 1
            &&& c.max_analyses_per_token > 0 ==> f.2.len() <= c.max_analyses_per_token
            &&& f.3 ==> c.max_analyses_per_token > 0 && f.2.len() == c.max_analyses_per_token
            &&& crate::rank::sorted_by_key(f.2, |a: AnalysisView| analysis_rank(a))
            &&& forall|k: int|
                0 <= k < f.2.len() ==> {
                    let a = #[trigger] f.2[k];
                    &&& a.0 == tok.0
                    &&& a.1 == tok.2
                    &&& a.9.0 == lex.3
                    &&& (a.9.3 is Some <==> c.trace_level == TraceLevel::Full)
                }
            &&& tok.3 != TokenKind::Arabic ==> f.2 == seq![leaf_view(lex, c.trace_level, tok.0, tok.2)]
            &&& forall|k: int| 0 <= k < f.2.len() ==> analysis_anchored(#[trigger] f.2[k], tok.0, tok.2.start)
        }),
{
    broadcast use vstd::seq_lib::group_to_multiset_ensures;

    let key = |a: AnalysisView| analysis_rank(a);
    let f = token_forest(lex, table, c, tok);
    if tok.3 == TokenKind::Arabic {
        let raw = tok.0;
        let span = tok.2;
        let sf = split_forest(raw, span.start, tok.3);
        crate::clitics::law_split_forest(raw, span.start, tok.3);
        crate::clitics::law_clitic_spans_are_raw_anchored(raw, span.start, tok.3);
        lemma_candidates_props(lex, table, c, raw, span, sf);
        let cands = analysis_candidates(lex, table, c, raw, span, sf);
        let ranked = sort_by_key(cands, key);
        crate::rank::lemma_sort_by_key_sorted(cands, key);
        crate::rank::lemma_sort_by_key_permutes(cands, key);
        assert forall|k: int| 0 <= k < ranked.len() implies {
            let a = #[trigger] ranked[k];
            &&& a.0 == raw
            &&& a.1 == span
            &&& a.9.0 == lex.3
            &&& (a.9.3 is Some <==> c.trace_level == TraceLevel::Full)
        } by {
            assert(ranked.contains(ranked[k]));
            crate::rank::lemma_multiset_contains(ranked, cands, ranked[k]);
        }
        assert forall|k: int| 0 <= k < ranked.len() implies analysis_anchored(
            #[trigger] ranked[k],
            raw,
            span.start,
        ) by {
            assert(ranked.contains(ranked[k]));
            crate::rank::lemma_multiset_contains(ranked, cands, ranked[k]);
        }
        let cap = c.max_analyses_per_token as nat;
        if cap > 0 && ranked.len() > cap {
            let t = ranked.take(cap as int);
            assert(f.2 == t);
            assert forall|i: int, j: int| 0 <= i < j < t.len() implies !key_lt(
                key(t[j]),
                key(t[i]),
            ) by {
                assert(t[i] == ranked[i] && t[j] == ranked[j]);
            }
            assert forall|k: int| 0 <= k < t.len() implies {
                let a = #[trigger] t[k];
                &&& a.0 == raw
                &&& a.1 == span
                &&& a.9.0 == lex.3
                &&& (a.9.3 is Some <==> c.trace_level == TraceLevel::Full)
            } by {
                assert(t[k] == ranked[k]);
            }
            assert forall|k: int| 0 <= k < t.len() implies analysis_anchored(
                #[trigger] t[k],
                raw,
                span.start,
            ) by {
                assert(t[k] == ranked[k]);
            }
        }
    }
}

/// Clitic `c`'s span slices input `s` to the UTF-8 bytes of its form.
pub open spec fn clitic_in_input(c: CliticView, s: Seq<char>) -> bool {
    c.2.start <= c.2.end <= encode_utf8(s).len() && encode_utf8(s).subrange(
        c.2.start as int,
        c.2.end as int,
    ) == encode_utf8(c.0)
}

/// Every clitic of analysis `a` is anchored in input `s`.
pub open spec fn analysis_in_input(a: AnalysisView, s: Seq<char>) -> bool {
    &&& forall|k: int| 0 <= k < a.2.len() ==> clitic_in_input(#[trigger] a.2[k], s)
    &&& forall|k: int| 0 <= k < a.4.len() ==> clitic_in_input(#[trigger] a.4[k], s)
}

/// Forest `f`'s span slices input `s` to the UTF-8 bytes of its token, and
/// every clitic of every analysis is anchored in `s`.
pub open spec fn forest_in_input(f: ForestView, s: Seq<char>) -> bool {
    &&& f.1.start <= f.1.end <= encode_utf8(s).len()
    &&& encode_utf8(s).subrange(f.1.start as int, f.1.end as int) == encode_utf8(f.0)
    &&& forall|k: int| 0 <= k < f.2.len() ==> analysis_in_input(#[trigger] f.2[k], s)
}

/// `f` is the forest of some token of `ts` that is not whitespace.
pub open spec fn forest_of_some_token(
    lex: LexView,
    table: Seq<PatternView>,
    c: AnalyzerConfig,
    ts: Seq<(Seq<char>, Seq<char>, ByteSpan, TokenKind)>,
    f: ForestView,
) -> bool {
    exists|j: int|
        0 <= j < ts.len() && (#[trigger] ts[j]).3 != TokenKind::Whitespace && f == token_forest(
            lex,
            table,
            c,
            ts[j],
        )
}

proof fn lemma_text_forests_from_tokens(
    lex: LexView,
    table: Seq<PatternView>,
    c: AnalyzerConfig,
    ts: Seq<(Seq<char>, Seq<char>, ByteSpan, TokenKind)>,
)
    ensures
        forall|k: int|
            0 <= k < text_forests(lex, table, c, ts).len() ==> forest_of_some_token(
                lex,
                table,
                c,
                ts,
                #[trigger] text_forests(lex, table, c, ts)[k],
            ),
    decreases ts.len(),
{
    if ts.len() > 0 {
        let rest = ts.drop_last();
        lemma_text_forests_from_tokens(lex, table, c, rest);
        let r = text_forests(lex, table, c, rest);
        let all = text_forests(lex, table, c, ts);
        assert forall|k: int| 0 <= k < all.len() implies forest_of_some_token(
            lex,
            table,
            c,
            ts,
            #[trigger] all[k],
        ) by {
            if k < r.len() {
                assert(all[k] == r[k]);
                assert(forest_of_some_token(lex, table, c, rest, r[k]));
                let j = choose|j: int|
                    0 <= j < rest.len() && (#[trigger] rest[j]).3 != TokenKind::Whitespace && r[k]
                        == token_forest(lex, table, c, rest[j]);
                assert(ts[j] == rest[j]);
            } else {
                assert(ts[ts.len() - 1] == ts.last());
            }
        }
    }
}

proof fn lemma_clitic_in_input(s: Seq<char>, raw: Seq<char>, base: u32, end: u32, cl: CliticView)
    requires
        base <= end <= encode_utf8(s).len(),
        encode_utf8(s).subrange(base as int, end as int) == encode_utf8(raw),
        clitic_anchored(cl, raw, base),
    ensures
        clitic_in_input(cl, s),
{
    let es = encode_utf8(s);
    crate::text::lemma_byte_len_is_utf8_len(raw);
    assert(es.subrange(cl.2.start as int, cl.2.end as int) =~= es.subrange(
        base as int,
        end as int,
    ).subrange(cl.2.start - base, cl.2.end - base));
}

proof fn lemma_forest_in_input(
    lex: LexView,
    table: Seq<PatternView>,
    c: AnalyzerConfig,
    s: Seq<char>,
    j: int,
)
    requires
        byte_len(s) <= u32::MAX,
        0 <= j < tokens_of(s).len(),
    ensures
        forest_in_input(token_forest(lex, table, c, tokens_of(s)[j]), s),
{
    let t = tokens_of(s)[j];
    crate::tokenize::lemma_token_bytes(s, j);
    lemma_token_within_input(s, j);
    let base = t.2.start;
    let end = t.2.end;
    let f = token_forest(lex, table, c, t);
    assert(forall|a: int| 0 <= a < f.2.len() ==> analysis_anchored(#[trigger] f.2[a], t.0, base))
        by {
        law_token_forest(lex, table, c, t);
    }
    assert(f.0 == t.0 && f.1 == t.2) by {
        law_token_forest(lex, table, c, t);
    }
    assert forall|a: int| 0 <= a < f.2.len() implies analysis_in_input(#[trigger] f.2[a], s) by {
        let an = f.2[a];
        assert(analysis_anchored(an, t.0, base));
        assert forall|c: int| 0 <= c < an.2.len() implies clitic_in_input(#[trigger] an.2[c], s) by {
            lemma_clitic_in_input(s, t.0, base, end, an.2[c]);
        }
        assert forall|c: int| 0 <= c < an.4.len() implies clitic_in_input(#[trigger] an.4[c], s) by {
            lemma_clitic_in_input(s, t.0, base, end, an.4[c]);
        }
    }
}

proof fn lemma_candidates_empty(
    lex: LexView,
    table: Seq<PatternView>,
    c: AnalyzerConfig,
    raw: Seq<char>,
    span: ByteSpan,
    splits: Seq<SplitView>,
)
    ensures
        analysis_candidates(lex, table, c, raw, span, splits).len() == 0 <==> forall|k: int|
            0 <= k < splits.len() ==> split_analyses(lex, table, c, raw, span, #[trigger] splits[k]).len()
                == 0,
    decreases splits.len(),
{
    if splits.len() > 0 {
        let rest = splits.drop_last();
        lemma_candidates_empty(lex, table, c, raw, span, rest);
        assert forall|k: int| 0 <= k < rest.len() implies rest[k] == splits[k] by {}
        if analysis_candidates(lex, table, c, raw, span, splits).len() == 0 {
            assert forall|k: int| 0 <= k < splits.len() implies split_analyses(
                lex,
                table,
                c,
                raw,
                span,
                #[trigger] splits[k],
            ).len() == 0 by {
                if k < rest.len() {
                    assert(rest[k] == splits[k]);
                }
            }
        } else if forall|k: int|
            0 <= k < splits.len() ==> split_analyses(lex, table, c, raw, span, #[trigger] splits[k]).len()
                == 0 {
            assert(split_analyses(lex, table, c, raw, span, splits[splits.len() - 1]).len() == 0);
            assert forall|k: int| 0 <= k < rest.len() implies split_analyses(
                lex,
                table,
                c,
                raw,
                span,
                #[trigger] rest[k],
            ).len() == 0 by {
                assert(rest[k] == splits[k]);
            }
        }
    }
}

proof fn lemma_candidates_contain(
    lex: LexView,
    table: Seq<PatternView>,
    c: AnalyzerConfig,
    raw: Seq<char>,
    span: ByteSpan,
    splits: Seq<SplitView>,
    k: int,
    a: AnalysisView,
)
    requires
        0 <= k < splits.len(),
        split_analyses(lex, table, c, raw, span, splits[k]).contains(a),
    ensures
        analysis_candidates(lex, table, c, raw, span, splits).contains(a),
    decreases splits.len(),
{
    let rest = splits.drop_last();
    let prev = analysis_candidates(lex, table, c, raw, span, rest);
    let last = split_analyses(lex, table, c, raw, span, splits.last());
    let all = analysis_candidates(lex, table, c, raw, span, splits);
    assert(all == prev + last);
    if k < rest.len() {
        assert(rest[k] == splits[k]);
        lemma_candidates_contain(lex, table, c, raw, span, rest, k, a);
        let i = choose|i: int| 0 <= i < prev.len() && prev[i] == a;
        assert(all[i] == a);
    } else {
        let i = choose|i: int| 0 <= i < last.len() && last[i] == a;
        assert(all[prev.len() + i] == a);
    }
}

/// With the out-of-vocabulary backoff off, an Arabic token's forest is empty
/// exactly when every clitic split's stem matches no pattern and the lexicon
/// knows it neither as an irregular form (by its normalized surface) nor as a
/// particle (by its normalized surface without tashkīl). And a split whose
/// stem matches no pattern but is a known irregular form keeps, in an
/// untruncated forest, the analysis giving the lexicon's root for it, a verb,
/// confirmed by the lexicon entry.
pub proof fn law_backoff_off_keeps_known_stems(
    lex: LexView,
    table: Seq<PatternView>,
    c: AnalyzerConfig,
    tok: (Seq<char>, Seq<char>, ByteSpan, TokenKind),
)
    requires
        tok.3 == TokenKind::Arabic,
        !c.backoff_enabled,
    ensures
        token_forest(lex, table, c, tok).2.len() == 0 <==> forall|k: int|
            0 <= k < split_forest(tok.0, tok.2.start, tok.3).len() ==> {
                let stem = (#[trigger] split_forest(tok.0, tok.2.start, tok.3)[k]).1.0;
                &&& stem_candidates(stem, table).len() == 0
                &&& !lex.2.dom().contains(normalized(stem))
                &&& !lex.1.dom().contains(strip_tashkil_seq(normalized(stem)))
            },
        forall|k: int|
            0 <= k < split_forest(tok.0, tok.2.start, tok.3).len() && !token_forest(
                lex,
                table,
                c,
                tok,
            ).3 && stem_candidates(
                (#[trigger] split_forest(tok.0, tok.2.start, tok.3)[k]).1.0,
                table,
            ).len() == 0 && lex.2.dom().contains(
                normalized(split_forest(tok.0, tok.2.start, tok.3)[k].1.0),
            ) ==> exists|i: int|
                0 <= i < token_forest(lex, table, c, tok).2.len() && {
                    let a = #[trigger] token_forest(lex, table, c, tok).2[i];
                    let norm = normalized(split_forest(tok.0, tok.2.start, tok.3)[k].1.0);
                    &&& a.5 == Some(lex.2[norm].1)
                    &&& a.7 == FeatureSet::only_pos(Some(Pos::Verb))
                    &&& a.9.2 == seq![lex.2[norm].0]
                },
{
    broadcast use vstd::seq_lib::group_to_multiset_ensures;

    let raw = tok.0;
    let span = tok.2;
    let sf = split_forest(raw, span.start, tok.3);
    let cands = analysis_candidates(lex, table, c, raw, span, sf);
    let key = |a: AnalysisView| analysis_rank(a);
    let ranked = sort_by_key(cands, key);
    crate::rank::lemma_sort_by_key_permutes(cands, key);
    lemma_candidates_empty(lex, table, c, raw, span, sf);
    let f = token_forest(lex, table, c, tok);
    assert(f.2.len() == 0 <==> cands.len() == 0);
    assert forall|k: int| 0 <= k < sf.len() implies (split_analyses(
        lex,
        table,
        c,
        raw,
        span,
        #[trigger] sf[k],
    ).len() == 0 <==> {
        let stem = sf[k].1.0;
        &&& stem_candidates(stem, table).len() == 0
        &&& !lex.2.dom().contains(normalized(stem))
        &&& !lex.1.dom().contains(strip_tashkil_seq(normalized(stem)))
    }) by {}
    assert forall|k: int|
        0 <= k < sf.len() && !f.3 && stem_candidates((#[trigger] sf[k]).1.0, table).len() == 0
            && lex.2.dom().contains(normalized(sf[k].1.0)) implies exists|i: int|
        0 <= i < f.2.len() && {
            let a = #[trigger] f.2[i];
            let norm = normalized(sf[k].1.0);
            &&& a.5 == Some(lex.2[norm].1)
            &&& a.7 == FeatureSet::only_pos(Some(Pos::Verb))
            &&& a.9.2 == seq![lex.2[norm].0]
        } by {
        let b = bare_view(lex, c.trace_level, raw, span, sf[k]);
        assert(split_analyses(lex, table, c, raw, span, sf[k]) == seq![b]);
        assert(seq![b][0] == b);
        lemma_candidates_contain(lex, table, c, raw, span, sf, k, b);
        crate::rank::lemma_multiset_contains(cands, ranked, b);
        assert(f.2 == ranked);
        let i = choose|i: int| 0 <= i < ranked.len() && ranked[i] == b;
        assert(f.2[i] == b);
    }
}

/// Analyzing a text gives one forest per token that is not whitespace, in
/// source order: the tokens' forests with the whitespace tokens filtered out.
pub proof fn law_text_forests_are_token_forests(
    lex: LexView,
    table: Seq<PatternView>,
    c: AnalyzerConfig,
    ts: Seq<(Seq<char>, Seq<char>, ByteSpan, TokenKind)>,
)
    ensures
        text_forests(lex, table, c, ts) == ts.filter(
            |t: (Seq<char>, Seq<char>, ByteSpan, TokenKind)| t.3 != TokenKind::Whitespace,
        ).map_values(
            |t: (Seq<char>, Seq<char>, ByteSpan, TokenKind)| token_forest(lex, table, c, t),
        ),
    decreases ts.len(),
{
    reveal(Seq::filter);
    if ts.len() > 0 {
        law_text_forests_are_token_forests(lex, table, c, ts.drop_last());
        let pred = |t: (Seq<char>, Seq<char>, ByteSpan, TokenKind)| t.3 != TokenKind::Whitespace;
        let f = |t: (Seq<char>, Seq<char>, ByteSpan, TokenKind)| token_forest(lex, table, c, t);
        let sub = ts.drop_last().filter(pred);
        if pred(ts.last()) {
            assert(sub.push(ts.last()).map_values(f) =~= sub.map_values(f).push(f(ts.last())));
        }
    }
}

/// Analyzed spans are raw-anchored in the input: for every forest of a text,
/// its span slices the input's UTF-8 bytes to its token, and the span of every
/// proclitic and enclitic of every analysis slices them to the clitic's form.
pub proof fn law_text_spans_are_raw_anchored(
    lex: LexView,
    table: Seq<PatternView>,
    c: AnalyzerConfig,
    s: Seq<char>,
)
    requires
        byte_len(s) <= u32::MAX,
    ensures
        forall|k: int|
            0 <= k < text_forests(lex, table, c, tokens_of(s)).len() ==> forest_in_input(
                #[trigger] text_forests(lex, table, c, tokens_of(s))[k],
                s,
            ),
{
    let ts = tokens_of(s);
    let fs = text_forests(lex, table, c, ts);
    lemma_text_forests_from_tokens(lex, table, c, ts);
    assert forall|k: int| 0 <= k < fs.len() implies forest_in_input(#[trigger] fs[k], s) by {
        assert(forest_of_some_token(lex, table, c, ts, fs[k]));
        let j = choose|j: int|
            0 <= j < ts.len() && (#[trigger] ts[j]).3 != TokenKind::Whitespace && fs[k]
                == token_forest(lex, table, c, ts[j]);
        lemma_forest_in_input(lex, table, c, s, j);
    }
}

/// The lexicon promotes what it knows: an analysis whose root the lexicon
/// confirms, an irregular form it knows, or a particle it knows has
/// confidence at least [`LEXICON_CONFIRM`]; an unconfirmed root or an
/// unanalyzed stem has at most [`UNCONFIRMED_PENALTY`]. So the former always
/// ranks above the latter.
pub proof fn law_lexicon_promotes(
    lex: LexView,
    table: Seq<PatternView>,
    t: TraceLevel,
    raw: Seq<char>,
    span: ByteSpan,
    sp: SplitView,
    m: MatchView,
)
    requires
        sp.3 <= CONF_SCALE,
        m.2 <= CONF_SCALE,
    ensures
        lex.0.dom().contains(m.1) ==> rooted_view(lex, table, t, raw, span, sp, m).8
            >= LEXICON_CONFIRM,
        !lex.0.dom().contains(m.1) ==> rooted_view(lex, table, t, raw, span, sp, m).8
            <= UNCONFIRMED_PENALTY,
        bare_view(lex, t, raw, span, sp).9.2.len() > 0 ==> bare_view(lex, t, raw, span, sp).8
            >= LEXICON_CONFIRM,
        bare_view(lex, t, raw, span, sp).9.2.len() == 0 ==> bare_view(lex, t, raw, span, sp).8
            <= UNANALYZED_PENALTY,
{
    let base = conf_and(sp.3, m.2);
    crate::conf::lemma_conf_and_bounds(sp.3, m.2);
    crate::conf::lemma_conf_or_bounds(base, LEXICON_CONFIRM as nat);
    crate::conf::lemma_conf_and_bounds(base, UNCONFIRMED_PENALTY as nat);
    crate::conf::lemma_conf_or_bounds(sp.3, LEXICON_CONFIRM as nat);
    crate::conf::lemma_conf_or_bounds(sp.3, PARTICLE_CONFIRM as nat);
    crate::conf::lemma_conf_and_bounds(sp.3, UNANALYZED_PENALTY as nat);
}

} // verus!
