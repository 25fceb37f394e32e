//! Trace types — events recording inference steps.
//!
//! For fixed input, lexicon and configuration, the sequence of trace events is
//! identical from run to run.
use vstd::prelude::*;

use crate::conf::Conf;
use crate::morph_ir::{ByteSpan, PatternId, Root};

verus! {

/// How detailed traces should be.
#[derive(Debug, Clone, Copy, PartialEq, Eq, Hash, Structural)]
pub enum TraceLevel {
    /// No tracing (named `None` in the serialized configuration).
    Off,
    /// Top-level events only: tokenize, clitic_split, final.
    Concise,
    /// Every inference step including pattern matches and lexicon lookups.
    Full,
}

impl Default for TraceLevel {
    /// Tracing is off by default.
    fn default() -> (r: TraceLevel)
        ensures
            r == TraceLevel::Off,
    {
        TraceLevel::Off
    }
}

/// The proclitic identifiers of a traced split, kept inline for up to four.
#[verifier::external_body]
#[derive(Debug, PartialEq, Eq, Hash)]
pub struct ProcliticIds {
    inner: smallvec::SmallVec<[u16; 4]>,
}

/// The items held by a `ProcliticIds`, in order.
pub uninterp spec fn proclitic_ids_items(v: ProcliticIds) -> Seq<u16>;

/// `SmallVec::from_vec`: the inline vector holding exactly `v`'s items.
#[verifier::external_body]
fn proclitic_ids_from_vec(v: Vec<u16>) -> (r: ProcliticIds)
    ensures
        proclitic_ids_items(r) == v@,
{
    ProcliticIds { inner: smallvec::SmallVec::from_vec(v) }
}

/// `SmallVec::as_slice`: the items in order.
#[verifier::external_body]
fn proclitic_ids_as_slice(v: &ProcliticIds) -> (r: &[u16])
    ensures
        r@ == proclitic_ids_items(*v),
{
    v.inner.as_slice()
}

impl Clone for ProcliticIds {
    /// `SmallVec::clone`: a vector with the same items.
    #[verifier::external_body]
    fn clone(&self) -> (r: Self)
        ensures
            proclitic_ids_items(r) == proclitic_ids_items(*self),
    {
        ProcliticIds { inner: self.inner.clone() }
    }
}

impl ProcliticIds {
    /// The inline vector holding exactly `v`'s items.
    pub fn from_vec(v: Vec<u16>) -> (r: ProcliticIds)
        ensures
            proclitic_ids_items(r) == v@,
    {
        proclitic_ids_from_vec(v)
    }

    /// The items in order.
    pub fn as_slice(&self) -> (r: &[u16])
        ensures
            r@ == proclitic_ids_items(*self),
    {
        proclitic_ids_as_slice(self)
    }

    /// The number of items.
    pub fn len(&self) -> (r: usize)
        ensures
            r == proclitic_ids_items(*self).len(),
    {
        proclitic_ids_as_slice(self).len()
    }

    /// True when there are no items.
    pub fn is_empty(&self) -> (r: bool)
        ensures
            r == (proclitic_ids_items(*self).len() == 0),
    {
        proclitic_ids_as_slice(self).len() == 0
    }
}


/// The enclitic identifiers of a traced split, kept inline for up to two.
#[verifier::external_body]
#[derive(Debug, PartialEq, Eq, Hash)]
pub struct EncliticIds {
    inner: smallvec::SmallVec<[u16; 2]>,
}

/// The items held by a `EncliticIds`, in order.
pub uninterp spec fn enclitic_ids_items(v: EncliticIds) -> Seq<u16>;

/// `SmallVec::from_vec`: the inline vector holding exactly `v`'s items.
#[verifier::external_body]
fn enclitic_ids_from_vec(v: Vec<u16>) -> (r: EncliticIds)
    ensures
        enclitic_ids_items(r) == v@,
{
    EncliticIds { inner: smallvec::SmallVec::from_vec(v) }
}

/// `SmallVec::as_slice`: the items in order.
#[verifier::external_body]
fn enclitic_ids_as_slice(v: &EncliticIds) -> (r: &[u16])
    ensures
        r@ == enclitic_ids_items(*v),
{
    v.inner.as_slice()
}

impl Clone for EncliticIds {
    /// `SmallVec::clone`: a vector with the same items.
    #[verifier::external_body]
    fn clone(&self) -> (r: Self)
        ensures
            enclitic_ids_items(r) == enclitic_ids_items(*self),
    {
        EncliticIds { inner: self.inner.clone() }
    }
}

impl EncliticIds {
    /// The inline vector holding exactly `v`'s items.
    pub fn from_vec(v: Vec<u16>) -> (r: EncliticIds)
        ensures
            enclitic_ids_items(r) == v@,
    {
        enclitic_ids_from_vec(v)
    }

    /// The items in order.
    pub fn as_slice(&self) -> (r: &[u16])
        ensures
            r@ == enclitic_ids_items(*self),
    {
        enclitic_ids_as_slice(self)
    }

    /// The number of items.
    pub fn len(&self) -> (r: usize)
        ensures
            r == enclitic_ids_items(*self).len(),
    {
        enclitic_ids_as_slice(self).len()
    }

    /// True when there are no items.
    pub fn is_empty(&self) -> (r: bool)
        ensures
            r == (enclitic_ids_items(*self).len() == 0),
    {
        enclitic_ids_as_slice(self).len() == 0
    }
}


/// A single trace event.
#[derive(Debug, Clone, PartialEq, Eq, Hash)]
pub enum TraceEvent {
    Tokenize { span: ByteSpan, text: String },
    CliticSplit {
        token_id: u32,
        proclitic_ids: ProcliticIds,
        stem: String,
        enclitic_ids: EncliticIds,
    },
    PatternMatch {
        stem: String,
        pattern: PatternId,
        root: Option<Root>,
        conf: Conf,
        rule_id: u32,
    },
    LexLookup { stem: String, entry_id: u32, confirms: bool },
    Final { token: String, analysis_count: u32, best_conf: Conf },
}

/// Whether a trace at `level` keeps `event`: nothing at `None`; only
/// `Tokenize`, `CliticSplit` and `Final` at `Concise`; everything at `Full`.
pub open spec fn level_keeps(level: TraceLevel, event: TraceEvent) -> bool {
    match level {
        TraceLevel::Off => false,
        TraceLevel::Concise => match event {
            TraceEvent::Tokenize { .. } => true,
            TraceEvent::CliticSplit { .. } => true,
            TraceEvent::Final { .. } => true,
            _ => false,
        },
        TraceLevel::Full => true,
    }
}

/// A sequence of trace events emitted at a configured level.
#[derive(Debug, Clone, PartialEq, Eq)]
pub struct Trace {
    pub level: TraceLevel,
    pub events: Vec<TraceEvent>,
}

impl Trace {
    /// An empty trace at `level`.
    pub fn new(level: TraceLevel) -> (r: Trace)
        ensures
            r.level == level,
            r.events@ == Seq::<TraceEvent>::empty(),
    {
        Trace { level, events: Vec::new() }
    }

    /// Record an event if the trace level allows it.
    pub fn record(&mut self, event: TraceEvent)
        ensures
            final(self).level == old(self).level,
            final(self).events@ == (if level_keeps(old(self).level, event) {
                old(self).events@.push(event)
            } else {
                old(self).events@
            }),
    {
        let keep = match self.level {
            TraceLevel::Off => false,
            TraceLevel::Concise => match &event {
                TraceEvent::Tokenize { .. } => true,
                TraceEvent::CliticSplit { .. } => true,
                TraceEvent::Final { .. } => true,
                _ => false,
            },
            TraceLevel::Full => true,
        };
        if keep {
            self.events.push(event);
        }
    }
}

} // verus!
