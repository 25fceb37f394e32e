//! Provenance tracking — the chain of evidence that produced an analysis.
use vstd::prelude::*;

use crate::trace::TraceEvent;

verus! {

/// A stable identifier for a rule in the static rule registry.
#[derive(Debug, Clone, Copy, PartialEq, Eq, Hash, PartialOrd, Ord, Structural)]
pub struct RuleId(pub u32);

/// A stable identifier for a lexicon entry.
#[derive(Debug, Clone, Copy, PartialEq, Eq, Hash, PartialOrd, Ord, Structural)]
pub struct LexEntryId(pub u32);

/// The lowercase hexadecimal BLAKE3 digest of `data` (what `blake3::hash`
/// followed by `to_hex` returns).
pub uninterp spec fn blake3_hex(data: Seq<u8>) -> Seq<char>;

/// A lowercase hexadecimal digit.
pub open spec fn is_lower_hex(c: char) -> bool {
    ('0' <= c && c <= '9') || ('a' <= c && c <= 'f')
}

/// `blake3::hash(data).to_hex()` as a `String`: BLAKE3's 32-byte digest in
/// lowercase hexadecimal, hence 64 characters each `0-9` or `a-f`.
#[verifier::external_body]
fn blake3_hex_string(data: &[u8]) -> (r: String)
    ensures
        r@ == blake3_hex(data@),
        r@.len() == 64,
        forall|i: int| 0 <= i < r@.len() ==> is_lower_hex(#[trigger] r@[i]),
{
    blake3::hash(data).to_hex().to_string()
}

/// A BLAKE3 content hash, stored as a 64-character lowercase hex string.
///
/// Used everywhere a content-addressed identifier or input-fingerprint is
/// required: lexicon hashes, config hashes, canonical IDs for tie-breaking.
#[derive(Debug, Clone, PartialEq, Eq, Hash, PartialOrd, Ord)]
pub struct ContentHash(pub String);

impl ContentHash {
    /// Hash the given bytes with BLAKE3.
    pub fn of(bytes: &[u8]) -> (r: ContentHash)
        ensures
            r.0@ == blake3_hex(bytes@),
            r.0@.len() == 64,
            forall|i: int| 0 <= i < r.0@.len() ==> is_lower_hex(#[trigger] r.0@[i]),
    {
        ContentHash(blake3_hex_string(bytes))
    }

    /// A hash with the same digest.
    pub fn duplicate(&self) -> (r: ContentHash)
        ensures
            r.0@ == self.0@,
    {
        ContentHash(self.0.clone())
    }

    /// The full hex digest.
    pub fn as_str(&self) -> (r: &str)
        ensures
            r@ == self.0@,
    {
        self.0.as_str()
    }

    /// The human-readable form: the first 12 hex characters (fewer if the
    /// hash is shorter) followed by `...`.
    pub fn short_form(&self) -> (r: String)
        ensures
            r@ == self.0@.take(if self.0@.len() < 12 { self.0@.len() as int } else { 12 }) + seq![
                '.',
                '.',
                '.',
            ],
    {
        let cs = crate::text::chars_of_string(&self.0);
        let n: usize = if cs.len() < 12 {
            cs.len()
        } else {
            12
        };
        let mut out = String::new();
        let mut i: usize = 0;
        while i < n
            invariant
                n <= cs@.len(),
                i <= n,
                out@ == cs@.take(i as int),
            decreases n - i,
        {
            crate::text::push_char(&mut out, cs[i]);
            i = i + 1;
            assert(out@ =~= cs@.take(i as int));
        }
        crate::text::push_char(&mut out, '.');
        crate::text::push_char(&mut out, '.');
        crate::text::push_char(&mut out, '.');
        assert(out@ =~= cs@.take(n as int) + seq!['.', '.', '.']);
        out
    }
}

/// The rule identifiers of a provenance record, kept inline for up to eight.
#[verifier::external_body]
#[derive(Debug, PartialEq, Eq, Hash)]
pub struct RuleIds {
    inner: smallvec::SmallVec<[RuleId; 8]>,
}

/// The items held by a `RuleIds`, in order.
pub uninterp spec fn rule_ids_items(v: RuleIds) -> Seq<RuleId>;

/// `SmallVec::from_vec`: the inline vector holding exactly `v`'s items.
#[verifier::external_body]
fn rule_ids_from_vec(v: Vec<RuleId>) -> (r: RuleIds)
    ensures
        rule_ids_items(r) == v@,
{
    RuleIds { inner: smallvec::SmallVec::from_vec(v) }
}

/// `SmallVec::as_slice`: the items in order.
#[verifier::external_body]
fn rule_ids_as_slice(v: &RuleIds) -> (r: &[RuleId])
    ensures
        r@ == rule_ids_items(*v),
{
    v.inner.as_slice()
}

impl Clone for RuleIds {
    /// `SmallVec::clone`: a vector with the same items.
    #[verifier::external_body]
    fn clone(&self) -> (r: Self)
        ensures
            rule_ids_items(r) == rule_ids_items(*self),
    {
        RuleIds { inner: self.inner.clone() }
    }
}

impl RuleIds {
    /// The inline vector holding exactly `v`'s items.
    pub fn from_vec(v: Vec<RuleId>) -> (r: RuleIds)
        ensures
            rule_ids_items(r) == v@,
    {
        rule_ids_from_vec(v)
    }

    /// The items in order.
    pub fn as_slice(&self) -> (r: &[RuleId])
        ensures
            r@ == rule_ids_items(*self),
    {
        rule_ids_as_slice(self)
    }

    /// The number of items.
    pub fn len(&self) -> (r: usize)
        ensures
            r == rule_ids_items(*self).len(),
    {
        rule_ids_as_slice(self).len()
    }

    /// True when there are no items.
    pub fn is_empty(&self) -> (r: bool)
        ensures
            r == (rule_ids_items(*self).len() == 0),
    {
        rule_ids_as_slice(self).len() == 0
    }
}


/// The lexicon entries of a provenance record, kept inline for up to four.
#[verifier::external_body]
#[derive(Debug, PartialEq, Eq, Hash)]
pub struct LexEntryIds {
    inner: smallvec::SmallVec<[LexEntryId; 4]>,
}

/// The items held by a `LexEntryIds`, in order.
pub uninterp spec fn lex_entry_ids_items(v: LexEntryIds) -> Seq<LexEntryId>;

/// `SmallVec::from_vec`: the inline vector holding exactly `v`'s items.
#[verifier::external_body]
fn lex_entry_ids_from_vec(v: Vec<LexEntryId>) -> (r: LexEntryIds)
    ensures
        lex_entry_ids_items(r) == v@,
{
    LexEntryIds { inner: smallvec::SmallVec::from_vec(v) }
}

/// `SmallVec::as_slice`: the items in order.
#[verifier::external_body]
fn lex_entry_ids_as_slice(v: &LexEntryIds) -> (r: &[LexEntryId])
    ensures
        r@ == lex_entry_ids_items(*v),
{
    v.inner.as_slice()
}

impl Clone for LexEntryIds {
    /// `SmallVec::clone`: a vector with the same items.
    #[verifier::external_body]
    fn clone(&self) -> (r: Self)
        ensures
            lex_entry_ids_items(r) == lex_entry_ids_items(*self),
    {
        LexEntryIds { inner: self.inner.clone() }
    }
}

impl LexEntryIds {
    /// The inline vector holding exactly `v`'s items.
    pub fn from_vec(v: Vec<LexEntryId>) -> (r: LexEntryIds)
        ensures
            lex_entry_ids_items(r) == v@,
    {
        lex_entry_ids_from_vec(v)
    }

    /// The items in order.
    pub fn as_slice(&self) -> (r: &[LexEntryId])
        ensures
            r@ == lex_entry_ids_items(*self),
    {
        lex_entry_ids_as_slice(self)
    }

    /// The number of items.
    pub fn len(&self) -> (r: usize)
        ensures
            r == lex_entry_ids_items(*self).len(),
    {
        lex_entry_ids_as_slice(self).len()
    }

    /// True when there are no items.
    pub fn is_empty(&self) -> (r: bool)
        ensures
            r == (lex_entry_ids_items(*self).len() == 0),
    {
        lex_entry_ids_as_slice(self).len() == 0
    }
}


/// Records the chain of evidence that produced an analysis.
///
/// `decisions` is `None` when traces are disabled. The `lexicon_hash` is always
/// present so downstream consumers can verify they were built with the
/// expected lexicon.
#[derive(Debug, Clone, PartialEq, Eq, Hash)]
pub struct Provenance {
    pub lexicon_hash: ContentHash,
    pub rules: RuleIds,
    pub lex_entries: LexEntryIds,
    pub decisions: Option<Vec<TraceEvent>>,
}

impl Provenance {
    /// A provenance record with no rules, no lexicon entries and no trace.
    pub fn new(lexicon_hash: ContentHash) -> (r: Provenance)
        ensures
            r.lexicon_hash == lexicon_hash,
            rule_ids_items(r.rules) == Seq::<RuleId>::empty(),
            lex_entry_ids_items(r.lex_entries) == Seq::<LexEntryId>::empty(),
            r.decisions is None,
    {
        Provenance {
            lexicon_hash,
            rules: rule_ids_from_vec(Vec::new()),
            lex_entries: lex_entry_ids_from_vec(Vec::new()),
            decisions: None,
        }
    }
}

} // verus!
