//! Templatic morphological patterns (أوزان) and skeleton matching.
//!
//! Patterns are written in the classical ف/ع/ل measure notation: `ف` is the
//! first radical, `ع` the second, `ل` the third; every other character is a
//! literal that must align with the stem. Matching is exact-length alignment
//! of a diacritic-stripped stem against each pattern: literal positions must be
//! equal, radical positions capture the root.
//!
//! A strong radical slot rejects a long vowel (ا و ي ى) or hamza-carrier, which
//! signals a weak root. Weak Form-I patterns (hollow, defective, mithāl) name
//! the weak radical explicitly: hollow stems enumerate both و and ي, and the
//! lexicon later promotes the real root.
use vstd::prelude::*;

use crate::conf::{Conf, CONF_SCALE};
use crate::morph_ir::{PatternId, Pos, Radicals, Root, radicals_items};
use crate::rank::{Ranked, key_lt, lemma_key_lt_cons, rank_of, sort_by_key, sort_ranked, lemma_sort_by_key_map};
use crate::text::{chars_of, string_of};

verus! {

/// How a weak radical's hidden identity is recovered.
#[derive(Debug, Clone, Copy, PartialEq, Eq, Hash, Structural)]
pub enum WeakResolution {
    /// The radical is و (recoverable, e.g. defective ending in ا).
    Waw,
    /// The radical is ي (recoverable, e.g. defective ending in ى).
    Ya,
    /// Surface does not reveal which — enumerate BOTH و and ي candidates
    /// (e.g. hollow perfect قال). The lexicon disambiguates.
    WawOrYa,
}

/// One position in a pattern template.
#[derive(Debug, Clone, Copy, PartialEq, Eq, Hash, Structural)]
pub enum Slot {
    /// Captures a strong radical at this 0-based index (0=ف, 1=ع, 2=ل).
    /// Rejects long vowels / hamza-carriers.
    Radical(u8),
    /// A literal character that must match the stem exactly.
    Literal(char),
    /// A weak radical: the stem must show `surface` at this position; the
    /// radical's identity is given by `resolves`.
    Weak { idx: u8, surface: char, resolves: WeakResolution },
}

/// The slots of a pattern, kept inline for up to eight.
#[verifier::external_body]
#[derive(Debug, PartialEq, Eq, Hash)]
pub struct Slots {
    inner: smallvec::SmallVec<[Slot; 8]>,
}

/// The items held by a `Slots`, in order.
pub uninterp spec fn slots_items(v: Slots) -> Seq<Slot>;

/// `SmallVec::from_vec`: the inline vector holding exactly `v`'s items.
#[verifier::external_body]
fn slots_from_vec(v: Vec<Slot>) -> (r: Slots)
    ensures
        slots_items(r) == v@,
{
    Slots { inner: smallvec::SmallVec::from_vec(v) }
}

/// `SmallVec::as_slice`: the items in order.
#[verifier::external_body]
fn slots_as_slice(v: &Slots) -> (r: &[Slot])
    ensures
        r@ == slots_items(*v),
{
    v.inner.as_slice()
}

impl Clone for Slots {
    /// `SmallVec::clone`: a vector with the same items.
    #[verifier::external_body]
    fn clone(&self) -> (r: Self)
        ensures
            slots_items(r) == slots_items(*self),
    {
        Slots { inner: self.inner.clone() }
    }
}

impl Slots {
    /// The inline vector holding exactly `v`'s items.
    pub fn from_vec(v: Vec<Slot>) -> (r: Slots)
        ensures
            slots_items(r) == v@,
    {
        slots_from_vec(v)
    }

    /// The items in order.
    pub fn as_slice(&self) -> (r: &[Slot])
        ensures
            r@ == slots_items(*self),
    {
        slots_as_slice(self)
    }

    /// The number of items.
    pub fn len(&self) -> (r: usize)
        ensures
            r == slots_items(*self).len(),
    {
        slots_as_slice(self).len()
    }

    /// True when there are no items.
    pub fn is_empty(&self) -> (r: bool)
        ensures
            r == (slots_items(*self).len() == 0),
    {
        slots_as_slice(self).len() == 0
    }
}


/// A templatic pattern: its measure-notation template, parsed slots, the POS it
/// implies, and a deterministic commonness prior used as match confidence.
#[derive(Debug, Clone, PartialEq, Eq, Hash)]
pub struct Pattern {
    pub id: PatternId,
    pub template: String,
    pub slots: Slots,
    pub pos: Pos,
    pub prior: Conf,
}

/// What a pattern holds: id, template, slots, POS, prior (millionths).
pub type PatternView = (PatternId, Seq<char>, Seq<Slot>, Pos, nat);

/// The view of a pattern.
pub open spec fn pattern_view(p: Pattern) -> PatternView {
    (p.id, p.template@, slots_items(p.slots), p.pos, p.prior@)
}

/// A successful match of a stem against a pattern.
#[derive(Debug, Clone, PartialEq, Eq, Hash)]
pub struct PatternMatch {
    pub pattern: PatternId,
    pub root: Root,
    pub confidence: Conf,
}

/// What a match holds: pattern id, root radicals, confidence (millionths).
pub type MatchView = (PatternId, Seq<char>, nat);

/// The view of a match.
pub open spec fn match_view(m: PatternMatch) -> MatchView {
    (m.pattern, m.root@, m.confidence@)
}

/// Long vowels and hamza-carriers cannot be strong radicals.
pub open spec fn is_weak_radical(c: char) -> bool {
    c == '\u{0627}' || c == '\u{0648}' || c == '\u{064A}' || c == '\u{0649}' || c == '\u{0621}'
        || c == '\u{0623}' || c == '\u{0625}' || c == '\u{0622}' || c == '\u{0624}' || c
        == '\u{0626}' || c == '\u{0629}'
}

fn is_weak_radical_char(c: char) -> (r: bool)
    ensures
        r == is_weak_radical(c),
{
    c == '\u{0627}' || c == '\u{0648}' || c == '\u{064A}' || c == '\u{0649}' || c == '\u{0621}'
        || c == '\u{0623}' || c == '\u{0625}' || c == '\u{0622}' || c == '\u{0624}' || c
        == '\u{0626}' || c == '\u{0629}'
}

/// A slot whose radical index is within ف ع ل.
pub open spec fn slot_ok(s: Slot) -> bool {
    match s {
        Slot::Radical(i) => i < 3,
        Slot::Literal(_) => true,
        Slot::Weak { idx, .. } => idx < 3,
    }
}

/// The radicals captured so far (one optional char per ف ع ل) and the index
/// of an ambiguous (و or ي) radical, if any.
pub type ScanState = (Seq<Option<char>>, Option<int>);

/// One slot against one stem character; `None` when the match fails.
pub open spec fn scan_step(slot: Slot, ch: char, st: ScanState) -> Option<ScanState> {
    match slot {
        Slot::Literal(l) => if l != ch {
            None
        } else {
            Some(st)
        },
        Slot::Radical(i) => if is_weak_radical(ch) {
            None
        } else {
            Some((st.0.update(i as int, Some(ch)), st.1))
        },
        Slot::Weak { idx, surface, resolves } => if surface != ch {
            None
        } else {
            match resolves {
                WeakResolution::Waw => Some((st.0.update(idx as int, Some('\u{0648}')), st.1)),
                WeakResolution::Ya => Some((st.0.update(idx as int, Some('\u{064A}')), st.1)),
                WeakResolution::WawOrYa => Some((st.0, Some(idx as int))),
            }
        },
    }
}

/// The state after aligning the first `n` slots with the first `n` chars.
pub open spec fn scan_slots(slots: Seq<Slot>, chars: Seq<char>, n: int) -> Option<ScanState>
    decreases n,
{
    if n <= 0 {
        Some((seq![None, None, None], None))
    } else {
        match scan_slots(slots, chars, n - 1) {
            None => None,
            Some(st) => scan_step(slots[n - 1], chars[n - 1], st),
        }
    }
}

/// Radical `i` with an ambiguous position filled by `fill`.
pub open spec fn filled(st: ScanState, fill: char, i: int) -> Option<char> {
    if st.1 == Some(i) {
        Some(fill)
    } else {
        st.0[i]
    }
}

/// The root with every radical known, if all three are.
pub open spec fn complete_root(st: ScanState, fill: char) -> Seq<Seq<char>> {
    if filled(st, fill, 0) is Some && filled(st, fill, 1) is Some && filled(st, fill, 2) is Some {
        seq![seq![filled(st, fill, 0)->0, filled(st, fill, 1)->0, filled(st, fill, 2)->0]]
    } else {
        Seq::empty()
    }
}

/// The roots of a successful scan: one, or two (و then ي) when a radical is
/// ambiguous.
pub open spec fn assemble(st: ScanState) -> Seq<Seq<char>> {
    if st.1 is Some {
        complete_root(st, '\u{0648}') + complete_root(st, '\u{064A}')
    } else {
        complete_root(st, '\u{0}')
    }
}

/// The roots a pattern with `slots` captures from stem `chars`: none when the
/// lengths differ, a literal or weak surface mismatches, or a strong slot
/// holds a weak letter.
pub open spec fn match_roots(slots: Seq<Slot>, chars: Seq<char>) -> Seq<Seq<char>> {
    if slots.len() != chars.len() {
        Seq::empty()
    } else {
        match scan_slots(slots, chars, slots.len() as int) {
            None => Seq::empty(),
            Some(st) => assemble(st),
        }
    }
}

/// The roots one pattern yields for one stem, kept inline for up to two.
#[verifier::external_body]
#[derive(Debug, PartialEq, Eq, Hash)]
pub struct RootChoices {
    inner: smallvec::SmallVec<[Root; 2]>,
}

/// The items held by a `RootChoices`, in order.
pub uninterp spec fn root_choices_items(v: RootChoices) -> Seq<Root>;

/// `SmallVec::from_vec`: the inline vector holding exactly `v`'s items.
#[verifier::external_body]
fn root_choices_from_vec(v: Vec<Root>) -> (r: RootChoices)
    ensures
        root_choices_items(r) == v@,
{
    RootChoices { inner: smallvec::SmallVec::from_vec(v) }
}

/// `SmallVec::as_slice`: the items in order.
#[verifier::external_body]
fn root_choices_as_slice(v: &RootChoices) -> (r: &[Root])
    ensures
        r@ == root_choices_items(*v),
{
    v.inner.as_slice()
}

impl Clone for RootChoices {
    /// `SmallVec::clone`: a vector with the same items.
    #[verifier::external_body]
    fn clone(&self) -> (r: Self)
        ensures
            root_choices_items(r) == root_choices_items(*self),
    {
        RootChoices { inner: self.inner.clone() }
    }
}

impl RootChoices {
    /// The inline vector holding exactly `v`'s items.
    pub fn from_vec(v: Vec<Root>) -> (r: RootChoices)
        ensures
            root_choices_items(r) == v@,
    {
        root_choices_from_vec(v)
    }

    /// The items in order.
    pub fn as_slice(&self) -> (r: &[Root])
        ensures
            r@ == root_choices_items(*self),
    {
        root_choices_as_slice(self)
    }

    /// The number of items.
    pub fn len(&self) -> (r: usize)
        ensures
            r == root_choices_items(*self).len(),
    {
        root_choices_as_slice(self).len()
    }

    /// True when there are no items.
    pub fn is_empty(&self) -> (r: bool)
        ensures
            r == (root_choices_items(*self).len() == 0),
    {
        root_choices_as_slice(self).len() == 0
    }
}


/// The matches of a stem, kept inline for up to eight.
#[verifier::external_body]
#[derive(Debug, PartialEq, Eq, Hash)]
pub struct PatternMatches {
    inner: smallvec::SmallVec<[PatternMatch; 8]>,
}

/// The items held by a `PatternMatches`, in order.
pub uninterp spec fn pattern_matches_items(v: PatternMatches) -> Seq<PatternMatch>;

/// `SmallVec::from_vec`: the inline vector holding exactly `v`'s items.
#[verifier::external_body]
fn pattern_matches_from_vec(v: Vec<PatternMatch>) -> (r: PatternMatches)
    ensures
        pattern_matches_items(r) == v@,
{
    PatternMatches { inner: smallvec::SmallVec::from_vec(v) }
}

/// `SmallVec::as_slice`: the items in order.
#[verifier::external_body]
fn pattern_matches_as_slice(v: &PatternMatches) -> (r: &[PatternMatch])
    ensures
        r@ == pattern_matches_items(*v),
{
    v.inner.as_slice()
}

impl Clone for PatternMatches {
    /// `SmallVec::clone`: a vector with the same items.
    #[verifier::external_body]
    fn clone(&self) -> (r: Self)
        ensures
            pattern_matches_items(r) == pattern_matches_items(*self),
    {
        PatternMatches { inner: self.inner.clone() }
    }
}

impl PatternMatches {
    /// The inline vector holding exactly `v`'s items.
    pub fn from_vec(v: Vec<PatternMatch>) -> (r: PatternMatches)
        ensures
            pattern_matches_items(r) == v@,
    {
        pattern_matches_from_vec(v)
    }

    /// The items in order.
    pub fn as_slice(&self) -> (r: &[PatternMatch])
        ensures
            r@ == pattern_matches_items(*self),
    {
        pattern_matches_as_slice(self)
    }

    /// The number of items.
    pub fn len(&self) -> (r: usize)
        ensures
            r == pattern_matches_items(*self).len(),
    {
        pattern_matches_as_slice(self).len()
    }

    /// True when there are no items.
    pub fn is_empty(&self) -> (r: bool)
        ensures
            r == (pattern_matches_items(*self).len() == 0),
    {
        pattern_matches_as_slice(self).len() == 0
    }
}



/// The scan state stays failed once a slot has failed.
proof fn lemma_scan_failed_stays(slots: Seq<Slot>, chars: Seq<char>, n: int, k: int)
    requires
        0 <= n <= k,
        scan_slots(slots, chars, n) is None,
    ensures
        scan_slots(slots, chars, k) is None,
    decreases k - n,
{
    if n < k {
        lemma_scan_failed_stays(slots, chars, n, k - 1);
    }
}

/// The radical list of a scan always has three entries.
proof fn lemma_scan_len(slots: Seq<Slot>, chars: Seq<char>, n: int)
    requires
        forall|k: int| 0 <= k < slots.len() ==> slot_ok(#[trigger] slots[k]),
        n <= slots.len(),
    ensures
        scan_slots(slots, chars, n) matches Some(st) ==> st.0.len() == 3 && (st.1 matches Some(
            a,
        ) ==> 0 <= a < 3),
    decreases n,
{
    if n > 0 {
        lemma_scan_len(slots, chars, n - 1);
        assert(slot_ok(slots[n - 1]));
    }
}

/// Set entry `i` of the three radicals.
fn set_radical(rad: &mut (Option<char>, Option<char>, Option<char>), i: u8, c: char)
    requires
        i < 3,
    ensures
        seq![final(rad).0, final(rad).1, final(rad).2] == seq![old(rad).0, old(rad).1, old(rad).2].update(
            i as int,
            Some(c),
        ),
{
    if i == 0 {
        rad.0 = Some(c);
    } else if i == 1 {
        rad.1 = Some(c);
    } else {
        rad.2 = Some(c);
    }
    assert(seq![rad.0, rad.1, rad.2] =~= seq![old(rad).0, old(rad).1, old(rad).2].update(
        i as int,
        Some(c),
    ));
}

/// The root of three radicals with the ambiguous one (if any) filled.
fn complete_root_exec(
    rad: (Option<char>, Option<char>, Option<char>),
    amb: Option<u8>,
    fill: char,
    out: &mut Vec<Root>,
)
    requires
        amb matches Some(a) ==> a < 3,
    ensures
        final(out)@.map_values(|x: Root| x@) == old(out)@.map_values(|x: Root| x@) + complete_root(
            (
                seq![rad.0, rad.1, rad.2],
                match amb {
                    Some(a) => Some(a as int),
                    None => None,
                },
            ),
            fill,
        ),
{
    let ghost st: ScanState = (
        seq![rad.0, rad.1, rad.2],
        match amb {
            Some(a) => Some(a as int),
            None => None,
        },
    );
    let c0 = if amb == Some(0u8) {
        Some(fill)
    } else {
        rad.0
    };
    let c1 = if amb == Some(1u8) {
        Some(fill)
    } else {
        rad.1
    };
    let c2 = if amb == Some(2u8) {
        Some(fill)
    } else {
        rad.2
    };
    assert(c0 == filled(st, fill, 0));
    assert(c1 == filled(st, fill, 1));
    assert(c2 == filled(st, fill, 2));
    let ghost before = out@;
    match (c0, c1, c2) {
        (Some(a), Some(b), Some(c)) => {
            let mut v: Vec<char> = Vec::new();
            v.push(a);
            v.push(b);
            v.push(c);
            let root = Root { radicals: Radicals::from_vec(v) };
            assert(root@ =~= seq![a, b, c]);
            out.push(root);
            assert(out@.map_values(|x: Root| x@) =~= before.map_values(|x: Root| x@) + seq![
                seq![a, b, c],
            ]);
        },
        _ => {
            assert(out@.map_values(|x: Root| x@) =~= before.map_values(|x: Root| x@) + Seq::<
                Seq<char>,
            >::empty());
        },
    }
}

impl Pattern {
    /// Try to match a diacritic-stripped stem (as a char slice) against this
    /// pattern. Returns the captured root(s): none if lengths differ, a literal
    /// or weak surface mismatches, or a strong radical slot captured a weak
    /// letter. A hollow pattern with a `WawOrYa` slot returns two candidates.
    pub fn try_match(&self, chars: &[char]) -> (r: RootChoices)
        requires
            forall|k: int|
                0 <= k < slots_items(self.slots).len() ==> slot_ok(
                    #[trigger] slots_items(self.slots)[k],
                ),
        ensures
            root_choices_items(r).map_values(|x: Root| x@) == match_roots(
                slots_items(self.slots),
                chars@,
            ),
    {
        let slots = self.slots.as_slice();
        let ghost sl = slots@;
        let mut out: Vec<Root> = Vec::new();
        if slots.len() != chars.len() {
            assert(out@.map_values(|x: Root| x@) =~= Seq::<Seq<char>>::empty());
            return RootChoices::from_vec(out);
        }
        let mut rad: (Option<char>, Option<char>, Option<char>) = (None, None, None);
        let mut amb: Option<u8> = None;
        let mut i: usize = 0;
        proof {
            lemma_scan_len(sl, chars@, sl.len() as int);
        }
        while i < slots.len()
            invariant
                sl == slots@,
                sl == slots_items(self.slots),
                slots@.len() == chars@.len(),
                forall|k: int| 0 <= k < sl.len() ==> slot_ok(#[trigger] sl[k]),
                i <= slots@.len(),
                scan_slots(sl, chars@, i as int) == Some(
                    (
                        seq![rad.0, rad.1, rad.2],
                        match amb {
                            Some(a) => Some(a as int),
                            None => None::<int>,
                        },
                    ),
                ),
                amb matches Some(a) ==> a < 3,
                out@ == Seq::<Root>::empty(),
            decreases slots@.len() - i,
        {
            let ch = chars[i];
            assert(slot_ok(sl[i as int]));
            match slots[i] {
                Slot::Literal(l) => {
                    if l != ch {
                        proof {
                            lemma_scan_failed_stays(sl, chars@, i as int + 1, sl.len() as int);
                        }
                        assert(out@.map_values(|x: Root| x@) =~= Seq::<Seq<char>>::empty());
                        return RootChoices::from_vec(out);
                    }
                },
                Slot::Radical(k) => {
                    if is_weak_radical_char(ch) {
                        proof {
                            lemma_scan_failed_stays(sl, chars@, i as int + 1, sl.len() as int);
                        }
                        assert(out@.map_values(|x: Root| x@) =~= Seq::<Seq<char>>::empty());
                        return RootChoices::from_vec(out);
                    }
                    set_radical(&mut rad, k, ch);
                },
                Slot::Weak { idx, surface, resolves } => {
                    if surface != ch {
                        proof {
                            lemma_scan_failed_stays(sl, chars@, i as int + 1, sl.len() as int);
                        }
                        assert(out@.map_values(|x: Root| x@) =~= Seq::<Seq<char>>::empty());
                        return RootChoices::from_vec(out);
                    }
                    match resolves {
                        WeakResolution::Waw => set_radical(&mut rad, idx, '\u{0648}'),
                        WeakResolution::Ya => set_radical(&mut rad, idx, '\u{064A}'),
                        WeakResolution::WawOrYa => {
                            amb = Some(idx);
                        },
                    }
                },
            }
            i = i + 1;
        }
        assert(out@.map_values(|x: Root| x@) =~= Seq::<Seq<char>>::empty());
        match amb {
            Some(_) => {
                complete_root_exec(rad, amb, '\u{0648}', &mut out);
                complete_root_exec(rad, amb, '\u{064A}', &mut out);
                assert(Seq::<Seq<char>>::empty() + complete_root(
                    (seq![rad.0, rad.1, rad.2], Some((amb->0) as int)),
                    '\u{0648}',
                ) =~= complete_root(
                    (seq![rad.0, rad.1, rad.2], Some((amb->0) as int)),
                    '\u{0648}',
                ));
            },
            None => {
                complete_root_exec(rad, amb, '\u{0}', &mut out);
                assert(Seq::<Seq<char>>::empty() + complete_root(
                    (seq![rad.0, rad.1, rad.2], None),
                    '\u{0}',
                ) =~= complete_root((seq![rad.0, rad.1, rad.2], None), '\u{0}'));
            },
        }
        RootChoices::from_vec(out)
    }
}


/// The slot a measure-notation character stands for: ف ع ل are the first,
/// second and third radical; anything else is a literal.
pub open spec fn template_slot(c: char) -> Slot {
    if c == '\u{0641}' {
        Slot::Radical(0)
    } else if c == '\u{0639}' {
        Slot::Radical(1)
    } else if c == '\u{0644}' {
        Slot::Radical(2)
    } else {
        Slot::Literal(c)
    }
}

/// The slots of a measure-notation template.
pub open spec fn template_slots(t: Seq<char>) -> Seq<Slot> {
    t.map_values(|c: char| template_slot(c))
}

/// How many times `c` occurs in `s`.
pub open spec fn count_char(s: Seq<char>, c: char) -> nat
    decreases s.len(),
{
    if s.len() == 0 {
        0
    } else {
        count_char(s.drop_last(), c) + if s.last() == c {
            1nat
        } else {
            0nat
        }
    }
}

/// A well-formed triliteral measure: exactly one each of ف, ع, ل.
pub open spec fn triliteral_template(t: Seq<char>) -> bool {
    count_char(t, '\u{0641}') == 1 && count_char(t, '\u{0639}') == 1 && count_char(t, '\u{0644}')
        == 1
}

fn template_slot_exec(c: char) -> (r: Slot)
    ensures
        r == template_slot(c),
{
    if c == '\u{0641}' {
        Slot::Radical(0)
    } else if c == '\u{0639}' {
        Slot::Radical(1)
    } else if c == '\u{0644}' {
        Slot::Radical(2)
    } else {
        Slot::Literal(c)
    }
}

impl Pattern {
    /// Parse a measure-notation template into slots. The template must be a
    /// well-formed triliteral measure (exactly one each of ف, ع, ل).
    fn parse(id: u32, template: &str, pos: Pos, prior: Conf) -> (r: Pattern)
        requires
            triliteral_template(template@),
        ensures
            pattern_view(r) == (PatternId(id), template@, template_slots(template@), pos, prior@),
    {
        let cs = chars_of(template);
        let mut slots: Vec<Slot> = Vec::new();
        let mut i: usize = 0;
        while i < cs.len()
            invariant
                i <= cs@.len(),
                slots@ == template_slots(cs@.take(i as int)),
            decreases cs@.len() - i,
        {
            slots.push(template_slot_exec(cs[i]));
            i = i + 1;
            assert(slots@ =~= template_slots(cs@.take(i as int)));
        }
        assert(cs@.take(cs@.len() as int) =~= cs@);
        Pattern {
            id: PatternId(id),
            template: string_of(cs.as_slice()),
            slots: Slots::from_vec(slots),
            pos,
            prior,
        }
    }

    /// A pattern from explicit slots (for weak patterns whose surface cannot be
    /// written in ف/ع/ل notation).
    fn weak(id: u32, template: &str, slots: Vec<Slot>, pos: Pos, prior: Conf) -> (r: Pattern)
        ensures
            pattern_view(r) == (PatternId(id), template@, slots@, pos, prior@),
    {
        let cs = chars_of(template);
        Pattern {
            id: PatternId(id),
            template: string_of(cs.as_slice()),
            slots: Slots::from_vec(slots),
            pos,
            prior,
        }
    }
}

/// Every slot of every pattern names a radical within ف ع ل.
pub open spec fn patterns_ok(ps: Seq<PatternView>) -> bool {
    forall|i: int, k: int|
        0 <= i < ps.len() && 0 <= k < ps[i].2.len() ==> slot_ok(#[trigger] ps[i].2[k])
}

/// The static, deterministically-ordered pattern table.
#[derive(Debug)]
pub struct PatternTable {
    patterns: Vec<Pattern>,
}

impl View for PatternTable {
    type V = Seq<PatternView>;

    /// The patterns, in table order.
    closed spec fn view(&self) -> Seq<PatternView> {
        self.patterns@.map_values(|p: Pattern| pattern_view(p))
    }
}

impl PatternTable {
    /// Every slot of every pattern names a radical within ف ع ل.
    #[verifier::type_invariant]
    closed spec fn slots_in_range(self) -> bool {
        patterns_ok(self@)
    }
}

/// The built-in pattern table: eleven strong Form-I..X measures and five weak
/// Form-I patterns (hollow, defective-w, defective-y, mithāl-w, mithāl-y).
/// Priors are deterministic commonness placeholders, in millionths.
pub open spec fn builtin_patterns() -> Seq<PatternView> {
    seq![
        (PatternId(1), "فعل"@, template_slots("فعل"@), Pos::Verb, 400_000nat),
        (PatternId(2), "فاعل"@, template_slots("فاعل"@), Pos::Noun, 600_000nat),
        (PatternId(3), "مفعول"@, template_slots("مفعول"@), Pos::Noun, 600_000nat),
        (PatternId(4), "فعال"@, template_slots("فعال"@), Pos::Noun, 550_000nat),
        (PatternId(5), "فعول"@, template_slots("فعول"@), Pos::Noun, 450_000nat),
        (PatternId(6), "فعيل"@, template_slots("فعيل"@), Pos::Adj, 550_000nat),
        (PatternId(7), "مفعل"@, template_slots("مفعل"@), Pos::Noun, 500_000nat),
        (PatternId(8), "مفعلة"@, template_slots("مفعلة"@), Pos::Noun, 500_000nat),
        (PatternId(9), "مفاعل"@, template_slots("مفاعل"@), Pos::Noun, 450_000nat),
        (PatternId(10), "افتعال"@, template_slots("افتعال"@), Pos::Noun, 450_000nat),
        (PatternId(11), "استفعال"@, template_slots("استفعال"@), Pos::Noun, 450_000nat),
        (
            PatternId(20),
            "فال (hollow)"@,
            seq![
                Slot::Radical(0),
                Slot::Weak { idx: 1, surface: '\u{0627}', resolves: WeakResolution::WawOrYa },
                Slot::Radical(2),
            ],
            Pos::Verb,
            500_000nat,
        ),
        (
            PatternId(21),
            "فعا (defective-w)"@,
            seq![
                Slot::Radical(0),
                Slot::Radical(1),
                Slot::Weak { idx: 2, surface: '\u{0627}', resolves: WeakResolution::Waw },
            ],
            Pos::Verb,
            500_000nat,
        ),
        (
            PatternId(22),
            "فعى (defective-y)"@,
            seq![
                Slot::Radical(0),
                Slot::Radical(1),
                Slot::Weak { idx: 2, surface: '\u{0649}', resolves: WeakResolution::Ya },
            ],
            Pos::Verb,
            500_000nat,
        ),
        (
            PatternId(23),
            "وفع (mithal-w)"@,
            seq![
                Slot::Weak { idx: 0, surface: '\u{0648}', resolves: WeakResolution::Waw },
                Slot::Radical(1),
                Slot::Radical(2),
            ],
            Pos::Verb,
            450_000nat,
        ),
        (
            PatternId(24),
            "يفع (mithal-y)"@,
            seq![
                Slot::Weak { idx: 0, surface: '\u{064A}', resolves: WeakResolution::Ya },
                Slot::Radical(1),
                Slot::Radical(2),
            ],
            Pos::Verb,
            450_000nat,
        ),
    ]
}


impl Pattern {
    /// A pattern with the same view.
    pub fn duplicate(&self) -> (r: Pattern)
        ensures
            pattern_view(r) == pattern_view(*self),
    {
        Pattern {
            id: self.id,
            template: self.template.clone(),
            slots: self.slots.clone(),
            pos: self.pos,
            prior: self.prior,
        }
    }
}

impl Clone for PatternTable {
    /// A table with the same patterns.
    fn clone(&self) -> (r: Self)
        ensures
            r@ == self@,
    {
        proof {
            use_type_invariant(self);
        }
        let mut out: Vec<Pattern> = Vec::new();
        let mut i: usize = 0;
        while i < self.patterns.len()
            invariant
                i <= self.patterns@.len(),
                out@.map_values(|p: Pattern| pattern_view(p)) == self.patterns@.take(
                    i as int,
                ).map_values(|p: Pattern| pattern_view(p)),
            decreases self.patterns@.len() - i,
        {
            let ghost before = out@;
            let d = self.patterns[i].duplicate();
            out.push(d);
            assert(self.patterns@.take(i as int + 1) =~= self.patterns@.take(i as int).push(
                self.patterns@[i as int],
            ));
            assert(out@.map_values(|p: Pattern| pattern_view(p)) =~= before.map_values(
                |p: Pattern| pattern_view(p),
            ).push(pattern_view(d)));
            assert(self.patterns@.take(i as int + 1).map_values(|p: Pattern| pattern_view(p))
                =~= self.patterns@.take(i as int).map_values(|p: Pattern| pattern_view(p)).push(
                pattern_view(self.patterns@[i as int]),
            ));
            i = i + 1;
        }
        assert(self.patterns@.take(self.patterns@.len() as int) =~= self.patterns@);
        PatternTable { patterns: out }
    }
}


impl PatternTable {
    /// The built-in pattern set (see [`builtin_patterns`]). Ordering is fixed.
    pub fn builtin() -> (r: PatternTable)
        ensures
            r@ == builtin_patterns(),
    {
        proof {
            reveal_with_fuel(count_char, 9);
            reveal_strlit("فعل");
            reveal_strlit("فاعل");
            reveal_strlit("مفعول");
            reveal_strlit("فعال");
            reveal_strlit("فعول");
            reveal_strlit("فعيل");
            reveal_strlit("مفعل");
            reveal_strlit("مفعلة");
            reveal_strlit("مفاعل");
            reveal_strlit("افتعال");
            reveal_strlit("استفعال");
        }
        let mut patterns: Vec<Pattern> = Vec::new();
        patterns.push(Pattern::parse(1, "فعل", Pos::Verb, Conf::clamp_millionths(400000)));
        patterns.push(Pattern::parse(2, "فاعل", Pos::Noun, Conf::clamp_millionths(600000)));
        patterns.push(Pattern::parse(3, "مفعول", Pos::Noun, Conf::clamp_millionths(600000)));
        patterns.push(Pattern::parse(4, "فعال", Pos::Noun, Conf::clamp_millionths(550000)));
        patterns.push(Pattern::parse(5, "فعول", Pos::Noun, Conf::clamp_millionths(450000)));
        patterns.push(Pattern::parse(6, "فعيل", Pos::Adj, Conf::clamp_millionths(550000)));
        patterns.push(Pattern::parse(7, "مفعل", Pos::Noun, Conf::clamp_millionths(500000)));
        patterns.push(Pattern::parse(8, "مفعلة", Pos::Noun, Conf::clamp_millionths(500000)));
        patterns.push(Pattern::parse(9, "مفاعل", Pos::Noun, Conf::clamp_millionths(450000)));
        patterns.push(Pattern::parse(10, "افتعال", Pos::Noun, Conf::clamp_millionths(450000)));
        patterns.push(Pattern::parse(11, "استفعال", Pos::Noun, Conf::clamp_millionths(450000)));
        let mut hollow: Vec<Slot> = Vec::new();
        hollow.push(Slot::Radical(0));
        hollow.push(Slot::Weak { idx: 1, surface: '\u{0627}', resolves: WeakResolution::WawOrYa });
        hollow.push(Slot::Radical(2));
        assert(hollow@ =~= seq![
            Slot::Radical(0),
            Slot::Weak { idx: 1, surface: '\u{0627}', resolves: WeakResolution::WawOrYa },
            Slot::Radical(2),
        ]);
        patterns.push(Pattern::weak(20, "فال (hollow)", hollow, Pos::Verb, Conf::clamp_millionths(500_000)));
        let mut def_w: Vec<Slot> = Vec::new();
        def_w.push(Slot::Radical(0));
        def_w.push(Slot::Radical(1));
        def_w.push(Slot::Weak { idx: 2, surface: '\u{0627}', resolves: WeakResolution::Waw });
        assert(def_w@ =~= seq![
            Slot::Radical(0),
            Slot::Radical(1),
            Slot::Weak { idx: 2, surface: '\u{0627}', resolves: WeakResolution::Waw },
        ]);
        patterns.push(Pattern::weak(21, "فعا (defective-w)", def_w, Pos::Verb, Conf::clamp_millionths(500_000)));
        let mut def_y: Vec<Slot> = Vec::new();
        def_y.push(Slot::Radical(0));
        def_y.push(Slot::Radical(1));
        def_y.push(Slot::Weak { idx: 2, surface: '\u{0649}', resolves: WeakResolution::Ya });
        assert(def_y@ =~= seq![
            Slot::Radical(0),
            Slot::Radical(1),
            Slot::Weak { idx: 2, surface: '\u{0649}', resolves: WeakResolution::Ya },
        ]);
        patterns.push(Pattern::weak(22, "فعى (defective-y)", def_y, Pos::Verb, Conf::clamp_millionths(500_000)));
        let mut mit_w: Vec<Slot> = Vec::new();
        mit_w.push(Slot::Weak { idx: 0, surface: '\u{0648}', resolves: WeakResolution::Waw });
        mit_w.push(Slot::Radical(1));
        mit_w.push(Slot::Radical(2));
        assert(mit_w@ =~= seq![
            Slot::Weak { idx: 0, surface: '\u{0648}', resolves: WeakResolution::Waw },
            Slot::Radical(1),
            Slot::Radical(2),
        ]);
        patterns.push(Pattern::weak(23, "وفع (mithal-w)", mit_w, Pos::Verb, Conf::clamp_millionths(450_000)));
        let mut mit_y: Vec<Slot> = Vec::new();
        mit_y.push(Slot::Weak { idx: 0, surface: '\u{064A}', resolves: WeakResolution::Ya });
        mit_y.push(Slot::Radical(1));
        mit_y.push(Slot::Radical(2));
        assert(mit_y@ =~= seq![
            Slot::Weak { idx: 0, surface: '\u{064A}', resolves: WeakResolution::Ya },
            Slot::Radical(1),
            Slot::Radical(2),
        ]);
        patterns.push(Pattern::weak(24, "يفع (mithal-y)", mit_y, Pos::Verb, Conf::clamp_millionths(450_000)));
        let ghost pv = patterns@.map_values(|p: Pattern| pattern_view(p));
        assert(pv =~= builtin_patterns());
        proof {
            assert forall|i: int, k: int|
                0 <= i < pv.len() && 0 <= k < pv[i].2.len() implies slot_ok(#[trigger] pv[i].2[k]) by {
                if i < 11 {
                    assert(pv[i].2 == template_slots(pv[i].1));
                    assert(pv[i].2[k] == template_slot(pv[i].1[k]));
                }
            }
        }
        PatternTable { patterns }
    }

    /// The patterns, in table order.
    pub fn patterns(&self) -> (r: &[Pattern])
        ensures
            r@.map_values(|p: Pattern| pattern_view(p)) == self@,
    {
        self.patterns.as_slice()
    }
}

impl Default for PatternTable {
    /// The built-in table.
    fn default() -> (r: PatternTable)
        ensures
            r@ == builtin_patterns(),
    {
        PatternTable::builtin()
    }
}


/// The matches of every pattern against `chars`, in table order; each
/// pattern's roots in the order it yields them; confidence = the prior.
pub open spec fn matches_of(ps: Seq<PatternView>, chars: Seq<char>) -> Seq<MatchView>
    decreases ps.len(),
{
    if ps.len() == 0 {
        Seq::empty()
    } else {
        let p = ps.last();
        matches_of(ps.drop_last(), chars) + match_roots(p.2, chars).map_values(
            |r: Seq<char>| (p.0, r, p.4),
        )
    }
}

/// Matches rank by confidence, highest first, then by pattern id.
pub open spec fn match_rank(m: MatchView) -> Seq<int> {
    seq![-(m.2 as int), m.0.0 as int]
}

/// The ranked matches of a skeleton against a table.
pub open spec fn skeleton_matches(ps: Seq<PatternView>, chars: Seq<char>) -> Seq<MatchView> {
    sort_by_key(matches_of(ps, chars), |m: MatchView| match_rank(m))
}

/// The POS of the first pattern with id `id`.
pub open spec fn pos_lookup(ps: Seq<PatternView>, id: PatternId) -> Option<Pos>
    decreases ps.len(),
{
    if ps.len() == 0 {
        None
    } else if ps[0].0 == id {
        Some(ps[0].3)
    } else {
        pos_lookup(ps.drop_first(), id)
    }
}

impl Ranked for PatternMatch {
    open spec fn rank_key(&self) -> Seq<int> {
        match_rank(match_view(*self))
    }

    fn ranks_before(&self, other: &Self) -> (r: bool) {
        let a = self.confidence.millionths();
        let b = other.confidence.millionths();
        proof {
            lemma_key_lt_cons(-(a as int), seq![self.pattern.0 as int], -(b as int), seq![other.pattern.0 as int]);
            lemma_key_lt_cons(self.pattern.0 as int, Seq::empty(), other.pattern.0 as int, Seq::empty());
            assert(seq![-(a as int)] + seq![self.pattern.0 as int] =~= match_rank(match_view(*self)));
            assert(seq![-(b as int)] + seq![other.pattern.0 as int] =~= match_rank(match_view(*other)));
            assert(seq![self.pattern.0 as int] + Seq::<int>::empty() =~= seq![self.pattern.0 as int]);
            assert(seq![other.pattern.0 as int] + Seq::<int>::empty() =~= seq![other.pattern.0 as int]);
        }
        if a != b {
            a > b
        } else {
            self.pattern.0 < other.pattern.0
        }
    }
}

impl PatternMatch {
    /// A match with the same view.
    pub fn duplicate(&self) -> (r: PatternMatch)
        ensures
            match_view(r) == match_view(*self),
    {
        PatternMatch { pattern: self.pattern, root: self.root.duplicate(), confidence: self.confidence }
    }
}

impl PatternTable {
    /// Match a diacritic-stripped skeleton against every pattern, returning
    /// all matches; confidence is the pattern's prior. Results are ranked by
    /// confidence (highest first), then pattern id.
    pub fn match_skeleton(&self, skeleton: &str) -> (r: PatternMatches)
        ensures
            pattern_matches_items(r).map_values(|m: PatternMatch| match_view(m))
                == skeleton_matches(self@, skeleton@),
    {
        proof {
            use_type_invariant(self);
        }
        let chars = chars_of(skeleton);
        let mut out: Vec<PatternMatch> = Vec::new();
        let ghost ps = self@;
        let mut i: usize = 0;
        assert(self.patterns@.take(0).map_values(|p: Pattern| pattern_view(p)) =~= Seq::<PatternView>::empty());
        assert(out@.map_values(|m: PatternMatch| match_view(m)) =~= Seq::<MatchView>::empty());
        while i < self.patterns.len()
            invariant
                ps == self@,
                ps == self.patterns@.map_values(|p: Pattern| pattern_view(p)),
                patterns_ok(ps),
                i <= self.patterns@.len(),
                out@.map_values(|m: PatternMatch| match_view(m)) == matches_of(ps.take(i as int), chars@),
            decreases self.patterns@.len() - i,
        {
            let p = &self.patterns[i];
            assert(ps[i as int] == pattern_view(*p));
            assert forall|k: int| 0 <= k < slots_items(p.slots).len() implies slot_ok(
                #[trigger] slots_items(p.slots)[k],
            ) by {
                assert(ps[i as int].2[k] == slots_items(p.slots)[k]);
            }
            let roots = p.try_match(chars.as_slice());
            let rs = roots.as_slice();
            let ghost base = out@;
            let mut j: usize = 0;
            while j < rs.len()
                invariant
                    j <= rs@.len(),
                    rs@.map_values(|x: Root| x@) == match_roots(slots_items(p.slots), chars@),
                    out@.map_values(|m: PatternMatch| match_view(m)) == base.map_values(
                        |m: PatternMatch| match_view(m),
                    ) + rs@.take(j as int).map_values(|x: Root| (p.id, x@, p.prior@)),
                decreases rs@.len() - j,
            {
                let m = PatternMatch { pattern: p.id, root: rs[j].duplicate(), confidence: p.prior };
                let ghost before = out@;
                out.push(m);
                assert(rs@.take(j as int + 1) =~= rs@.take(j as int).push(rs@[j as int]));
                assert(out@.map_values(|m: PatternMatch| match_view(m)) =~= before.map_values(
                    |m: PatternMatch| match_view(m),
                ).push(match_view(m)));
                assert(rs@.take(j as int + 1).map_values(|x: Root| (p.id, x@, p.prior@)) =~= rs@.take(
                    j as int,
                ).map_values(|x: Root| (p.id, x@, p.prior@)).push((p.id, rs@[j as int]@, p.prior@)));
                j = j + 1;
            }
            proof {
                assert(rs@.take(rs@.len() as int) =~= rs@);
                assert(ps.take(i as int + 1).drop_last() =~= ps.take(i as int));
                assert(ps.take(i as int + 1).last() == ps[i as int]);
                let mr = match_roots(slots_items(p.slots), chars@);
                let lhs = rs@.map_values(|x: Root| (p.id, x@, p.prior@));
                let rhs = mr.map_values(|r: Seq<char>| (p.id, r, p.prior@));
                let rv = rs@.map_values(|x: Root| x@);
                assert forall|k: int| 0 <= k < rs@.len() implies #[trigger] lhs[k] == rhs[k] by {
                    assert(rv[k] == rs@[k]@);
                }
                assert(lhs =~= rhs);
            }
            i = i + 1;
        }
        assert(ps.take(self.patterns@.len() as int) =~= ps);
        let sorted = sort_ranked(out);
        proof {
            assert forall|t: PatternMatch| #[trigger] rank_of(t) == match_rank(match_view(t)) by {}
            lemma_sort_by_key_map(
                out@,
                |m: PatternMatch| match_view(m),
                |t: PatternMatch| rank_of(t),
                |v: MatchView| match_rank(v),
            );
        }
        PatternMatches::from_vec(sorted)
    }

    /// The POS of the first pattern with id `id`.
    pub fn pos_of(&self, id: PatternId) -> (r: Option<Pos>)
        ensures
            r == pos_lookup(self@, id),
    {
        let ghost ps = self@;
        assert(ps.skip(0) =~= ps);
        let mut i: usize = 0;
        while i < self.patterns.len()
            invariant
                ps == self.patterns@.map_values(|p: Pattern| pattern_view(p)),
                i <= self.patterns@.len(),
                pos_lookup(ps, id) == pos_lookup(ps.skip(i as int), id),
            decreases self.patterns@.len() - i,
        {
            assert(ps.skip(i as int)[0] == pattern_view(self.patterns@[i as int]));
            assert(ps.skip(i as int).drop_first() =~= ps.skip(i as int + 1));
            if self.patterns[i].id == id {
                return Some(self.patterns[i].pos);
            }
            i = i + 1;
        }
        None
    }
}

/// A radical a pattern may capture: a strong consonant, or و / ي recovered
/// from a weak slot — never ا (U+0627), ى (U+0649), the hamza ء (U+0621) or a
/// hamza carrier أ إ آ ؤ ئ (U+0623, U+0625, U+0622, U+0624, U+0626), nor
/// ة (U+0629).
pub open spec fn radical_ok(c: char) -> bool {
    c != '\u{0627}' && c != '\u{0649}' && c != '\u{0621}' && c != '\u{0623}' && c != '\u{0625}'
        && c != '\u{0622}' && c != '\u{0624}' && c != '\u{0626}' && c != '\u{0629}'
}

proof fn lemma_scan_radicals(slots: Seq<Slot>, chars: Seq<char>, n: int)
    requires
        0 <= n <= slots.len(),
        n <= chars.len(),
        forall|k: int| 0 <= k < slots.len() ==> slot_ok(#[trigger] slots[k]),
    ensures
        scan_slots(slots, chars, n) matches Some(st) ==> {
            &&& st.0.len() == 3
            &&& forall|i: int| 0 <= i < 3 && (#[trigger] st.0[i]) is Some ==> radical_ok(st.0[i]->0)
            &&& st.1 matches Some(j) ==> 0 <= j < 3
        },
    decreases n,
{
    if n > 0 {
        lemma_scan_radicals(slots, chars, n - 1);
        assert(slot_ok(slots[n - 1]));
    }
}

/// Pattern roots are consonantal: every root a pattern captures has three
/// radicals, each a strong consonant or a recovered و / ي (so never ا).
pub proof fn law_pattern_roots_are_consonantal(slots: Seq<Slot>, chars: Seq<char>)
    requires
        forall|k: int| 0 <= k < slots.len() ==> slot_ok(#[trigger] slots[k]),
    ensures
        forall|k: int|
            0 <= k < match_roots(slots, chars).len() ==> (#[trigger] match_roots(slots, chars)[k]).len()
                == 3 && forall|i: int|
                0 <= i < 3 ==> radical_ok(#[trigger] match_roots(slots, chars)[k][i]),
{
    if slots.len() == chars.len() {
        lemma_scan_radicals(slots, chars, slots.len() as int);
        match scan_slots(slots, chars, slots.len() as int) {
            Some(st) => {
                let rs = assemble(st);
                assert forall|k: int| 0 <= k < rs.len() implies (#[trigger] rs[k]).len() == 3
                    && forall|i: int| 0 <= i < 3 ==> radical_ok(#[trigger] rs[k][i]) by {
                    let w = complete_root(st, '\u{0648}');
                    let y = complete_root(st, '\u{064A}');
                    let z = complete_root(st, '\u{0}');
                    if st.1 is Some {
                        if k < w.len() {
                            assert(rs[k] == w[k]);
                        } else {
                            assert(rs[k] == y[k - w.len()]);
                        }
                    } else {
                        assert(rs[k] == z[k]);
                    }
                    assert forall|i: int| 0 <= i < 3 implies radical_ok(#[trigger] rs[k][i]) by {
                        assert(st.0[i] is Some ==> radical_ok(st.0[i]->0));
                    }
                }
            },
            None => {},
        }
    }
}

/// Ranked matches: every match of a skeleton against a table with valid
/// slots comes in order of confidence (highest first), then pattern id, and
/// its root is consonantal.
pub proof fn law_skeleton_matches(ps: Seq<PatternView>, chars: Seq<char>)
    requires
        patterns_ok(ps),
    ensures
        crate::rank::sorted_by_key(skeleton_matches(ps, chars), |m: MatchView| match_rank(m)),
        forall|k: int|
            0 <= k < skeleton_matches(ps, chars).len() ==> (#[trigger] skeleton_matches(ps, chars)[k]).1.len()
                == 3 && forall|i: int|
                0 <= i < 3 ==> radical_ok(#[trigger] skeleton_matches(ps, chars)[k].1[i]),
{
    broadcast use vstd::seq_lib::group_to_multiset_ensures;

    let key = |m: MatchView| match_rank(m);
    crate::rank::lemma_sort_by_key_sorted(matches_of(ps, chars), key);
    crate::rank::lemma_sort_by_key_permutes(matches_of(ps, chars), key);
    lemma_matches_consonantal(ps, chars);
    let sm = skeleton_matches(ps, chars);
    let mo = matches_of(ps, chars);
    assert forall|k: int| 0 <= k < sm.len() implies (#[trigger] sm[k]).1.len() == 3 && forall|i: int|
        0 <= i < 3 ==> radical_ok(#[trigger] sm[k].1[i]) by {
        assert(sm.contains(sm[k]));
        crate::rank::lemma_multiset_contains(sm, mo, sm[k]);
        let j = choose|j: int| 0 <= j < mo.len() && mo[j] == sm[k];
        assert(mo[j].1.len() == 3);
    }
}

proof fn lemma_matches_consonantal(ps: Seq<PatternView>, chars: Seq<char>)
    requires
        patterns_ok(ps),
    ensures
        forall|k: int|
            0 <= k < matches_of(ps, chars).len() ==> (#[trigger] matches_of(ps, chars)[k]).1.len()
                == 3 && forall|i: int|
                0 <= i < 3 ==> radical_ok(#[trigger] matches_of(ps, chars)[k].1[i]),
    decreases ps.len(),
{
    if ps.len() > 0 {
        let p = ps.last();
        let rest = ps.drop_last();
        assert(patterns_ok(rest)) by {
            assert forall|i: int, k: int| 0 <= i < rest.len() && 0 <= k < rest[i].2.len() implies slot_ok(
                #[trigger] rest[i].2[k],
            ) by {
                assert(rest[i] == ps[i]);
            }
        }
        lemma_matches_consonantal(rest, chars);
        assert forall|k: int| 0 <= k < p.2.len() implies slot_ok(#[trigger] p.2[k]) by {
            assert(ps[ps.len() - 1] == p);
        }
        law_pattern_roots_are_consonantal(p.2, chars);
        let a = matches_of(rest, chars);
        let b = match_roots(p.2, chars).map_values(|r: Seq<char>| (p.0, r, p.4));
        assert(matches_of(ps, chars) == a + b);
        assert forall|k: int| 0 <= k < (a + b).len() implies (#[trigger] (a + b)[k]).1.len() == 3
            && forall|i: int| 0 <= i < 3 ==> radical_ok(#[trigger] (a + b)[k].1[i]) by {
            if k >= a.len() {
                assert((a + b)[k] == b[k - a.len()]);
                assert(b[k - a.len()].1 == match_roots(p.2, chars)[k - a.len()]);
            } else {
                assert((a + b)[k] == a[k]);
            }
        }
    }
}

} // verus!
