//! Word-frequency aggregation.
//!
//! Groups word tokens (Arabic and Latin) by their **normalized** form and
//! counts occurrences, recording which raw surface variants collapsed into
//! each group — so that, e.g., `أحمد` and `احمد` are recognized as the same
//! word. Punctuation, whitespace, digits and other tokens are excluded.
use vstd::prelude::*;

use crate::clitics::chars_lt;
use crate::morph_ir::ByteSpan;
use crate::rank::{
    chars_key, key_lt, lemma_key_lt_cons, lemma_key_lt_irreflexive, lemma_key_lt_total,
    lemma_key_lt_transitive, lemma_sort_by_key_map, lemma_sort_by_key_permutes,
    lemma_sort_by_key_sorted, rank_of, sort_by_key, sort_ranked, sorted_by_key, Ranked,
};
use crate::text::{chars_eq, chars_of_string};
use crate::tokenize::{token_view, Token, TokenKind};

verus! {

/// What a token holds: raw characters, normalized characters, span, kind.
pub type TokView = (Seq<char>, Seq<char>, ByteSpan, TokenKind);

/// Words are Arabic and Latin tokens.
pub open spec fn is_word(t: TokView) -> bool {
    t.3 == TokenKind::Arabic || t.3 == TokenKind::Latin
}

/// The number of words of `ts` whose normalized form is `n`.
pub open spec fn norm_count(ts: Seq<TokView>, n: Seq<char>) -> nat
    decreases ts.len(),
{
    if ts.len() == 0 {
        0
    } else {
        norm_count(ts.drop_last(), n) + if is_word(ts.last()) && ts.last().1 == n {
            1nat
        } else {
            0nat
        }
    }
}

/// The raw surfaces of the words of `ts` whose normalized form is `n`.
pub open spec fn norm_raws(ts: Seq<TokView>, n: Seq<char>) -> Set<Seq<char>>
    decreases ts.len(),
{
    if ts.len() == 0 {
        Set::empty()
    } else if is_word(ts.last()) && ts.last().1 == n {
        norm_raws(ts.drop_last(), n).insert(ts.last().0)
    } else {
        norm_raws(ts.drop_last(), n)
    }
}

/// The span of the earliest word of `ts` whose normalized form is `n`: the
/// smallest start offset, the first such word in order on a tie.
pub open spec fn first_span(ts: Seq<TokView>, n: Seq<char>) -> Option<ByteSpan>
    decreases ts.len(),
{
    if ts.len() == 0 {
        None
    } else {
        let p = first_span(ts.drop_last(), n);
        if is_word(ts.last()) && ts.last().1 == n {
            match p {
                Some(s) => if ts.last().2.start < s.start {
                    Some(ts.last().2)
                } else {
                    Some(s)
                },
                None => Some(ts.last().2),
            }
        } else {
            p
        }
    }
}

/// One normalized word group with its count, raw variants, and first position.
#[derive(Debug, Clone, PartialEq, Eq)]
pub struct FreqEntry {
    /// The normalized form shared by every occurrence in this group.
    pub normalized: String,
    /// Number of tokens that normalized to this form.
    pub count: usize,
    /// Distinct raw surface forms, sorted by code point order (which is also
    /// UTF-8 byte order), so `أ` (U+0623) precedes `ا` (U+0627).
    pub variants: Vec<String>,
    /// Span of the earliest occurrence (smallest raw start offset).
    pub first_span: ByteSpan,
}

/// What an entry holds: normalized form, count, variants, first span.
pub type FreqView = (Seq<char>, nat, Seq<Seq<char>>, ByteSpan);

/// The view of an entry.
pub open spec fn freq_view(e: FreqEntry) -> FreqView {
    (e.normalized@, e.count as nat, e.variants@.map_values(|s: String| s@), e.first_span)
}

/// Every element strictly precedes the next in code point order.
pub open spec fn strictly_ascending(s: Seq<Seq<char>>) -> bool {
    forall|i: int, j: int|
        0 <= i < j < s.len() ==> key_lt(chars_key(#[trigger] s[i]), chars_key(#[trigger] s[j]))
}

/// Entries rank by count, highest first, then by normalized form.
pub open spec fn freq_rank(e: FreqView) -> Seq<int> {
    seq![-(e.1 as int)] + chars_key(e.0)
}

/// `e` is the group of its normalized form among the words of `ts`: the form
/// occurs, `e` counts its words, lists their distinct raw surfaces in
/// ascending order, and holds the earliest one's span.
pub open spec fn entry_describes(ts: Seq<TokView>, e: FreqView) -> bool {
    &&& norm_count(ts, e.0) > 0
    &&& e.1 == norm_count(ts, e.0)
    &&& strictly_ascending(e.2)
    &&& e.2.to_set() == norm_raws(ts, e.0)
    &&& first_span(ts, e.0) == Some(e.3)
}

/// The groups `gs` describe the words of `ts`: each describes its form, no
/// form has two groups, every form that occurs has one.
pub open spec fn groups_describe(ts: Seq<TokView>, gs: Seq<FreqView>) -> bool {
    &&& forall|k: int| 0 <= k < gs.len() ==> entry_describes(ts, #[trigger] gs[k])
    &&& forall|a: int, b: int| 0 <= a < b < gs.len() ==> (#[trigger] gs[a]).0 != (#[trigger] gs[b]).0
    &&& forall|n: Seq<char>| norm_count(ts, n) > 0 ==> exists|k: int| 0 <= k < gs.len() && (#[trigger] gs[k]).0 == n
}

/// Distinct character sequences have distinct keys.
proof fn lemma_chars_key_injective(a: Seq<char>, b: Seq<char>)
    ensures
        chars_key(a) == chars_key(b) ==> a == b,
{
    if chars_key(a) == chars_key(b) {
        assert(chars_key(a).len() == a.len());
        assert(chars_key(b).len() == b.len());
        assert forall|i: int| 0 <= i < a.len() implies a[i] == b[i] by {
            assert(chars_key(a)[i] == chars_key(b)[i]);
            assert(chars_key(a)[i] == a[i] as int);
            assert(chars_key(b)[i] == b[i] as int);
            assert((a[i] as u32) == (b[i] as u32));
        }
        assert(a =~= b);
    }
}

/// Appending one token changes the count, raws and first span of its
/// normalized form only, and only when it is a word.
proof fn lemma_push_token(ts: Seq<TokView>, t: TokView)
    ensures
        forall|n: Seq<char>| #[trigger] norm_count(ts.push(t), n) == norm_count(ts, n) + if is_word(t) && t.1 == n {
            1nat
        } else {
            0nat
        },
        forall|n: Seq<char>| #[trigger] norm_raws(ts.push(t), n) == if is_word(t) && t.1 == n {
            norm_raws(ts, n).insert(t.0)
        } else {
            norm_raws(ts, n)
        },
        forall|n: Seq<char>| #[trigger] first_span(ts.push(t), n) == if is_word(t) && t.1 == n {
            match first_span(ts, n) {
                Some(s) => if t.2.start < s.start {
                    Some(t.2)
                } else {
                    Some(s)
                },
                None => Some(t.2),
            }
        } else {
            first_span(ts, n)
        },
{
    assert(ts.push(t).drop_last() =~= ts);
}

/// A form with no word has no raws and no span.
proof fn lemma_absent(ts: Seq<TokView>, n: Seq<char>)
    requires
        norm_count(ts, n) == 0,
    ensures
        norm_raws(ts, n) == Set::<Seq<char>>::empty(),
        first_span(ts, n) is None,
    decreases ts.len(),
{
    if ts.len() > 0 {
        lemma_absent(ts.drop_last(), n);
    }
}

/// Whether `a` precedes `b` in code point order.
fn str_lt(a: &String, b: &String) -> (r: bool)
    ensures
        r == key_lt(chars_key(a@), chars_key(b@)),
{
    let x = chars_of_string(a);
    let y = chars_of_string(b);
    chars_lt(x.as_slice(), y.as_slice())
}

/// Whether `a` and `b` hold the same characters.
fn str_eq(a: &String, b: &String) -> (r: bool)
    ensures
        r == (a@ == b@),
{
    let x = chars_of_string(a);
    let y = chars_of_string(b);
    chars_eq(x.as_slice(), y.as_slice())
}

/// Adds `raw` to the ascending distinct variants `vs`, unless present.
fn insert_variant(vs: &mut Vec<String>, raw: &String)
    requires
        strictly_ascending(old(vs)@.map_values(|s: String| s@)),
    ensures
        strictly_ascending(final(vs)@.map_values(|s: String| s@)),
        final(vs)@.map_values(|s: String| s@).to_set() == old(vs)@.map_values(
            |s: String| s@,
        ).to_set().insert(raw@),
{
    let ghost old_v = vs@.map_values(|s: String| s@);
    let mut p: usize = 0;
    while p < vs.len() && str_lt(&vs[p], raw)
        invariant
            p <= vs@.len(),
            vs@.map_values(|s: String| s@) == old_v,
            forall|k: int| 0 <= k < p ==> key_lt(chars_key(#[trigger] old_v[k]), chars_key(raw@)),
        decreases vs@.len() - p,
    {
        p = p + 1;
    }
    if p < vs.len() && str_eq(&vs[p], raw) {
        assert(old_v[p as int] == raw@);
        assert(old_v.to_set().insert(raw@) =~= old_v.to_set());
        return;
    }
    proof {
        if p < old_v.len() {
            // `raw` strictly precedes the element it is inserted before.
            lemma_chars_key_injective(old_v[p as int], raw@);
            lemma_key_lt_total(chars_key(old_v[p as int]), chars_key(raw@));
        }
    }
    vs.insert(p, raw.clone());
    let ghost nv = vs@.map_values(|s: String| s@);
    assert(nv =~= old_v.insert(p as int, raw@));
    assert forall|i: int, j: int| 0 <= i < j < nv.len() implies key_lt(
        chars_key(#[trigger] nv[i]),
        chars_key(#[trigger] nv[j]),
    ) by {
        if j < p {
            assert(nv[i] == old_v[i] && nv[j] == old_v[j]);
        } else if j == p {
            assert(nv[i] == old_v[i]);
        } else if i > p {
            assert(nv[i] == old_v[i - 1] && nv[j] == old_v[j - 1]);
        } else if i == p {
            assert(nv[j] == old_v[j - 1]);
            if j - 1 > p {
                lemma_key_lt_transitive(
                    chars_key(raw@),
                    chars_key(old_v[p as int]),
                    chars_key(old_v[j - 1]),
                );
            }
        } else {
            assert(nv[i] == old_v[i] && nv[j] == old_v[j - 1]);
            if j - 1 > p {
                lemma_key_lt_transitive(
                    chars_key(raw@),
                    chars_key(old_v[p as int]),
                    chars_key(old_v[j - 1]),
                );
            }
            lemma_key_lt_transitive(chars_key(old_v[i]), chars_key(raw@), chars_key(old_v[j - 1]));
        }
    }
    assert forall|x: Seq<char>| nv.to_set().contains(x) <==> old_v.to_set().insert(raw@).contains(x) by {
        if nv.to_set().contains(x) {
            let k = choose|k: int| 0 <= k < nv.len() && nv[k] == x;
            if k < p {
                assert(old_v[k] == x);
            } else if k > p {
                assert(old_v[k - 1] == x);
            }
        }
        if old_v.to_set().contains(x) {
            let k = choose|k: int| 0 <= k < old_v.len() && old_v[k] == x;
            if k < p {
                assert(nv[k] == x);
            } else {
                assert(nv[k + 1] == x);
            }
        }
        if x == raw@ {
            assert(nv[p as int] == x);
        }
    }
    assert(nv.to_set() =~= old_v.to_set().insert(raw@));
}

/// A token that is not a word leaves the groups as they are.
proof fn lemma_describe_skip(ts: Seq<TokView>, t: TokView, gs: Seq<FreqView>)
    requires
        !is_word(t),
        groups_describe(ts, gs),
    ensures
        groups_describe(ts.push(t), gs),
{
    lemma_push_token(ts, t);
    let ts2 = ts.push(t);
    assert forall|k: int| 0 <= k < gs.len() implies entry_describes(ts2, #[trigger] gs[k]) by {
        assert(entry_describes(ts, gs[k]));
        assert(norm_count(ts2, gs[k].0) == norm_count(ts, gs[k].0));
        assert(norm_raws(ts2, gs[k].0) == norm_raws(ts, gs[k].0));
        assert(first_span(ts2, gs[k].0) == first_span(ts, gs[k].0));
    }
    assert forall|n: Seq<char>| norm_count(ts2, n) > 0 implies exists|k: int|
        0 <= k < gs.len() && (#[trigger] gs[k]).0 == n by {
        assert(norm_count(ts2, n) == norm_count(ts, n));
    }
}

/// A word whose form has group `k` updates that group: one more occurrence,
/// its raw surface among the variants, the earlier span kept.
proof fn lemma_describe_update(
    ts: Seq<TokView>,
    t: TokView,
    gs: Seq<FreqView>,
    k: int,
    vs: Seq<Seq<char>>,
    span: ByteSpan,
)
    requires
        is_word(t),
        groups_describe(ts, gs),
        0 <= k < gs.len(),
        gs[k].0 == t.1,
        strictly_ascending(vs),
        vs.to_set() == gs[k].2.to_set().insert(t.0),
        span == (if t.2.start < gs[k].3.start {
            t.2
        } else {
            gs[k].3
        }),
    ensures
        groups_describe(ts.push(t), gs.update(k, (t.1, gs[k].1 + 1, vs, span))),
{
    lemma_push_token(ts, t);
    let ts2 = ts.push(t);
    let g2 = gs.update(k, (t.1, gs[k].1 + 1, vs, span));
    assert forall|m: int| 0 <= m < g2.len() implies entry_describes(ts2, #[trigger] g2[m]) by {
        assert(entry_describes(ts, gs[m]));
        if m == k {
            assert(norm_count(ts2, t.1) == norm_count(ts, t.1) + 1);
            assert(norm_raws(ts2, t.1) == norm_raws(ts, t.1).insert(t.0));
        } else {
            assert(gs[m].0 != gs[k].0);
            assert(norm_count(ts2, gs[m].0) == norm_count(ts, gs[m].0));
            assert(norm_raws(ts2, gs[m].0) == norm_raws(ts, gs[m].0));
            assert(first_span(ts2, gs[m].0) == first_span(ts, gs[m].0));
        }
    }
    assert forall|a: int, b: int| 0 <= a < b < g2.len() implies (#[trigger] g2[a]).0 != (
    #[trigger] g2[b]).0 by {
        assert(gs[a].0 != gs[b].0);
    }
    assert forall|n: Seq<char>| norm_count(ts2, n) > 0 implies exists|m: int|
        0 <= m < g2.len() && (#[trigger] g2[m]).0 == n by {
        if n == t.1 {
            assert(g2[k].0 == n);
        } else {
            assert(norm_count(ts2, n) == norm_count(ts, n));
            let m = choose|m: int| 0 <= m < gs.len() && (#[trigger] gs[m]).0 == n;
            assert(g2[m].0 == n);
        }
    }
}

/// A word whose form has no group yet starts one.
proof fn lemma_describe_new(ts: Seq<TokView>, t: TokView, gs: Seq<FreqView>)
    requires
        is_word(t),
        groups_describe(ts, gs),
        forall|k: int| 0 <= k < gs.len() ==> (#[trigger] gs[k]).0 != t.1,
    ensures
        groups_describe(ts.push(t), gs.push((t.1, 1, seq![t.0], t.2))),
{
    lemma_push_token(ts, t);
    let ts2 = ts.push(t);
    let e = (t.1, 1nat, seq![t.0], t.2);
    let g2 = gs.push(e);
    assert(norm_count(ts, t.1) == 0) by {
        if norm_count(ts, t.1) > 0 {
            let m = choose|m: int| 0 <= m < gs.len() && (#[trigger] gs[m]).0 == t.1;
        }
    }
    lemma_absent(ts, t.1);
    assert forall|m: int| 0 <= m < g2.len() implies entry_describes(ts2, #[trigger] g2[m]) by {
        if m == gs.len() {
            assert(g2[m] == e);
            assert(norm_raws(ts2, t.1) == Set::<Seq<char>>::empty().insert(t.0));
            assert(seq![t.0].to_set() =~= Set::<Seq<char>>::empty().insert(t.0)) by {
                assert forall|x: Seq<char>| seq![t.0].to_set().contains(x) <==> x == t.0 by {
                    if x == t.0 {
                        assert(seq![t.0][0] == x);
                    }
                }
            }
        } else {
            assert(g2[m] == gs[m]);
            assert(entry_describes(ts, gs[m]));
            assert(norm_count(ts2, gs[m].0) == norm_count(ts, gs[m].0));
            assert(norm_raws(ts2, gs[m].0) == norm_raws(ts, gs[m].0));
            assert(first_span(ts2, gs[m].0) == first_span(ts, gs[m].0));
        }
    }
    assert forall|a: int, b: int| 0 <= a < b < g2.len() implies (#[trigger] g2[a]).0 != (
    #[trigger] g2[b]).0 by {
        if b == gs.len() {
            assert(g2[a] == gs[a]);
        } else {
            assert(gs[a].0 != gs[b].0);
        }
    }
    assert forall|n: Seq<char>| norm_count(ts2, n) > 0 implies exists|m: int|
        0 <= m < g2.len() && (#[trigger] g2[m]).0 == n by {
        if n == t.1 {
            assert(g2[gs.len() as int].0 == n);
        } else {
            assert(norm_count(ts2, n) == norm_count(ts, n));
            let m = choose|m: int| 0 <= m < gs.len() && (#[trigger] gs[m]).0 == n;
            assert(g2[m].0 == n);
        }
    }
}

/// The group of `norm` in `groups`, if any.
fn find_group(groups: &Vec<FreqEntry>, norm: &String) -> (r: Option<usize>)
    ensures
        r matches Some(k) ==> k < groups@.len() && groups@[k as int].normalized@ == norm@,
        r is None ==> forall|k: int| 0 <= k < groups@.len() ==> (#[trigger] groups@[k]).normalized@ != norm@,
{
    let mut k: usize = 0;
    while k < groups.len()
        invariant
            k <= groups@.len(),
            forall|m: int| 0 <= m < k ==> (#[trigger] groups@[m]).normalized@ != norm@,
        decreases groups@.len() - k,
    {
        if str_eq(&groups[k].normalized, norm) {
            return Some(k);
        }
        k = k + 1;
    }
    None
}

impl Ranked for FreqEntry {
    open spec fn rank_key(&self) -> Seq<int> {
        freq_rank(freq_view(*self))
    }

    fn ranks_before(&self, other: &Self) -> (r: bool) {
        proof {
            lemma_key_lt_cons(
                -(self.count as int),
                chars_key(self.normalized@),
                -(other.count as int),
                chars_key(other.normalized@),
            );
        }
        if self.count != other.count {
            self.count > other.count
        } else {
            str_lt(&self.normalized, &other.normalized)
        }
    }
}

/// The groups, ranked.
pub open spec fn rank_groups(gs: Seq<FreqView>) -> Seq<FreqView> {
    sort_by_key(gs, |e: FreqView| freq_rank(e))
}

/// Ranked groups still describe the words, and are strictly ordered by rank.
proof fn lemma_ranked_groups(ts: Seq<TokView>, gs: Seq<FreqView>)
    requires
        groups_describe(ts, gs),
    ensures
        groups_describe(ts, rank_groups(gs)),
        forall|i: int, j: int|
            0 <= i < j < rank_groups(gs).len() ==> key_lt(
                freq_rank(#[trigger] rank_groups(gs)[i]),
                freq_rank(#[trigger] rank_groups(gs)[j]),
            ),
{
    broadcast use vstd::seq_lib::group_to_multiset_ensures;

    let key = |e: FreqView| freq_rank(e);
    let rv = sort_by_key(gs, key);
    lemma_sort_by_key_permutes(gs, key);
    lemma_sort_by_key_sorted(gs, key);
    assert forall|a: int, b: int| 0 <= a < b < gs.len() implies gs[a] != gs[b] by {
        assert(gs[a].0 != gs[b].0);
    }
    // Each ranked group is one of the groups, at a unique index.
    assert forall|m: int| 0 <= m < rv.len() implies exists|k: int|
        0 <= k < gs.len() && gs[k] == #[trigger] rv[m] by {
        assert(rv.contains(rv[m]));
        crate::rank::lemma_multiset_contains(rv, gs, rv[m]);
    }
    assert forall|m: int| 0 <= m < rv.len() implies entry_describes(ts, #[trigger] rv[m]) by {
        let k = choose|k: int| 0 <= k < gs.len() && gs[k] == rv[m];
        assert(entry_describes(ts, gs[k]));
    }
    assert forall|a: int, b: int| 0 <= a < b < rv.len() implies (#[trigger] rv[a]).0 != (
    #[trigger] rv[b]).0 by {
        if rv[a].0 == rv[b].0 {
            let ka = choose|k: int| 0 <= k < gs.len() && gs[k] == rv[a];
            let kb = choose|k: int| 0 <= k < gs.len() && gs[k] == rv[b];
            if ka != kb {
                if ka < kb {
                    assert(gs[ka].0 != gs[kb].0);
                } else {
                    assert(gs[kb].0 != gs[ka].0);
                }
            }
            crate::rank::lemma_count_two(rv, a, b);
            crate::rank::lemma_distinct_count(gs, ka);
        }
    }
    assert forall|n: Seq<char>| norm_count(ts, n) > 0 implies exists|m: int|
        0 <= m < rv.len() && (#[trigger] rv[m]).0 == n by {
        let k = choose|k: int| 0 <= k < gs.len() && (#[trigger] gs[k]).0 == n;
        assert(gs.contains(gs[k]));
        crate::rank::lemma_multiset_contains(gs, rv, gs[k]);
        let m = choose|m: int| 0 <= m < rv.len() && rv[m] == gs[k];
        assert(rv[m].0 == n);
    }
    assert forall|i: int, j: int| 0 <= i < j < rv.len() implies key_lt(
        freq_rank(#[trigger] rv[i]),
        freq_rank(#[trigger] rv[j]),
    ) by {
        assert(!key_lt(key(rv[j]), key(rv[i])));
        lemma_key_lt_total(freq_rank(rv[i]), freq_rank(rv[j]));
        if freq_rank(rv[i]) == freq_rank(rv[j]) {
            assert(freq_rank(rv[i]).drop_first() =~= chars_key(rv[i].0));
            assert(freq_rank(rv[j]).drop_first() =~= chars_key(rv[j].0));
            lemma_chars_key_injective(rv[i].0, rv[j].0);
            assert(rv[i].0 != rv[j].0);
        }
    }
}

/// Compute word frequencies over `tokens`, grouping by normalized form.
///
/// Exactly one entry per normalized form of a word (Arabic or Latin token):
/// its count, its distinct raw surfaces in ascending order, and the span of
/// its earliest occurrence. Entries are ordered by count (highest first),
/// then normalized form (ascending), which is a strict order.
pub fn word_frequencies(tokens: &[Token]) -> (r: Vec<FreqEntry>)
    ensures
        groups_describe(
            tokens@.map_values(|t: Token| token_view(t)),
            r@.map_values(|e: FreqEntry| freq_view(e)),
        ),
        forall|i: int, j: int|
            0 <= i < j < r@.len() ==> key_lt(
                freq_rank(freq_view(#[trigger] r@[i])),
                freq_rank(freq_view(#[trigger] r@[j])),
            ),
{
    let ghost ts = tokens@.map_values(|t: Token| token_view(t));
    let mut groups: Vec<FreqEntry> = Vec::new();
    let mut i: usize = 0;
    assert(ts.take(0) =~= Seq::<TokView>::empty());
    assert(groups@.map_values(|e: FreqEntry| freq_view(e)) =~= Seq::<FreqView>::empty());
    while i < tokens.len()
        invariant
            i <= tokens@.len(),
            ts == tokens@.map_values(|t: Token| token_view(t)),
            groups_describe(ts.take(i as int), groups@.map_values(|e: FreqEntry| freq_view(e))),
            forall|k: int| 0 <= k < groups@.len() ==> (#[trigger] groups@[k]).count <= i,
        decreases tokens@.len() - i,
    {
        let t = &tokens[i];
        let ghost gs = groups@.map_values(|e: FreqEntry| freq_view(e));
        let ghost tv = ts[i as int];
        assert(tv == token_view(*t));
        assert(ts.take(i as int + 1) =~= ts.take(i as int).push(tv));
        if t.kind == TokenKind::Arabic || t.kind == TokenKind::Latin {
            match find_group(&groups, &t.normalized) {
                Some(k) => {
                    let ghost gk = gs[k as int];
                    let mut e = groups.remove(k);
                    assert(freq_view(e) == gk);
                    e.count = e.count + 1;
                    insert_variant(&mut e.variants, &t.raw);
                    if t.span.start < e.first_span.start {
                        e.first_span = t.span;
                    }
                    let ghost ev = freq_view(e);
                    groups.insert(k, e);
                    proof {
                        assert(entry_describes(ts.take(i as int), gk));
                        lemma_describe_update(ts.take(i as int), tv, gs, k as int, ev.2, ev.3);
                        assert(groups@.map_values(|e: FreqEntry| freq_view(e)) =~= gs.update(
                            k as int,
                            (tv.1, gk.1 + 1, ev.2, ev.3),
                        ));
                    }
                },
                None => {
                    let mut vs: Vec<String> = Vec::new();
                    vs.push(t.raw.clone());
                    let e = FreqEntry {
                        normalized: t.normalized.clone(),
                        count: 1,
                        variants: vs,
                        first_span: t.span,
                    };
                    groups.push(e);
                    proof {
                        assert forall|k: int| 0 <= k < gs.len() implies (#[trigger] gs[k]).0 != tv.1 by {
                            assert(gs[k] == freq_view(groups@[k]));
                        }
                        lemma_describe_new(ts.take(i as int), tv, gs);
                        assert(freq_view(e).2 =~= seq![tv.0]);
                        assert(groups@.map_values(|e: FreqEntry| freq_view(e)) =~= gs.push(
                            (tv.1, 1, seq![tv.0], tv.2),
                        ));
                    }
                },
            }
        } else {
            proof {
                lemma_describe_skip(ts.take(i as int), tv, gs);
            }
        }
        i = i + 1;
    }
    assert(ts.take(tokens@.len() as int) =~= ts);
    let ghost gs = groups@.map_values(|e: FreqEntry| freq_view(e));
    let ghost before = groups@;
    let sorted = sort_ranked(groups);
    proof {
        assert forall|t: FreqEntry| #[trigger] rank_of(t) == freq_rank(freq_view(t)) by {}
        lemma_sort_by_key_map(
            before,
            |e: FreqEntry| freq_view(e),
            |t: FreqEntry| rank_of(t),
            |v: FreqView| freq_rank(v),
        );
        lemma_ranked_groups(ts, gs);
        let rv = sorted@.map_values(|e: FreqEntry| freq_view(e));
        assert forall|i: int, j: int| 0 <= i < j < sorted@.len() implies key_lt(
            freq_rank(freq_view(#[trigger] sorted@[i])),
            freq_rank(freq_view(#[trigger] sorted@[j])),
        ) by {
            assert(rv[i] == freq_view(sorted@[i]));
            assert(rv[j] == freq_view(sorted@[j]));
        }
    }
    sorted
}

} // verus!
