//! Root extraction — turning a stem into candidate (root, pattern) analyses.
//!
//! Pipeline for one stem: normalize (NFC + alef folds, tatweel stripped), strip
//! diacritics to get the skeleton, then match the skeleton against the pattern
//! table. A [`Root`] is an abstraction (just its radicals), so it carries no
//! span.
use vstd::prelude::*;

use crate::morph_ir::Root;
use crate::patterns::{
    match_view, pattern_matches_items, skeleton_matches, MatchView, PatternMatch, PatternMatches,
    PatternTable,
};
use crate::unicode::{normalize, normalized, strip_tashkil, strip_tashkil_seq};

verus! {

/// A root candidate with the pattern that produced it and a confidence.
pub type RootCandidate = PatternMatch;

/// The skeleton of a stem: normalized, then stripped of diacritics.
pub open spec fn stem_skeleton(stem: Seq<char>) -> Seq<char> {
    strip_tashkil_seq(normalized(stem))
}

/// The ranked root candidates of a stem.
pub open spec fn stem_candidates(stem: Seq<char>, table: Seq<crate::patterns::PatternView>) -> Seq<
    MatchView,
> {
    skeleton_matches(table, stem_skeleton(stem))
}

/// Root candidates for a stem surface (raw, possibly diacritized and
/// un-normalized), ranked by confidence (highest first), then pattern id;
/// empty if no pattern matches.
pub fn analyze_stem(stem_surface: &str, table: &PatternTable) -> (r: PatternMatches)
    ensures
        pattern_matches_items(r).map_values(|m: PatternMatch| match_view(m)) == stem_candidates(
            stem_surface@,
            table@,
        ),
{
    let norm = normalize(stem_surface);
    let skeleton = strip_tashkil(norm.as_str());
    table.match_skeleton(skeleton.as_str())
}

/// The root of the best-ranked candidate for a stem, if any.
pub fn best_root(stem_surface: &str, table: &PatternTable) -> (r: Option<Root>)
    ensures
        stem_candidates(stem_surface@, table@).len() == 0 ==> r is None,
        stem_candidates(stem_surface@, table@).len() > 0 ==> (r matches Some(x) && x@
            == stem_candidates(stem_surface@, table@)[0].1),
{
    let ms = analyze_stem(stem_surface, table);
    let items = ms.as_slice();
    if items.len() == 0 {
        None
    } else {
        assert(items@.map_values(|m: PatternMatch| match_view(m))[0] == match_view(items@[0]));
        Some(items[0].root.duplicate())
    }
}

} // verus!
