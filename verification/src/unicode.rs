//! Unicode normalization for Arabic text.
//!
//! [`normalize`] applies NFC (Unicode Normalization Form C) followed by the
//! Arabic normative fold table published as [`FOLDS_TOML`], and repeats that
//! pass until it changes nothing. The fold table's
//! bytes are hashed with BLAKE3; that hash is exposed via [`fold_table_hash`].
//!
//! Scope of the fold table:
//! - Fold: أ إ آ ٱ -> ا
//! - Strip: ـ (tatweel)
//! - Preserve: ة, ى, ء, ؤ, ئ, all diacritics, all digits, all non-Arabic.
use vstd::prelude::*;
use vstd::utf8::encode_utf8;

use unicode_normalization::UnicodeNormalization;

use crate::provenance::{blake3_hex, ContentHash};
use crate::text::{chars_eq, chars_of, chars_of_string, push_char};

verus! {

/// The normative fold table, in its published TOML form. Its exact bytes are
/// what [`fold_table_hash`] hashes; [`builtin_fold_file`] holds its contents.
pub const FOLDS_TOML: &'static str = "\
# Arabic normative fold table.
#
# Applied after NFC by `normalize`. Every `map` entry folds one character
# into another; every `strip` entry is removed. A fold target must never be a
# fold source or a stripped character, so that folding twice changes nothing.

strip = [
\"\u{0640}\", # tatweel
]

[[map]] # alef with hamza above
from = \"\u{0623}\"
to = \"\u{0627}\"

[[map]] # alef with hamza below
from = \"\u{0625}\"
to = \"\u{0627}\"

[[map]] # alef with madda above
from = \"\u{0622}\"
to = \"\u{0627}\"

[[map]] # alef wasla
from = \"\u{0671}\"
to = \"\u{0627}\"
";

/// The NFC form of `s` (what `unicode_normalization`'s `nfc` yields).
pub uninterp spec fn nfc_of(s: Seq<char>) -> Seq<char>;

/// `UnicodeNormalization::nfc`, collected into a `String`: the NFC form of
/// `s`, which the contract names without describing it.
#[verifier::external_body]
fn nfc_string(s: &str) -> (r: String)
    ensures
        r@ == nfc_of(s@),
{
    s.nfc().collect::<String>()
}

/// One `[[map]]` entry of a fold file, as written.
#[derive(Debug, Clone, PartialEq, Eq)]
pub struct FoldEntry {
    pub from: String,
    pub to: String,
}

/// A fold file, as written: fold entries and stripped characters.
#[derive(Debug, Clone, PartialEq, Eq)]
pub struct FoldFile {
    pub map: Vec<FoldEntry>,
    pub strip: Vec<String>,
}

/// The characters of a fold file's entries and strip list.
pub open spec fn fold_file_view(f: FoldFile) -> (Seq<(Seq<char>, Seq<char>)>, Seq<Seq<char>>) {
    (
        f.map@.map_values(|e: FoldEntry| (e.from@, e.to@)),
        f.strip@.map_values(|s: String| s@),
    )
}

/// Why a fold file does not describe a valid fold table. Each variant names
/// the position of the offending entry in `map` or `strip`.
#[derive(Debug, Clone, Copy, PartialEq, Eq, Structural)]
pub enum FoldTableError {
    /// `map[i].from` is not exactly one character.
    SourceNotOneChar(usize),
    /// `map[i].to` is not exactly one character.
    TargetNotOneChar(usize),
    /// `map[i].from` repeats an earlier entry's source.
    DuplicateSource(usize),
    /// `strip[i]` is not exactly one character.
    StripNotOneChar(usize),
    /// `map[i].to` is also a fold source, so folding twice would change it.
    TargetIsSource(usize),
    /// `map[i].to` is also stripped, so folding twice would delete it.
    TargetIsStripped(usize),
}

/// The error, if any, of `map[i]` in the first pass (shape and duplicates),
/// given that all earlier entries passed.
pub open spec fn map_entry_error(
    m: Seq<(Seq<char>, Seq<char>)>,
    i: int,
) -> Option<FoldTableError> {
    if m[i].0.len() != 1 {
        Some(FoldTableError::SourceNotOneChar(i as usize))
    } else if m[i].1.len() != 1 {
        Some(FoldTableError::TargetNotOneChar(i as usize))
    } else if exists|j: int| 0 <= j < i && m[j].0[0] == m[i].0[0] {
        Some(FoldTableError::DuplicateSource(i as usize))
    } else {
        None
    }
}

/// The first first-pass error among `map[..n]`.
pub open spec fn first_map_error(m: Seq<(Seq<char>, Seq<char>)>, n: int) -> Option<
    FoldTableError,
>
    decreases n,
{
    if n <= 0 {
        None
    } else {
        match first_map_error(m, n - 1) {
            Some(e) => Some(e),
            None => map_entry_error(m, n - 1),
        }
    }
}

/// The first strip entry among `strip[..n]` that is not one character.
pub open spec fn first_strip_error(s: Seq<Seq<char>>, n: int) -> Option<FoldTableError>
    decreases n,
{
    if n <= 0 {
        None
    } else {
        match first_strip_error(s, n - 1) {
            Some(e) => Some(e),
            None => if s[n - 1].len() != 1 {
                Some(FoldTableError::StripNotOneChar((n - 1) as usize))
            } else {
                None
            },
        }
    }
}

/// The idempotency error, if any, of `map[i]`'s target.
pub open spec fn target_error(
    m: Seq<(Seq<char>, Seq<char>)>,
    s: Seq<Seq<char>>,
    i: int,
) -> Option<FoldTableError> {
    if exists|j: int| 0 <= j < m.len() && m[j].0[0] == m[i].1[0] {
        Some(FoldTableError::TargetIsSource(i as usize))
    } else if exists|j: int| 0 <= j < s.len() && s[j][0] == m[i].1[0] {
        Some(FoldTableError::TargetIsStripped(i as usize))
    } else {
        None
    }
}

/// The first idempotency error among `map[..n]`.
pub open spec fn first_target_error(
    m: Seq<(Seq<char>, Seq<char>)>,
    s: Seq<Seq<char>>,
    n: int,
) -> Option<FoldTableError>
    decreases n,
{
    if n <= 0 {
        None
    } else {
        match first_target_error(m, s, n - 1) {
            Some(e) => Some(e),
            None => target_error(m, s, n - 1),
        }
    }
}

/// The first reason a fold file is invalid: map entries in order, then strip
/// entries in order, then each map target in order.
pub open spec fn fold_file_error(
    m: Seq<(Seq<char>, Seq<char>)>,
    s: Seq<Seq<char>>,
) -> Option<FoldTableError> {
    match first_map_error(m, m.len() as int) {
        Some(e) => Some(e),
        None => match first_strip_error(s, s.len() as int) {
            Some(e) => Some(e),
            None => first_target_error(m, s, m.len() as int),
        },
    }
}

/// A parsed fold table: source -> target pairs and stripped characters.
#[derive(Debug, Clone, PartialEq, Eq)]
pub struct FoldTable {
    map: Vec<(char, char)>,
    strip: Vec<char>,
}

impl View for FoldTable {
    type V = (Seq<(char, char)>, Seq<char>);

    /// The source -> target pairs and the stripped characters.
    closed spec fn view(&self) -> (Seq<(char, char)>, Seq<char>) {
        (self.map@, self.strip@)
    }
}

/// The target of the first entry whose source is `c`, if any.
pub open spec fn fold_lookup(m: Seq<(char, char)>, c: char) -> Option<char>
    decreases m.len(),
{
    if m.len() == 0 {
        None
    } else if m[0].0 == c {
        Some(m[0].1)
    } else {
        fold_lookup(m.drop_first(), c)
    }
}

/// `c` after folding by `m`: its target if it is a source, itself otherwise.
pub open spec fn fold_char(m: Seq<(char, char)>, c: char) -> char {
    match fold_lookup(m, c) {
        Some(d) => d,
        None => c,
    }
}

/// `s` with every stripped character removed and every other folded.
pub open spec fn fold_seq(t: (Seq<(char, char)>, Seq<char>), s: Seq<char>) -> Seq<char>
    decreases s.len(),
{
    if s.len() == 0 {
        Seq::<char>::empty()
    } else if t.1.contains(s.last()) {
        fold_seq(t, s.drop_last())
    } else {
        fold_seq(t, s.drop_last()).push(fold_char(t.0, s.last()))
    }
}

/// A table whose folding can be repeated without effect: no target is a
/// source or a stripped character.
pub open spec fn fold_table_idempotent(t: (Seq<(char, char)>, Seq<char>)) -> bool {
    forall|i: int|
        0 <= i < t.0.len() ==> fold_lookup(t.0, #[trigger] t.0[i].1) is None && !t.1.contains(
            t.0[i].1,
        )
}

/// The table a valid fold file describes.
pub open spec fn fold_table_of(
    m: Seq<(Seq<char>, Seq<char>)>,
    s: Seq<Seq<char>>,
) -> (Seq<(char, char)>, Seq<char>) {
    (m.map_values(|e: (Seq<char>, Seq<char>)| (e.0[0], e.1[0])), s.map_values(|x: Seq<char>| x[0]))
}

proof fn lemma_fold_lookup_found(m: Seq<(char, char)>, c: char, j: int)
    requires
        0 <= j < m.len(),
        m[j].0 == c,
    ensures
        fold_lookup(m, c) is Some,
    decreases m.len(),
{
    if m[0].0 != c {
        lemma_fold_lookup_found(m.drop_first(), c, j - 1);
    }
}

proof fn lemma_fold_lookup_result(m: Seq<(char, char)>, c: char)
    ensures
        fold_lookup(m, c) is None <==> (forall|j: int| 0 <= j < m.len() ==> m[j].0 != c),
        fold_lookup(m, c) matches Some(d) ==> exists|j: int|
            0 <= j < m.len() && m[j].0 == c && m[j].1 == d,
    decreases m.len(),
{
    if m.len() > 0 {
        lemma_fold_lookup_result(m.drop_first(), c);
        if m[0].0 != c {
            if fold_lookup(m, c) is None {
                assert forall|j: int| 0 <= j < m.len() implies m[j].0 != c by {
                    if j > 0 {
                        assert(m.drop_first()[j - 1] == m[j]);
                    }
                }
            } else {
                let d = fold_lookup(m, c)->0;
                let k = choose|k: int|
                    0 <= k < m.drop_first().len() && m.drop_first()[k].0 == c
                        && m.drop_first()[k].1 == d;
                assert(m[k + 1] == m.drop_first()[k]);
            }
        } else {
            assert(m[0].0 == c);
        }
        if forall|j: int| 0 <= j < m.len() ==> m[j].0 != c {
            assert forall|j: int| 0 <= j < m.drop_first().len() implies m.drop_first()[j].0
                != c by {
                assert(m.drop_first()[j] == m[j + 1]);
            }
        }
    }
}

/// Folding the output of a fold again changes nothing, for a table whose
/// targets are neither sources nor stripped.
pub proof fn law_fold_idempotent(t: (Seq<(char, char)>, Seq<char>), s: Seq<char>)
    requires
        fold_table_idempotent(t),
    ensures
        fold_seq(t, fold_seq(t, s)) == fold_seq(t, s),
    decreases s.len(),
{
    if s.len() > 0 {
        law_fold_idempotent(t, s.drop_last());
        let c = s.last();
        if !t.1.contains(c) {
            let r = fold_seq(t, s.drop_last());
            let d = fold_char(t.0, c);
            assert(fold_seq(t, s) == r.push(d));
            assert(r.push(d).drop_last() =~= r);
            assert(r.push(d).last() == d);
            lemma_fold_lookup_result(t.0, c);
            lemma_fold_lookup_result(t.0, d);
            if fold_lookup(t.0, c) is Some {
                let j = choose|j: int| 0 <= j < t.0.len() && t.0[j].0 == c && t.0[j].1 == d;
                assert(fold_lookup(t.0, t.0[j].1) is None);
            }
        }
    }
}

/// Folded text never contains a stripped character, nor a fold source, when
/// the table's targets are neither.
pub proof fn lemma_fold_seq_output(t: (Seq<(char, char)>, Seq<char>), s: Seq<char>)
    requires
        fold_table_idempotent(t),
    ensures
        forall|i: int|
            0 <= i < fold_seq(t, s).len() ==> !t.1.contains(#[trigger] fold_seq(t, s)[i])
                && fold_lookup(t.0, fold_seq(t, s)[i]) is None,
    decreases s.len(),
{
    if s.len() > 0 {
        lemma_fold_seq_output(t, s.drop_last());
        let c = s.last();
        lemma_fold_lookup_result(t.0, c);
        if fold_lookup(t.0, c) is Some {
            let d = fold_lookup(t.0, c)->0;
            let j = choose|j: int| 0 <= j < t.0.len() && t.0[j].0 == c && t.0[j].1 == d;
            assert(fold_lookup(t.0, t.0[j].1) is None);
        }
    }
}

impl FoldTable {
    /// Build a fold table from a fold file, checking that every entry is a
    /// single character, that no source repeats, and that no target is itself
    /// a source or stripped (which would make normalization non-idempotent).
    pub fn from_file(file: &FoldFile) -> (r: Result<FoldTable, FoldTableError>)
        ensures
            ({
                let (m, s) = fold_file_view(*file);
                match fold_file_error(m, s) {
                    Some(e) => r == Err::<FoldTable, FoldTableError>(e),
                    None => r matches Ok(t) && t@ == fold_table_of(m, s),
                }
            }),
            r matches Ok(t) ==> fold_table_idempotent(t@),
    {
        let ghost m = fold_file_view(*file).0;
        let ghost sv = fold_file_view(*file).1;
        let mut map: Vec<(char, char)> = Vec::new();
        let mut i: usize = 0;
        while i < file.map.len()
            invariant
                m == fold_file_view(*file).0,
                sv == fold_file_view(*file).1,
                m.len() == file.map@.len(),
                i <= m.len(),
                first_map_error(m, i as int) is None,
                map@.len() == i,
                forall|k: int| 0 <= k < i ==> entry_ok(m, map@, k),
            decreases m.len() - i,
        {
            let from = chars_of(file.map[i].from.as_str());
            let to = chars_of(file.map[i].to.as_str());
            assert(m[i as int] == (file.map@[i as int].from@, file.map@[i as int].to@));
            assert(from@ == m[i as int].0);
            assert(to@ == m[i as int].1);
            if from.len() != 1 {
                assert(first_map_error(m, i + 1) == Some(FoldTableError::SourceNotOneChar(i)));
                proof {
                    lemma_first_map_error_stays(m, i as int + 1, m.len() as int);
                }
                return Err(FoldTableError::SourceNotOneChar(i));
            }
            if to.len() != 1 {
                assert(first_map_error(m, i + 1) == Some(FoldTableError::TargetNotOneChar(i)));
                proof {
                    lemma_first_map_error_stays(m, i as int + 1, m.len() as int);
                }
                return Err(FoldTableError::TargetNotOneChar(i));
            }
            let mut j: usize = 0;
            while j < i
                invariant
                    m == fold_file_view(*file).0,
                    i < m.len(),
                    j <= i,
                    map@.len() == i,
                    first_map_error(m, i as int) is None,
                    forall|k: int| 0 <= k < i ==> entry_ok(m, map@, k),
                    forall|k: int| 0 <= k < j ==> map@[k].0 != from@[0],
                    from@ == m[i as int].0,
                    to@ == m[i as int].1,
                    from@.len() == 1,
                    to@.len() == 1,
                decreases i - j,
            {
                if map[j].0 == from[0] {
                    assert(entry_ok(m, map@, j as int));
                    assert(m[j as int].0[0] == m[i as int].0[0]);
                    assert(map_entry_error(m, i as int) == Some(
                        FoldTableError::DuplicateSource(i),
                    ));
                    assert(first_map_error(m, i + 1) == Some(FoldTableError::DuplicateSource(i)));
                    proof {
                        lemma_first_map_error_stays(m, i as int + 1, m.len() as int);
                    }
                    return Err(FoldTableError::DuplicateSource(i));
                }
                j = j + 1;
            }
            assert(!exists|k: int| 0 <= k < i && m[k].0[0] == m[i as int].0[0]) by {
                if exists|k: int| 0 <= k < i && m[k].0[0] == m[i as int].0[0] {
                    let k = choose|k: int| 0 <= k < i && m[k].0[0] == m[i as int].0[0];
                    assert(entry_ok(m, map@, k));
                }
            }
            assert(map_entry_error(m, i as int) is None);
            let ghost before = map@;
            map.push((from[0], to[0]));
            assert forall|k: int| 0 <= k < i + 1 implies entry_ok(m, map@, k) by {
                if k < i {
                    assert(entry_ok(m, before, k));
                    assert(map@[k] == before[k]);
                }
            }
            i = i + 1;
        }
        let mut strip: Vec<char> = Vec::new();
        let mut i: usize = 0;
        while i < file.strip.len()
            invariant
                m == fold_file_view(*file).0,
                sv == fold_file_view(*file).1,
                sv.len() == file.strip@.len(),
                m.len() == map@.len(),
                first_map_error(m, m.len() as int) is None,
                forall|k: int| 0 <= k < m.len() ==> entry_ok(m, map@, k),
                i <= sv.len(),
                first_strip_error(sv, i as int) is None,
                strip@.len() == i,
                forall|k: int| 0 <= k < i ==> strip_ok(sv, strip@, k),
            decreases sv.len() - i,
        {
            let s = chars_of(file.strip[i].as_str());
            assert(sv[i as int] == file.strip@[i as int]@);
            assert(s@ == sv[i as int]);
            if s.len() != 1 {
                assert(first_strip_error(sv, i + 1) == Some(FoldTableError::StripNotOneChar(i)));
                proof {
                    lemma_first_strip_error_stays(sv, i as int + 1, sv.len() as int);
                }
                return Err(FoldTableError::StripNotOneChar(i));
            }
            let ghost before = strip@;
            strip.push(s[0]);
            assert forall|k: int| 0 <= k < i + 1 implies strip_ok(sv, strip@, k) by {
                if k < i {
                    assert(strip_ok(sv, before, k));
                    assert(strip@[k] == before[k]);
                }
            }
            i = i + 1;
        }
        let ghost tv = fold_table_of(m, sv);
        assert forall|k: int| 0 <= k < m.len() implies map@[k] == tv.0[k] by {
            assert(entry_ok(m, map@, k));
        }
        assert(map@ =~= tv.0);
        assert forall|k: int| 0 <= k < sv.len() implies strip@[k] == tv.1[k] by {
            assert(strip_ok(sv, strip@, k));
        }
        assert(strip@ =~= tv.1);
        let mut i: usize = 0;
        while i < map.len()
            invariant
                m == fold_file_view(*file).0,
                sv == fold_file_view(*file).1,
                tv == fold_table_of(m, sv),
                map@ == tv.0,
                strip@ == tv.1,
                m.len() == map@.len(),
                sv.len() == strip@.len(),
                first_map_error(m, m.len() as int) is None,
                first_strip_error(sv, sv.len() as int) is None,
                forall|k: int| 0 <= k < m.len() ==> entry_ok(m, map@, k),
                forall|k: int| 0 <= k < sv.len() ==> strip_ok(sv, strip@, k),
                i <= map@.len(),
                first_target_error(m, sv, i as int) is None,
                forall|k: int|
                    0 <= k < i ==> fold_lookup(map@, #[trigger] map@[k].1) is None
                        && !strip@.contains(map@[k].1),
            decreases map@.len() - i,
        {
            let target = map[i].1;
            let mut j: usize = 0;
            while j < map.len()
                invariant
                    m == fold_file_view(*file).0,
                    sv == fold_file_view(*file).1,
                    m.len() == map@.len(),
                    first_map_error(m, m.len() as int) is None,
                    first_strip_error(sv, sv.len() as int) is None,
                    first_target_error(m, sv, i as int) is None,
                    forall|k: int| 0 <= k < m.len() ==> entry_ok(m, map@, k),
                    i < map@.len(),
                    target == map@[i as int].1,
                    j <= map@.len(),
                    forall|k: int| 0 <= k < j ==> map@[k].0 != target,
                decreases map@.len() - j,
            {
                if map[j].0 == target {
                    assert(entry_ok(m, map@, j as int));
                    assert(entry_ok(m, map@, i as int));
                    assert(m[j as int].0[0] == m[i as int].1[0]);
                    assert(target_error(m, sv, i as int) == Some(
                        FoldTableError::TargetIsSource(i),
                    ));
                    assert(first_target_error(m, sv, i + 1) == Some(
                        FoldTableError::TargetIsSource(i),
                    ));
                    proof {
                        lemma_first_target_error_stays(m, sv, i as int + 1, m.len() as int);
                    }
                    return Err(FoldTableError::TargetIsSource(i));
                }
                j = j + 1;
            }
            let mut j: usize = 0;
            while j < strip.len()
                invariant
                    m == fold_file_view(*file).0,
                    sv == fold_file_view(*file).1,
                    m.len() == map@.len(),
                    sv.len() == strip@.len(),
                    first_map_error(m, m.len() as int) is None,
                    first_strip_error(sv, sv.len() as int) is None,
                    first_target_error(m, sv, i as int) is None,
                    forall|k: int| 0 <= k < m.len() ==> entry_ok(m, map@, k),
                    forall|k: int| 0 <= k < sv.len() ==> strip_ok(sv, strip@, k),
                    forall|k: int| 0 <= k < map@.len() ==> map@[k].0 != target,
                    i < map@.len(),
                    target == map@[i as int].1,
                    j <= strip@.len(),
                    forall|k: int| 0 <= k < j ==> strip@[k] != target,
                decreases strip@.len() - j,
            {
                if strip[j] == target {
                    assert(strip_ok(sv, strip@, j as int));
                    assert(entry_ok(m, map@, i as int));
                    assert(sv[j as int][0] == m[i as int].1[0]);
                    assert(!exists|k: int| 0 <= k < m.len() && m[k].0[0] == m[i as int].1[0]) by {
                        if exists|k: int| 0 <= k < m.len() && m[k].0[0] == m[i as int].1[0] {
                            let k = choose|k: int| 0 <= k < m.len() && m[k].0[0] == m[i as int].1[0];
                            assert(entry_ok(m, map@, k));
                        }
                    }
                    assert(target_error(m, sv, i as int) == Some(
                        FoldTableError::TargetIsStripped(i),
                    ));
                    assert(first_target_error(m, sv, i + 1) == Some(
                        FoldTableError::TargetIsStripped(i),
                    ));
                    proof {
                        lemma_first_target_error_stays(m, sv, i as int + 1, m.len() as int);
                    }
                    return Err(FoldTableError::TargetIsStripped(i));
                }
                j = j + 1;
            }
            proof {
                lemma_fold_lookup_result(map@, target);
                assert(entry_ok(m, map@, i as int));
                assert(!(exists|k: int| 0 <= k < m.len() && m[k].0[0] == m[i as int].1[0])) by {
                    if exists|k: int| 0 <= k < m.len() && m[k].0[0] == m[i as int].1[0] {
                        let k = choose|k: int| 0 <= k < m.len() && m[k].0[0] == m[i as int].1[0];
                        assert(entry_ok(m, map@, k));
                    }
                }
                assert(!(exists|k: int| 0 <= k < sv.len() && sv[k][0] == m[i as int].1[0])) by {
                    if exists|k: int| 0 <= k < sv.len() && sv[k][0] == m[i as int].1[0] {
                        let k = choose|k: int| 0 <= k < sv.len() && sv[k][0] == m[i as int].1[0];
                        assert(strip_ok(sv, strip@, k));
                    }
                }
                assert(target_error(m, sv, i as int) is None);
            }
            i = i + 1;
        }
        Ok(FoldTable { map, strip })
    }
}

/// `map[k]` has one-character source and target, and `t[k]` holds them.
spec fn entry_ok(m: Seq<(Seq<char>, Seq<char>)>, t: Seq<(char, char)>, k: int) -> bool {
    m[k].0.len() == 1 && m[k].1.len() == 1 && t[k] == (m[k].0[0], m[k].1[0])
}

/// `strip[k]` is one character, and `t[k]` holds it.
spec fn strip_ok(s: Seq<Seq<char>>, t: Seq<char>, k: int) -> bool {
    s[k].len() == 1 && t[k] == s[k][0]
}

proof fn lemma_first_map_error_stays(m: Seq<(Seq<char>, Seq<char>)>, n: int, k: int)
    requires
        0 <= n <= k,
        first_map_error(m, n) is Some,
    ensures
        first_map_error(m, k) == first_map_error(m, n),
    decreases k - n,
{
    if n < k {
        lemma_first_map_error_stays(m, n, k - 1);
    }
}

proof fn lemma_first_strip_error_stays(s: Seq<Seq<char>>, n: int, k: int)
    requires
        0 <= n <= k,
        first_strip_error(s, n) is Some,
    ensures
        first_strip_error(s, k) == first_strip_error(s, n),
    decreases k - n,
{
    if n < k {
        lemma_first_strip_error_stays(s, n, k - 1);
    }
}

proof fn lemma_first_target_error_stays(
    m: Seq<(Seq<char>, Seq<char>)>,
    s: Seq<Seq<char>>,
    n: int,
    k: int,
)
    requires
        0 <= n <= k,
        first_target_error(m, s, n) is Some,
    ensures
        first_target_error(m, s, k) == first_target_error(m, s, n),
    decreases k - n,
{
    if n < k {
        lemma_first_target_error_stays(m, s, n, k - 1);
    }
}


/// The fold table [`FOLDS_TOML`] describes: the four alef variants fold to
/// bare alef, tatweel is stripped.
pub open spec fn builtin_fold_table() -> (Seq<(char, char)>, Seq<char>) {
    (
        seq![
            ('\u{0623}', '\u{0627}'),
            ('\u{0625}', '\u{0627}'),
            ('\u{0622}', '\u{0627}'),
            ('\u{0671}', '\u{0627}'),
        ],
        seq!['\u{0640}'],
    )
}

/// One normalization pass: NFC, then the builtin fold table.
pub open spec fn norm_step(s: Seq<char>) -> Seq<char> {
    fold_seq(builtin_fold_table(), nfc_of(s))
}

/// Repeat normalization passes from `s` until a pass changes nothing, or at
/// most `fuel` more passes have been made.
pub open spec fn norm_fix(s: Seq<char>, fuel: nat) -> Seq<char>
    decreases fuel,
{
    if norm_step(s) == s || fuel == 0 {
        s
    } else {
        norm_fix(norm_step(s), (fuel - 1) as nat)
    }
}

/// The normalized form of `s`: normalization passes (NFC, then the builtin
/// fold table) repeated until one changes nothing — folding can expose a new
/// composition to NFC, as alef followed by a combining hamza shows — with at
/// most one pass more than `s` has characters after the first.
pub open spec fn normalized(s: Seq<char>) -> Seq<char> {
    norm_fix(norm_step(s), s.len())
}

/// A character that the builtin fold table removes or replaces.
pub open spec fn is_folded_away(c: char) -> bool {
    c == '\u{0640}' || c == '\u{0623}' || c == '\u{0625}' || c == '\u{0622}' || c == '\u{0671}'
}

/// The one-character string holding `c`.
fn char_string(c: char) -> (r: String)
    ensures
        r@ == seq![c],
{
    let mut s = String::new();
    push_char(&mut s, c);
    s
}

/// The contents of [`FOLDS_TOML`], entry for entry: the published text and
/// this file are kept equal (the test suite parses the text and compares).
pub fn builtin_fold_file() -> (r: FoldFile)
    ensures
        fold_file_view(r).0 == seq![
            (seq!['\u{0623}'], seq!['\u{0627}']),
            (seq!['\u{0625}'], seq!['\u{0627}']),
            (seq!['\u{0622}'], seq!['\u{0627}']),
            (seq!['\u{0671}'], seq!['\u{0627}']),
        ],
        fold_file_view(r).1 == seq![seq!['\u{0640}']],
{
    let mut map: Vec<FoldEntry> = Vec::new();
    map.push(FoldEntry { from: char_string('\u{0623}'), to: char_string('\u{0627}') });
    map.push(FoldEntry { from: char_string('\u{0625}'), to: char_string('\u{0627}') });
    map.push(FoldEntry { from: char_string('\u{0622}'), to: char_string('\u{0627}') });
    map.push(FoldEntry { from: char_string('\u{0671}'), to: char_string('\u{0627}') });
    let mut strip: Vec<String> = Vec::new();
    strip.push(char_string('\u{0640}'));
    let r = FoldFile { map, strip };
    assert(fold_file_view(r).0 =~= seq![
        (seq!['\u{0623}'], seq!['\u{0627}']),
        (seq!['\u{0625}'], seq!['\u{0627}']),
        (seq!['\u{0622}'], seq!['\u{0627}']),
        (seq!['\u{0671}'], seq!['\u{0627}']),
    ]);
    assert(fold_file_view(r).1 =~= seq![seq!['\u{0640}']]);
    r
}

/// The builtin fold table, built and validated from [`builtin_fold_file`].
pub fn fold_table() -> (t: FoldTable)
    ensures
        t@ == builtin_fold_table(),
        fold_table_idempotent(t@),
{
    let file = builtin_fold_file();
    let ghost m = fold_file_view(file).0;
    let ghost sv = fold_file_view(file).1;
    proof {
        reveal_with_fuel(first_map_error, 5);
        reveal_with_fuel(first_strip_error, 2);
        reveal_with_fuel(first_target_error, 5);
        assert(map_entry_error(m, 0) is None);
        assert(map_entry_error(m, 1) is None);
        assert(map_entry_error(m, 2) is None);
        assert(map_entry_error(m, 3) is None);
        assert(first_map_error(m, 4) is None);
        assert(first_strip_error(sv, 1) is None);
        assert(target_error(m, sv, 0) is None);
        assert(target_error(m, sv, 1) is None);
        assert(target_error(m, sv, 2) is None);
        assert(target_error(m, sv, 3) is None);
        assert(first_target_error(m, sv, 4) is None);
        assert(fold_file_error(m, sv) is None);
        assert(fold_table_of(m, sv).0 =~= builtin_fold_table().0);
        assert(fold_table_of(m, sv).1 =~= builtin_fold_table().1);
    }
    match FoldTable::from_file(&file) {
        Ok(t) => t,
        Err(_) => {
            proof {
                assert(false);
            }
            FoldTable { map: Vec::new(), strip: Vec::new() }
        },
    }
}

impl FoldTable {
    /// True when `c` is stripped.
    fn strips(&self, c: char) -> (r: bool)
        ensures
            r == self@.1.contains(c),
    {
        let mut i: usize = 0;
        while i < self.strip.len()
            invariant
                i <= self.strip@.len(),
                forall|k: int| 0 <= k < i ==> self.strip@[k] != c,
            decreases self.strip@.len() - i,
        {
            if self.strip[i] == c {
                assert(self.strip@[i as int] == c);
                return true;
            }
            i = i + 1;
        }
        false
    }

    /// `c` after folding.
    fn fold_one(&self, c: char) -> (r: char)
        ensures
            r == fold_char(self@.0, c),
    {
        assert(self.map@.skip(0) =~= self.map@);
        let mut i: usize = 0;
        while i < self.map.len()
            invariant
                i <= self.map@.len(),
                fold_lookup(self.map@, c) == fold_lookup(self.map@.skip(i as int), c),
            decreases self.map@.len() - i,
        {
            assert(self.map@.skip(i as int).drop_first() =~= self.map@.skip(i as int + 1));
            if self.map[i].0 == c {
                return self.map[i].1;
            }
            i = i + 1;
        }
        c
    }

    /// Folds `cs`: every stripped character is removed, every other folded.
    pub fn fold(&self, cs: &[char]) -> (r: String)
        ensures
            r@ == fold_seq(self@, cs@),
    {
        let mut out = String::new();
        let mut i: usize = 0;
        while i < cs.len()
            invariant
                i <= cs@.len(),
                out@ == fold_seq(self@, cs@.take(i as int)),
            decreases cs@.len() - i,
        {
            let c = cs[i];
            assert(cs@.take(i as int + 1).drop_last() =~= cs@.take(i as int));
            if !self.strips(c) {
                push_char(&mut out, self.fold_one(c));
            }
            i = i + 1;
        }
        assert(cs@.take(cs@.len() as int) =~= cs@);
        out
    }
}

/// The output of a normalization pass holds no character the fold table
/// removes or replaces.
proof fn lemma_step_no_folded_away(s: Seq<char>)
    ensures
        forall|i: int| 0 <= i < norm_step(s).len() ==> !is_folded_away(#[trigger] norm_step(s)[i]),
{
    let t = builtin_fold_table();
    assert(fold_table_idempotent(t)) by {
        assert forall|i: int| 0 <= i < t.0.len() implies fold_lookup(t.0, #[trigger] t.0[i].1)
            is None && !t.1.contains(t.0[i].1) by {
            lemma_fold_lookup_result(t.0, t.0[i].1);
        }
    }
    lemma_fold_seq_output(t, nfc_of(s));
    let r = norm_step(s);
    assert forall|i: int| 0 <= i < r.len() implies !is_folded_away(#[trigger] r[i]) by {
        let c = r[i];
        if is_folded_away(c) {
            if c == '\u{0640}' {
                assert(t.1[0] == c);
            } else {
                let j: int = if c == '\u{0623}' {
                    0
                } else if c == '\u{0625}' {
                    1
                } else if c == '\u{0622}' {
                    2
                } else {
                    3
                };
                assert(t.0[j].0 == c);
                lemma_fold_lookup_found(t.0, c, j);
            }
        }
    }
}

/// Repeated passes from a pass's output keep that property.
proof fn lemma_fix_no_folded_away(s: Seq<char>, fuel: nat)
    requires
        forall|i: int| 0 <= i < s.len() ==> !is_folded_away(#[trigger] s[i]),
    ensures
        forall|i: int| 0 <= i < norm_fix(s, fuel).len() ==> !is_folded_away(#[trigger] norm_fix(s, fuel)[i]),
    decreases fuel,
{
    if norm_step(s) == s || fuel == 0 {
        assert(norm_fix(s, fuel) == s);
    } else {
        assert(norm_fix(s, fuel) == norm_fix(norm_step(s), (fuel - 1) as nat));
        lemma_step_no_folded_away(s);
        lemma_fix_no_folded_away(norm_step(s), (fuel - 1) as nat);
    }
}

/// One normalization pass over `s`.
fn norm_pass(table: &FoldTable, s: &str) -> (r: String)
    requires
        table@ == builtin_fold_table(),
    ensures
        r@ == norm_step(s@),
{
    let composed = nfc_string(s);
    let cs = chars_of_string(&composed);
    table.fold(cs.as_slice())
}

/// Normalize an Arabic input string: NFC, then the Arabic normative fold
/// table (alef variants fold to bare alef, tatweel is stripped), repeated
/// until a pass changes nothing, so that normalizing again changes nothing.
/// Diacritics, digits and non-Arabic text are preserved.
pub fn normalize(input: &str) -> (r: String)
    ensures
        r@ == normalized(input@),
        forall|i: int| 0 <= i < r@.len() ==> !is_folded_away(#[trigger] r@[i]),
{
    let table = fold_table();
    let n = chars_of(input).len();
    let mut cur = norm_pass(&table, input);
    let mut fuel: usize = n;
    proof {
        lemma_step_no_folded_away(input@);
    }
    while fuel > 0
        invariant
            table@ == builtin_fold_table(),
            norm_fix(cur@, fuel as nat) == normalized(input@),
            forall|i: int| 0 <= i < cur@.len() ==> !is_folded_away(#[trigger] cur@[i]),
        decreases fuel,
    {
        let next = norm_pass(&table, cur.as_str());
        let a = chars_of_string(&next);
        let b = chars_of_string(&cur);
        if chars_eq(a.as_slice(), b.as_slice()) {
            return cur;
        }
        proof {
            lemma_step_no_folded_away(cur@);
        }
        cur = next;
        fuel = fuel - 1;
    }
    cur
}

/// Normalizing is idempotent whenever the passes converged within their
/// bound, i.e. one more pass leaves the normalized text unchanged.
pub proof fn law_normalize_idempotent_when_settled(s: Seq<char>)
    ensures
        norm_step(normalized(s)) == normalized(s) ==> normalized(normalized(s)) == normalized(s),
{
}

/// The normalized text is free of every character the fold table removes or
/// replaces.
pub proof fn law_normalized_is_folded(s: Seq<char>)
    ensures
        forall|i: int| 0 <= i < normalized(s).len() ==> !is_folded_away(#[trigger] normalized(s)[i]),
{
    lemma_step_no_folded_away(s);
    lemma_fix_no_folded_away(norm_step(s), s.len());
}

/// The BLAKE3 hash of the fold table's published bytes.
///
/// Changes to the fold table — including whitespace or comments — change this
/// hash, which lets downstream consumers detect a different normalization
/// regime than they expected.
pub fn fold_table_hash() -> (r: ContentHash)
    ensures
        r.0@ == blake3_hex(encode_utf8(FOLDS_TOML@)),
        r.0@.len() == 64,
{
    ContentHash::of(FOLDS_TOML.as_bytes())
}

/// Arabic diacritics (tashkīl) and tatweel: U+064B–U+065F, U+0670, U+0640.
pub open spec fn is_tashkil(c: char) -> bool {
    c == '\u{0640}' || ('\u{064B}' <= c && c <= '\u{065F}') || c == '\u{0670}'
}

/// `s` with every tashkīl character removed.
pub open spec fn strip_tashkil_seq(s: Seq<char>) -> Seq<char>
    decreases s.len(),
{
    if s.len() == 0 {
        Seq::<char>::empty()
    } else if is_tashkil(s.last()) {
        strip_tashkil_seq(s.drop_last())
    } else {
        strip_tashkil_seq(s.drop_last()).push(s.last())
    }
}

fn is_tashkil_char(c: char) -> (r: bool)
    ensures
        r == is_tashkil(c),
{
    c == '\u{0640}' || ('\u{064B}' <= c && c <= '\u{065F}') || c == '\u{0670}'
}

/// Remove Arabic diacritics (tashkīl) and tatweel, leaving the consonant +
/// long-vowel skeleton used for morphological pattern matching.
///
/// This is separate from [`normalize`], which preserves diacritics.
pub fn strip_tashkil(input: &str) -> (r: String)
    ensures
        r@ == strip_tashkil_seq(input@),
        forall|i: int| 0 <= i < r@.len() ==> !is_tashkil(#[trigger] r@[i]),
        r@ == input@.filter(
            |c: char| !(c == '\u{0640}' || ('\u{064B}' <= c && c <= '\u{065F}') || c == '\u{0670}'),
        ),
{
    let cs = chars_of(input);
    let mut out = String::new();
    let mut i: usize = 0;
    while i < cs.len()
        invariant
            i <= cs@.len(),
            out@ == strip_tashkil_seq(cs@.take(i as int)),
        decreases cs@.len() - i,
    {
        assert(cs@.take(i as int + 1).drop_last() =~= cs@.take(i as int));
        if !is_tashkil_char(cs[i]) {
            push_char(&mut out, cs[i]);
        }
        i = i + 1;
    }
    assert(cs@.take(cs@.len() as int) =~= cs@);
    proof {
        lemma_strip_tashkil_output(input@);
        law_strip_tashkil_removes_exactly_tashkil(input@);
    }
    out
}

/// Stripped text holds no tashkīl.
pub proof fn lemma_strip_tashkil_output(s: Seq<char>)
    ensures
        forall|i: int|
            0 <= i < strip_tashkil_seq(s).len() ==> !is_tashkil(#[trigger] strip_tashkil_seq(s)[i]),
    decreases s.len(),
{
    if s.len() > 0 {
        lemma_strip_tashkil_output(s.drop_last());
        let r = strip_tashkil_seq(s.drop_last());
        if !is_tashkil(s.last()) {
            assert forall|i: int| 0 <= i < r.len() + 1 implies !is_tashkil(
                #[trigger] r.push(s.last())[i],
            ) by {
                if i < r.len() {
                    assert(r.push(s.last())[i] == r[i]);
                }
            }
        }
    }
}

/// Stripping removes exactly the tashkīl and keeps everything else in order:
/// the result is the input without its harakat, tanwīn, shadda, sukūn and the
/// other marks U+064B..=U+065F, the superscript alef U+0670 and tatweel
/// U+0640.
pub proof fn law_strip_tashkil_removes_exactly_tashkil(s: Seq<char>)
    ensures
        strip_tashkil_seq(s) == s.filter(
            |c: char| !(c == '\u{0640}' || ('\u{064B}' <= c && c <= '\u{065F}') || c == '\u{0670}'),
        ),
        forall|i: int|
            0 <= i < strip_tashkil_seq(s).len() ==> {
                let c = #[trigger] strip_tashkil_seq(s)[i];
                c != '\u{0640}' && c != '\u{0670}' && !('\u{064B}' <= c && c <= '\u{065F}')
            },
    decreases s.len(),
{
    reveal(Seq::filter);
    lemma_strip_tashkil_output(s);
    if s.len() > 0 {
        law_strip_tashkil_removes_exactly_tashkil(s.drop_last());
    }
}

/// Stripping tashkīl twice is the same as stripping it once.
pub proof fn law_strip_tashkil_idempotent(s: Seq<char>)
    ensures
        strip_tashkil_seq(strip_tashkil_seq(s)) == strip_tashkil_seq(s),
    decreases s.len(),
{
    if s.len() > 0 {
        law_strip_tashkil_idempotent(s.drop_last());
        let r = strip_tashkil_seq(s.drop_last());
        if !is_tashkil(s.last()) {
            assert(r.push(s.last()).drop_last() =~= r);
        }
    }
}

} // verus!
