//! Human-readable renderings of segmentations, roots, patterns and word
//! frequencies, as the command-line interface prints them.
use vstd::prelude::*;

use crate::clitics::{split_view, CliticSplit, CliticView};
use crate::freq::FreqEntry;
use crate::morph_ir::{
    analyses_items, clitic_views, enclitics_items, proclitics_items, Clitic, MorphAnalysis,
    MorphForest, PatternId, Root,
};
use crate::text::{append_chars, chars_of_string, decimal, push_decimal, string_of};

verus! {

/// The forms of `cs`, joined by `+`.
pub open spec fn joined_forms(cs: Seq<CliticView>) -> Seq<char>
    decreases cs.len(),
{
    if cs.len() == 0 {
        Seq::empty()
    } else if cs.len() == 1 {
        cs[0].0
    } else {
        joined_forms(cs.drop_last()) + seq!['+'] + cs.last().0
    }
}

/// The separator between the parts of a segmentation: ` · `.
pub open spec fn part_separator() -> Seq<char> {
    seq![' ', '\u{00B7}', ' ']
}

/// A segmentation as `proc+proc · stem · enc`: the proclitic part and its
/// separator only when there are proclitics, likewise for enclitics.
pub open spec fn segmentation_text(
    procs: Seq<CliticView>,
    stem: Seq<char>,
    encs: Seq<CliticView>,
) -> Seq<char> {
    (if procs.len() > 0 {
        joined_forms(procs) + part_separator()
    } else {
        Seq::empty()
    }) + stem + (if encs.len() > 0 {
        part_separator() + joined_forms(encs)
    } else {
        Seq::empty()
    })
}

/// Appends the forms of `cs`, joined by `+`, to `v`.
fn append_joined(v: &mut Vec<char>, cs: &[Clitic])
    ensures
        final(v)@ == old(v)@ + joined_forms(clitic_views(cs@)),
{
    let ghost start = v@;
    let mut i: usize = 0;
    assert(clitic_views(cs@.take(0)) =~= Seq::<CliticView>::empty());
    while i < cs.len()
        invariant
            i <= cs@.len(),
            v@ == start + joined_forms(clitic_views(cs@.take(i as int))),
        decreases cs@.len() - i,
    {
        if i > 0 {
            v.push('+');
        }
        let f = chars_of_string(&cs[i].form);
        append_chars(v, f.as_slice());
        proof {
            let next = clitic_views(cs@.take(i as int + 1));
            assert(next.drop_last() =~= clitic_views(cs@.take(i as int)));
            assert(next.last() == cs@[i as int]@);
            if i == 0 {
                assert(next.len() == 1);
                assert(next[0] == cs@[0]@);
            }
        }
        i = i + 1;
        assert(v@ =~= start + joined_forms(clitic_views(cs@.take(i as int))));
    }
    assert(cs@.take(cs@.len() as int) =~= cs@);
}

/// The segmentation text of proclitics, stem and enclitics.
fn segmentation(procs: &[Clitic], stem: &String, encs: &[Clitic]) -> (r: String)
    ensures
        r@ == segmentation_text(clitic_views(procs@), stem@, clitic_views(encs@)),
{
    let mut v: Vec<char> = Vec::new();
    if procs.len() > 0 {
        append_joined(&mut v, procs);
        v.push(' ');
        v.push('\u{00B7}');
        v.push(' ');
    }
    let s = chars_of_string(stem);
    append_chars(&mut v, s.as_slice());
    if encs.len() > 0 {
        v.push(' ');
        v.push('\u{00B7}');
        v.push(' ');
        append_joined(&mut v, encs);
    }
    assert(v@ =~= segmentation_text(clitic_views(procs@), stem@, clitic_views(encs@)));
    string_of(v.as_slice())
}

/// Render an analysis's segmentation as `proc+proc · stem · enc`.
pub fn fmt_analysis(an: &MorphAnalysis) -> (r: String)
    ensures
        r@ == segmentation_text(
            clitic_views(proclitics_items(an.proclitics)),
            an.stem.surface@,
            clitic_views(enclitics_items(an.enclitics)),
        ),
{
    segmentation(an.proclitics.as_slice(), &an.stem.surface, an.enclitics.as_slice())
}

/// Render one clitic split as `proc+proc · stem · enc`.
pub fn fmt_split(s: &CliticSplit) -> (r: String)
    ensures
        r@ == segmentation_text(split_view(*s).0, split_view(*s).1.0, split_view(*s).2),
{
    segmentation(s.proclitics.as_slice(), &s.stem.surface, s.enclitics.as_slice())
}

/// The radicals of `r` joined by `-`.
pub open spec fn dashed(r: Seq<char>) -> Seq<char>
    decreases r.len(),
{
    if r.len() == 0 {
        Seq::empty()
    } else if r.len() == 1 {
        seq![r[0]]
    } else {
        dashed(r.drop_last()) + seq!['-', r.last()]
    }
}

/// A root as its radicals joined by `-` (e.g. `ك-ت-ب`); `—` when absent.
pub open spec fn root_text(r: Option<Seq<char>>) -> Seq<char> {
    match r {
        Some(x) => dashed(x),
        None => seq!['\u{2014}'],
    }
}

/// Render an analysis's root as its radicals joined by `-`, or `—`.
pub fn fmt_root(root: &Option<Root>) -> (r: String)
    ensures
        r@ == root_text(
            match root {
                Some(x) => Some(x@),
                None => None,
            },
        ),
{
    let mut v: Vec<char> = Vec::new();
    match root {
        Some(x) => {
            let rs = x.radicals.as_slice();
            let mut i: usize = 0;
            assert(rs@.take(0) =~= Seq::<char>::empty());
            while i < rs.len()
                invariant
                    i <= rs@.len(),
                    v@ == dashed(rs@.take(i as int)),
                decreases rs@.len() - i,
            {
                if i > 0 {
                    v.push('-');
                }
                v.push(rs[i]);
                proof {
                    let next = rs@.take(i as int + 1);
                    assert(next.drop_last() =~= rs@.take(i as int));
                    assert(next.last() == rs@[i as int]);
                }
                i = i + 1;
                assert(v@ =~= dashed(rs@.take(i as int)));
            }
            assert(rs@.take(rs@.len() as int) =~= rs@);
        },
        None => {
            v.push('\u{2014}');
            assert(v@ =~= seq!['\u{2014}']);
        },
    }
    string_of(v.as_slice())
}

/// A pattern id in decimal; `—` when absent.
pub open spec fn pattern_text(p: Option<PatternId>) -> Seq<char> {
    match p {
        Some(id) => decimal(id.0 as nat),
        None => seq!['\u{2014}'],
    }
}

/// Render an analysis's pattern id in decimal, or `—`.
pub fn fmt_pattern(p: Option<PatternId>) -> (r: String)
    ensures
        r@ == pattern_text(p),
{
    let mut v: Vec<char> = Vec::new();
    match p {
        Some(id) => {
            push_decimal(&mut v, id.0 as u64);
            assert(v@ =~= decimal(id.0 as nat));
        },
        None => {
            v.push('\u{2014}');
            assert(v@ =~= seq!['\u{2014}']);
        },
    }
    string_of(v.as_slice())
}

/// `n` spaces.
pub open spec fn spaces(n: nat) -> Seq<char> {
    Seq::new(n, |i: int| ' ')
}

/// The strings of `ss` joined by `, `.
pub open spec fn comma_joined(ss: Seq<Seq<char>>) -> Seq<char>
    decreases ss.len(),
{
    if ss.len() == 0 {
        Seq::empty()
    } else if ss.len() == 1 {
        ss[0]
    } else {
        comma_joined(ss.drop_last()) + seq![',', ' '] + ss.last()
    }
}

/// A frequency line: the count right-aligned in six columns, two spaces, the
/// normalized form, and — when there is more than one variant —
/// `  [variants: a, b]`.
pub open spec fn freq_line_text(count: nat, normalized: Seq<char>, variants: Seq<Seq<char>>) -> Seq<
    char,
> {
    let c = decimal(count);
    let pad: nat = if c.len() < 6 {
        (6 - c.len()) as nat
    } else {
        0
    };
    spaces(pad) + c + seq![' ', ' '] + normalized + if variants.len() > 1 {
        seq![' ', ' ', '[', 'v', 'a', 'r', 'i', 'a', 'n', 't', 's', ':', ' '] + comma_joined(variants)
            + seq![']']
    } else {
        Seq::empty()
    }
}

/// Render a frequency entry as one line of the frequency list.
pub fn fmt_freq_entry(e: &FreqEntry) -> (r: String)
    ensures
        r@ == freq_line_text(
            e.count as nat,
            e.normalized@,
            e.variants@.map_values(|s: String| s@),
        ),
{
    let mut digits: Vec<char> = Vec::new();
    push_decimal(&mut digits, e.count as u64);
    let mut v: Vec<char> = Vec::new();
    let mut k: usize = digits.len();
    while k < 6
        invariant
            digits.len() <= k <= 6 || (digits.len() > 6 && k == digits.len()),
            v@ == spaces((k - digits.len()) as nat),
        decreases 6 - k,
    {
        v.push(' ');
        k = k + 1;
        assert(v@ =~= spaces((k - digits.len()) as nat));
    }
    append_chars(&mut v, digits.as_slice());
    v.push(' ');
    v.push(' ');
    let n = chars_of_string(&e.normalized);
    append_chars(&mut v, n.as_slice());
    let ghost vs = e.variants@.map_values(|s: String| s@);
    let ghost head = v@;
    if e.variants.len() > 1 {
        v.push(' ');
        v.push(' ');
        v.push('[');
        v.push('v');
        v.push('a');
        v.push('r');
        v.push('i');
        v.push('a');
        v.push('n');
        v.push('t');
        v.push('s');
        v.push(':');
        v.push(' ');
        let ghost start = v@;
        let mut i: usize = 0;
        assert(vs.take(0) =~= Seq::<Seq<char>>::empty());
        while i < e.variants.len()
            invariant
                i <= e.variants@.len(),
                vs == e.variants@.map_values(|s: String| s@),
                v@ == start + comma_joined(vs.take(i as int)),
            decreases e.variants@.len() - i,
        {
            if i > 0 {
                v.push(',');
                v.push(' ');
            }
            let w = chars_of_string(&e.variants[i]);
            append_chars(&mut v, w.as_slice());
            proof {
                let next = vs.take(i as int + 1);
                assert(next.drop_last() =~= vs.take(i as int));
                assert(next.last() == vs[i as int]);
            }
            i = i + 1;
            assert(v@ =~= start + comma_joined(vs.take(i as int)));
        }
        assert(vs.take(e.variants@.len() as int) =~= vs);
        v.push(']');
    }
    assert(v@ =~= freq_line_text(e.count as nat, e.normalized@, vs));
    string_of(v.as_slice())
}

/// The index of the first forest with more than one analysis (an unresolved
/// ambiguity), or `None` when every forest has at most one.
pub fn first_ambiguous(forests: &[MorphForest]) -> (r: Option<usize>)
    ensures
        r is None <==> forall|i: int|
            0 <= i < forests@.len() ==> analyses_items(#[trigger] forests@[i].analyses).len() <= 1,
        r matches Some(i) ==> i < forests@.len() && analyses_items(forests@[i as int].analyses).len()
            > 1 && forall|j: int|
            0 <= j < i ==> analyses_items(#[trigger] forests@[j].analyses).len() <= 1,
{
    let mut i: usize = 0;
    while i < forests.len()
        invariant
            i <= forests@.len(),
            forall|j: int| 0 <= j < i ==> analyses_items(#[trigger] forests@[j].analyses).len() <= 1,
        decreases forests@.len() - i,
    {
        if forests[i].analyses.len() > 1 {
            return Some(i);
        }
        i = i + 1;
    }
    None
}

} // verus!
