//! Deterministic ranking: a lexicographic order on integer keys and the
//! stable sort by such keys that every ranked list of the pipeline uses.
use vstd::prelude::*;

verus! {

/// Strict lexicographic order on integer sequences; a proper prefix comes
/// first. On character codes this is the order of `str` comparison, since
/// UTF-8 byte order agrees with code point order.
pub open spec fn key_lt(a: Seq<int>, b: Seq<int>) -> bool
    decreases a.len(),
{
    if a.len() == 0 {
        b.len() > 0
    } else if b.len() == 0 {
        false
    } else if a[0] < b[0] {
        true
    } else if a[0] > b[0] {
        false
    } else {
        key_lt(a.drop_first(), b.drop_first())
    }
}

/// The character codes of `s`.
pub open spec fn chars_key(s: Seq<char>) -> Seq<int> {
    s.map_values(|c: char| c as int)
}

/// A key is never before itself.
pub proof fn lemma_key_lt_irreflexive(a: Seq<int>)
    ensures
        !key_lt(a, a),
    decreases a.len(),
{
    if a.len() > 0 {
        lemma_key_lt_irreflexive(a.drop_first());
    }
}

/// Of two distinct keys, exactly one is before the other.
pub proof fn lemma_key_lt_total(a: Seq<int>, b: Seq<int>)
    ensures
        a != b ==> (key_lt(a, b) || key_lt(b, a)),
        !(key_lt(a, b) && key_lt(b, a)),
    decreases a.len(),
{
    if a.len() > 0 && b.len() > 0 {
        lemma_key_lt_total(a.drop_first(), b.drop_first());
        if a[0] == b[0] && a.drop_first() == b.drop_first() {
            assert(a =~= seq![a[0]] + a.drop_first());
            assert(b =~= seq![b[0]] + b.drop_first());
        }
    } else if a.len() == 0 && b.len() == 0 {
        assert(a =~= b);
    }
}

/// The order is transitive.
pub proof fn lemma_key_lt_transitive(a: Seq<int>, b: Seq<int>, c: Seq<int>)
    requires
        key_lt(a, b),
        key_lt(b, c),
    ensures
        key_lt(a, c),
    decreases a.len(),
{
    if a.len() > 0 && b.len() > 0 && c.len() > 0 {
        if a[0] == b[0] && b[0] == c[0] {
            lemma_key_lt_transitive(a.drop_first(), b.drop_first(), c.drop_first());
        }
    }
}

/// A key with a leading component compares on that component first.
pub proof fn lemma_key_lt_cons(x: int, a: Seq<int>, y: int, b: Seq<int>)
    ensures
        key_lt(seq![x] + a, seq![y] + b) == (x < y || (x == y && key_lt(a, b))),
{
    assert((seq![x] + a).drop_first() =~= a);
    assert((seq![y] + b).drop_first() =~= b);
}

/// `s` with `x` inserted before the first element whose key `x`'s key
/// strictly precedes — after every element it ties with.
pub open spec fn insert_by_key<V>(s: Seq<V>, x: V, key: spec_fn(V) -> Seq<int>) -> Seq<V>
    decreases s.len(),
{
    if s.len() == 0 {
        seq![x]
    } else if key_lt(key(x), key(s[0])) {
        seq![x] + s
    } else {
        seq![s[0]] + insert_by_key(s.drop_first(), x, key)
    }
}

/// The stable sort of `s` by ascending `key`: elements with equal keys keep
/// their relative order.
pub open spec fn sort_by_key<V>(s: Seq<V>, key: spec_fn(V) -> Seq<int>) -> Seq<V>
    decreases s.len(),
{
    if s.len() == 0 {
        s
    } else {
        insert_by_key(sort_by_key(s.drop_last(), key), s.last(), key)
    }
}

/// Every element is at or after each earlier one in key order.
pub open spec fn sorted_by_key<V>(s: Seq<V>, key: spec_fn(V) -> Seq<int>) -> bool {
    forall|i: int, j: int| 0 <= i < j < s.len() ==> !key_lt(key(s[j]), key(s[i]))
}

/// Inserting at the first position whose element `x` strictly precedes.
proof fn lemma_insert_by_key_at<V>(s: Seq<V>, x: V, key: spec_fn(V) -> Seq<int>, p: int)
    requires
        0 <= p <= s.len(),
        forall|j: int| 0 <= j < p ==> !key_lt(key(x), key(#[trigger] s[j])),
        p < s.len() ==> key_lt(key(x), key(s[p])),
    ensures
        insert_by_key(s, x, key) == s.insert(p, x),
    decreases s.len(),
{
    if s.len() == 0 {
        assert(s.insert(p, x) =~= seq![x]);
    } else if p == 0 {
        assert(s.insert(0, x) =~= seq![x] + s);
    } else {
        assert(!key_lt(key(x), key(s[0])));
        assert forall|j: int| 0 <= j < p - 1 implies !key_lt(key(x), key(
            #[trigger] s.drop_first()[j],
        )) by {
            assert(s.drop_first()[j] == s[j + 1]);
        }
        lemma_insert_by_key_at(s.drop_first(), x, key, p - 1);
        assert(seq![s[0]] + s.drop_first().insert(p - 1, x) =~= s.insert(p, x));
    }
}

/// Mapping commutes with sorting when the key is read through the map.
pub proof fn lemma_sort_by_key_map<T, V>(
    s: Seq<T>,
    f: spec_fn(T) -> V,
    kt: spec_fn(T) -> Seq<int>,
    kv: spec_fn(V) -> Seq<int>,
)
    requires
        forall|t: T| #[trigger] kt(t) == kv(f(t)),
    ensures
        sort_by_key(s, kt).map_values(f) == sort_by_key(s.map_values(f), kv),
    decreases s.len(),
{
    if s.len() > 0 {
        lemma_sort_by_key_map(s.drop_last(), f, kt, kv);
        assert(s.map_values(f).drop_last() =~= s.drop_last().map_values(f));
        lemma_insert_map(sort_by_key(s.drop_last(), kt), s.last(), f, kt, kv);
    }
}

proof fn lemma_insert_map<T, V>(
    s: Seq<T>,
    x: T,
    f: spec_fn(T) -> V,
    kt: spec_fn(T) -> Seq<int>,
    kv: spec_fn(V) -> Seq<int>,
)
    requires
        forall|t: T| #[trigger] kt(t) == kv(f(t)),
    ensures
        insert_by_key(s, x, kt).map_values(f) == insert_by_key(s.map_values(f), f(x), kv),
    decreases s.len(),
{
    if s.len() == 0 {
        assert(seq![x].map_values(f) =~= seq![f(x)]);
    } else {
        assert(kt(x) == kv(f(x)));
        assert(kt(s[0]) == kv(f(s[0])));
        if key_lt(kt(x), kt(s[0])) {
            assert((seq![x] + s).map_values(f) =~= seq![f(x)] + s.map_values(f));
        } else {
            lemma_insert_map(s.drop_first(), x, f, kt, kv);
            assert(s.map_values(f).drop_first() =~= s.drop_first().map_values(f));
            assert((seq![s[0]] + insert_by_key(s.drop_first(), x, kt)).map_values(f) =~= seq![
                f(s[0]),
            ] + insert_by_key(s.drop_first(), x, kt).map_values(f));
        }
    }
}

/// The stable sort is a rearrangement: same length, same elements.
pub proof fn lemma_sort_by_key_permutes<V>(s: Seq<V>, key: spec_fn(V) -> Seq<int>)
    ensures
        sort_by_key(s, key).len() == s.len(),
        sort_by_key(s, key).to_multiset() == s.to_multiset(),
    decreases s.len(),
{
    broadcast use vstd::seq_lib::group_to_multiset_ensures;

    if s.len() > 0 {
        lemma_sort_by_key_permutes(s.drop_last(), key);
        lemma_insert_permutes(sort_by_key(s.drop_last(), key), s.last(), key);
        assert(s =~= s.drop_last().push(s.last()));
    }
}

proof fn lemma_insert_permutes<V>(s: Seq<V>, x: V, key: spec_fn(V) -> Seq<int>)
    ensures
        insert_by_key(s, x, key).len() == s.len() + 1,
        insert_by_key(s, x, key).to_multiset() == s.to_multiset().insert(x),
    decreases s.len(),
{
    broadcast use vstd::seq_lib::group_to_multiset_ensures;

    if s.len() == 0 {
        assert(seq![x] =~= Seq::<V>::empty().push(x));
    } else if key_lt(key(x), key(s[0])) {
        vstd::seq_lib::lemma_multiset_commutative(seq![x], s);
        assert(seq![x] =~= Seq::<V>::empty().push(x));
    } else {
        lemma_insert_permutes(s.drop_first(), x, key);
        vstd::seq_lib::lemma_multiset_commutative(
            seq![s[0]],
            insert_by_key(s.drop_first(), x, key),
        );
        vstd::seq_lib::lemma_multiset_commutative(seq![s[0]], s.drop_first());
        assert(seq![s[0]] + s.drop_first() =~= s);
        assert(seq![s[0]] =~= Seq::<V>::empty().push(s[0]));
    }
}

/// The stable sort is ordered by key.
pub proof fn lemma_sort_by_key_sorted<V>(s: Seq<V>, key: spec_fn(V) -> Seq<int>)
    ensures
        sorted_by_key(sort_by_key(s, key), key),
    decreases s.len(),
{
    if s.len() > 0 {
        lemma_sort_by_key_sorted(s.drop_last(), key);
        lemma_insert_sorted(sort_by_key(s.drop_last(), key), s.last(), key);
    }
}

proof fn lemma_insert_sorted<V>(s: Seq<V>, x: V, key: spec_fn(V) -> Seq<int>)
    requires
        sorted_by_key(s, key),
    ensures
        sorted_by_key(insert_by_key(s, x, key), key),
        forall|i: int|
            0 <= i < insert_by_key(s, x, key).len() ==> #[trigger] insert_by_key(s, x, key)[i]
                == x || s.contains(insert_by_key(s, x, key)[i]),
    decreases s.len(),
{
    let r = insert_by_key(s, x, key);
    if s.len() == 0 {
    } else if key_lt(key(x), key(s[0])) {
        assert forall|i: int, j: int| 0 <= i < j < r.len() implies !key_lt(
            key(r[j]),
            key(r[i]),
        ) by {
            if i == 0 {
                let y = s[j - 1];
                if key_lt(key(y), key(x)) {
                    if j - 1 > 0 {
                        assert(!key_lt(key(s[j - 1]), key(s[0])));
                        lemma_key_lt_transitive(key(y), key(x), key(s[0]));
                    } else {
                        lemma_key_lt_total(key(y), key(x));
                    }
                }
            } else {
                assert(r[i] == s[i - 1]);
                assert(r[j] == s[j - 1]);
            }
        }
        assert forall|i: int| 0 <= i < r.len() implies #[trigger] r[i] == x || s.contains(r[i]) by {
            if i > 0 {
                assert(r[i] == s[i - 1]);
            }
        }
    } else {
        let t = s.drop_first();
        assert(sorted_by_key(t, key)) by {
            assert forall|i: int, j: int| 0 <= i < j < t.len() implies !key_lt(
                key(t[j]),
                key(t[i]),
            ) by {
                assert(t[i] == s[i + 1]);
                assert(t[j] == s[j + 1]);
            }
        }
        lemma_insert_sorted(t, x, key);
        let rt = insert_by_key(t, x, key);
        assert(r == seq![s[0]] + rt);
        assert forall|i: int, j: int| 0 <= i < j < r.len() implies !key_lt(
            key(r[j]),
            key(r[i]),
        ) by {
            if i == 0 {
                assert(r[j] == rt[j - 1]);
                if rt[j - 1] == x {
                    lemma_key_lt_total(key(x), key(s[0]));
                    if key(x) == key(s[0]) {
                        lemma_key_lt_irreflexive(key(x));
                    }
                } else {
                    assert(t.contains(rt[j - 1]));
                    let k = choose|k: int| 0 <= k < t.len() && t[k] == rt[j - 1];
                    assert(t[k] == s[k + 1]);
                }
            } else {
                assert(r[i] == rt[i - 1]);
                assert(r[j] == rt[j - 1]);
            }
        }
        assert forall|i: int| 0 <= i < r.len() implies #[trigger] r[i] == x || s.contains(r[i]) by {
            if i > 0 {
                assert(r[i] == rt[i - 1]);
                if rt[i - 1] != x {
                    assert(t.contains(rt[i - 1]));
                    let k = choose|k: int| 0 <= k < t.len() && t[k] == rt[i - 1];
                    assert(t[k] == s[k + 1]);
                }
            }
        }
    }
}

/// A value that carries a ranking key and can compare it at run time.
pub trait Ranked: Sized {
    /// The ranking key: smaller keys rank first.
    spec fn rank_key(&self) -> Seq<int>;

    /// Whether `self` ranks strictly before `other`.
    fn ranks_before(&self, other: &Self) -> (r: bool)
        ensures
            r == key_lt(self.rank_key(), other.rank_key()),
    ;
}

/// The ranking key of `t`, as a spec closure.
pub open spec fn rank_of<T: Ranked>(t: T) -> Seq<int> {
    t.rank_key()
}

/// Stable sort by ranking key (ties keep their input order).
pub fn sort_ranked<T: Ranked>(v: Vec<T>) -> (r: Vec<T>)
    ensures
        r@ == sort_by_key(v@, |t: T| rank_of(t)),
{
    let ghost key = |t: T| rank_of(t);
    let ghost orig = v@;
    let mut v = v;
    let mut rev: Vec<T> = Vec::new();
    // Take the elements off the back, so that they can be inserted front to back.
    while v.len() > 0
        invariant
            orig == v@ + rev@.reverse(),
        decreases v@.len(),
    {
        let x = v.pop().unwrap();
        proof {
            assert(rev@.push(x).reverse() =~= seq![x] + rev@.reverse());
        }
        rev.push(x);
    }
    assert(v@ + rev@.reverse() =~= rev@.reverse());
    let mut out: Vec<T> = Vec::new();
    let ghost mut done: Seq<T> = Seq::empty();
    while rev.len() > 0
        invariant
            orig == done + rev@.reverse(),
            out@ == sort_by_key(done, key),
            key == (|t: T| rank_of(t)),
        decreases rev@.len(),
    {
        let x = rev.pop().unwrap();
        proof {
            assert(rev@.push(x).reverse() =~= seq![x] + rev@.reverse());
        }
        let mut p: usize = 0;
        while p < out.len() && !x.ranks_before(&out[p])
            invariant
                p <= out@.len(),
                forall|j: int| 0 <= j < p ==> !key_lt(key(x), key(#[trigger] out@[j])),
                key == (|t: T| rank_of(t)),
            decreases out@.len() - p,
        {
            p = p + 1;
        }
        proof {
            lemma_insert_by_key_at(out@, x, key, p as int);
            let nd = done.push(x);
            assert(nd.drop_last() =~= done);
            assert(orig =~= nd + rev@.reverse());
            done = nd;
        }
        out.insert(p, x);
    }
    assert(done + rev@.reverse() =~= done);
    out
}


/// Sequences with the same elements contain the same values.
pub proof fn lemma_multiset_contains<V>(a: Seq<V>, b: Seq<V>, x: V)
    requires
        a.to_multiset() == b.to_multiset(),
        a.contains(x),
    ensures
        b.contains(x),
{
    broadcast use vstd::seq_lib::group_to_multiset_ensures;

    assert(a.to_multiset().count(x) > 0);
}

/// In a sequence without repeats, each element occurs once.
pub proof fn lemma_distinct_count<V>(s: Seq<V>, i: int)
    requires
        0 <= i < s.len(),
        forall|a: int, b: int| 0 <= a < b < s.len() ==> s[a] != s[b],
    ensures
        s.to_multiset().count(s[i]) == 1,
    decreases s.len(),
{
    broadcast use vstd::seq_lib::group_to_multiset_ensures;

    let x = s[i];
    let t = s.drop_last();
    assert(s =~= t.push(s.last()));
    if i == s.len() - 1 {
        assert(!t.contains(x)) by {
            if t.contains(x) {
                let k = choose|k: int| 0 <= k < t.len() && t[k] == x;
                assert(s[k] == t[k]);
            }
        }
        assert(t.to_multiset().count(x) == 0);
    } else {
        assert forall|a: int, b: int| 0 <= a < b < t.len() implies t[a] != t[b] by {
            assert(t[a] == s[a]);
            assert(t[b] == s[b]);
        }
        assert(t[i] == x);
        lemma_distinct_count(t, i);
        assert(s.last() != x);
    }
}

/// A value at two positions occurs at least twice.
pub proof fn lemma_count_two<V>(s: Seq<V>, i: int, j: int)
    requires
        0 <= i < j < s.len(),
        s[i] == s[j],
    ensures
        s.to_multiset().count(s[i]) >= 2,
    decreases s.len(),
{
    broadcast use vstd::seq_lib::group_to_multiset_ensures;

    let t = s.drop_last();
    assert(s =~= t.push(s.last()));
    if j == s.len() - 1 {
        assert(t[i] == s[i]);
        assert(t.contains(s[i]));
        assert(t.to_multiset().count(s[i]) >= 1);
    } else {
        assert(t[i] == s[i]);
        assert(t[j] == s[j]);
        lemma_count_two(t, i, j);
    }
}
} // verus!
