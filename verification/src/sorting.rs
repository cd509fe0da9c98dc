//! Sorting of names and of keyed records in `String` order, and removal of
//! neighbouring duplicates.
use vstd::prelude::*;
use crate::text::{chars_lt, chars_of, lemma_lex_le_total, lemma_lex_le_trans, lex_le, lex_lt, same_chars, views};

verus! {

broadcast use vstd::seq_lib::group_to_multiset_ensures;

// ---------------------------------------------------------------------------
// A stable sort by a text key
// ---------------------------------------------------------------------------

/// `x` put into `s` (sorted by `key`) after every entry whose key is not
/// greater than its own.
pub open spec fn sorted_insert<A>(s: Seq<A>, x: A, key: spec_fn(A) -> Seq<char>) -> Seq<A>
    decreases s.len(),
{
    if s.len() == 0 {
        seq![x]
    } else if lex_lt(key(x), key(s[0])) {
        seq![x] + s
    } else {
        seq![s[0]] + sorted_insert(s.drop_first(), x, key)
    }
}

/// The entries of `s` ordered by `key` in `String` order, entries with equal
/// keys keeping their order: what a stable sort (`sort`, `sort_by`) gives.
pub open spec fn sort_by_key<A>(s: Seq<A>, key: spec_fn(A) -> Seq<char>) -> Seq<A>
    decreases s.len(),
{
    if s.len() == 0 {
        s
    } else {
        sorted_insert(sort_by_key(s.drop_last(), key), s.last(), key)
    }
}

/// The keys of the entries of `s` are in `String` order.
pub open spec fn sorted_by_key<A>(s: Seq<A>, key: spec_fn(A) -> Seq<char>) -> bool {
    forall|i: int, j: int| 0 <= i < j < s.len() ==> lex_le(key(#[trigger] s[i]), key(#[trigger] s[j]))
}

/// A text is its own key.
pub open spec fn text_key() -> spec_fn(Seq<char>) -> Seq<char> {
    |t: Seq<char>| t
}

/// A keyed pair is ordered by its character key.
pub open spec fn pair_key<T>() -> spec_fn((Vec<char>, T)) -> Seq<char> {
    |p: (Vec<char>, T)| p.0@
}

/// Every text of `s` comes before, or equals, every later one.
pub open spec fn lex_sorted(s: Seq<Seq<char>>) -> bool {
    forall|i: int, j: int| 0 <= i < j < s.len() ==> lex_le(#[trigger] s[i], #[trigger] s[j])
}

/// The texts of `s` in `String` order.
pub open spec fn sort_texts_spec(s: Seq<Seq<char>>) -> Seq<Seq<char>> {
    sort_by_key(s, text_key())
}

proof fn lemma_sorted_insert_at<A>(s: Seq<A>, x: A, key: spec_fn(A) -> Seq<char>, p: int)
    requires
        0 <= p <= s.len(),
        forall|j: int| 0 <= j < p ==> !lex_lt(key(x), key(#[trigger] s[j])),
        p == s.len() || lex_lt(key(x), key(s[p])),
    ensures
        sorted_insert(s, x, key) == s.insert(p, x),
    decreases p,
{
    if s.len() == 0 {
        assert(s.insert(p, x) =~= seq![x]);
    } else if p == 0 {
        assert(s.insert(0, x) =~= seq![x] + s);
    } else {
        assert(!lex_lt(key(x), key(s[0])));
        let t = s.drop_first();
        assert forall|j: int| 0 <= j < p - 1 implies !lex_lt(key(x), key(#[trigger] t[j])) by {
            assert(t[j] == s[j + 1]);
        }
        lemma_sorted_insert_at(t, x, key, p - 1);
        assert(s.insert(p, x) =~= seq![s[0]] + t.insert(p - 1, x));
    }
}

proof fn lemma_sorted_insert_index<A>(s: Seq<A>, x: A, key: spec_fn(A) -> Seq<char>) -> (p: int)
    ensures
        0 <= p <= s.len(),
        sorted_insert(s, x, key) == s.insert(p, x),
    decreases s.len(),
{
    if s.len() == 0 {
        assert(s.insert(0, x) =~= seq![x]);
        0
    } else if lex_lt(key(x), key(s[0])) {
        assert(s.insert(0, x) =~= seq![x] + s);
        0
    } else {
        let q = lemma_sorted_insert_index(s.drop_first(), x, key);
        assert(s.insert(q + 1, x) =~= seq![s[0]] + s.drop_first().insert(q, x));
        q + 1
    }
}

proof fn lemma_sorted_insert_lower<A>(
    s: Seq<A>,
    x: A,
    key: spec_fn(A) -> Seq<char>,
    lo: Seq<char>,
)
    requires
        lex_le(lo, key(x)),
        forall|j: int| 0 <= j < s.len() ==> lex_le(lo, key(#[trigger] s[j])),
    ensures
        forall|j: int|
            0 <= j < sorted_insert(s, x, key).len() ==> lex_le(
                lo,
                key(#[trigger] sorted_insert(s, x, key)[j]),
            ),
{
    let p = lemma_sorted_insert_index(s, x, key);
    assert forall|j: int| 0 <= j < s.insert(p, x).len() implies lex_le(
        lo,
        key(#[trigger] s.insert(p, x)[j]),
    ) by {
        if j < p {
            assert(s.insert(p, x)[j] == s[j]);
        } else if j > p {
            assert(s.insert(p, x)[j] == s[j - 1]);
        }
    }
}

proof fn lemma_sorted_insert_sorted<A>(s: Seq<A>, x: A, key: spec_fn(A) -> Seq<char>)
    requires
        sorted_by_key(s, key),
    ensures
        sorted_by_key(sorted_insert(s, x, key), key),
    decreases s.len(),
{
    if s.len() == 0 {
    } else if lex_lt(key(x), key(s[0])) {
        let r = seq![x] + s;
        assert forall|i: int, j: int| 0 <= i < j < r.len() implies lex_le(
            key(#[trigger] r[i]),
            key(#[trigger] r[j]),
        ) by {
            if i == 0 {
                if j > 1 {
                    assert(lex_le(key(s[0]), key(s[j - 1])));
                    lemma_lex_le_trans(key(x), key(s[0]), key(s[j - 1]));
                }
            } else {
                assert(lex_le(key(s[i - 1]), key(s[j - 1])));
            }
        }
    } else {
        let t = s.drop_first();
        assert(sorted_by_key(t, key)) by {
            assert forall|i: int, j: int| 0 <= i < j < t.len() implies lex_le(
                key(#[trigger] t[i]),
                key(#[trigger] t[j]),
            ) by {
                assert(lex_le(key(s[i + 1]), key(s[j + 1])));
            }
        }
        lemma_sorted_insert_sorted(t, x, key);
        lemma_lex_le_total(key(x), key(s[0]));
        assert forall|j: int| 0 <= j < t.len() implies lex_le(key(s[0]), key(#[trigger] t[j])) by {
            assert(lex_le(key(s[0]), key(s[j + 1])));
        }
        lemma_sorted_insert_lower(t, x, key, key(s[0]));
        let u = sorted_insert(t, x, key);
        let r = seq![s[0]] + u;
        assert forall|i: int, j: int| 0 <= i < j < r.len() implies lex_le(
            key(#[trigger] r[i]),
            key(#[trigger] r[j]),
        ) by {
            if i == 0 {
                assert(r[j] == u[j - 1]);
            } else {
                assert(lex_le(key(u[i - 1]), key(u[j - 1])));
            }
        }
    }
}

/// A stable sort by key orders the entries by key.
pub proof fn lemma_sort_by_key_sorted<A>(s: Seq<A>, key: spec_fn(A) -> Seq<char>)
    ensures
        sorted_by_key(sort_by_key(s, key), key),
    decreases s.len(),
{
    if s.len() > 0 {
        lemma_sort_by_key_sorted(s.drop_last(), key);
        lemma_sorted_insert_sorted(sort_by_key(s.drop_last(), key), s.last(), key);
    }
}

/// A stable sort by key loses and adds no entry.
pub proof fn lemma_sort_by_key_permutes<A>(s: Seq<A>, key: spec_fn(A) -> Seq<char>)
    ensures
        sort_by_key(s, key).to_multiset() == s.to_multiset(),
        sort_by_key(s, key).len() == s.len(),
    decreases s.len(),
{
    if s.len() > 0 {
        lemma_sort_by_key_permutes(s.drop_last(), key);
        let p = lemma_sorted_insert_index(sort_by_key(s.drop_last(), key), s.last(), key);
        vstd::seq_lib::to_multiset_insert(sort_by_key(s.drop_last(), key), p, s.last());
        vstd::seq_lib::to_multiset_build(s.drop_last(), s.last());
        assert(s.drop_last().push(s.last()) =~= s);
    }
}

/// Sorted texts are in `String` order and are a permutation of the input.
pub proof fn lemma_sort_texts(s: Seq<Seq<char>>)
    ensures
        lex_sorted(sort_texts_spec(s)),
        sort_texts_spec(s).to_multiset() == s.to_multiset(),
        sort_texts_spec(s).len() == s.len(),
{
    lemma_sort_by_key_sorted(s, text_key());
    lemma_sort_by_key_permutes(s, text_key());
    let r = sort_texts_spec(s);
    assert forall|i: int, j: int| 0 <= i < j < r.len() implies lex_le(
        #[trigger] r[i],
        #[trigger] r[j],
    ) by {
        assert(lex_le(text_key()(r[i]), text_key()(r[j])));
    }
}

proof fn lemma_views_insert(s: Seq<String>, p: int, x: String)
    requires
        0 <= p <= s.len(),
    ensures
        views(s.insert(p, x)) == views(s).insert(p, x@),
{
    assert(views(s.insert(p, x)) =~= views(s).insert(p, x@));
}

/// The strings of `v`, ordered as `Vec::<String>::sort` orders them.
pub fn sort_texts(v: Vec<String>) -> (r: Vec<String>)
    ensures
        views(r@) == sort_texts_spec(views(v@)),
        lex_sorted(views(r@)),
        views(r@).to_multiset() == views(v@).to_multiset(),
        r.len() == v.len(),
{
    let ghost orig = v@;
    let ghost ov = views(orig);
    let mut rest = v;
    let mut out: Vec<String> = Vec::new();
    let n = rest.len();
    let mut i: usize = 0;
    assert(ov.take(0) =~= Seq::<Seq<char>>::empty());
    assert(views(out@) =~= Seq::<Seq<char>>::empty());
    while i < n
        invariant
            n == orig.len(),
            ov == views(orig),
            i <= n,
            rest@ == orig.skip(i as int),
            views(out@) == sort_by_key(ov.take(i as int), text_key()),
        decreases n - i,
    {
        assert(rest@[0] == orig[i as int]);
        let x = rest.remove(0);
        assert(rest@ =~= orig.skip(i + 1));
        let xk = chars_of(x.as_str());
        let mut p: usize = 0;
        while p < out.len() && !chars_lt(&xk, &chars_of(out[p].as_str()))
            invariant
                p <= out.len(),
                xk@ == x@,
                forall|j: int| 0 <= j < p ==> !lex_lt(x@, #[trigger] out@[j]@),
            decreases out.len() - p,
        {
            p = p + 1;
        }
        let ghost before = views(out@);
        proof {
            assert forall|j: int| 0 <= j < p implies !lex_lt(
                text_key()(x@),
                text_key()(#[trigger] before[j]),
            ) by {
                assert(before[j] == out@[j]@);
            }
            if p < out.len() {
                assert(before[p as int] == out@[p as int]@);
            }
            lemma_sorted_insert_at(before, x@, text_key(), p as int);
            lemma_views_insert(out@, p as int, x);
            assert(ov.take(i + 1).drop_last() =~= ov.take(i as int));
            assert(ov[i as int] == x@);
        }
        out.insert(p, x);
        i = i + 1;
    }
    assert(ov.take(n as int) =~= ov);
    proof {
        lemma_sort_texts(ov);
    }
    out
}

/// `v` stably sorted by the character keys it carries.
pub fn sort_keyed<T>(v: Vec<(Vec<char>, T)>) -> (r: Vec<(Vec<char>, T)>)
    ensures
        r@ == sort_by_key(v@, pair_key()),
{
    let ghost orig = v@;
    let mut rest = v;
    let mut out: Vec<(Vec<char>, T)> = Vec::new();
    let n = rest.len();
    let mut i: usize = 0;
    assert(orig.take(0) =~= Seq::<(Vec<char>, T)>::empty());
    while i < n
        invariant
            n == orig.len(),
            i <= n,
            rest@ == orig.skip(i as int),
            out@ == sort_by_key(orig.take(i as int), pair_key()),
        decreases n - i,
    {
        assert(rest@[0] == orig[i as int]);
        let x = rest.remove(0);
        assert(rest@ =~= orig.skip(i + 1));
        let mut p: usize = 0;
        while p < out.len() && !chars_lt(&x.0, &out[p].0)
            invariant
                p <= out.len(),
                forall|j: int| 0 <= j < p ==> !lex_lt(x.0@, #[trigger] out@[j].0@),
            decreases out.len() - p,
        {
            p = p + 1;
        }
        proof {
            let k = pair_key::<T>();
            assert forall|j: int| 0 <= j < p implies !lex_lt(k(x), k(#[trigger] out@[j])) by {
                assert(!lex_lt(x.0@, out@[j].0@));
            }
            lemma_sorted_insert_at(out@, x, k, p as int);
            assert(orig.take(i + 1).drop_last() =~= orig.take(i as int));
        }
        out.insert(p, x);
        i = i + 1;
    }
    assert(orig.take(n as int) =~= orig);
    out
}

proof fn lemma_sorted_insert_map<A, B>(
    s: Seq<A>,
    x: A,
    k1: spec_fn(A) -> Seq<char>,
    f: spec_fn(A) -> B,
    k2: spec_fn(B) -> Seq<char>,
)
    requires
        forall|j: int| 0 <= j < s.len() ==> k2(f(#[trigger] s[j])) == k1(s[j]),
        k2(f(x)) == k1(x),
    ensures
        sorted_insert(s, x, k1).map_values(f) == sorted_insert(s.map_values(f), f(x), k2),
    decreases s.len(),
{
    if s.len() == 0 {
        assert(sorted_insert(s, x, k1).map_values(f) =~= seq![f(x)]);
    } else {
        assert(s.map_values(f)[0] == f(s[0]));
        assert(k2(f(s[0])) == k1(s[0]));
        if lex_lt(k1(x), k1(s[0])) {
            assert((seq![x] + s).map_values(f) =~= seq![f(x)] + s.map_values(f));
        } else {
            let t = s.drop_first();
            assert forall|j: int| 0 <= j < t.len() implies k2(f(#[trigger] t[j])) == k1(t[j]) by {
                assert(t[j] == s[j + 1]);
            }
            lemma_sorted_insert_map(t, x, k1, f, k2);
            assert(t.map_values(f) =~= s.map_values(f).drop_first());
            assert((seq![s[0]] + sorted_insert(t, x, k1)).map_values(f) =~= seq![f(s[0])]
                + sorted_insert(t, x, k1).map_values(f));
        }
    }
}

/// Sorting by key commutes with a mapping that keeps the keys of the entries.
pub proof fn lemma_sort_by_key_map<A, B>(
    s: Seq<A>,
    k1: spec_fn(A) -> Seq<char>,
    f: spec_fn(A) -> B,
    k2: spec_fn(B) -> Seq<char>,
)
    requires
        forall|j: int| 0 <= j < s.len() ==> k2(f(#[trigger] s[j])) == k1(s[j]),
    ensures
        sort_by_key(s, k1).map_values(f) == sort_by_key(s.map_values(f), k2),
    decreases s.len(),
{
    if s.len() == 0 {
        assert(s.map_values(f) =~= Seq::<B>::empty());
    } else {
        let t = s.drop_last();
        assert forall|j: int| 0 <= j < t.len() implies k2(f(#[trigger] t[j])) == k1(t[j]) by {
            assert(t[j] == s[j]);
        }
        lemma_sort_by_key_map(t, k1, f, k2);
        assert(s.map_values(f).drop_last() =~= t.map_values(f));
        let st = sort_by_key(t, k1);
        lemma_sort_by_key_permutes(t, k1);
        assert forall|j: int| 0 <= j < st.len() implies k2(f(#[trigger] st[j])) == k1(st[j]) by {
            assert(st.to_multiset().count(st[j]) > 0);
            assert(t.to_multiset().count(st[j]) > 0);
            assert(t.contains(st[j]));
            let k = choose|k: int| 0 <= k < t.len() && t[k] == st[j];
            assert(k2(f(t[k])) == k1(t[k]));
        }
        assert(k2(f(s.last())) == k1(s.last()));
        lemma_sorted_insert_map(st, s.last(), k1, f, k2);
    }
}

} // verus!
