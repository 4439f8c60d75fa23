use vstd::prelude::*;
use crate::node::Key;

verus! {

pub open spec fn rank_lt<K: Key, V>(r: int) -> spec_fn((K, V)) -> bool {
    |e: (K, V)| e.0.rank() < r
}

pub open spec fn rank_gt<K: Key, V>(r: int) -> spec_fn((K, V)) -> bool {
    |e: (K, V)| e.0.rank() > r
}

pub open spec fn rank_eq<K: Key, V>(r: int) -> spec_fn((K, V)) -> bool {
    |e: (K, V)| e.0.rank() == r
}

pub open spec fn rank_ne<K: Key, V>(r: int) -> spec_fn((K, V)) -> bool {
    |e: (K, V)| e.0.rank() != r
}

pub open spec fn rank_between<K: Key, V>(a: int, b: int) -> spec_fn((K, V)) -> bool {
    |e: (K, V)| a <= e.0.rank() && e.0.rank() <= b
}

/// The entries with `(k, v)` put in place of any entry of the same key.
pub open spec fn upsert<K: Key, V>(s: Seq<(K, V)>, k: K, v: V) -> Seq<(K, V)> {
    s.filter(rank_lt(k.rank())) + seq![(k, v)] + s.filter(rank_gt(k.rank()))
}

/// The entries without the one whose key has rank `r`.
pub open spec fn erase<K: Key, V>(s: Seq<(K, V)>, r: int) -> Seq<(K, V)> {
    s.filter(rank_ne(r))
}

/// The record stored under the key of rank `r`, if any.
pub open spec fn lookup<K: Key, V>(s: Seq<(K, V)>, r: int) -> Option<V> {
    let f = s.filter(rank_eq(r));
    if f.len() > 0 {
        Some(f[0].1)
    } else {
        None
    }
}

/// The entries whose keys lie between ranks `a` and `b`, both included.
pub open spec fn in_range<K: Key, V>(s: Seq<(K, V)>, a: int, b: int) -> Seq<(K, V)> {
    s.filter(rank_between(a, b))
}

pub open spec fn records_of<K, V>(s: Seq<(K, V)>) -> Seq<V> {
    s.map_values(|e: (K, V)| e.1)
}

pub open spec fn derefs<V>(s: Seq<&V>) -> Seq<V> {
    s.map_values(|r: &V| *r)
}

pub proof fn lemma_filter_all<A>(s: Seq<A>, p: spec_fn(A) -> bool)
    requires
        forall|i: int| 0 <= i < s.len() ==> p(#[trigger] s[i]),
    ensures
        s.filter(p) == s,
    decreases s.len(),
{
    reveal(Seq::filter);
    if s.len() > 0 {
        lemma_filter_all(s.drop_last(), p);
        assert(s.drop_last().push(s.last()) =~= s);
    }
}

pub proof fn lemma_filter_none<A>(s: Seq<A>, p: spec_fn(A) -> bool)
    requires
        forall|i: int| 0 <= i < s.len() ==> !p(#[trigger] s[i]),
    ensures
        s.filter(p) == Seq::<A>::empty(),
    decreases s.len(),
{
    reveal(Seq::filter);
    if s.len() > 0 {
        lemma_filter_none(s.drop_last(), p);
    } else {
        assert(s =~= Seq::<A>::empty());
    }
}

pub proof fn lemma_filter_single<A>(x: A, p: spec_fn(A) -> bool)
    ensures
        seq![x].filter(p) == if p(x) {
            seq![x]
        } else {
            Seq::<A>::empty()
        },
{
    reveal(Seq::filter);
    assert(seq![x].drop_last() =~= Seq::<A>::empty());
    assert(Seq::<A>::empty().filter(p) =~= Seq::<A>::empty());
    assert(Seq::<A>::empty().push(x) =~= seq![x]);
}

/// Entries strictly to the left and right of the key of rank `r` pass
/// through every key-wise operation on `r` unchanged.
pub proof fn lemma_frame<K: Key, V>(a: Seq<(K, V)>, c: Seq<(K, V)>, b: Seq<(K, V)>, r: int)
    requires
        forall|i: int| 0 <= i < a.len() ==> #[trigger] a[i].0.rank() < r,
        forall|i: int| 0 <= i < b.len() ==> #[trigger] b[i].0.rank() > r,
    ensures
        (a + c + b).filter(rank_eq(r)) == c.filter(rank_eq(r)),
        (a + c + b).filter(rank_ne(r)) == a + c.filter(rank_ne(r)) + b,
        (a + c + b).filter(rank_lt(r)) == a + c.filter(rank_lt(r)),
        (a + c + b).filter(rank_gt(r)) == c.filter(rank_gt(r)) + b,
{
    lemma_filter_none(a, rank_eq::<K, V>(r));
    lemma_filter_none(b, rank_eq::<K, V>(r));
    lemma_filter_all(a, rank_ne::<K, V>(r));
    lemma_filter_all(b, rank_ne::<K, V>(r));
    lemma_filter_all(a, rank_lt::<K, V>(r));
    lemma_filter_none(b, rank_lt::<K, V>(r));
    lemma_filter_none(a, rank_gt::<K, V>(r));
    lemma_filter_all(b, rank_gt::<K, V>(r));
    let ps = seq![rank_eq::<K, V>(r), rank_ne::<K, V>(r), rank_lt::<K, V>(r), rank_gt::<K, V>(r)];
    assert forall|j: int| 0 <= j < 4 implies (a + c + b).filter(#[trigger] ps[j]) == a.filter(ps[j])
        + c.filter(ps[j]) + b.filter(ps[j]) by {
        Seq::filter_distributes_over_add(a + c, b, ps[j]);
        Seq::filter_distributes_over_add(a, c, ps[j]);
    }
    assert(ps[0] == rank_eq::<K, V>(r));
    assert(ps[1] == rank_ne::<K, V>(r));
    assert(ps[2] == rank_lt::<K, V>(r));
    assert(ps[3] == rank_gt::<K, V>(r));
    assert(Seq::<(K, V)>::empty() + c.filter(rank_eq(r)) + Seq::<(K, V)>::empty() =~= c.filter(
        rank_eq(r),
    ));
    assert(a + c.filter(rank_lt(r)) + Seq::<(K, V)>::empty() =~= a + c.filter(rank_lt(r)));
    assert(a + c.filter(rank_ne(r)) + b =~= a + c.filter(rank_ne(r)) + b);
    assert(Seq::<(K, V)>::empty() + c.filter(rank_gt(r)) + b =~= c.filter(rank_gt(r)) + b);
}

/// Upserting the key of rank `r` only touches the middle part.
pub proof fn lemma_upsert_frame<K: Key, V>(a: Seq<(K, V)>, c: Seq<(K, V)>, b: Seq<(K, V)>, k: K, v: V)
    requires
        forall|i: int| 0 <= i < a.len() ==> #[trigger] a[i].0.rank() < k.rank(),
        forall|i: int| 0 <= i < b.len() ==> #[trigger] b[i].0.rank() > k.rank(),
    ensures
        upsert(a + c + b, k, v) == a + upsert(c, k, v) + b,
{
    let r = k.rank();
    lemma_frame(a, c, b, r);
    let l = c.filter(rank_lt::<K, V>(r));
    let g = c.filter(rank_gt::<K, V>(r));
    let m = seq![(k, v)];
    assert((a + l) + m + (g + b) =~= a + (l + m + g) + b);
}

/// Facts about one entry of rank `r`, or none.
pub proof fn lemma_key_ops_small<K: Key, V>(x: (K, V), k: K, v: V)
    ensures
        x.0.rank() == k.rank() ==> upsert(seq![x], k, v) == seq![(k, v)],
        x.0.rank() == k.rank() ==> erase(seq![x], k.rank()) == Seq::<(K, V)>::empty(),
        x.0.rank() == k.rank() ==> seq![x].filter(rank_eq(k.rank())) == seq![x],
        upsert(Seq::<(K, V)>::empty(), k, v) == seq![(k, v)],
        erase(Seq::<(K, V)>::empty(), k.rank()) == Seq::<(K, V)>::empty(),
        Seq::<(K, V)>::empty().filter(rank_eq(k.rank())) == Seq::<(K, V)>::empty(),
{
    let r = k.rank();
    lemma_filter_single(x, rank_lt::<K, V>(r));
    lemma_filter_single(x, rank_gt::<K, V>(r));
    lemma_filter_single(x, rank_ne::<K, V>(r));
    lemma_filter_single(x, rank_eq::<K, V>(r));
    let e = Seq::<(K, V)>::empty();
    lemma_filter_none(e, rank_lt::<K, V>(r));
    lemma_filter_none(e, rank_gt::<K, V>(r));
    lemma_filter_none(e, rank_ne::<K, V>(r));
    lemma_filter_none(e, rank_eq::<K, V>(r));
    assert(e + seq![(k, v)] + e =~= seq![(k, v)]);
}

/// A sorted sequence seen from position `i`: smaller keys before, larger after.
pub proof fn lemma_sorted_split<K: Key, V>(s: Seq<(K, V)>, i: int)
    requires
        crate::node::entries_sorted(s),
        0 <= i < s.len(),
    ensures
        s == s.take(i) + seq![s[i]] + s.skip(i + 1),
        forall|t: int| 0 <= t < s.take(i).len() ==> #[trigger] s.take(i)[t].0.rank() < s[i].0.rank(),
        forall|t: int|
            0 <= t < s.skip(i + 1).len() ==> #[trigger] s.skip(i + 1)[t].0.rank() > s[i].0.rank(),
{
    assert(s =~= s.take(i) + seq![s[i]] + s.skip(i + 1));
    assert forall|t: int| 0 <= t < s.skip(i + 1).len() implies #[trigger] s.skip(i + 1)[t].0.rank()
        > s[i].0.rank() by {
        assert(s.skip(i + 1)[t] == s[i + 1 + t]);
    }
}

/// A sorted sequence cut at `p`, with rank `r` falling between the two parts.
pub proof fn lemma_sorted_gap<K: Key, V>(s: Seq<(K, V)>, p: int, r: int)
    requires
        crate::node::entries_sorted(s),
        0 <= p <= s.len(),
        p > 0 ==> s[p - 1].0.rank() < r,
        p < s.len() ==> s[p].0.rank() > r,
    ensures
        s == s.take(p) + Seq::<(K, V)>::empty() + s.skip(p),
        forall|t: int| 0 <= t < s.take(p).len() ==> #[trigger] s.take(p)[t].0.rank() < r,
        forall|t: int| 0 <= t < s.skip(p).len() ==> #[trigger] s.skip(p)[t].0.rank() > r,
{
    assert(s =~= s.take(p) + Seq::<(K, V)>::empty() + s.skip(p));
    assert forall|t: int| 0 <= t < s.take(p).len() implies #[trigger] s.take(p)[t].0.rank() < r by {
        if t < p - 1 {
            assert(s[t].0.rank() < s[p - 1].0.rank());
        }
    }
    assert forall|t: int| 0 <= t < s.skip(p).len() implies #[trigger] s.skip(p)[t].0.rank() > r by {
        assert(s.skip(p)[t] == s[p + t]);
        if t > 0 {
            assert(s[p].0.rank() < s[p + t].0.rank());
        }
    }
}

} // verus!
