use vstd::prelude::*;
use crate::contents::{
    erase, in_range, lemma_filter_all, lemma_filter_none, lemma_filter_single, lookup, rank_between, rank_eq, rank_gt,
    rank_lt, rank_ne, records_of, upsert,
};
use crate::bptree::BPTree;
use crate::node::{entries_sorted, Key, Record};

verus! {

/// Filtering twice is filtering once by both predicates.
pub proof fn lemma_filter_filter<A>(s: Seq<A>, p: spec_fn(A) -> bool, q: spec_fn(A) -> bool, pq: spec_fn(A) -> bool)
    requires
        forall|x: A| #[trigger] pq(x) == (p(x) && q(x)),
    ensures
        s.filter(p).filter(q) == s.filter(pq),
    decreases s.len(),
{
    reveal(Seq::filter);
    if s.len() > 0 {
        lemma_filter_filter(s.drop_last(), p, q, pq);
        let x = s.last();
        if p(x) {
            s.drop_last().filter(p).lemma_filter_push(x, q);
        }
    }
}

/// The position in a sorted sequence where ranks stop being below `r`.
proof fn lemma_split_point<K: Key, V>(s: Seq<(K, V)>, r: int) -> (p: int)
    requires
        entries_sorted(s),
    ensures
        0 <= p <= s.len(),
        forall|i: int| 0 <= i < p ==> #[trigger] s[i].0.rank() < r,
        forall|i: int| p <= i < s.len() ==> #[trigger] s[i].0.rank() >= r,
    decreases s.len(),
{
    if s.len() == 0 {
        0
    } else if s[s.len() - 1].0.rank() < r {
        assert forall|i: int| 0 <= i < s.len() implies #[trigger] s[i].0.rank() < r by {
            if i < s.len() - 1 {
                assert(s[i].0.rank() < s[s.len() - 1].0.rank());
            }
        }
        s.len() as int
    } else {
        let t = s.drop_last();
        assert forall|i: int, j: int| 0 <= i < j < t.len() implies t[i].0.rank() < t[j].0.rank() by {
            assert(t[i] == s[i]);
            assert(t[j] == s[j]);
        }
        let p = lemma_split_point(t, r);
        assert forall|i: int| 0 <= i < p implies #[trigger] s[i].0.rank() < r by {
            assert(t[i] == s[i]);
        }
        assert forall|i: int| p <= i < s.len() implies #[trigger] s[i].0.rank() >= r by {
            if i < s.len() - 1 {
                assert(t[i] == s[i]);
            }
        }
        p
    }
}

/// A sorted sequence without an entry of rank `r` is its entries below `r`
/// followed by those above.
proof fn lemma_sorted_parts<K: Key, V>(s: Seq<(K, V)>, r: int)
    requires
        entries_sorted(s),
        forall|i: int| 0 <= i < s.len() ==> #[trigger] s[i].0.rank() != r,
    ensures
        s.filter(rank_lt(r)) + s.filter(rank_gt(r)) == s,
{
    let p = lemma_split_point(s, r);
    let a = s.take(p);
    let b = s.skip(p);
    assert forall|i: int| 0 <= i < b.len() implies #[trigger] b[i].0.rank() > r by {
        assert(b[i] == s[p + i]);
    }
    assert(s =~= a + Seq::<(K, V)>::empty() + b);
    crate::contents::lemma_frame(a, Seq::<(K, V)>::empty(), b, r);
    lemma_filter_none(Seq::<(K, V)>::empty(), rank_lt::<K, V>(r));
    lemma_filter_none(Seq::<(K, V)>::empty(), rank_gt::<K, V>(r));
    assert(a + Seq::<(K, V)>::empty() + (Seq::<(K, V)>::empty() + b) =~= s);
}

/// Looking up a key after inserting it gives the inserted record.
pub proof fn law_lookup_after_insert<K: Key, V>(s: Seq<(K, V)>, k: K, v: V)
    ensures
        lookup(upsert(s, k, v), k.rank()) == Some(v),
{
    let r = k.rank();
    let a = s.filter(rank_lt::<K, V>(r));
    let b = s.filter(rank_gt::<K, V>(r));
    Seq::filter_distributes_over_add(a + seq![(k, v)], b, rank_eq::<K, V>(r));
    Seq::filter_distributes_over_add(a, seq![(k, v)], rank_eq::<K, V>(r));
    lemma_filter_filter(s, rank_lt::<K, V>(r), rank_eq::<K, V>(r), |e: (K, V)| false);
    lemma_filter_filter(s, rank_gt::<K, V>(r), rank_eq::<K, V>(r), |e: (K, V)| false);
    lemma_filter_none(s, |e: (K, V)| false);
    lemma_filter_single((k, v), rank_eq::<K, V>(r));
    assert(Seq::<(K, V)>::empty() + seq![(k, v)] + Seq::<(K, V)>::empty() =~= seq![(k, v)]);
}

/// Inserting a key leaves the lookups of all other keys unchanged.
pub proof fn law_insert_keeps_other_keys<K: Key, V>(s: Seq<(K, V)>, k: K, v: V, r: int)
    requires
        r != k.rank(),
    ensures
        lookup(upsert(s, k, v), r) == lookup(s, r),
{
    let kr = k.rank();
    let a = s.filter(rank_lt::<K, V>(kr));
    let b = s.filter(rank_gt::<K, V>(kr));
    Seq::filter_distributes_over_add(a + seq![(k, v)], b, rank_eq::<K, V>(r));
    Seq::filter_distributes_over_add(a, seq![(k, v)], rank_eq::<K, V>(r));
    lemma_filter_single((k, v), rank_eq::<K, V>(r));
    if r < kr {
        lemma_filter_filter(s, rank_lt::<K, V>(kr), rank_eq::<K, V>(r), rank_eq::<K, V>(r));
        lemma_filter_filter(s, rank_gt::<K, V>(kr), rank_eq::<K, V>(r), |e: (K, V)| false);
        lemma_filter_none(s, |e: (K, V)| false);
        assert(s.filter(rank_eq(r)) + Seq::<(K, V)>::empty() + Seq::<(K, V)>::empty() =~= s.filter(
            rank_eq(r),
        ));
    } else {
        lemma_filter_filter(s, rank_lt::<K, V>(kr), rank_eq::<K, V>(r), |e: (K, V)| false);
        lemma_filter_filter(s, rank_gt::<K, V>(kr), rank_eq::<K, V>(r), rank_eq::<K, V>(r));
        lemma_filter_none(s, |e: (K, V)| false);
        assert(Seq::<(K, V)>::empty() + Seq::<(K, V)>::empty() + s.filter(rank_eq(r)) =~= s.filter(
            rank_eq(r),
        ));
    }
}

/// A removed key is no longer found.
pub proof fn law_lookup_after_remove<K: Key, V>(s: Seq<(K, V)>, r: int)
    ensures
        lookup(erase(s, r), r) is None,
{
    lemma_filter_filter(s, rank_ne::<K, V>(r), rank_eq::<K, V>(r), |e: (K, V)| false);
    lemma_filter_none(s, |e: (K, V)| false);
}

/// Removing a key leaves the lookups of all other keys unchanged.
pub proof fn law_remove_keeps_other_keys<K: Key, V>(s: Seq<(K, V)>, r: int, r2: int)
    requires
        r2 != r,
    ensures
        lookup(erase(s, r), r2) == lookup(s, r2),
{
    lemma_filter_filter(s, rank_ne::<K, V>(r), rank_eq::<K, V>(r2), rank_eq::<K, V>(r2));
}

/// Removing a key that is not there changes nothing.
pub proof fn law_remove_absent<K: Key, V>(s: Seq<(K, V)>, r: int)
    requires
        lookup(s, r) is None,
    ensures
        erase(s, r) == s,
{
    assert forall|i: int| 0 <= i < s.len() implies (#[trigger] rank_ne::<K, V>(r))(s[i]) by {
        if s[i].0.rank() == r {
            s.lemma_filter_contains(rank_eq::<K, V>(r), i);
        }
    }
    lemma_filter_all(s, rank_ne::<K, V>(r));
}

proof fn lemma_absent_parts<K: Key, V>(s: Seq<(K, V)>, r: int)
    requires
        entries_sorted(s),
        lookup(s, r) is None,
    ensures
        s.filter(rank_lt(r)) + s.filter(rank_gt(r)) == s,
{
    assert forall|i: int| 0 <= i < s.len() implies #[trigger] s[i].0.rank() != r by {
        if s[i].0.rank() == r {
            s.lemma_filter_contains(rank_eq::<K, V>(r), i);
        }
    }
    lemma_sorted_parts(s, r);
}

/// Removing a key just inserted into a tree that lacked it gives back the
/// entries the tree held.
pub proof fn law_remove_undoes_insert<const FANOUT: usize, K: Key, V: Record>(t: BPTree<FANOUT, K, V>, k: K, v: V)
    requires
        t.wf(),
        lookup(t@, k.rank()) is None,
    ensures
        erase(upsert(t@, k, v), k.rank()) == t@,
{
    let s = t@;
    let r = k.rank();
    let a = s.filter(rank_lt::<K, V>(r));
    let b = s.filter(rank_gt::<K, V>(r));
    let ne = rank_ne::<K, V>(r);
    assert((a + seq![(k, v)] + b).filter(ne) == a.filter(ne) + seq![(k, v)].filter(ne) + b.filter(ne)) by {
        Seq::filter_distributes_over_add(a + seq![(k, v)], b, ne);
        Seq::filter_distributes_over_add(a, seq![(k, v)], ne);
    }
    assert(a.filter(ne) == a) by {
        lemma_filter_filter(s, rank_lt::<K, V>(r), ne, rank_lt::<K, V>(r));
    }
    assert(b.filter(ne) == b) by {
        lemma_filter_filter(s, rank_gt::<K, V>(r), ne, rank_gt::<K, V>(r));
    }
    assert(seq![(k, v)].filter(ne) == Seq::<(K, V)>::empty()) by {
        lemma_filter_single((k, v), ne);
    }
    assert(a + Seq::<(K, V)>::empty() + b =~= a + b);
    assert(erase(upsert(s, k, v), r) == a + b);
    assert(erase(upsert(s, k, v), r) == s) by {
        t.lemma_view_sorted();
        lemma_absent_parts(s, r);
    }
}

/// Inserting keeps the entries sorted, with one entry per key.
pub proof fn law_insert_keeps_sorted<K: Key, V>(s: Seq<(K, V)>, k: K, v: V)
    requires
        entries_sorted(s),
    ensures
        entries_sorted(upsert(s, k, v)),
{
    let r = k.rank();
    let a = s.filter(rank_lt::<K, V>(r));
    let b = s.filter(rank_gt::<K, V>(r));
    lemma_filter_sorted(s, rank_lt::<K, V>(r));
    lemma_filter_sorted(s, rank_gt::<K, V>(r));
    let u = upsert(s, k, v);
    assert forall|i: int, j: int| 0 <= i < j < u.len() implies u[i].0.rank() < u[j].0.rank() by {
        let al = a.len() as int;
        if j < al {
        } else if i > al {
            assert(u[i] == b[i - al - 1]);
            assert(u[j] == b[j - al - 1]);
        } else if i == al {
            assert(u[i] == (k, v));
            assert(u[j] == b[j - al - 1]);
            s.lemma_filter_pred(rank_gt::<K, V>(r), j - al - 1);
        } else if j == al {
            s.lemma_filter_pred(rank_lt::<K, V>(r), i);
        } else {
            assert(u[j] == b[j - al - 1]);
            s.lemma_filter_pred(rank_lt::<K, V>(r), i);
            s.lemma_filter_pred(rank_gt::<K, V>(r), j - al - 1);
        }
    }
}

/// Removing keeps the entries sorted.
pub proof fn law_remove_keeps_sorted<K: Key, V>(s: Seq<(K, V)>, r: int)
    requires
        entries_sorted(s),
    ensures
        entries_sorted(erase(s, r)),
{
    lemma_filter_sorted(s, rank_ne::<K, V>(r));
}

/// A range query holds exactly the entries whose keys lie in the range, in
/// key order: its lookups agree with the whole inside the range and find
/// nothing outside it.
pub proof fn law_range_is_exact<K: Key, V>(s: Seq<(K, V)>, a: int, b: int, r: int)
    requires
        entries_sorted(s),
    ensures
        entries_sorted(in_range(s, a, b)),
        a <= r <= b ==> lookup(in_range(s, a, b), r) == lookup(s, r),
        !(a <= r <= b) ==> lookup(in_range(s, a, b), r) is None,
{
    lemma_filter_sorted(s, rank_between::<K, V>(a, b));
    if a <= r <= b {
        lemma_filter_filter(s, rank_between::<K, V>(a, b), rank_eq::<K, V>(r), rank_eq::<K, V>(r));
    } else {
        lemma_filter_filter(s, rank_between::<K, V>(a, b), rank_eq::<K, V>(r), |e: (K, V)| false);
        lemma_filter_none(s, |e: (K, V)| false);
    }
}

/// Filtering a sorted sequence keeps it sorted.
pub proof fn lemma_filter_sorted<K: Key, V>(s: Seq<(K, V)>, p: spec_fn((K, V)) -> bool)
    requires
        entries_sorted(s),
    ensures
        entries_sorted(s.filter(p)),
        forall|i: int| 0 <= i < s.filter(p).len() ==> s.contains(#[trigger] s.filter(p)[i]),
    decreases s.len(),
{
    reveal(Seq::filter);
    if s.len() > 0 {
        let t = s.drop_last();
        assert(entries_sorted(t));
        lemma_filter_sorted(t, p);
        let f = t.filter(p);
        if p(s.last()) {
            assert forall|i: int, j: int| 0 <= i < j < f.push(s.last()).len() implies f.push(s.last())[i].0.rank()
                < f.push(s.last())[j].0.rank() by {
                if j == f.len() {
                    assert(t.contains(f[i]));
                    let w = choose|w: int| 0 <= w < t.len() && t[w] == f[i];
                    assert(s[w] == f[i]);
                }
            }
            assert forall|i: int| 0 <= i < f.push(s.last()).len() implies s.contains(
                #[trigger] f.push(s.last())[i],
            ) by {
                if i < f.len() {
                    let w = choose|w: int| 0 <= w < t.len() && t[w] == f[i];
                    assert(s[w] == f[i]);
                } else {
                    assert(s[s.len() - 1] == s.last());
                }
            }
        } else {
            assert forall|i: int| 0 <= i < f.len() implies s.contains(#[trigger] f[i]) by {
                let w = choose|w: int| 0 <= w < t.len() && t[w] == f[i];
                assert(s[w] == f[i]);
            }
        }
    }
}

/// Filtering `a + b + c` filters each part.
proof fn lemma_filter3<A>(a: Seq<A>, b: Seq<A>, c: Seq<A>, p: spec_fn(A) -> bool)
    ensures
        (a + b + c).filter(p) == a.filter(p) + b.filter(p) + c.filter(p),
{
    Seq::filter_distributes_over_add(a + b, c, p);
    Seq::filter_distributes_over_add(a, b, p);
}

/// Inserting the same key and record a second time changes nothing.
pub proof fn law_insert_idempotent<K: Key, V>(s: Seq<(K, V)>, k: K, v: V)
    ensures
        upsert(upsert(s, k, v), k, v) == upsert(s, k, v),
{
    let r = k.rank();
    let lt = rank_lt::<K, V>(r);
    let gt = rank_gt::<K, V>(r);
    let a = s.filter(lt);
    let b = s.filter(gt);
    let e = seq![(k, v)];
    lemma_filter3(a, e, b, lt);
    lemma_filter3(a, e, b, gt);
    lemma_filter_filter(s, lt, lt, lt);
    lemma_filter_filter(s, gt, gt, gt);
    lemma_filter_filter(s, lt, gt, |x: (K, V)| false);
    lemma_filter_filter(s, gt, lt, |x: (K, V)| false);
    lemma_filter_none(s, |x: (K, V)| false);
    lemma_filter_single((k, v), lt);
    lemma_filter_single((k, v), gt);
    assert(a + Seq::<(K, V)>::empty() + Seq::<(K, V)>::empty() =~= a);
    assert(Seq::<(K, V)>::empty() + Seq::<(K, V)>::empty() + b =~= b);
}

/// The entries with ranks strictly between `r1` and `r2`.
pub open spec fn rank_inside<K: Key, V>(r1: int, r2: int) -> spec_fn((K, V)) -> bool {
    |x: (K, V)| r1 < x.0.rank() && x.0.rank() < r2
}

/// Inserting two keys with ranks `r1 < r2`, in either order, puts each in
/// its place among the other entries.
proof fn lemma_upsert_two<K: Key, V>(s: Seq<(K, V)>, k1: K, v1: V, k2: K, v2: V)
    requires
        k1.rank() < k2.rank(),
    ensures
        upsert(upsert(s, k1, v1), k2, v2) == s.filter(rank_lt(k1.rank())) + seq![(k1, v1)] + s.filter(
            rank_inside(k1.rank(), k2.rank()),
        ) + seq![(k2, v2)] + s.filter(rank_gt(k2.rank())),
        upsert(upsert(s, k2, v2), k1, v1) == s.filter(rank_lt(k1.rank())) + seq![(k1, v1)] + s.filter(
            rank_inside(k1.rank(), k2.rank()),
        ) + seq![(k2, v2)] + s.filter(rank_gt(k2.rank())),
{
    let r1 = k1.rank();
    let r2 = k2.rank();
    let lt1 = rank_lt::<K, V>(r1);
    let gt1 = rank_gt::<K, V>(r1);
    let lt2 = rank_lt::<K, V>(r2);
    let gt2 = rank_gt::<K, V>(r2);
    let mid = rank_inside::<K, V>(r1, r2);
    let none = |x: (K, V)| false;
    let e1 = seq![(k1, v1)];
    let e2 = seq![(k2, v2)];
    let emp = Seq::<(K, V)>::empty();
    lemma_filter_none(s, none);
    lemma_filter_single((k1, v1), lt2);
    lemma_filter_single((k1, v1), gt2);
    lemma_filter_single((k2, v2), lt1);
    lemma_filter_single((k2, v2), gt1);
    // k1 first, then k2
    lemma_filter3(s.filter(lt1), e1, s.filter(gt1), lt2);
    lemma_filter3(s.filter(lt1), e1, s.filter(gt1), gt2);
    lemma_filter_filter(s, lt1, lt2, lt1);
    lemma_filter_filter(s, gt1, lt2, mid);
    lemma_filter_filter(s, lt1, gt2, none);
    lemma_filter_filter(s, gt1, gt2, gt2);
    assert(emp + emp + s.filter(gt2) =~= s.filter(gt2));
    assert(s.filter(lt1) + e1 + s.filter(mid) + e2 + s.filter(gt2) =~= (s.filter(lt1) + e1 + s.filter(mid)) + e2
        + s.filter(gt2));
    // k2 first, then k1
    lemma_filter3(s.filter(lt2), e2, s.filter(gt2), lt1);
    lemma_filter3(s.filter(lt2), e2, s.filter(gt2), gt1);
    lemma_filter_filter(s, lt2, lt1, lt1);
    lemma_filter_filter(s, lt2, gt1, mid);
    lemma_filter_filter(s, gt2, lt1, none);
    lemma_filter_filter(s, gt2, gt1, gt2);
    assert(s.filter(lt1) + emp + emp =~= s.filter(lt1));
    assert(s.filter(lt1) + e1 + (s.filter(mid) + e2 + s.filter(gt2)) =~= s.filter(lt1) + e1 + s.filter(mid) + e2
        + s.filter(gt2));
}

/// Inserting two different keys gives the same entries in either order.
pub proof fn law_inserts_commute<K: Key, V>(s: Seq<(K, V)>, k1: K, v1: V, k2: K, v2: V)
    requires
        k1.rank() != k2.rank(),
    ensures
        upsert(upsert(s, k1, v1), k2, v2) == upsert(upsert(s, k2, v2), k1, v1),
{
    if k1.rank() < k2.rank() {
        lemma_upsert_two(s, k1, v1, k2, v2);
    } else {
        lemma_upsert_two(s, k2, v2, k1, v1);
    }
}

/// Over sorted entries, the entries of a range are a contiguous run: those
/// from position `i` up to position `j`.
proof fn lemma_range_run<K: Key, V>(f: Seq<(K, V)>, a: int, b: int) -> (ij: (int, int))
    requires
        entries_sorted(f),
        a <= b,
    ensures
        0 <= ij.0 <= ij.1 <= f.len(),
        in_range(f, a, b) == f.subrange(ij.0, ij.1),
{
    let i = lemma_split_point(f, a);
    let j = lemma_split_point(f, b + 1);
    if j < i {
        assert(f[j].0.rank() >= b + 1);
        assert(f[j].0.rank() < a);
    }
    let p = rank_between::<K, V>(a, b);
    let x = f.take(i);
    let y = f.subrange(i, j);
    let z = f.skip(j);
    assert(f =~= x + y + z);
    lemma_filter3(x, y, z, p);
    assert forall|t: int| 0 <= t < x.len() implies !p(#[trigger] x[t]) by {
        assert(x[t] == f[t]);
    }
    assert forall|t: int| 0 <= t < y.len() implies p(#[trigger] y[t]) by {
        assert(y[t] == f[i + t]);
    }
    assert forall|t: int| 0 <= t < z.len() implies !p(#[trigger] z[t]) by {
        assert(z[t] == f[j + t]);
    }
    lemma_filter_none(x, p);
    lemma_filter_all(y, p);
    lemma_filter_none(z, p);
    assert(Seq::<(K, V)>::empty() + y + Seq::<(K, V)>::empty() =~= y);
    (i, j)
}

/// Range queries nest: the result of a range inside another is a contiguous
/// part of the result of the wider one.
pub proof fn law_range_nesting<const FANOUT: usize, K: Key, V: Record>(
    t: BPTree<FANOUT, K, V>,
    a2: int,
    a1: int,
    b1: int,
    b2: int,
)
    requires
        t.wf(),
        a2 <= a1 <= b1 <= b2,
    ensures
        exists|i: int, j: int|
            0 <= i <= j <= in_range(t@, a2, b2).len() && #[trigger] in_range(t@, a2, b2).subrange(i, j) == in_range(
                t@,
                a1,
                b1,
            ) && records_of(in_range(t@, a1, b1)) == records_of(in_range(t@, a2, b2)).subrange(i, j),
{
    t.lemma_view_sorted();
    let f = in_range(t@, a2, b2);
    lemma_filter_sorted(t@, rank_between::<K, V>(a2, b2));
    lemma_filter_filter(t@, rank_between::<K, V>(a2, b2), rank_between::<K, V>(a1, b1), rank_between::<K, V>(a1, b1));
    let (i, j) = lemma_range_run(f, a1, b1);
    assert(records_of(f.subrange(i, j)) =~= records_of(f).subrange(i, j));
    assert(f.subrange(i, j) == in_range(t@, a1, b1));
}

/// Inserting into sorted entries adds one entry when the key is new, and
/// none when it replaces the record of a key already there.
pub proof fn law_insert_count<K: Key, V>(s: Seq<(K, V)>, k: K, v: V)
    requires
        entries_sorted(s),
    ensures
        lookup(s, k.rank()) is None ==> upsert(s, k, v).len() == s.len() + 1,
        lookup(s, k.rank()) is Some ==> upsert(s, k, v).len() == s.len(),
{
    let r = k.rank();
    let p = lemma_split_point(s, r);
    let q = lemma_split_point(s, r + 1);
    if q < p {
        assert(s[q].0.rank() >= r + 1);
        assert(s[q].0.rank() < r);
    }
    if q > p + 1 {
        assert(s[p].0.rank() < s[p + 1].0.rank());
    }
    let x = s.take(p);
    let y = s.subrange(p, q);
    let z = s.skip(q);
    assert(s =~= x + y + z);
    let lt = rank_lt::<K, V>(r);
    let gt = rank_gt::<K, V>(r);
    let eq = rank_eq::<K, V>(r);
    lemma_filter3(x, y, z, lt);
    lemma_filter3(x, y, z, gt);
    lemma_filter3(x, y, z, eq);
    assert forall|t: int| 0 <= t < x.len() implies lt(#[trigger] x[t]) && !gt(x[t]) && !eq(x[t]) by {
        assert(x[t] == s[t]);
    }
    assert forall|t: int| 0 <= t < y.len() implies !lt(#[trigger] y[t]) && !gt(y[t]) && eq(y[t]) by {
        assert(y[t] == s[p + t]);
    }
    assert forall|t: int| 0 <= t < z.len() implies !lt(#[trigger] z[t]) && gt(z[t]) && !eq(z[t]) by {
        assert(z[t] == s[q + t]);
    }
    lemma_filter_all(x, lt);
    lemma_filter_none(y, lt);
    lemma_filter_none(z, lt);
    lemma_filter_none(x, gt);
    lemma_filter_none(y, gt);
    lemma_filter_all(z, gt);
    lemma_filter_none(x, eq);
    lemma_filter_all(y, eq);
    lemma_filter_none(z, eq);
    assert(s.filter(lt) =~= x);
    assert(s.filter(gt) =~= z);
    assert(s.filter(eq) =~= y);
}

} // verus!
