use vstd::prelude::*;
use crate::contents::{
    derefs, in_range, lemma_filter_all, lemma_filter_none, rank_between, records_of,
};
use crate::node::{
    at_least, below, child_hi, child_lo, entries_of, entries_sorted, lemma_entries_of_add, Interior, Key, Node,
    Record,
};

verus! {

broadcast use crate::node::group_node_slots;

pub proof fn lemma_records_push<K, V>(s: Seq<(K, V)>, x: (K, V))
    ensures
        records_of(s.push(x)) == records_of(s).push(x.1),
{
    assert(records_of(s.push(x)) =~= records_of(s).push(x.1));
}

pub proof fn lemma_derefs_push<V>(a: Seq<&V>, x: &V)
    ensures
        derefs(a.push(x)) == derefs(a).push(*x),
{
    assert(derefs(a.push(x)) =~= derefs(a).push(*x));
}

pub proof fn lemma_in_range_empty<K: Key, V>(a: int, b: int)
    ensures
        in_range(Seq::<(K, V)>::empty(), a, b) == Seq::<(K, V)>::empty(),
{
    lemma_filter_none(Seq::<(K, V)>::empty(), rank_between::<K, V>(a, b));
}

pub proof fn lemma_in_range_add<K: Key, V>(s: Seq<(K, V)>, t: Seq<(K, V)>, a: int, b: int)
    ensures
        in_range(s + t, a, b) == in_range(s, a, b) + in_range(t, a, b),
        records_of(in_range(s + t, a, b)) == records_of(in_range(s, a, b)) + records_of(in_range(t, a, b)),
{
    Seq::filter_distributes_over_add(s, t, rank_between::<K, V>(a, b));
    assert(records_of(in_range(s, a, b) + in_range(t, a, b)) =~= records_of(in_range(s, a, b))
        + records_of(in_range(t, a, b)));
}

/// The entries of a sorted leaf between ranks `a` and `b` are those from
/// position `i0` (the first not below `a`) up to `i1` (the first above `b`).
pub proof fn lemma_leaf_range<K: Key, V>(e: Seq<(K, V)>, i0: int, i1: int, a: int, b: int)
    requires
        entries_sorted(e),
        0 <= i0 <= i1 <= e.len(),
        forall|j: int| 0 <= j < i0 ==> #[trigger] e[j].0.rank() < a,
        forall|j: int| i0 <= j < i1 ==> a <= #[trigger] e[j].0.rank() <= b,
        i1 < e.len() ==> e[i1].0.rank() > b,
    ensures
        in_range(e, a, b) == e.subrange(i0, i1),
{
    let p = rank_between::<K, V>(a, b);
    assert(e =~= e.take(i0) + e.subrange(i0, i1) + e.skip(i1));
    Seq::filter_distributes_over_add(e.take(i0) + e.subrange(i0, i1), e.skip(i1), p);
    Seq::filter_distributes_over_add(e.take(i0), e.subrange(i0, i1), p);
    assert forall|j: int| 0 <= j < e.take(i0).len() implies !p(#[trigger] e.take(i0)[j]) by {
        assert(e.take(i0)[j] == e[j]);
    }
    lemma_filter_none(e.take(i0), p);
    assert forall|j: int| 0 <= j < e.subrange(i0, i1).len() implies p(#[trigger] e.subrange(i0, i1)[j]) by {
        assert(e.subrange(i0, i1)[j] == e[i0 + j]);
    }
    lemma_filter_all(e.subrange(i0, i1), p);
    assert forall|j: int| 0 <= j < e.skip(i1).len() implies !p(#[trigger] e.skip(i1)[j]) by {
        assert(e.skip(i1)[j] == e[i1 + j]);
        if j > 0 {
            assert(e[i1].0.rank() < e[i1 + j].0.rank());
        }
    }
    lemma_filter_none(e.skip(i1), p);
    assert(Seq::<(K, V)>::empty() + e.subrange(i0, i1) + Seq::<(K, V)>::empty() =~= e.subrange(i0, i1));
}

/// The entries of an interior node between ranks `a` and `b` all lie under
/// the children from `j0` (where `a` falls) up to `i` (exclusive), when the
/// separator before child `i` is above `b` or `i` is past the last child.
pub proof fn lemma_interior_range<const FANOUT: usize, K: Key, V: Record>(
    n: Interior<FANOUT, K, V>,
    lo: Option<int>,
    hi: Option<int>,
    h: nat,
    j0: int,
    i: int,
    a: int,
    b: int,
)
    requires
        Node::Interior(n).well_formed(lo, hi, h, true),
        0 <= j0 < n.child_seq().len(),
        j0 <= i <= n.child_seq().len(),
        j0 < n.key_seq().len() ==> n.key_seq()[j0].rank() > a,
        forall|j: int| 0 <= j < j0 ==> #[trigger] n.key_seq()[j].rank() <= a,
        i < n.child_seq().len() ==> i > j0 && n.key_seq()[i - 1].rank() > b,
        a <= b,
    ensures
        in_range(Node::Interior(n).entries(), a, b) == in_range(entries_of(n.child_seq().subrange(j0, i)), a, b),
{
    let s = n.child_seq();
    Node::lemma_children_facts(n, lo, hi, h, true);
    Node::lemma_children_prefix(n, lo, hi, h, j0);
    Node::lemma_children_suffix(n, lo, hi, i);
    assert(s =~= s.take(j0) + s.subrange(j0, i) + s.skip(i));
    lemma_entries_of_add(s.take(j0) + s.subrange(j0, i), s.skip(i));
    lemma_entries_of_add(s.take(j0), s.subrange(j0, i));
    let x = entries_of(s.take(j0));
    let y = entries_of(s.subrange(j0, i));
    let z = entries_of(s.skip(i));
    lemma_in_range_add(x + y, z, a, b);
    lemma_in_range_add(x, y, a, b);
    let p = rank_between::<K, V>(a, b);
    assert forall|t: int| 0 <= t < x.len() implies !p(#[trigger] x[t]) by {
        assert(below(x[t].0.rank(), child_hi(hi, n.key_seq(), j0 - 1)));
    }
    lemma_filter_none(x, p);
    if i < s.len() {
        assert forall|t: int| 0 <= t < z.len() implies !p(#[trigger] z[t]) by {
            assert(at_least(child_lo(lo, n.key_seq(), i), z[t].0.rank()));
        }
        lemma_filter_none(z, p);
    } else {
        assert(s.skip(i) =~= Seq::<Node<FANOUT, K, V>>::empty());
        assert(z =~= Seq::<(K, V)>::empty());
        lemma_filter_none(z, p);
    }
    assert(Seq::<(K, V)>::empty() + in_range(y, a, b) + Seq::<(K, V)>::empty() =~= in_range(y, a, b));
}

} // verus!
