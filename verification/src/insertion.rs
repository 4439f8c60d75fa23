use vstd::prelude::*;
use crate::contents::{
    lemma_key_ops_small, lemma_sorted_gap, lemma_sorted_split, lemma_upsert_frame, upsert,
};
use crate::node::{
    above, at_least, below, child_hi, child_lo, entries_sorted, keys_sorted, lemma_entries_of_add,
    lemma_entries_of_push, lemma_entries_of_single, min_leaf_keys, zip_entries, Interior, Key, Node, Record,
};

verus! {

broadcast use crate::node::group_node_slots;

pub proof fn lemma_leaf_update<K: Key, V>(keys: Seq<K>, recs: Seq<V>, idx: int, key: K, record: V)
    requires
        keys.len() == recs.len(),
        keys_sorted(keys),
        0 <= idx < keys.len(),
        keys[idx].rank() == key.rank(),
    ensures
        zip_entries(keys, recs.update(idx, record)) == upsert(zip_entries(keys, recs), key, record),
{
    let e = zip_entries(keys, recs);
    lemma_sorted_split(e, idx);
    lemma_upsert_frame(e.take(idx), seq![e[idx]], e.skip(idx + 1), key, record);
    lemma_key_ops_small(e[idx], key, record);
    K::lemma_rank_injective(&keys[idx], &key);
    let lhs = zip_entries(keys, recs.update(idx, record));
    let rhs = e.take(idx) + seq![(key, record)] + e.skip(idx + 1);
    assert forall|t: int| 0 <= t < lhs.len() implies lhs[t] == rhs[t] by {
        if t < idx {
            assert(rhs[t] == e[t]);
        } else if t == idx {
            assert(rhs[t] == (key, record));
        } else {
            assert(rhs[t] == e.skip(idx + 1)[t - idx - 1]);
        }
    }
    assert(lhs =~= rhs);
}

pub proof fn lemma_leaf_insert<K: Key, V>(
    keys: Seq<K>,
    recs: Seq<V>,
    idx: int,
    key: K,
    record: V,
    lo: Option<int>,
    hi: Option<int>,
)
    requires
        keys.len() == recs.len(),
        keys_sorted(keys),
        forall|i: int| 0 <= i < keys.len() ==> at_least(lo, #[trigger] keys[i].rank()) && below(keys[i].rank(), hi),
        at_least(lo, key.rank()),
        below(key.rank(), hi),
        0 <= idx <= keys.len(),
        forall|j: int| 0 <= j < idx ==> #[trigger] keys[j].rank() < key.rank(),
        idx < keys.len() ==> keys[idx].rank() > key.rank(),
    ensures
        zip_entries(keys.insert(idx, key), recs.insert(idx, record)) == upsert(zip_entries(keys, recs), key, record),
        keys_sorted(keys.insert(idx, key)),
        forall|i: int| 0 <= i < keys.len() + 1 ==> at_least(lo, #[trigger] keys.insert(idx, key)[i].rank()) && below(keys.insert(idx, key)[i].rank(), hi),
{
    let e = zip_entries(keys, recs);
    let r = key.rank();
    assert(entries_sorted(e));
    lemma_sorted_gap(e, idx, r);
    let empty = Seq::<(K, V)>::empty();
    lemma_upsert_frame(e.take(idx), empty, e.skip(idx), key, record);
    assert(upsert(empty, key, record) == seq![(key, record)]) by {
        lemma_key_ops_small((key, record), key, record);
    }
    assert(e.take(idx) + empty + e.skip(idx) == e);
    assert(zip_entries(keys.insert(idx, key), recs.insert(idx, record)) =~= e.take(idx) + seq![(key, record)] + e.skip(idx));
    lemma_keys_insert_sorted(keys, idx, key, lo, hi);
}

pub proof fn lemma_keys_insert_sorted<K: Key>(keys: Seq<K>, idx: int, key: K, lo: Option<int>, hi: Option<int>)
    requires
        keys_sorted(keys),
        forall|i: int| 0 <= i < keys.len() ==> at_least(lo, #[trigger] keys[i].rank()) && below(keys[i].rank(), hi),
        at_least(lo, key.rank()),
        below(key.rank(), hi),
        0 <= idx <= keys.len(),
        forall|j: int| 0 <= j < idx ==> #[trigger] keys[j].rank() < key.rank(),
        idx < keys.len() ==> keys[idx].rank() > key.rank(),
    ensures
        keys_sorted(keys.insert(idx, key)),
        forall|i: int| 0 <= i < keys.len() + 1 ==> at_least(lo, #[trigger] keys.insert(idx, key)[i].rank()) && below(keys.insert(idx, key)[i].rank(), hi),
{
    let nk = keys.insert(idx, key);
    assert forall|a: int, b: int| 0 <= a < b < nk.len() implies nk[a].rank() < nk[b].rank() by {
        if b < idx {
        } else if a > idx {
            assert(nk[a] == keys[a - 1]);
            assert(nk[b] == keys[b - 1]);
        } else if a == idx {
            assert(nk[b] == keys[b - 1]);
            if b - 1 > idx {
                assert(keys[idx].rank() < keys[b - 1].rank());
            }
        } else if b == idx {
        } else {
            assert(nk[b] == keys[b - 1]);
        }
    }
}

pub proof fn lemma_leaf_split<K: Key, V>(keys: Seq<K>, recs: Seq<V>, split: int, lo: Option<int>, hi: Option<int>)
    requires
        keys.len() == recs.len(),
        keys_sorted(keys),
        forall|i: int| 0 <= i < keys.len() ==> at_least(lo, #[trigger] keys[i].rank()) && below(keys[i].rank(), hi),
        0 < split < keys.len(),
    ensures
        ({
            let k = keys[split];
            &&& above(lo, k.rank())
            &&& below(k.rank(), hi)
            &&& zip_entries(keys.take(split), recs.take(split)) + zip_entries(keys.skip(split), recs.skip(split)) == zip_entries(keys, recs)
            &&& keys_sorted(keys.take(split))
            &&& keys_sorted(keys.skip(split))
            &&& forall|i: int| 0 <= i < split ==> at_least(lo, #[trigger] keys.take(split)[i].rank()) && below(keys.take(split)[i].rank(), Some(k.rank()))
            &&& forall|i: int| 0 <= i < keys.len() - split ==> at_least(Some(k.rank()), #[trigger] keys.skip(split)[i].rank()) && below(keys.skip(split)[i].rank(), hi)
        }),
{
    assert(keys[0].rank() < keys[split].rank());
    assert(zip_entries(keys.take(split), recs.take(split)) + zip_entries(keys.skip(split), recs.skip(split)) =~= zip_entries(keys, recs));
    assert forall|i: int| 0 <= i < keys.len() - split implies at_least(Some(keys[split].rank()), #[trigger] keys.skip(split)[i].rank()) by {
        if i > 0 {
            assert(keys[split].rank() < keys[split + i].rank());
        }
    }
}

/// Adding separator `key` at position `i` and child `right` after child `i`
/// keeps an interior node well formed, when child `i` now ends below `key`
/// and `right` holds the keys from `key` up to the old bound of child `i`.
pub proof fn lemma_parent_insert<const FANOUT: usize, K: Key, V: Record>(
    old_n: Interior<FANOUT, K, V>,
    new_n: Interior<FANOUT, K, V>,
    i: int,
    key: K,
    right: Node<FANOUT, K, V>,
    lo: Option<int>,
    hi: Option<int>,
    h: nat,
)
    requires
        h > 0,
        old_n.keys_ok(lo, hi),
        0 <= i < old_n.child_seq().len(),
        above(child_lo(lo, old_n.key_seq(), i), key.rank()),
        below(key.rank(), child_hi(hi, old_n.key_seq(), i)),
        forall|j: int|
            0 <= j < old_n.child_seq().len() && j != i ==> (#[trigger] old_n.child_seq()[j]).well_formed(
                child_lo(lo, old_n.key_seq(), j),
                child_hi(hi, old_n.key_seq(), j),
                (h - 1) as nat,
                true,
            ),
        old_n.child_seq()[i].well_formed(child_lo(lo, old_n.key_seq(), i), Some(key.rank()), (h - 1) as nat, true),
        right.well_formed(Some(key.rank()), child_hi(hi, old_n.key_seq(), i), (h - 1) as nat, true),
        new_n.slots_ok(),
        new_n.key_seq() == old_n.key_seq().insert(i, key),
        new_n.child_seq() == old_n.child_seq().insert(i + 1, right),
    ensures
        Node::Interior(new_n).well_formed(lo, hi, h, true),
{
    let ok = old_n.key_seq();
    let nk = new_n.key_seq();
    // the new separator sits strictly between its neighbours and inside the bounds
    assert(above(lo, key.rank())) by {
        if i > 0 {
            assert(above(lo, ok[i - 1].rank()));
        }
    }
    assert(below(key.rank(), hi)) by {
        if i < ok.len() {
            assert(below(ok[i].rank(), hi));
        }
    }
    assert(keys_sorted(nk)) by {
        assert forall|a: int, b: int| 0 <= a < b < nk.len() implies nk[a].rank() < nk[b].rank() by {
            if b < i {
            } else if a > i {
                assert(nk[a] == ok[a - 1]);
                assert(nk[b] == ok[b - 1]);
            } else if a == i {
                assert(nk[b] == ok[b - 1]);
                if b - 1 > i {
                    assert(ok[i].rank() < ok[b - 1].rank());
                }
            } else if b == i {
                if a < i - 1 {
                    assert(ok[a].rank() < ok[i - 1].rank());
                }
            } else {
                assert(nk[b] == ok[b - 1]);
            }
        }
    }
    assert forall|a: int| 0 <= a < nk.len() implies above(lo, #[trigger] nk[a].rank()) && below(
        nk[a].rank(),
        hi,
    ) by {
        if a > i {
            assert(nk[a] == ok[a - 1]);
        } else if a < i {
        }
    }
    assert forall|j: int| 0 <= j < new_n.child_seq().len() implies (#[trigger] new_n.child_seq()[j]).well_formed(
        child_lo(lo, nk, j),
        child_hi(hi, nk, j),
        (h - 1) as nat,
        true,
    ) by {
        if j < i {
            assert(new_n.child_seq()[j] == old_n.child_seq()[j]);
            assert(child_lo(lo, nk, j) == child_lo(lo, ok, j));
            assert(child_hi(hi, nk, j) == child_hi(hi, ok, j));
        } else if j == i {
            assert(new_n.child_seq()[j] == old_n.child_seq()[j]);
            assert(child_lo(lo, nk, j) == child_lo(lo, ok, j));
        } else if j == i + 1 {
            assert(new_n.child_seq()[j] == right);
            assert(child_hi(hi, nk, j) == child_hi(hi, ok, i));
        } else {
            assert(new_n.child_seq()[j] == old_n.child_seq()[j - 1]);
            assert(child_lo(lo, nk, j) == child_lo(lo, ok, j - 1));
            assert(child_hi(hi, nk, j) == child_hi(hi, ok, j - 1));
        }
    }
}

/// Splitting a well-formed interior node at separator `s` gives two
/// well-formed nodes bounded by that separator.
pub proof fn lemma_interior_split<const FANOUT: usize, K: Key, V: Record>(
    full: Interior<FANOUT, K, V>,
    left: Interior<FANOUT, K, V>,
    right: Interior<FANOUT, K, V>,
    s: int,
    lo: Option<int>,
    hi: Option<int>,
    h: nat,
)
    requires
        Node::Interior(full).well_formed(lo, hi, h, true),
        0 <= s < full.key_seq().len(),
        FANOUT >= 3 ==> s >= 1 && full.key_seq().len() - s - 1 >= 1,
        left.slots_ok(),
        left.key_seq() == full.key_seq().take(s),
        left.child_seq() == full.child_seq().take(s + 1),
        right.slots_ok(),
        right.key_seq() == full.key_seq().skip(s + 1),
        right.child_seq() == full.child_seq().skip(s + 1),
    ensures
        above(lo, full.key_seq()[s].rank()),
        below(full.key_seq()[s].rank(), hi),
        Node::Interior(left).well_formed(lo, Some(full.key_seq()[s].rank()), h, true),
        Node::Interior(right).well_formed(Some(full.key_seq()[s].rank()), hi, h, true),
        Node::Interior(left).entries() + Node::Interior(right).entries() == Node::Interior(full).entries(),
{
    let fk = full.key_seq();
    let k = fk[s].rank();
    assert(full.child_seq() =~= full.child_seq().take(s + 1) + full.child_seq().skip(s + 1));
    lemma_entries_of_add(full.child_seq().take(s + 1), full.child_seq().skip(s + 1));
    assert forall|j: int| 0 <= j < left.child_seq().len() implies (#[trigger] left.child_seq()[j]).well_formed(
        child_lo(lo, left.key_seq(), j),
        child_hi(Some(k), left.key_seq(), j),
        (h - 1) as nat,
        true,
    ) by {
        assert(left.child_seq()[j] == full.child_seq()[j]);
        assert(child_lo(lo, left.key_seq(), j) == child_lo(lo, fk, j));
        assert(child_hi(Some(k), left.key_seq(), j) == child_hi(hi, fk, j));
    }
    assert forall|j: int| 0 <= j < right.child_seq().len() implies (#[trigger] right.child_seq()[j]).well_formed(
        child_lo(Some(k), right.key_seq(), j),
        child_hi(hi, right.key_seq(), j),
        (h - 1) as nat,
        true,
    ) by {
        assert(right.child_seq()[j] == full.child_seq()[j + s + 1]);
        assert(child_lo(Some(k), right.key_seq(), j) == child_lo(lo, fk, j + s + 1));
        assert(child_hi(hi, right.key_seq(), j) == child_hi(hi, fk, j + s + 1));
    }
    assert forall|a: int| 0 <= a < left.key_seq().len() implies above(lo, #[trigger] left.key_seq()[a].rank()) && below(
        left.key_seq()[a].rank(),
        Some(k),
    ) by {
        assert(left.key_seq()[a] == fk[a]);
    }
    assert forall|a: int| 0 <= a < right.key_seq().len() implies above(Some(k), #[trigger] right.key_seq()[a].rank()) && below(
        right.key_seq()[a].rank(),
        hi,
    ) by {
        assert(right.key_seq()[a] == fk[a + s + 1]);
    }
}

/// Two halves of a split root under a new root with one separator.
pub proof fn lemma_new_root<const FANOUT: usize, K: Key, V: Record>(
    left: Node<FANOUT, K, V>,
    right: Node<FANOUT, K, V>,
    k: K,
    root: Interior<FANOUT, K, V>,
    h: nat,
)
    requires
        left.well_formed(None, Some(k.rank()), h, true),
        right.well_formed(Some(k.rank()), None, h, true),
        root.slots_ok(),
        root.key_seq() == seq![k],
        root.child_seq() == seq![left, right],
    ensures
        Node::Interior(root).well_formed(None, None, Node::Interior(root).height(), true),
        Node::Interior(root).height() == h + 1,
        Node::Interior(root).entries() == left.entries() + right.entries(),
{
    left.lemma_entries_sorted_within(None, Some(k.rank()), h, true);
    assert(root.child_seq() =~= seq![left].push(right));
    lemma_entries_of_single(left);
    lemma_entries_of_push(seq![left], right);
    assert(root.child_seq()[0] == left);
    assert(root.child_seq()[1] == right);
    assert(Node::Interior(root).height() == h + 1);
}

/// With a child put in after child `i`, an interior node whose children fit
/// still has children that fit.
pub proof fn lemma_parent_insert_fits<const FANOUT: usize, K: Key, V: Record>(
    old_n: Interior<FANOUT, K, V>,
    new_n: Interior<FANOUT, K, V>,
    i: int,
    right: Node<FANOUT, K, V>,
    h: nat,
)
    requires
        0 <= i < old_n.child_seq().len(),
        new_n.slots_ok(),
        new_n.child_seq() == old_n.child_seq().insert(i + 1, right),
        new_n.key_seq().len() == old_n.key_seq().len() + 1,
    ensures
        ({
            let lm = min_leaf_keys(FANOUT as int);
            (right.fits((h - 1) as nat, lm) && forall|j: int|
                0 <= j < old_n.child_seq().len() ==> (#[trigger] old_n.child_seq()[j]).fits((h - 1) as nat, lm))
                ==> forall|j: int| 0 <= j < new_n.child_seq().len() ==> (#[trigger] new_n.child_seq()[j]).fits((h - 1) as nat, lm)
        }),
        h > 0 && new_n.key_seq().len() <= FANOUT - 1 ==> ({
            let lm = min_leaf_keys(FANOUT as int);
            (right.fits((h - 1) as nat, lm) && forall|j: int|
                0 <= j < old_n.child_seq().len() ==> (#[trigger] old_n.child_seq()[j]).fits((h - 1) as nat, lm))
                ==> Node::Interior(new_n).fits(h, 0)
        }),
{
    let lm = min_leaf_keys(FANOUT as int);
    if right.fits((h - 1) as nat, lm) && forall|j: int|
        0 <= j < old_n.child_seq().len() ==> (#[trigger] old_n.child_seq()[j]).fits((h - 1) as nat, lm) {
        assert forall|j: int| 0 <= j < new_n.child_seq().len() implies (#[trigger] new_n.child_seq()[j]).fits((h - 1) as nat, lm) by {
            if j > i + 1 {
                assert(new_n.child_seq()[j] == old_n.child_seq()[j - 1]);
            } else if j < i + 1 {
                assert(new_n.child_seq()[j] == old_n.child_seq()[j]);
            }
        }
    }
}

/// The two halves of a split interior node fit when its children do.
pub proof fn lemma_interior_split_fits<const FANOUT: usize, K: Key, V: Record>(
    full: Interior<FANOUT, K, V>,
    left: Interior<FANOUT, K, V>,
    right: Interior<FANOUT, K, V>,
    s: int,
    h: nat,
)
    requires
        h > 0,
        0 <= s,
        s + 1 <= full.child_seq().len(),
        left.slots_ok(),
        left.child_seq() == full.child_seq().take(s + 1),
        right.slots_ok(),
        right.child_seq() == full.child_seq().skip(s + 1),
        left.key_seq().len() <= FANOUT - 1,
        right.key_seq().len() <= FANOUT - 1,
        left.key_seq().len() >= min_leaf_keys(FANOUT as int),
        right.key_seq().len() >= min_leaf_keys(FANOUT as int),
    ensures
        ({
            let lm = min_leaf_keys(FANOUT as int);
            (forall|j: int| 0 <= j < full.child_seq().len() ==> (#[trigger] full.child_seq()[j]).fits((h - 1) as nat, lm))
                ==> Node::Interior(left).fits(h, lm) && Node::Interior(right).fits(h, lm)
        }),
{
    let lm = min_leaf_keys(FANOUT as int);
    if forall|j: int| 0 <= j < full.child_seq().len() ==> (#[trigger] full.child_seq()[j]).fits((h - 1) as nat, lm) {
        assert forall|j: int| 0 <= j < left.child_seq().len() implies (#[trigger] left.child_seq()[j]).fits((h - 1) as nat, lm) by {
            assert(left.child_seq()[j] == full.child_seq()[j]);
        }
        assert forall|j: int| 0 <= j < right.child_seq().len() implies (#[trigger] right.child_seq()[j]).fits((h - 1) as nat, lm) by {
            assert(right.child_seq()[j] == full.child_seq()[j + s + 1]);
        }
    }
}

/// Child `i` replaced by a child that fits.
pub proof fn lemma_replace_child_fits<const FANOUT: usize, K: Key, V: Record>(
    old_n: Interior<FANOUT, K, V>,
    new_n: Interior<FANOUT, K, V>,
    i: int,
    h: nat,
    m: int,
)
    requires
        0 <= i < old_n.child_seq().len(),
        new_n.key_seq().len() == old_n.key_seq().len(),
        new_n.slots_ok(),
        new_n.child_seq() == old_n.child_seq().update(i, new_n.child_seq()[i]),
    ensures
        Node::Interior(old_n).fits(h, m) && new_n.child_seq()[i].fits((h - 1) as nat, min_leaf_keys(FANOUT as int))
            ==> Node::Interior(new_n).fits(h, m),
{
    if Node::Interior(old_n).fits(h, m) && new_n.child_seq()[i].fits((h - 1) as nat, min_leaf_keys(FANOUT as int)) {
        assert forall|j: int| 0 <= j < new_n.child_seq().len() implies (#[trigger] new_n.child_seq()[j]).fits(
            (h - 1) as nat,
            min_leaf_keys(FANOUT as int),
        ) by {
            if j != i {
                assert(new_n.child_seq()[j] == old_n.child_seq()[j]);
            }
        }
    }
}

/// With a child put in after child `i`, an interior node whose children hold
/// no more than `FANOUT - 1` keys still has such children.
pub proof fn lemma_parent_insert_bounded<const FANOUT: usize, K: Key, V: Record>(
    old_n: Interior<FANOUT, K, V>,
    new_n: Interior<FANOUT, K, V>,
    i: int,
    right: Node<FANOUT, K, V>,
    h: nat,
)
    requires
        0 <= i < old_n.child_seq().len(),
        new_n.child_seq() == old_n.child_seq().insert(i + 1, right),
    ensures
        (right.bounded((h - 1) as nat) && forall|j: int|
            0 <= j < old_n.child_seq().len() ==> (#[trigger] old_n.child_seq()[j]).bounded((h - 1) as nat))
            ==> forall|j: int| 0 <= j < new_n.child_seq().len() ==> (#[trigger] new_n.child_seq()[j]).bounded((h - 1) as nat),
{
    if right.bounded((h - 1) as nat) && forall|j: int|
        0 <= j < old_n.child_seq().len() ==> (#[trigger] old_n.child_seq()[j]).bounded((h - 1) as nat) {
        assert forall|j: int| 0 <= j < new_n.child_seq().len() implies (#[trigger] new_n.child_seq()[j]).bounded((h - 1) as nat) by {
            if j > i + 1 {
                assert(new_n.child_seq()[j] == old_n.child_seq()[j - 1]);
            } else if j < i + 1 {
                assert(new_n.child_seq()[j] == old_n.child_seq()[j]);
            }
        }
    }
}

/// The halves of a split interior node whose children hold no more than
/// `FANOUT - 1` keys have such children.
pub proof fn lemma_interior_split_bounded<const FANOUT: usize, K: Key, V: Record>(
    full: Interior<FANOUT, K, V>,
    left: Interior<FANOUT, K, V>,
    right: Interior<FANOUT, K, V>,
    s: int,
    h: nat,
)
    requires
        h > 0,
        0 <= s,
        s + 1 <= full.child_seq().len(),
        left.child_seq() == full.child_seq().take(s + 1),
        right.child_seq() == full.child_seq().skip(s + 1),
        left.key_seq().len() <= FANOUT - 1,
        right.key_seq().len() <= FANOUT - 1,
    ensures
        (forall|j: int| 0 <= j < full.child_seq().len() ==> (#[trigger] full.child_seq()[j]).bounded((h - 1) as nat))
            ==> Node::Interior(left).bounded(h) && Node::Interior(right).bounded(h),
{
    if forall|j: int| 0 <= j < full.child_seq().len() ==> (#[trigger] full.child_seq()[j]).bounded((h - 1) as nat) {
        assert forall|j: int| 0 <= j < left.child_seq().len() implies (#[trigger] left.child_seq()[j]).bounded((h - 1) as nat) by {
            assert(left.child_seq()[j] == full.child_seq()[j]);
        }
        assert forall|j: int| 0 <= j < right.child_seq().len() implies (#[trigger] right.child_seq()[j]).bounded((h - 1) as nat) by {
            assert(right.child_seq()[j] == full.child_seq()[j + s + 1]);
        }
    }
}

/// Child `i` replaced by a child holding no more than `FANOUT - 1` keys.
pub proof fn lemma_replace_child_bounded<const FANOUT: usize, K: Key, V: Record>(
    old_n: Interior<FANOUT, K, V>,
    new_n: Interior<FANOUT, K, V>,
    i: int,
    h: nat,
)
    requires
        0 <= i < old_n.child_seq().len(),
        new_n.key_seq().len() == old_n.key_seq().len(),
        new_n.child_seq() == old_n.child_seq().update(i, new_n.child_seq()[i]),
    ensures
        Node::Interior(old_n).bounded(h) && new_n.child_seq()[i].bounded((h - 1) as nat)
            ==> Node::Interior(new_n).bounded(h),
{
    if Node::Interior(old_n).bounded(h) && new_n.child_seq()[i].bounded((h - 1) as nat) {
        assert forall|j: int| 0 <= j < new_n.child_seq().len() implies (#[trigger] new_n.child_seq()[j]).bounded(
            (h - 1) as nat,
        ) by {
            if j != i {
                assert(new_n.child_seq()[j] == old_n.child_seq()[j]);
            }
        }
    }
}

} // verus!
