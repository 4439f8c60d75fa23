use vstd::prelude::*;
use crate::bptree::BPTree;
use crate::insertion::{lemma_replace_child_bounded, lemma_replace_child_fits};
use crate::contents::{erase, lemma_filter_all, lemma_filter_single, lemma_frame, lemma_sorted_split, rank_ne};
use crate::node::{
    above, at_least, below, child_hi, child_lo, entries_of, entries_sorted, keys_sorted, lemma_entries_of_add,
    lemma_entries_of_pair, lemma_entries_of_push, lemma_entries_of_single, lemma_entries_of_split,
    min_leaf_keys, zip_entries, Interior, Key, Leaf, Node, Record,
};

verus! {

broadcast use crate::node::group_node_slots;

impl<const FANOUT: usize, K: Key, V: Record> BPTree<FANOUT, K, V> {
    /// Drops separator `idx - 1` and child `idx` of `n`, once child `idx` has
    /// been merged into its left sibling.
    pub(crate) fn drop_merged_child(n: &mut Interior<FANOUT, K, V>, idx: usize)
        requires
            old(n).slots_ok(),
            0 < idx < old(n).child_seq().len(),
        ensures
            final(n).slots_ok(),
            final(n).key_seq() == old(n).key_seq().remove(idx - 1),
            final(n).child_seq() == old(n).child_seq().remove(idx as int),
    {
        let (mut ks, mut cs) = n.take_parts();
        let _ = ks.remove(idx - 1);
        let _ = cs.remove(idx);
        n.put_parts(ks, cs);
    }

    /// Child `i` of `n` is a leaf with too few keys: merge it with a sibling
    /// when both fit in one leaf, else move one entry over from the sibling.
    /// Returns whether the two leaves were merged, so that `n` lost a key.
    pub(crate) fn rebalance_leaf(
        n: &mut Interior<FANOUT, K, V>,
        i: usize,
        Ghost(lo): Ghost<Option<int>>,
        Ghost(hi): Ghost<Option<int>>,
    ) -> (merged: bool)
        requires
            FANOUT >= 3,
            old(n).keys_ok(lo, hi),
            old(n).key_seq().len() >= 1,
            0 <= i < old(n).child_seq().len(),
            forall|t: int|
                0 <= t < old(n).child_seq().len() ==> (#[trigger] old(n).child_seq()[t]).well_formed(
                    child_lo(lo, old(n).key_seq(), t),
                    child_hi(hi, old(n).key_seq(), t),
                    0,
                    true,
                ),
        ensures
            Node::Interior(*final(n)).entries() == Node::Interior(*old(n)).entries(),
            merged ==> Node::Interior(*final(n)).well_formed(lo, hi, 1, false) && final(n).key_seq().len()
                == old(n).key_seq().len() - 1,
            !merged ==> Node::Interior(*final(n)).well_formed(lo, hi, 1, true) && final(n).key_seq().len()
                == old(n).key_seq().len(),
            ready_to_rebalance(*old(n), i as int, 1) ==> Node::Interior(*final(n)).fits(1, 0),
            ready_to_rebalance_bounded(*old(n), i as int, 1) ==> Node::Interior(*final(n)).bounded(1),
    {
        let ghost old_n = *n;
        let j: usize = if i < n.num_keys {
            i
        } else {
            i - 1
        };
        proof {
            lemma_leaf_siblings(old_n, j as int, lo, hi);
        }
        let mut second_node = n.replace_child(j + 1, Node::Invalid);
        let mut first_node = n.replace_child(j, Node::Invalid);
        let merged: bool;
        {
            let second = second_node.unwrap_leaf_mut();
            let first = first_node.unwrap_leaf_mut();
            let (mut fk, mut fr) = first.take_entries();
            let (mut sk, mut sr) = second.take_entries();
            if sk.len() <= FANOUT - 1 && fk.len() <= FANOUT - 1 - sk.len() {
                fk.append(&mut sk);
                fr.append(&mut sr);
                merged = true;
            } else {
                if fk.len() < sk.len() {
                    // borrow from the right sibling
                    let k = sk.remove(0);
                    let r = sr.remove(0);
                    fk.push(k);
                    fr.push(r);
                } else {
                    // borrow from the left sibling
                    let k = fk.pop().unwrap();
                    let r = fr.pop().unwrap();
                    sk.insert(0, k);
                    sr.insert(0, r);
                }
                n.set_key(j, sk[0].clone_key());
                merged = false;
            }
            first.put_entries(fk, fr);
            second.put_entries(sk, sr);
        }
        let ghost f1 = first_node;
        let ghost s1 = second_node->Leaf_0;
        let ghost s1n = second_node;
        let _ = n.replace_child(j, first_node);
        let _ = n.replace_child(j + 1, second_node);
        proof {
            assert(n.child_seq() =~= old_n.child_seq().update(j as int, f1).update(j as int + 1, s1n));
        }
        if merged {
            let ghost mid = *n;
            Self::drop_merged_child(n, j + 1);
            proof {
                lemma_leaf_pair_merged(old_n, mid, *n, j as int, lo, hi);
                lemma_merged_fits(old_n, mid, *n, i as int, j as int, 1);
                lemma_merged_bounded(old_n, mid, *n, i as int, j as int, 1);
            }
        } else {
            proof {
                lemma_leaf_pair_borrowed(old_n, *n, j as int, s1, lo, hi);
                lemma_leaf_borrowed_fits(old_n, *n, i as int, j as int);
                lemma_leaf_borrowed_bounded(old_n, *n, i as int, j as int);
            }
        }
        merged
    }

    /// Child `i` of `n` is an interior node with too few keys: move a child
    /// over from a sibling that can spare one, else merge the two around
    /// their separator. Returns whether they were merged, so that `n` lost a
    /// key.
    pub(crate) fn rebalance_interior(
        n: &mut Interior<FANOUT, K, V>,
        i: usize,
        Ghost(lo): Ghost<Option<int>>,
        Ghost(hi): Ghost<Option<int>>,
        Ghost(h): Ghost<nat>,
    ) -> (merged: bool)
        requires
            FANOUT >= 3,
            h >= 2,
            old(n).keys_ok(lo, hi),
            old(n).key_seq().len() >= 1,
            0 <= i < old(n).child_seq().len(),
            forall|t: int|
                0 <= t < old(n).child_seq().len() ==> (#[trigger] old(n).child_seq()[t]).well_formed(
                    child_lo(lo, old(n).key_seq(), t),
                    child_hi(hi, old(n).key_seq(), t),
                    (h - 1) as nat,
                    t != i,
                ),
        ensures
            Node::Interior(*final(n)).entries() == Node::Interior(*old(n)).entries(),
            merged ==> Node::Interior(*final(n)).well_formed(lo, hi, h, false) && final(n).key_seq().len()
                == old(n).key_seq().len() - 1,
            !merged ==> Node::Interior(*final(n)).well_formed(lo, hi, h, true) && final(n).key_seq().len()
                == old(n).key_seq().len(),
            ready_to_rebalance(*old(n), i as int, h) ==> Node::Interior(*final(n)).fits(h, 0),
            ready_to_rebalance_bounded(*old(n), i as int, h) ==> Node::Interior(*final(n)).bounded(h),
    {
        let ghost old_n = *n;
        let j: usize = if i < n.num_keys {
            i
        } else {
            i - 1
        };
        proof {
            lemma_interior_siblings(old_n, j as int, i as int, lo, hi, h);
            assert(old_n.child_seq()[j as int]->Interior_0.child_seq().len() > 0);
            assert(old_n.child_seq()[j as int + 1]->Interior_0.child_seq().len() > 0);
        }
        let mut second_node = n.replace_child(j + 1, Node::Invalid);
        let mut first_node = n.replace_child(j, Node::Invalid);
        let merged: bool;
        {
            let second = second_node.unwrap_interior_mut();
            let first = first_node.unwrap_interior_mut();
            let (mut fk, mut fc) = first.take_parts();
            let (mut sk, mut sc) = second.take_parts();
            let half = FANOUT - FANOUT / 2;
            if fk.len() >= half || sk.len() >= half {
                if fk.len() < sk.len() {
                    // borrow from the right sibling
                    let disc = n.key(j).clone_key();
                    fk.push(disc);
                    let c = sc.remove(0);
                    fc.push(c);
                    let replacement = sk.remove(0);
                    n.set_key(j, replacement);
                } else {
                    // borrow from the left sibling
                    let disc = n.key(j).clone_key();
                    sk.insert(0, disc);
                    let c = fc.pop().unwrap();
                    sc.insert(0, c);
                    let replacement = fk.pop().unwrap();
                    n.set_key(j, replacement);
                }
                second.put_parts(sk, sc);
                merged = false;
            } else {
                let disc = n.key(j).clone_key();
                fk.push(disc);
                fk.append(&mut sk);
                fc.append(&mut sc);
                merged = true;
            }
            first.put_parts(fk, fc);
        }
        let ghost f1 = first_node;
        let ghost s1 = second_node->Interior_0;
        let ghost s1n = second_node;
        let _ = n.replace_child(j, first_node);
        let _ = n.replace_child(j + 1, second_node);
        proof {
            assert(n.child_seq() =~= old_n.child_seq().update(j as int, f1).update(j as int + 1, s1n));
        }
        if merged {
            let ghost mid = *n;
            Self::drop_merged_child(n, j + 1);
            proof {
                lemma_interior_pair_merged(old_n, mid, *n, j as int, i as int, lo, hi, h);
                lemma_merged_fits(old_n, mid, *n, i as int, j as int, h);
                lemma_merged_bounded(old_n, mid, *n, i as int, j as int, h);
            }
        } else {
            proof {
                lemma_interior_pair_borrowed(old_n, *n, j as int, i as int, s1, lo, hi, h);
                lemma_interior_borrowed_fits(old_n, *n, i as int, j as int, h);
                lemma_interior_borrowed_bounded(old_n, *n, i as int, j as int, h);
            }
        }
        merged
    }

    /// Removes the entry of `key` from a leaf, if it is there; returns
    /// whether it was.
    fn remove_from_leaf(
        leaf: &mut Leaf<FANOUT, K, V>,
        key: &K,
        Ghost(lo): Ghost<Option<int>>,
        Ghost(hi): Ghost<Option<int>>,
    ) -> (lost: bool)
        requires
            old(leaf).well_formed(lo, hi),
        ensures
            final(leaf).entries() == erase(old(leaf).entries(), key.rank()),
            final(leaf).well_formed(lo, hi),
            !lost ==> *final(leaf) == *old(leaf),
            lost ==> final(leaf).key_seq().len() == old(leaf).key_seq().len() - 1,
    {
        let mut i: usize = 0;
        while i < leaf.num_keys && !leaf.key(i).same_key(key)
            invariant
                leaf.well_formed(lo, hi),
                *leaf == *old(leaf),
                0 <= i <= leaf.key_seq().len(),
                forall|t: int| 0 <= t < i ==> #[trigger] leaf.key_seq()[t].rank() != key.rank(),
            decreases leaf.key_seq().len() - i,
        {
            i += 1;
        }
        if i == leaf.num_keys {
            proof {
                lemma_leaf_absent(leaf.key_seq(), leaf.record_seq(), key.rank());
            }
            return false;
        }
        proof {
            lemma_leaf_remove(leaf.key_seq(), leaf.record_seq(), i as int, lo, hi);
        }
        let (mut ks, mut rs) = leaf.take_entries();
        let _ = ks.remove(i);
        let _ = rs.remove(i);
        leaf.put_entries(ks, rs);
        true
    }

    /// Removes the entry of `key` from the subtree at `node`, rebalancing the
    /// children that fall short of keys. Returns whether `node` itself lost a
    /// key (an entry of a leaf, or a separator when two children merged), in
    /// which case it may lack keys.
    pub(crate) fn remove_from(
        node: &mut Node<FANOUT, K, V>,
        key: &K,
        Ghost(lo): Ghost<Option<int>>,
        Ghost(hi): Ghost<Option<int>>,
        Ghost(h): Ghost<nat>,
        Ghost(m): Ghost<int>,
    ) -> (lost: bool)
        requires
            FANOUT > 1,
            old(node).well_formed(lo, hi, h, true),
            at_least(lo, key.rank()),
            below(key.rank(), hi),
        ensures
            final(node).entries() == erase(old(node).entries(), key.rank()),
            final(node).well_formed(lo, hi, h, !lost),
            lost && *final(node) is Interior ==> FANOUT >= 3,
            *old(node) is Leaf && !lost ==> final(node).entries() == old(node).entries(),
            old(node).bounded(h) ==> final(node).bounded(h),
            old(node).fits(h, m) ==> final(node).fits(
                h,
                if lost {
                    m - 1
                } else {
                    m
                },
            ),
        decreases h, 1int,
    {
        match node {
            Node::Leaf(leaf) => Self::remove_from_leaf(leaf, key, Ghost(lo), Ghost(hi)),
            Node::Interior(n) => Self::remove_from_interior(n, key, Ghost(lo), Ghost(hi), Ghost(h), Ghost(m)),
            Node::Invalid => false,
        }
    }

    /// Removes the entry of `key` from the subtree at interior node `n`; see
    /// `remove_from`.
    fn remove_from_interior(
        n: &mut Interior<FANOUT, K, V>,
        key: &K,
        Ghost(lo): Ghost<Option<int>>,
        Ghost(hi): Ghost<Option<int>>,
        Ghost(h): Ghost<nat>,
        Ghost(m): Ghost<int>,
    ) -> (lost: bool)
        requires
            FANOUT > 1,
            Node::Interior(*old(n)).well_formed(lo, hi, h, true),
            at_least(lo, key.rank()),
            below(key.rank(), hi),
        ensures
            Node::Interior(*final(n)).entries() == erase(Node::Interior(*old(n)).entries(), key.rank()),
            Node::Interior(*final(n)).well_formed(lo, hi, h, !lost),
            lost ==> FANOUT >= 3,
            Node::Interior(*old(n)).bounded(h) ==> Node::Interior(*final(n)).bounded(h),
            Node::Interior(*old(n)).fits(h, m) ==> Node::Interior(*final(n)).fits(
                h,
                if lost {
                    m - 1
                } else {
                    m
                },
            ),
        decreases h, 0int,
    {
        let ghost old_n = *n;
        let ghost r = key.rank();
        let mut i: usize = 0;
        while i < n.num_keys && !key.less_than(n.key(i))
            invariant
                *n == old_n,
                Node::Interior(old_n).well_formed(lo, hi, h, true),
                0 <= i <= n.key_seq().len(),
                r == key.rank(),
                forall|j: int| 0 <= j < i ==> #[trigger] n.key_seq()[j].rank() <= r,
            decreases n.key_seq().len() - i,
        {
            i += 1;
        }
        let ghost clo = child_lo(lo, old_n.key_seq(), i as int);
        let ghost chi = child_hi(hi, old_n.key_seq(), i as int);
        proof {
            Node::lemma_split_at(old_n, lo, hi, h, true, i as int);
            assert(old_n.child_seq()[i as int].well_formed(clo, chi, (h - 1) as nat, true));
            lemma_frame(
                entries_of(old_n.child_seq().take(i as int)),
                old_n.child_seq()[i as int].entries(),
                entries_of(old_n.child_seq().skip(i as int + 1)),
                r,
            );
        }
        let ghost lm = min_leaf_keys(FANOUT as int);
        let mut child = n.replace_child(i, Node::Invalid);
        let child_lost = Self::remove_from(
            &mut child,
            key,
            Ghost(clo),
            Ghost(chi),
            Ghost((h - 1) as nat),
            Ghost(lm),
        );
        let ghost new_child = child;
        let _ = n.replace_child(i, child);
        proof {
            assert(n.child_seq() =~= old_n.child_seq().update(i as int, new_child));
            lemma_child_removed(old_n, *n, i as int, lo, hi, h, r);
        }
        proof {
            lemma_replace_child_bounded(old_n, *n, i as int, h);
        }
        if !child_lost {
            proof {
                lemma_replace_child_fits(old_n, *n, i as int, h, m);
            }
            return false;
        }
        let (is_leaf, underflow) = match n.child(i) {
            Node::Leaf(l) => (true, l.num_keys < (FANOUT - 1) / 2),
            Node::Interior(c) => (false, c.num_keys < FANOUT / 2),
            Node::Invalid => (false, false),
        };
        if !underflow {
            proof {
                lemma_child_kept(old_n, *n, i as int, lo, hi, h);
                if Node::Interior(old_n).fits(h, m) {
                    n.child_seq()[i as int].lemma_fits_rebound((h - 1) as nat, lm - 1, lm);
                }
                lemma_replace_child_fits(old_n, *n, i as int, h, m);
            }
            return false;
        }
        let ghost before = *n;
        proof {
            if Node::Interior(old_n).fits(h, m) {
                assert forall|t: int| 0 <= t < before.child_seq().len() && t != i implies (
                #[trigger] before.child_seq()[t]).fits((h - 1) as nat, lm) by {
                    assert(before.child_seq()[t] == old_n.child_seq()[t]);
                }
                assert(ready_to_rebalance(before, i as int, h));
            }
            if Node::Interior(old_n).bounded(h) {
                assert forall|t: int| 0 <= t < before.child_seq().len() implies (
                #[trigger] before.child_seq()[t]).bounded((h - 1) as nat) by {
                    if t != i {
                        assert(before.child_seq()[t] == old_n.child_seq()[t]);
                    }
                }
                assert(ready_to_rebalance_bounded(before, i as int, h));
            }
        }
        let merged = if is_leaf {
            Self::rebalance_leaf(n, i, Ghost(lo), Ghost(hi))
        } else {
            Self::rebalance_interior(n, i, Ghost(lo), Ghost(hi), Ghost(h))
        };
        proof {
            if Node::Interior(old_n).fits(h, m) {
                assert(before.key_seq().len() >= m);
                Node::Interior(*n).lemma_fits_rebound(h, 0, if merged { m - 1 } else { m });
            }
        }
        merged
    }
}

// ---------------------------------------------------------------------------
// Leaves
// ---------------------------------------------------------------------------

/// Removing position `i` from a well-formed leaf removes the entry of that key.
pub proof fn lemma_leaf_remove<K: Key, V>(
    keys: Seq<K>,
    recs: Seq<V>,
    i: int,
    lo: Option<int>,
    hi: Option<int>,
)
    requires
        keys.len() == recs.len(),
        keys_sorted(keys),
        forall|t: int| 0 <= t < keys.len() ==> at_least(lo, #[trigger] keys[t].rank()) && below(keys[t].rank(), hi),
        0 <= i < keys.len(),
    ensures
        zip_entries(keys.remove(i), recs.remove(i)) == erase(zip_entries(keys, recs), keys[i].rank()),
        keys_sorted(keys.remove(i)),
        forall|t: int| 0 <= t < keys.len() - 1 ==> at_least(lo, #[trigger] keys.remove(i)[t].rank()) && below(keys.remove(i)[t].rank(), hi),
{
    let e = zip_entries(keys, recs);
    let r = keys[i].rank();
    assert(entries_sorted(e));
    lemma_sorted_split(e, i);
    lemma_frame(e.take(i), seq![e[i]], e.skip(i + 1), r);
    lemma_filter_single(e[i], rank_ne::<K, V>(r));
    assert(zip_entries(keys.remove(i), recs.remove(i)) =~= e.take(i) + Seq::<(K, V)>::empty() + e.skip(i + 1));
    let nk = keys.remove(i);
    assert forall|a: int, b: int| 0 <= a < b < nk.len() implies nk[a].rank() < nk[b].rank() by {
        let a0 = if a < i { a } else { a + 1 };
        let b0 = if b < i { b } else { b + 1 };
        assert(nk[a] == keys[a0]);
        assert(nk[b] == keys[b0]);
    }
    assert forall|t: int| 0 <= t < keys.len() - 1 implies at_least(lo, #[trigger] nk[t].rank()) && below(nk[t].rank(), hi) by {
        let t0 = if t < i { t } else { t + 1 };
        assert(nk[t] == keys[t0]);
    }
}

/// A leaf without the key of rank `r` is untouched by erasing it.
pub proof fn lemma_leaf_absent<K: Key, V>(keys: Seq<K>, recs: Seq<V>, r: int)
    requires
        keys.len() == recs.len(),
        forall|t: int| 0 <= t < keys.len() ==> #[trigger] keys[t].rank() != r,
    ensures
        erase(zip_entries(keys, recs), r) == zip_entries(keys, recs),
{
    let e = zip_entries(keys, recs);
    assert forall|t: int| 0 <= t < e.len() implies (#[trigger] rank_ne::<K, V>(r))(e[t]) by {
        assert(e[t].0 == keys[t]);
    }
    lemma_filter_all(e, rank_ne::<K, V>(r));
}

/// Two adjacent leaves merged into one.
pub proof fn lemma_leaf_merge<const FANOUT: usize, K: Key, V: Record>(
    f: Leaf<FANOUT, K, V>,
    s: Leaf<FANOUT, K, V>,
    m: Leaf<FANOUT, K, V>,
    lo: Option<int>,
    d: int,
    hi: Option<int>,
)
    requires
        f.well_formed(lo, Some(d)),
        s.well_formed(Some(d), hi),
        at_least(lo, d),
        below(d, hi),
        m.slots_ok(),
        m.key_seq() == f.key_seq() + s.key_seq(),
        m.record_seq() == f.record_seq() + s.record_seq(),
    ensures
        m.well_formed(lo, hi),
        m.entries() == f.entries() + s.entries(),
{
    assert(m.entries() =~= f.entries() + s.entries());
    assert forall|a: int, b: int| 0 <= a < b < m.key_seq().len() implies m.key_seq()[a].rank() < m.key_seq()[b].rank() by {
        if b < f.key_seq().len() {
        } else if a >= f.key_seq().len() {
            assert(m.key_seq()[a] == s.key_seq()[a - f.key_seq().len()]);
            assert(m.key_seq()[b] == s.key_seq()[b - f.key_seq().len()]);
        } else {
            assert(m.key_seq()[b] == s.key_seq()[b - f.key_seq().len()]);
        }
    }
    assert forall|t: int| 0 <= t < m.key_seq().len() implies at_least(lo, #[trigger] m.key_seq()[t].rank()) && below(m.key_seq()[t].rank(), hi) by {
        if t < f.key_seq().len() {
            assert(below(f.key_seq()[t].rank(), Some(d)));
        } else {
            assert(m.key_seq()[t] == s.key_seq()[t - f.key_seq().len()]);
        }
    }
}

/// The first key of the right leaf moved to the end of the left one.
pub proof fn lemma_leaf_borrow_right<const FANOUT: usize, K: Key, V: Record>(
    f: Leaf<FANOUT, K, V>,
    s: Leaf<FANOUT, K, V>,
    f2: Leaf<FANOUT, K, V>,
    s2: Leaf<FANOUT, K, V>,
    lo: Option<int>,
    d: int,
    hi: Option<int>,
)
    requires
        f.well_formed(lo, Some(d)),
        s.well_formed(Some(d), hi),
        at_least(lo, d),
        below(d, hi),
        s.key_seq().len() >= 2,
        f2.slots_ok(),
        f2.key_seq() == f.key_seq().push(s.key_seq()[0]),
        f2.record_seq() == f.record_seq().push(s.record_seq()[0]),
        s2.slots_ok(),
        s2.key_seq() == s.key_seq().remove(0),
        s2.record_seq() == s.record_seq().remove(0),
    ensures
        above(lo, s2.key_seq()[0].rank()),
        below(s2.key_seq()[0].rank(), hi),
        f2.well_formed(lo, Some(s2.key_seq()[0].rank())),
        s2.well_formed(Some(s2.key_seq()[0].rank()), hi),
        f2.entries() + s2.entries() == f.entries() + s.entries(),
{
    let kk = s.key_seq()[1];
    assert(s2.key_seq()[0] == kk);
    assert(s.key_seq()[0].rank() < kk.rank());
    assert(f2.entries() + s2.entries() =~= f.entries() + s.entries());
    assert forall|a: int, b: int| 0 <= a < b < s2.key_seq().len() implies s2.key_seq()[a].rank() < s2.key_seq()[b].rank() by {
        assert(s2.key_seq()[a] == s.key_seq()[a + 1]);
        assert(s2.key_seq()[b] == s.key_seq()[b + 1]);
    }
    assert forall|t: int| 0 <= t < s2.key_seq().len() implies at_least(Some(kk.rank()), #[trigger] s2.key_seq()[t].rank()) && below(s2.key_seq()[t].rank(), hi) by {
        assert(s2.key_seq()[t] == s.key_seq()[t + 1]);
        if t > 0 {
            assert(s.key_seq()[1].rank() < s.key_seq()[t + 1].rank());
        }
    }
    assert forall|a: int, b: int| 0 <= a < b < f2.key_seq().len() implies f2.key_seq()[a].rank() < f2.key_seq()[b].rank() by {
        if b == f.key_seq().len() {
            assert(below(f.key_seq()[a].rank(), Some(d)));
        }
    }
    assert forall|t: int| 0 <= t < f2.key_seq().len() implies at_least(lo, #[trigger] f2.key_seq()[t].rank()) && below(f2.key_seq()[t].rank(), Some(kk.rank())) by {
        if t < f.key_seq().len() {
            assert(below(f.key_seq()[t].rank(), Some(d)));
        }
    }
}

/// The last key of the left leaf moved to the front of the right one.
pub proof fn lemma_leaf_borrow_left<const FANOUT: usize, K: Key, V: Record>(
    f: Leaf<FANOUT, K, V>,
    s: Leaf<FANOUT, K, V>,
    f2: Leaf<FANOUT, K, V>,
    s2: Leaf<FANOUT, K, V>,
    lo: Option<int>,
    d: int,
    hi: Option<int>,
)
    requires
        f.well_formed(lo, Some(d)),
        s.well_formed(Some(d), hi),
        at_least(lo, d),
        below(d, hi),
        f.key_seq().len() >= 2,
        f2.slots_ok(),
        f2.key_seq() == f.key_seq().drop_last(),
        f2.record_seq() == f.record_seq().drop_last(),
        s2.slots_ok(),
        s2.key_seq() == s.key_seq().insert(0, f.key_seq().last()),
        s2.record_seq() == s.record_seq().insert(0, f.record_seq().last()),
    ensures
        above(lo, s2.key_seq()[0].rank()),
        below(s2.key_seq()[0].rank(), hi),
        f2.well_formed(lo, Some(s2.key_seq()[0].rank())),
        s2.well_formed(Some(s2.key_seq()[0].rank()), hi),
        f2.entries() + s2.entries() == f.entries() + s.entries(),
{
    let n = f.key_seq().len();
    let kk = f.key_seq()[n - 1];
    assert(s2.key_seq()[0] == kk);
    assert(f.key_seq()[0].rank() < kk.rank());
    assert(below(kk.rank(), Some(d)));
    assert(f2.entries() + s2.entries() =~= f.entries() + s.entries());
    assert forall|a: int, b: int| 0 <= a < b < s2.key_seq().len() implies s2.key_seq()[a].rank() < s2.key_seq()[b].rank() by {
        assert(s2.key_seq()[b] == s.key_seq()[b - 1]);
        if a > 0 {
            assert(s2.key_seq()[a] == s.key_seq()[a - 1]);
        } else {
            assert(at_least(Some(d), s.key_seq()[b - 1].rank()));
        }
    }
    assert forall|t: int| 0 <= t < s2.key_seq().len() implies at_least(Some(kk.rank()), #[trigger] s2.key_seq()[t].rank()) && below(s2.key_seq()[t].rank(), hi) by {
        if t > 0 {
            assert(s2.key_seq()[t] == s.key_seq()[t - 1]);
            assert(at_least(Some(d), s.key_seq()[t - 1].rank()));
        }
    }
    assert forall|t: int| 0 <= t < f2.key_seq().len() implies at_least(lo, #[trigger] f2.key_seq()[t].rank()) && below(f2.key_seq()[t].rank(), Some(kk.rank())) by {
        assert(f2.key_seq()[t] == f.key_seq()[t]);
    }
}

/// Siblings `j` and `j + 1` of a node whose children are leaves, with the
/// separator between them.
pub proof fn lemma_leaf_siblings<const FANOUT: usize, K: Key, V: Record>(
    n: Interior<FANOUT, K, V>,
    j: int,
    lo: Option<int>,
    hi: Option<int>,
)
    requires
        n.keys_ok(lo, hi),
        0 <= j < n.key_seq().len(),
        forall|t: int|
            0 <= t < n.child_seq().len() ==> (#[trigger] n.child_seq()[t]).well_formed(
                child_lo(lo, n.key_seq(), t),
                child_hi(hi, n.key_seq(), t),
                0,
                true,
            ),
    ensures
        n.child_seq()[j] is Leaf,
        n.child_seq()[j + 1] is Leaf,
        n.child_seq()[j]->Leaf_0.well_formed(child_lo(lo, n.key_seq(), j), Some(n.key_seq()[j].rank())),
        n.child_seq()[j + 1]->Leaf_0.well_formed(Some(n.key_seq()[j].rank()), child_hi(hi, n.key_seq(), j + 1)),
        at_least(child_lo(lo, n.key_seq(), j), n.key_seq()[j].rank()),
        below(n.key_seq()[j].rank(), child_hi(hi, n.key_seq(), j + 1)),
{
    assert(n.child_seq()[j].well_formed(child_lo(lo, n.key_seq(), j), child_hi(hi, n.key_seq(), j), 0, true));
    assert(n.child_seq()[j + 1].well_formed(child_lo(lo, n.key_seq(), j + 1), child_hi(hi, n.key_seq(), j + 1), 0, true));
    if j > 0 {
        assert(n.key_seq()[j - 1].rank() < n.key_seq()[j].rank());
    }
    if j + 1 < n.key_seq().len() {
        assert(n.key_seq()[j].rank() < n.key_seq()[j + 1].rank());
    }
}

pub proof fn lemma_leaf_pair_merged<const FANOUT: usize, K: Key, V: Record>(
    old_n: Interior<FANOUT, K, V>,
    mid: Interior<FANOUT, K, V>,
    new_n: Interior<FANOUT, K, V>,
    j: int,
    lo: Option<int>,
    hi: Option<int>,
)
    requires
        old_n.keys_ok(lo, hi),
        FANOUT >= 3,
        0 <= j < old_n.key_seq().len(),
        forall|t: int|
            0 <= t < old_n.child_seq().len() ==> (#[trigger] old_n.child_seq()[t]).well_formed(
                child_lo(lo, old_n.key_seq(), t),
                child_hi(hi, old_n.key_seq(), t),
                0,
                true,
            ),
        old_n.child_seq()[j] is Leaf,
        old_n.child_seq()[j + 1] is Leaf,
        mid.slots_ok(),
        mid.key_seq() == old_n.key_seq(),
        mid.child_seq().len() == old_n.child_seq().len(),
        forall|t: int| 0 <= t < old_n.child_seq().len() && t != j && t != j + 1 ==> mid.child_seq()[t] == old_n.child_seq()[t],
        mid.child_seq()[j] is Leaf,
        mid.child_seq()[j]->Leaf_0.slots_ok(),
        mid.child_seq()[j]->Leaf_0.key_seq() == old_n.child_seq()[j]->Leaf_0.key_seq() + old_n.child_seq()[j + 1]->Leaf_0.key_seq(),
        mid.child_seq()[j]->Leaf_0.record_seq() == old_n.child_seq()[j]->Leaf_0.record_seq() + old_n.child_seq()[j + 1]->Leaf_0.record_seq(),
        new_n.slots_ok(),
        new_n.key_seq() == mid.key_seq().remove(j),
        new_n.child_seq() == mid.child_seq().remove(j + 1),
    ensures
        Node::Interior(new_n).entries() == Node::Interior(old_n).entries(),
        Node::Interior(new_n).well_formed(lo, hi, 1, false),
        new_n.key_seq().len() == old_n.key_seq().len() - 1,
{
    lemma_leaf_siblings(old_n, j, lo, hi);
    let f0 = old_n.child_seq()[j]->Leaf_0;
    let s0 = old_n.child_seq()[j + 1]->Leaf_0;
    let f1 = mid.child_seq()[j]->Leaf_0;
    let d = old_n.key_seq()[j].rank();
    lemma_leaf_merge(f0, s0, f1, child_lo(lo, old_n.key_seq(), j), d, child_hi(hi, old_n.key_seq(), j + 1));
    assert(new_n.child_seq() =~= old_n.child_seq().update(j, new_n.child_seq()[j]).remove(j + 1));
    Node::lemma_pair_merge(old_n, new_n, j, lo, hi, 1);
    lemma_entries_of_pair(old_n.child_seq(), j);
    assert(Node::Interior(new_n).entries() =~= Node::Interior(old_n).entries());
}

pub proof fn lemma_leaf_pair_borrowed<const FANOUT: usize, K: Key, V: Record>(
    old_n: Interior<FANOUT, K, V>,
    new_n: Interior<FANOUT, K, V>,
    j: int,
    s1: Leaf<FANOUT, K, V>,
    lo: Option<int>,
    hi: Option<int>,
)
    requires
        old_n.keys_ok(lo, hi),
        FANOUT >= 3,
        old_n.key_seq().len() >= 1,
        0 <= j < old_n.key_seq().len(),
        forall|t: int|
            0 <= t < old_n.child_seq().len() ==> (#[trigger] old_n.child_seq()[t]).well_formed(
                child_lo(lo, old_n.key_seq(), t),
                child_hi(hi, old_n.key_seq(), t),
                0,
                true,
            ),
        old_n.child_seq()[j] is Leaf,
        old_n.child_seq()[j + 1] is Leaf,
        new_n.child_seq().len() == old_n.child_seq().len(),
        forall|t: int| 0 <= t < old_n.child_seq().len() && t != j && t != j + 1 ==> new_n.child_seq()[t] == old_n.child_seq()[t],
        new_n.child_seq()[j] is Leaf,
        new_n.child_seq()[j + 1] == Node::Leaf(s1),
        new_n.child_seq()[j]->Leaf_0.slots_ok(),
        s1.slots_ok(),
        new_n.slots_ok(),
        new_n.key_seq() == old_n.key_seq().update(j, s1.key_seq()[0]),
        ({
            let f0 = old_n.child_seq()[j]->Leaf_0;
            let s0 = old_n.child_seq()[j + 1]->Leaf_0;
            let f1 = new_n.child_seq()[j]->Leaf_0;
            &&& f0.key_seq().len() + s0.key_seq().len() >= FANOUT
            &&& f0.key_seq().len() < s0.key_seq().len() ==> {
                &&& f1.key_seq() == f0.key_seq().push(s0.key_seq()[0])
                &&& f1.record_seq() == f0.record_seq().push(s0.record_seq()[0])
                &&& s1.key_seq() == s0.key_seq().remove(0)
                &&& s1.record_seq() == s0.record_seq().remove(0)
            }
            &&& f0.key_seq().len() >= s0.key_seq().len() ==> {
                &&& f1.key_seq() == f0.key_seq().drop_last()
                &&& f1.record_seq() == f0.record_seq().drop_last()
                &&& s1.key_seq() == s0.key_seq().insert(0, f0.key_seq().last())
                &&& s1.record_seq() == s0.record_seq().insert(0, f0.record_seq().last())
            }
        }),
    ensures
        Node::Interior(new_n).entries() == Node::Interior(old_n).entries(),
        Node::Interior(new_n).well_formed(lo, hi, 1, true),
        new_n.key_seq().len() == old_n.key_seq().len(),
{
    lemma_leaf_siblings(old_n, j, lo, hi);
    let f0 = old_n.child_seq()[j]->Leaf_0;
    let s0 = old_n.child_seq()[j + 1]->Leaf_0;
    let f1 = new_n.child_seq()[j]->Leaf_0;
    let d = old_n.key_seq()[j].rank();
    let lo_j = child_lo(lo, old_n.key_seq(), j);
    let hi_j1 = child_hi(hi, old_n.key_seq(), j + 1);
    if f0.key_seq().len() < s0.key_seq().len() {
        lemma_leaf_borrow_right(f0, s0, f1, s1, lo_j, d, hi_j1);
    } else {
        lemma_leaf_borrow_left(f0, s0, f1, s1, lo_j, d, hi_j1);
    }
    assert(new_n.child_seq() =~= old_n.child_seq().update(j, new_n.child_seq()[j]).update(j + 1, new_n.child_seq()[j + 1]));
    Node::lemma_pair_replace(old_n, new_n, j, s1.key_seq()[0], lo, hi, 1);
    lemma_entries_of_pair(old_n.child_seq(), j);
    assert(Node::Interior(new_n).entries() =~= Node::Interior(old_n).entries());
}

// ---------------------------------------------------------------------------
// Interior nodes
// ---------------------------------------------------------------------------

/// Two adjacent interior nodes merged around the separator `d` between them.
pub proof fn lemma_interior_merge<const FANOUT: usize, K: Key, V: Record>(
    a: Interior<FANOUT, K, V>,
    b: Interior<FANOUT, K, V>,
    m: Interior<FANOUT, K, V>,
    d: K,
    lo: Option<int>,
    hi: Option<int>,
    h: nat,
)
    requires
        Node::Interior(a).well_formed(lo, Some(d.rank()), h, false),
        Node::Interior(b).well_formed(Some(d.rank()), hi, h, false),
        above(lo, d.rank()),
        below(d.rank(), hi),
        m.slots_ok(),
        m.key_seq() == a.key_seq().push(d) + b.key_seq(),
        m.child_seq() == a.child_seq() + b.child_seq(),
    ensures
        Node::Interior(m).well_formed(lo, hi, h, true),
        Node::Interior(m).entries() == Node::Interior(a).entries() + Node::Interior(b).entries(),
{
    let p = a.key_seq().len() as int;
    let mk = m.key_seq();
    lemma_entries_of_add(a.child_seq(), b.child_seq());
    assert forall|x: int, y: int| 0 <= x < y < mk.len() implies mk[x].rank() < mk[y].rank() by {
        if y < p {
            assert(mk[x] == a.key_seq()[x]);
            assert(mk[y] == a.key_seq()[y]);
        } else if y == p {
            assert(mk[x] == a.key_seq()[x]);
            assert(below(a.key_seq()[x].rank(), Some(d.rank())));
        } else if x > p {
            assert(mk[x] == b.key_seq()[x - p - 1]);
            assert(mk[y] == b.key_seq()[y - p - 1]);
        } else if x == p {
            assert(mk[y] == b.key_seq()[y - p - 1]);
            assert(above(Some(d.rank()), b.key_seq()[y - p - 1].rank()));
        } else {
            assert(mk[x] == a.key_seq()[x]);
            assert(mk[y] == b.key_seq()[y - p - 1]);
            assert(below(a.key_seq()[x].rank(), Some(d.rank())));
            assert(above(Some(d.rank()), b.key_seq()[y - p - 1].rank()));
        }
    }
    assert forall|x: int| 0 <= x < mk.len() implies above(lo, #[trigger] mk[x].rank()) && below(mk[x].rank(), hi) by {
        if x < p {
            assert(mk[x] == a.key_seq()[x]);
            assert(below(a.key_seq()[x].rank(), Some(d.rank())));
        } else if x > p {
            assert(mk[x] == b.key_seq()[x - p - 1]);
            assert(above(Some(d.rank()), b.key_seq()[x - p - 1].rank()));
        }
    }
    assert forall|t: int| 0 <= t < m.child_seq().len() implies (#[trigger] m.child_seq()[t]).well_formed(
        child_lo(lo, mk, t),
        child_hi(hi, mk, t),
        (h - 1) as nat,
        true,
    ) by {
        if t <= p {
            assert(m.child_seq()[t] == a.child_seq()[t]);
            assert(child_lo(lo, mk, t) == child_lo(lo, a.key_seq(), t));
            assert(child_hi(hi, mk, t) == child_hi(Some(d.rank()), a.key_seq(), t));
        } else {
            let u = t - p - 1;
            assert(m.child_seq()[t] == b.child_seq()[u]);
            assert(child_lo(lo, mk, t) == child_lo(Some(d.rank()), b.key_seq(), u));
            assert(child_hi(hi, mk, t) == child_hi(hi, b.key_seq(), u));
        }
    }
}

/// The first child of the right node moved under the left one, with the
/// separator `d` coming down and the right node's first key going up.
pub proof fn lemma_interior_borrow_right<const FANOUT: usize, K: Key, V: Record>(
    a: Interior<FANOUT, K, V>,
    b: Interior<FANOUT, K, V>,
    a2: Interior<FANOUT, K, V>,
    b2: Interior<FANOUT, K, V>,
    d: K,
    lo: Option<int>,
    hi: Option<int>,
    h: nat,
)
    requires
        Node::Interior(a).well_formed(lo, Some(d.rank()), h, false),
        Node::Interior(b).well_formed(Some(d.rank()), hi, h, false),
        above(lo, d.rank()),
        below(d.rank(), hi),
        b.key_seq().len() >= 2,
        a2.slots_ok(),
        a2.key_seq() == a.key_seq().push(d),
        a2.child_seq() == a.child_seq().push(b.child_seq()[0]),
        b2.slots_ok(),
        b2.key_seq() == b.key_seq().remove(0),
        b2.child_seq() == b.child_seq().remove(0),
    ensures
        above(lo, b.key_seq()[0].rank()),
        below(b.key_seq()[0].rank(), hi),
        Node::Interior(a2).well_formed(lo, Some(b.key_seq()[0].rank()), h, true),
        Node::Interior(b2).well_formed(Some(b.key_seq()[0].rank()), hi, h, true),
        Node::Interior(a2).entries() + Node::Interior(b2).entries() == Node::Interior(a).entries()
            + Node::Interior(b).entries(),
{
    let p = a.key_seq().len() as int;
    let kk = b.key_seq()[0].rank();
    let ak = a2.key_seq();
    let bk = b2.key_seq();
    assert(above(Some(d.rank()), kk));
    assert(below(kk, hi));
    assert forall|x: int, y: int| 0 <= x < y < ak.len() implies ak[x].rank() < ak[y].rank() by {
        if y == p {
            assert(below(a.key_seq()[x].rank(), Some(d.rank())));
        }
    }
    assert forall|x: int| 0 <= x < ak.len() implies above(lo, #[trigger] ak[x].rank()) && below(ak[x].rank(), Some(kk)) by {
        if x < p {
            assert(below(a.key_seq()[x].rank(), Some(d.rank())));
        }
    }
    assert forall|t: int| 0 <= t < a2.child_seq().len() implies (#[trigger] a2.child_seq()[t]).well_formed(
        child_lo(lo, ak, t),
        child_hi(Some(kk), ak, t),
        (h - 1) as nat,
        true,
    ) by {
        if t <= p {
            assert(a2.child_seq()[t] == a.child_seq()[t]);
            assert(child_lo(lo, ak, t) == child_lo(lo, a.key_seq(), t));
            assert(child_hi(Some(kk), ak, t) == child_hi(Some(d.rank()), a.key_seq(), t));
        } else {
            assert(a2.child_seq()[t] == b.child_seq()[0]);
            assert(child_lo(lo, ak, t) == child_lo(Some(d.rank()), b.key_seq(), 0));
            assert(child_hi(Some(kk), ak, t) == child_hi(hi, b.key_seq(), 0));
        }
    }
    assert forall|x: int, y: int| 0 <= x < y < bk.len() implies bk[x].rank() < bk[y].rank() by {
        assert(bk[x] == b.key_seq()[x + 1]);
        assert(bk[y] == b.key_seq()[y + 1]);
    }
    assert forall|x: int| 0 <= x < bk.len() implies above(Some(kk), #[trigger] bk[x].rank()) && below(bk[x].rank(), hi) by {
        assert(bk[x] == b.key_seq()[x + 1]);
    }
    assert forall|t: int| 0 <= t < b2.child_seq().len() implies (#[trigger] b2.child_seq()[t]).well_formed(
        child_lo(Some(kk), bk, t),
        child_hi(hi, bk, t),
        (h - 1) as nat,
        true,
    ) by {
        assert(b2.child_seq()[t] == b.child_seq()[t + 1]);
        assert(child_lo(Some(kk), bk, t) == child_lo(Some(d.rank()), b.key_seq(), t + 1));
        assert(child_hi(hi, bk, t) == child_hi(hi, b.key_seq(), t + 1));
    }
    lemma_entries_of_push(a.child_seq(), b.child_seq()[0]);
    assert(b.child_seq() =~= seq![b.child_seq()[0]] + b2.child_seq());
    lemma_entries_of_add(seq![b.child_seq()[0]], b2.child_seq());
    lemma_entries_of_single(b.child_seq()[0]);
    assert(Node::Interior(a2).entries() + Node::Interior(b2).entries() =~= Node::Interior(a).entries()
        + Node::Interior(b).entries());
}

/// The last child of the left node moved under the right one, with the
/// separator `d` coming down and the left node's last key going up.
pub proof fn lemma_interior_borrow_left<const FANOUT: usize, K: Key, V: Record>(
    a: Interior<FANOUT, K, V>,
    b: Interior<FANOUT, K, V>,
    a2: Interior<FANOUT, K, V>,
    b2: Interior<FANOUT, K, V>,
    d: K,
    lo: Option<int>,
    hi: Option<int>,
    h: nat,
)
    requires
        Node::Interior(a).well_formed(lo, Some(d.rank()), h, false),
        Node::Interior(b).well_formed(Some(d.rank()), hi, h, false),
        above(lo, d.rank()),
        below(d.rank(), hi),
        a.key_seq().len() >= 2,
        a2.slots_ok(),
        a2.key_seq() == a.key_seq().drop_last(),
        a2.child_seq() == a.child_seq().drop_last(),
        b2.slots_ok(),
        b2.key_seq() == b.key_seq().insert(0, d),
        b2.child_seq() == b.child_seq().insert(0, a.child_seq().last()),
    ensures
        above(lo, a.key_seq().last().rank()),
        below(a.key_seq().last().rank(), hi),
        Node::Interior(a2).well_formed(lo, Some(a.key_seq().last().rank()), h, true),
        Node::Interior(b2).well_formed(Some(a.key_seq().last().rank()), hi, h, true),
        Node::Interior(a2).entries() + Node::Interior(b2).entries() == Node::Interior(a).entries()
            + Node::Interior(b).entries(),
{
    let p = a.key_seq().len() as int;
    let kk = a.key_seq()[p - 1].rank();
    let ak = a2.key_seq();
    let bk = b2.key_seq();
    assert(below(kk, Some(d.rank())));
    assert(above(lo, kk));
    assert forall|x: int| 0 <= x < ak.len() implies above(lo, #[trigger] ak[x].rank()) && below(ak[x].rank(), Some(kk)) by {
        assert(ak[x] == a.key_seq()[x]);
    }
    assert forall|t: int| 0 <= t < a2.child_seq().len() implies (#[trigger] a2.child_seq()[t]).well_formed(
        child_lo(lo, ak, t),
        child_hi(Some(kk), ak, t),
        (h - 1) as nat,
        true,
    ) by {
        assert(a2.child_seq()[t] == a.child_seq()[t]);
        assert(child_lo(lo, ak, t) == child_lo(lo, a.key_seq(), t));
        assert(child_hi(Some(kk), ak, t) == child_hi(Some(d.rank()), a.key_seq(), t));
    }
    assert forall|x: int, y: int| 0 <= x < y < bk.len() implies bk[x].rank() < bk[y].rank() by {
        assert(bk[y] == b.key_seq()[y - 1]);
        assert(above(Some(d.rank()), b.key_seq()[y - 1].rank()));
        if x > 0 {
            assert(bk[x] == b.key_seq()[x - 1]);
        }
    }
    assert forall|x: int| 0 <= x < bk.len() implies above(Some(kk), #[trigger] bk[x].rank()) && below(bk[x].rank(), hi) by {
        if x > 0 {
            assert(bk[x] == b.key_seq()[x - 1]);
            assert(above(Some(d.rank()), b.key_seq()[x - 1].rank()));
        }
    }
    assert forall|t: int| 0 <= t < b2.child_seq().len() implies (#[trigger] b2.child_seq()[t]).well_formed(
        child_lo(Some(kk), bk, t),
        child_hi(hi, bk, t),
        (h - 1) as nat,
        true,
    ) by {
        if t == 0 {
            assert(b2.child_seq()[0] == a.child_seq()[p]);
            assert(child_lo(Some(kk), bk, 0) == child_lo(lo, a.key_seq(), p));
            assert(child_hi(hi, bk, 0) == child_hi(Some(d.rank()), a.key_seq(), p));
        } else {
            assert(b2.child_seq()[t] == b.child_seq()[t - 1]);
            assert(child_lo(Some(kk), bk, t) == child_lo(Some(d.rank()), b.key_seq(), t - 1));
            assert(child_hi(hi, bk, t) == child_hi(hi, b.key_seq(), t - 1));
        }
    }
    assert(a.child_seq() =~= a2.child_seq().push(a.child_seq()[p]));
    lemma_entries_of_push(a2.child_seq(), a.child_seq()[p]);
    assert(b2.child_seq() =~= seq![a.child_seq()[p]] + b.child_seq());
    lemma_entries_of_add(seq![a.child_seq()[p]], b.child_seq());
    lemma_entries_of_single(a.child_seq()[p]);
    assert(Node::Interior(a2).entries() + Node::Interior(b2).entries() =~= Node::Interior(a).entries()
        + Node::Interior(b).entries());
}

/// Siblings `j` and `j + 1` of a node whose children are interior nodes, all
/// well formed but child `i`, which may lack keys.
pub proof fn lemma_interior_siblings<const FANOUT: usize, K: Key, V: Record>(
    n: Interior<FANOUT, K, V>,
    j: int,
    i: int,
    lo: Option<int>,
    hi: Option<int>,
    h: nat,
)
    requires
        h >= 2,
        n.keys_ok(lo, hi),
        0 <= j < n.key_seq().len(),
        forall|t: int|
            0 <= t < n.child_seq().len() ==> (#[trigger] n.child_seq()[t]).well_formed(
                child_lo(lo, n.key_seq(), t),
                child_hi(hi, n.key_seq(), t),
                (h - 1) as nat,
                t != i,
            ),
    ensures
        n.child_seq()[j] is Interior,
        n.child_seq()[j + 1] is Interior,
        n.child_seq()[j].well_formed(child_lo(lo, n.key_seq(), j), Some(n.key_seq()[j].rank()), (h - 1) as nat, false),
        n.child_seq()[j + 1].well_formed(Some(n.key_seq()[j].rank()), child_hi(hi, n.key_seq(), j + 1), (h - 1) as nat, false),
        above(child_lo(lo, n.key_seq(), j), n.key_seq()[j].rank()),
        below(n.key_seq()[j].rank(), child_hi(hi, n.key_seq(), j + 1)),
{
    assert(n.child_seq()[j].well_formed(child_lo(lo, n.key_seq(), j), child_hi(hi, n.key_seq(), j), (h - 1) as nat, j != i));
    assert(n.child_seq()[j + 1].well_formed(child_lo(lo, n.key_seq(), j + 1), child_hi(hi, n.key_seq(), j + 1), (h - 1) as nat, j + 1 != i));
    if j > 0 {
        assert(n.key_seq()[j - 1].rank() < n.key_seq()[j].rank());
    }
    if j + 1 < n.key_seq().len() {
        assert(n.key_seq()[j].rank() < n.key_seq()[j + 1].rank());
    }
}

pub proof fn lemma_interior_pair_merged<const FANOUT: usize, K: Key, V: Record>(
    old_n: Interior<FANOUT, K, V>,
    mid: Interior<FANOUT, K, V>,
    new_n: Interior<FANOUT, K, V>,
    j: int,
    i: int,
    lo: Option<int>,
    hi: Option<int>,
    h: nat,
)
    requires
        h >= 2,
        old_n.keys_ok(lo, hi),
        0 <= j < old_n.key_seq().len(),
        i == j || i == j + 1,
        forall|t: int|
            0 <= t < old_n.child_seq().len() ==> (#[trigger] old_n.child_seq()[t]).well_formed(
                child_lo(lo, old_n.key_seq(), t),
                child_hi(hi, old_n.key_seq(), t),
                (h - 1) as nat,
                t != i,
            ),
        mid.slots_ok(),
        mid.key_seq() == old_n.key_seq(),
        mid.child_seq().len() == old_n.child_seq().len(),
        forall|t: int| 0 <= t < old_n.child_seq().len() && t != j && t != j + 1 ==> mid.child_seq()[t] == old_n.child_seq()[t],
        mid.child_seq()[j] is Interior,
        mid.child_seq()[j]->Interior_0.slots_ok(),
        old_n.child_seq()[j] is Interior,
        old_n.child_seq()[j + 1] is Interior,
        mid.child_seq()[j]->Interior_0.key_seq() == old_n.child_seq()[j]->Interior_0.key_seq().push(old_n.key_seq()[j])
            + old_n.child_seq()[j + 1]->Interior_0.key_seq(),
        mid.child_seq()[j]->Interior_0.child_seq() == old_n.child_seq()[j]->Interior_0.child_seq()
            + old_n.child_seq()[j + 1]->Interior_0.child_seq(),
        new_n.slots_ok(),
        new_n.key_seq() == mid.key_seq().remove(j),
        new_n.child_seq() == mid.child_seq().remove(j + 1),
    ensures
        Node::Interior(new_n).entries() == Node::Interior(old_n).entries(),
        Node::Interior(new_n).well_formed(lo, hi, h, false),
        new_n.key_seq().len() == old_n.key_seq().len() - 1,
{
    lemma_interior_siblings(old_n, j, i, lo, hi, h);
    let a = old_n.child_seq()[j]->Interior_0;
    let b = old_n.child_seq()[j + 1]->Interior_0;
    let m = mid.child_seq()[j]->Interior_0;
    let d = old_n.key_seq()[j];
    lemma_interior_merge(a, b, m, d, child_lo(lo, old_n.key_seq(), j), child_hi(hi, old_n.key_seq(), j + 1), (h - 1) as nat);
    assert(new_n.child_seq() =~= old_n.child_seq().update(j, new_n.child_seq()[j]).remove(j + 1));
    Node::lemma_pair_merge(old_n, new_n, j, lo, hi, h);
    lemma_entries_of_pair(old_n.child_seq(), j);
    assert(Node::Interior(new_n).entries() =~= Node::Interior(old_n).entries());
}

pub proof fn lemma_interior_pair_borrowed<const FANOUT: usize, K: Key, V: Record>(
    old_n: Interior<FANOUT, K, V>,
    new_n: Interior<FANOUT, K, V>,
    j: int,
    i: int,
    s1: Interior<FANOUT, K, V>,
    lo: Option<int>,
    hi: Option<int>,
    h: nat,
)
    requires
        h >= 2,
        FANOUT >= 3,
        old_n.keys_ok(lo, hi),
        old_n.key_seq().len() >= 1,
        0 <= j < old_n.key_seq().len(),
        i == j || i == j + 1,
        forall|t: int|
            0 <= t < old_n.child_seq().len() ==> (#[trigger] old_n.child_seq()[t]).well_formed(
                child_lo(lo, old_n.key_seq(), t),
                child_hi(hi, old_n.key_seq(), t),
                (h - 1) as nat,
                t != i,
            ),
        old_n.child_seq()[j] is Interior,
        old_n.child_seq()[j + 1] is Interior,
        new_n.child_seq().len() == old_n.child_seq().len(),
        forall|t: int| 0 <= t < old_n.child_seq().len() && t != j && t != j + 1 ==> new_n.child_seq()[t] == old_n.child_seq()[t],
        new_n.child_seq()[j] is Interior,
        new_n.child_seq()[j + 1] == Node::Interior(s1),
        new_n.child_seq()[j]->Interior_0.slots_ok(),
        new_n.slots_ok(),
        s1.slots_ok(),
        ({
            let a = old_n.child_seq()[j]->Interior_0;
            let b = old_n.child_seq()[j + 1]->Interior_0;
            let a2 = new_n.child_seq()[j]->Interior_0;
            let d = old_n.key_seq()[j];
            &&& a.key_seq().len() >= FANOUT - FANOUT / 2 || b.key_seq().len() >= FANOUT - FANOUT / 2
            &&& a.key_seq().len() < b.key_seq().len() ==> {
                &&& a2.key_seq() == a.key_seq().push(d)
                &&& a2.child_seq() == a.child_seq().push(b.child_seq()[0])
                &&& s1.key_seq() == b.key_seq().remove(0)
                &&& s1.child_seq() == b.child_seq().remove(0)
                &&& new_n.key_seq() == old_n.key_seq().update(j, b.key_seq()[0])
            }
            &&& a.key_seq().len() >= b.key_seq().len() ==> {
                &&& a2.key_seq() == a.key_seq().drop_last()
                &&& a2.child_seq() == a.child_seq().drop_last()
                &&& s1.key_seq() == b.key_seq().insert(0, d)
                &&& s1.child_seq() == b.child_seq().insert(0, a.child_seq().last())
                &&& new_n.key_seq() == old_n.key_seq().update(j, a.key_seq().last())
            }
        }),
    ensures
        Node::Interior(new_n).entries() == Node::Interior(old_n).entries(),
        Node::Interior(new_n).well_formed(lo, hi, h, true),
        new_n.key_seq().len() == old_n.key_seq().len(),
{
    lemma_interior_siblings(old_n, j, i, lo, hi, h);
    let a = old_n.child_seq()[j]->Interior_0;
    let b = old_n.child_seq()[j + 1]->Interior_0;
    let a2 = new_n.child_seq()[j]->Interior_0;
    let d = old_n.key_seq()[j];
    let lo_j = child_lo(lo, old_n.key_seq(), j);
    let hi_j1 = child_hi(hi, old_n.key_seq(), j + 1);
    if a.key_seq().len() < b.key_seq().len() {
        lemma_interior_borrow_right(a, b, a2, s1, d, lo_j, hi_j1, (h - 1) as nat);
        assert(new_n.child_seq() =~= old_n.child_seq().update(j, new_n.child_seq()[j]).update(j + 1, new_n.child_seq()[j + 1]));
        Node::lemma_pair_replace(old_n, new_n, j, b.key_seq()[0], lo, hi, h);
    } else {
        lemma_interior_borrow_left(a, b, a2, s1, d, lo_j, hi_j1, (h - 1) as nat);
        assert(new_n.child_seq() =~= old_n.child_seq().update(j, new_n.child_seq()[j]).update(j + 1, new_n.child_seq()[j + 1]));
        Node::lemma_pair_replace(old_n, new_n, j, a.key_seq().last(), lo, hi, h);
    }
    lemma_entries_of_pair(old_n.child_seq(), j);
    assert(new_n.child_seq()[j] == Node::Interior(a2));
    assert(old_n.child_seq()[j] == Node::Interior(a));
    assert(old_n.child_seq()[j + 1] == Node::Interior(b));
    let x = entries_of(old_n.child_seq().take(j));
    let y = entries_of(old_n.child_seq().skip(j + 2));
    let p = Node::Interior(a2).entries();
    let q = Node::Interior(s1).entries();
    assert(x + p + q + y =~= x + (p + q) + y);
    assert(x + Node::Interior(a).entries() + Node::Interior(b).entries() + y =~= x + (Node::Interior(a).entries()
        + Node::Interior(b).entries()) + y);
}

/// After the entry of rank `r` was removed under child `i`, the node holds
/// the entries but that one, its other children are untouched, and child `i`
/// is well formed but perhaps for its own number of keys.
pub proof fn lemma_child_removed<const FANOUT: usize, K: Key, V: Record>(
    old_n: Interior<FANOUT, K, V>,
    new_n: Interior<FANOUT, K, V>,
    i: int,
    lo: Option<int>,
    hi: Option<int>,
    h: nat,
    r: int,
)
    requires
        Node::Interior(old_n).well_formed(lo, hi, h, true),
        0 <= i < old_n.child_seq().len(),
        new_n.slots_ok(),
        new_n.key_seq() == old_n.key_seq(),
        new_n.child_seq() == old_n.child_seq().update(i, new_n.child_seq()[i]),
        new_n.child_seq()[i].entries() == erase(old_n.child_seq()[i].entries(), r),
        Node::Interior(old_n).entries() == entries_of(old_n.child_seq().take(i)) + old_n.child_seq()[i].entries()
            + entries_of(old_n.child_seq().skip(i + 1)),
        erase(Node::Interior(old_n).entries(), r) == entries_of(old_n.child_seq().take(i)) + erase(
            old_n.child_seq()[i].entries(),
            r,
        ) + entries_of(old_n.child_seq().skip(i + 1)),
    ensures
        Node::Interior(new_n).entries() == erase(Node::Interior(old_n).entries(), r),
        forall|t: int|
            0 <= t < new_n.child_seq().len() && t != i ==> (#[trigger] new_n.child_seq()[t]).well_formed(
                child_lo(lo, new_n.key_seq(), t),
                child_hi(hi, new_n.key_seq(), t),
                (h - 1) as nat,
                true,
            ),
{
    lemma_entries_of_split(new_n.child_seq(), i);
    assert(new_n.child_seq().take(i) =~= old_n.child_seq().take(i));
    assert(new_n.child_seq().skip(i + 1) =~= old_n.child_seq().skip(i + 1));
    assert forall|t: int| 0 <= t < new_n.child_seq().len() && t != i implies (#[trigger] new_n.child_seq()[t]).well_formed(
        child_lo(lo, new_n.key_seq(), t),
        child_hi(hi, new_n.key_seq(), t),
        (h - 1) as nat,
        true,
    ) by {
        assert(new_n.child_seq()[t] == old_n.child_seq()[t]);
    }
}

/// A child that lost a key but keeps enough of them leaves its parent well formed.
pub proof fn lemma_child_kept<const FANOUT: usize, K: Key, V: Record>(
    old_n: Interior<FANOUT, K, V>,
    new_n: Interior<FANOUT, K, V>,
    i: int,
    lo: Option<int>,
    hi: Option<int>,
    h: nat,
)
    requires
        Node::Interior(old_n).well_formed(lo, hi, h, true),
        0 <= i < old_n.child_seq().len(),
        new_n.slots_ok(),
        new_n.key_seq() == old_n.key_seq(),
        new_n.child_seq() == old_n.child_seq().update(i, new_n.child_seq()[i]),
        new_n.child_seq()[i].well_formed(child_lo(lo, old_n.key_seq(), i), child_hi(hi, old_n.key_seq(), i), (h - 1) as nat, false),
        new_n.child_seq()[i] is Interior ==> new_n.child_seq()[i]->Interior_0.key_seq().len() >= FANOUT / 2,
        FANOUT > 1,
    ensures
        Node::Interior(new_n).well_formed(lo, hi, h, true),
{
    Node::lemma_replace_child(old_n, new_n, i, lo, hi, h, true);
}

// ---------------------------------------------------------------------------
// Capacity
// ---------------------------------------------------------------------------

/// The node fit before child `i` lost a key and fell short of keys.
pub open spec fn ready_to_rebalance<const FANOUT: usize, K: Key, V: Record>(
    n: Interior<FANOUT, K, V>,
    i: int,
    h: nat,
) -> bool {
    let lm = min_leaf_keys(FANOUT as int);
    &&& n.key_seq().len() <= FANOUT - 1
    &&& forall|t: int| 0 <= t < n.child_seq().len() && t != i ==> (#[trigger] n.child_seq()[t]).fits((h - 1) as nat, lm)
    &&& n.child_seq()[i].fits((h - 1) as nat, lm - 1)
    &&& match n.child_seq()[i] {
        Node::Leaf(l) => l.key_seq().len() < (FANOUT - 1) / 2,
        Node::Interior(c) => c.key_seq().len() < FANOUT / 2,
        Node::Invalid => true,
    }
}

/// After a merge of siblings `j` and `j + 1`, the node fits.
pub proof fn lemma_merged_fits<const FANOUT: usize, K: Key, V: Record>(
    old_n: Interior<FANOUT, K, V>,
    mid: Interior<FANOUT, K, V>,
    new_n: Interior<FANOUT, K, V>,
    i: int,
    j: int,
    h: nat,
)
    requires
        h > 0,
        FANOUT >= 3,
        0 <= j,
        j + 1 < old_n.child_seq().len(),
        i == j || i == j + 1,
        mid.child_seq().len() == old_n.child_seq().len(),
        forall|t: int| 0 <= t < old_n.child_seq().len() && t != j && t != j + 1 ==> mid.child_seq()[t] == old_n.child_seq()[t],
        new_n.key_seq().len() == old_n.key_seq().len() - 1,
        new_n.slots_ok(),
        new_n.child_seq() == mid.child_seq().remove(j + 1),
        // the merged node has the keys and children of both
        h == 1 ==> {
            &&& old_n.child_seq()[j] is Leaf
            &&& old_n.child_seq()[j + 1] is Leaf
            &&& mid.child_seq()[j] is Leaf
            &&& mid.child_seq()[j]->Leaf_0.key_seq().len() == old_n.child_seq()[j]->Leaf_0.key_seq().len()
                + old_n.child_seq()[j + 1]->Leaf_0.key_seq().len()
            &&& mid.child_seq()[j]->Leaf_0.key_seq().len() <= FANOUT - 1
        },
        h > 1 ==> {
            &&& old_n.child_seq()[j] is Interior
            &&& old_n.child_seq()[j + 1] is Interior
            &&& mid.child_seq()[j] is Interior
            &&& mid.child_seq()[j]->Interior_0.key_seq().len() == old_n.child_seq()[j]->Interior_0.key_seq().len() + 1
                + old_n.child_seq()[j + 1]->Interior_0.key_seq().len()
            &&& mid.child_seq()[j]->Interior_0.child_seq() == old_n.child_seq()[j]->Interior_0.child_seq()
                + old_n.child_seq()[j + 1]->Interior_0.child_seq()
            &&& old_n.child_seq()[j]->Interior_0.key_seq().len() < FANOUT - FANOUT / 2
            &&& old_n.child_seq()[j + 1]->Interior_0.key_seq().len() < FANOUT - FANOUT / 2
        },
    ensures
        ready_to_rebalance(old_n, i, h) ==> Node::Interior(new_n).fits(h, 0),
{
    let lm = min_leaf_keys(FANOUT as int);
    if ready_to_rebalance(old_n, i, h) {
        let other = if i == j { j + 1 } else { j };
        assert(old_n.child_seq()[other].fits((h - 1) as nat, lm));
        let x = mid.child_seq()[j];
        if h == 1 {
            assert(x.fits(0, lm));
        } else {
            let a = old_n.child_seq()[j]->Interior_0;
            let b = old_n.child_seq()[j + 1]->Interior_0;
            let c = x->Interior_0;
            assert(old_n.child_seq()[j].fits((h - 1) as nat, lm - 1));
            assert(old_n.child_seq()[j + 1].fits((h - 1) as nat, lm - 1));
            assert forall|t: int| 0 <= t < c.child_seq().len() implies (#[trigger] c.child_seq()[t]).fits(
                (h - 2) as nat,
                lm,
            ) by {
                if t < a.child_seq().len() {
                    assert(c.child_seq()[t] == a.child_seq()[t]);
                } else {
                    assert(c.child_seq()[t] == b.child_seq()[t - a.child_seq().len()]);
                }
            }
            assert(x.fits((h - 1) as nat, lm));
        }
        assert forall|t: int| 0 <= t < new_n.child_seq().len() implies (#[trigger] new_n.child_seq()[t]).fits(
            (h - 1) as nat,
            lm,
        ) by {
            if t < j {
                assert(new_n.child_seq()[t] == old_n.child_seq()[t]);
            } else if t > j {
                assert(new_n.child_seq()[t] == old_n.child_seq()[t + 1]);
            }
        }
    }
}

/// After a leaf borrowed an entry from its sibling, the node fits.
pub proof fn lemma_leaf_borrowed_fits<const FANOUT: usize, K: Key, V: Record>(
    old_n: Interior<FANOUT, K, V>,
    new_n: Interior<FANOUT, K, V>,
    i: int,
    j: int,
)
    requires
        FANOUT >= 3,
        0 <= j,
        j + 1 < old_n.child_seq().len(),
        i == j || i == j + 1,
        new_n.key_seq().len() == old_n.key_seq().len(),
        new_n.child_seq().len() == old_n.child_seq().len(),
        forall|t: int| 0 <= t < old_n.child_seq().len() && t != j && t != j + 1 ==> new_n.child_seq()[t] == old_n.child_seq()[t],
        old_n.child_seq()[j] is Leaf,
        old_n.child_seq()[j + 1] is Leaf,
        new_n.child_seq()[j] is Leaf,
        new_n.child_seq()[j + 1] is Leaf,
        ({
            let f = old_n.child_seq()[j]->Leaf_0.key_seq().len();
            let s = old_n.child_seq()[j + 1]->Leaf_0.key_seq().len();
            let f1 = new_n.child_seq()[j]->Leaf_0.key_seq().len();
            let s1 = new_n.child_seq()[j + 1]->Leaf_0.key_seq().len();
            &&& f + s >= FANOUT
            &&& f < s ==> f1 == f + 1 && s1 == s - 1
            &&& f >= s ==> f1 == f - 1 && s1 == s + 1
        }),
    ensures
        ready_to_rebalance(old_n, i, 1) ==> Node::Interior(new_n).fits(1, 0),
{
    let lm = min_leaf_keys(FANOUT as int);
    if ready_to_rebalance(old_n, i, 1) {
        assert(old_n.child_seq()[j].fits(0, lm - 1));
        assert(old_n.child_seq()[j + 1].fits(0, lm - 1));
        if i == j {
            assert(old_n.child_seq()[j + 1].fits(0, lm));
        } else {
            assert(old_n.child_seq()[j].fits(0, lm));
        }
        assert(new_n.child_seq()[j].fits(0, lm));
        assert(new_n.child_seq()[j + 1].fits(0, lm));
        assert forall|t: int| 0 <= t < new_n.child_seq().len() implies (#[trigger] new_n.child_seq()[t]).fits(0, lm) by {
            if t != j && t != j + 1 {
                assert(new_n.child_seq()[t] == old_n.child_seq()[t]);
            }
        }
    }
}

/// After an interior node borrowed a child from its sibling, the node fits.
pub proof fn lemma_interior_borrowed_fits<const FANOUT: usize, K: Key, V: Record>(
    old_n: Interior<FANOUT, K, V>,
    new_n: Interior<FANOUT, K, V>,
    i: int,
    j: int,
    h: nat,
)
    requires
        FANOUT >= 3,
        h > 1,
        0 <= j,
        j + 1 < old_n.child_seq().len(),
        i == j || i == j + 1,
        new_n.key_seq().len() == old_n.key_seq().len(),
        new_n.child_seq().len() == old_n.child_seq().len(),
        forall|t: int| 0 <= t < old_n.child_seq().len() && t != j && t != j + 1 ==> new_n.child_seq()[t] == old_n.child_seq()[t],
        old_n.child_seq()[j] is Interior,
        old_n.child_seq()[j + 1] is Interior,
        new_n.child_seq()[j] is Interior,
        new_n.child_seq()[j + 1] is Interior,
        ({
            let a = old_n.child_seq()[j]->Interior_0;
            let b = old_n.child_seq()[j + 1]->Interior_0;
            let a2 = new_n.child_seq()[j]->Interior_0;
            let b2 = new_n.child_seq()[j + 1]->Interior_0;
            &&& a.key_seq().len() >= FANOUT - FANOUT / 2 || b.key_seq().len() >= FANOUT - FANOUT / 2
            &&& a.key_seq().len() < b.key_seq().len() ==> {
                &&& a2.key_seq().len() == a.key_seq().len() + 1
                &&& a2.child_seq() == a.child_seq().push(b.child_seq()[0])
                &&& b2.key_seq().len() == b.key_seq().len() - 1
                &&& b2.child_seq() == b.child_seq().remove(0)
            }
            &&& a.key_seq().len() >= b.key_seq().len() ==> {
                &&& a2.key_seq().len() == a.key_seq().len() - 1
                &&& a2.child_seq() == a.child_seq().drop_last()
                &&& b2.key_seq().len() == b.key_seq().len() + 1
                &&& b2.child_seq() == b.child_seq().insert(0, a.child_seq().last())
            }
        }),
        old_n.child_seq()[j]->Interior_0.child_seq().len() > 0,
        old_n.child_seq()[j + 1]->Interior_0.child_seq().len() > 0,
    ensures
        ready_to_rebalance(old_n, i, h) ==> Node::Interior(new_n).fits(h, 0),
{
    let lm = min_leaf_keys(FANOUT as int);
    if ready_to_rebalance(old_n, i, h) {
        let a = old_n.child_seq()[j]->Interior_0;
        let b = old_n.child_seq()[j + 1]->Interior_0;
        let a2 = new_n.child_seq()[j]->Interior_0;
        let b2 = new_n.child_seq()[j + 1]->Interior_0;
        assert(old_n.child_seq()[j].fits((h - 1) as nat, lm - 1));
        assert(old_n.child_seq()[j + 1].fits((h - 1) as nat, lm - 1));
        assert forall|t: int| 0 <= t < a2.child_seq().len() implies (#[trigger] a2.child_seq()[t]).fits((h - 2) as nat, lm) by {
            if a.key_seq().len() < b.key_seq().len() {
                if t < a.child_seq().len() {
                    assert(a2.child_seq()[t] == a.child_seq()[t]);
                } else {
                    assert(a2.child_seq()[t] == b.child_seq()[0]);
                }
            } else {
                assert(a2.child_seq()[t] == a.child_seq()[t]);
            }
        }
        assert forall|t: int| 0 <= t < b2.child_seq().len() implies (#[trigger] b2.child_seq()[t]).fits((h - 2) as nat, lm) by {
            if a.key_seq().len() < b.key_seq().len() {
                assert(b2.child_seq()[t] == b.child_seq()[t + 1]);
            } else {
                if t == 0 {
                    assert(b2.child_seq()[t] == a.child_seq()[a.child_seq().len() - 1]);
                } else {
                    assert(b2.child_seq()[t] == b.child_seq()[t - 1]);
                }
            }
        }
        assert(new_n.child_seq()[j].fits((h - 1) as nat, lm));
        assert(new_n.child_seq()[j + 1].fits((h - 1) as nat, lm));
        assert forall|t: int| 0 <= t < new_n.child_seq().len() implies (#[trigger] new_n.child_seq()[t]).fits((h - 1) as nat, lm) by {
            if t != j && t != j + 1 {
                assert(new_n.child_seq()[t] == old_n.child_seq()[t]);
            }
        }
    }
}

/// Before a rebalance: no node holds more than `FANOUT - 1` keys, and child
/// `i` fell short of keys.
pub open spec fn ready_to_rebalance_bounded<const FANOUT: usize, K: Key, V: Record>(
    n: Interior<FANOUT, K, V>,
    i: int,
    h: nat,
) -> bool {
    &&& n.key_seq().len() <= FANOUT - 1
    &&& forall|t: int| 0 <= t < n.child_seq().len() ==> (#[trigger] n.child_seq()[t]).bounded((h - 1) as nat)
    &&& match n.child_seq()[i] {
        Node::Leaf(l) => l.key_seq().len() < (FANOUT - 1) / 2,
        Node::Interior(c) => c.key_seq().len() < FANOUT / 2,
        Node::Invalid => true,
    }
}

/// After a merge of siblings `j` and `j + 1`, no node holds more than
/// `FANOUT - 1` keys.
pub proof fn lemma_merged_bounded<const FANOUT: usize, K: Key, V: Record>(
    old_n: Interior<FANOUT, K, V>,
    mid: Interior<FANOUT, K, V>,
    new_n: Interior<FANOUT, K, V>,
    i: int,
    j: int,
    h: nat,
)
    requires
        h > 0,
        FANOUT >= 3,
        0 <= j,
        j + 1 < old_n.child_seq().len(),
        i == j || i == j + 1,
        mid.child_seq().len() == old_n.child_seq().len(),
        forall|t: int| 0 <= t < old_n.child_seq().len() && t != j && t != j + 1 ==> mid.child_seq()[t] == old_n.child_seq()[t],
        new_n.key_seq().len() == old_n.key_seq().len() - 1,
        new_n.slots_ok(),
        new_n.child_seq() == mid.child_seq().remove(j + 1),
        // the merged node has the keys and children of both
        h == 1 ==> {
            &&& old_n.child_seq()[j] is Leaf
            &&& old_n.child_seq()[j + 1] is Leaf
            &&& mid.child_seq()[j] is Leaf
            &&& mid.child_seq()[j]->Leaf_0.key_seq().len() == old_n.child_seq()[j]->Leaf_0.key_seq().len()
                + old_n.child_seq()[j + 1]->Leaf_0.key_seq().len()
            &&& mid.child_seq()[j]->Leaf_0.key_seq().len() <= FANOUT - 1
        },
        h > 1 ==> {
            &&& old_n.child_seq()[j] is Interior
            &&& old_n.child_seq()[j + 1] is Interior
            &&& mid.child_seq()[j] is Interior
            &&& mid.child_seq()[j]->Interior_0.key_seq().len() == old_n.child_seq()[j]->Interior_0.key_seq().len() + 1
                + old_n.child_seq()[j + 1]->Interior_0.key_seq().len()
            &&& mid.child_seq()[j]->Interior_0.child_seq() == old_n.child_seq()[j]->Interior_0.child_seq()
                + old_n.child_seq()[j + 1]->Interior_0.child_seq()
            &&& old_n.child_seq()[j]->Interior_0.key_seq().len() < FANOUT - FANOUT / 2
            &&& old_n.child_seq()[j + 1]->Interior_0.key_seq().len() < FANOUT - FANOUT / 2
        },
    ensures
        ready_to_rebalance_bounded(old_n, i, h) ==> Node::Interior(new_n).bounded(h),
{
    if ready_to_rebalance_bounded(old_n, i, h) {
        let x = mid.child_seq()[j];
        assert(old_n.child_seq()[j].bounded((h - 1) as nat));
        assert(old_n.child_seq()[j + 1].bounded((h - 1) as nat));
        if h > 1 {
            let a = old_n.child_seq()[j]->Interior_0;
            let b = old_n.child_seq()[j + 1]->Interior_0;
            let c = x->Interior_0;
            assert forall|t: int| 0 <= t < c.child_seq().len() implies (#[trigger] c.child_seq()[t]).bounded(
                (h - 2) as nat,
            ) by {
                if t < a.child_seq().len() {
                    assert(c.child_seq()[t] == a.child_seq()[t]);
                } else {
                    assert(c.child_seq()[t] == b.child_seq()[t - a.child_seq().len()]);
                }
            }
            assert(x.bounded((h - 1) as nat));
        } else {
            assert(x.bounded(0));
        }
        assert forall|t: int| 0 <= t < new_n.child_seq().len() implies (#[trigger] new_n.child_seq()[t]).bounded(
            (h - 1) as nat,
        ) by {
            if t < j {
                assert(new_n.child_seq()[t] == old_n.child_seq()[t]);
            } else if t > j {
                assert(new_n.child_seq()[t] == old_n.child_seq()[t + 1]);
            }
        }
    }
}

/// After a leaf borrowed an entry from its sibling, no node holds more than
/// `FANOUT - 1` keys.
pub proof fn lemma_leaf_borrowed_bounded<const FANOUT: usize, K: Key, V: Record>(
    old_n: Interior<FANOUT, K, V>,
    new_n: Interior<FANOUT, K, V>,
    i: int,
    j: int,
)
    requires
        FANOUT >= 3,
        0 <= j,
        j + 1 < old_n.child_seq().len(),
        i == j || i == j + 1,
        new_n.key_seq().len() == old_n.key_seq().len(),
        new_n.child_seq().len() == old_n.child_seq().len(),
        forall|t: int| 0 <= t < old_n.child_seq().len() && t != j && t != j + 1 ==> new_n.child_seq()[t] == old_n.child_seq()[t],
        old_n.child_seq()[j] is Leaf,
        old_n.child_seq()[j + 1] is Leaf,
        new_n.child_seq()[j] is Leaf,
        new_n.child_seq()[j + 1] is Leaf,
        ({
            let f = old_n.child_seq()[j]->Leaf_0.key_seq().len();
            let s = old_n.child_seq()[j + 1]->Leaf_0.key_seq().len();
            let f1 = new_n.child_seq()[j]->Leaf_0.key_seq().len();
            let s1 = new_n.child_seq()[j + 1]->Leaf_0.key_seq().len();
            &&& f + s >= FANOUT
            &&& f < s ==> f1 == f + 1 && s1 == s - 1
            &&& f >= s ==> f1 == f - 1 && s1 == s + 1
        }),
    ensures
        ready_to_rebalance_bounded(old_n, i, 1) ==> Node::Interior(new_n).bounded(1),
{
    if ready_to_rebalance_bounded(old_n, i, 1) {
        assert(old_n.child_seq()[j].bounded(0));
        assert(old_n.child_seq()[j + 1].bounded(0));
        assert(new_n.child_seq()[j].bounded(0));
        assert(new_n.child_seq()[j + 1].bounded(0));
        assert forall|t: int| 0 <= t < new_n.child_seq().len() implies (#[trigger] new_n.child_seq()[t]).bounded(0) by {
            if t != j && t != j + 1 {
                assert(new_n.child_seq()[t] == old_n.child_seq()[t]);
            }
        }
    }
}

/// After an interior node borrowed a child from its sibling, no node holds
/// more than `FANOUT - 1` keys.
pub proof fn lemma_interior_borrowed_bounded<const FANOUT: usize, K: Key, V: Record>(
    old_n: Interior<FANOUT, K, V>,
    new_n: Interior<FANOUT, K, V>,
    i: int,
    j: int,
    h: nat,
)
    requires
        FANOUT >= 3,
        h > 1,
        0 <= j,
        j + 1 < old_n.child_seq().len(),
        i == j || i == j + 1,
        new_n.key_seq().len() == old_n.key_seq().len(),
        new_n.child_seq().len() == old_n.child_seq().len(),
        forall|t: int| 0 <= t < old_n.child_seq().len() && t != j && t != j + 1 ==> new_n.child_seq()[t] == old_n.child_seq()[t],
        old_n.child_seq()[j] is Interior,
        old_n.child_seq()[j + 1] is Interior,
        new_n.child_seq()[j] is Interior,
        new_n.child_seq()[j + 1] is Interior,
        ({
            let a = old_n.child_seq()[j]->Interior_0;
            let b = old_n.child_seq()[j + 1]->Interior_0;
            let a2 = new_n.child_seq()[j]->Interior_0;
            let b2 = new_n.child_seq()[j + 1]->Interior_0;
            &&& a.key_seq().len() >= FANOUT - FANOUT / 2 || b.key_seq().len() >= FANOUT - FANOUT / 2
            &&& a.key_seq().len() < b.key_seq().len() ==> {
                &&& a2.key_seq().len() == a.key_seq().len() + 1
                &&& a2.child_seq() == a.child_seq().push(b.child_seq()[0])
                &&& b2.key_seq().len() == b.key_seq().len() - 1
                &&& b2.child_seq() == b.child_seq().remove(0)
            }
            &&& a.key_seq().len() >= b.key_seq().len() ==> {
                &&& a2.key_seq().len() == a.key_seq().len() - 1
                &&& a2.child_seq() == a.child_seq().drop_last()
                &&& b2.key_seq().len() == b.key_seq().len() + 1
                &&& b2.child_seq() == b.child_seq().insert(0, a.child_seq().last())
            }
        }),
        old_n.child_seq()[j]->Interior_0.child_seq().len() > 0,
        old_n.child_seq()[j + 1]->Interior_0.child_seq().len() > 0,
    ensures
        ready_to_rebalance_bounded(old_n, i, h) ==> Node::Interior(new_n).bounded(h),
{
    if ready_to_rebalance_bounded(old_n, i, h) {
        let a = old_n.child_seq()[j]->Interior_0;
        let b = old_n.child_seq()[j + 1]->Interior_0;
        let a2 = new_n.child_seq()[j]->Interior_0;
        let b2 = new_n.child_seq()[j + 1]->Interior_0;
        assert(old_n.child_seq()[j].bounded((h - 1) as nat));
        assert(old_n.child_seq()[j + 1].bounded((h - 1) as nat));
        assert forall|t: int| 0 <= t < a2.child_seq().len() implies (#[trigger] a2.child_seq()[t]).bounded((h - 2) as nat) by {
            if a.key_seq().len() < b.key_seq().len() {
                if t < a.child_seq().len() {
                    assert(a2.child_seq()[t] == a.child_seq()[t]);
                } else {
                    assert(a2.child_seq()[t] == b.child_seq()[0]);
                }
            } else {
                assert(a2.child_seq()[t] == a.child_seq()[t]);
            }
        }
        assert forall|t: int| 0 <= t < b2.child_seq().len() implies (#[trigger] b2.child_seq()[t]).bounded((h - 2) as nat) by {
            if a.key_seq().len() < b.key_seq().len() {
                assert(b2.child_seq()[t] == b.child_seq()[t + 1]);
            } else {
                if t == 0 {
                    assert(b2.child_seq()[t] == a.child_seq()[a.child_seq().len() - 1]);
                } else {
                    assert(b2.child_seq()[t] == b.child_seq()[t - 1]);
                }
            }
        }
        assert(new_n.child_seq()[j].bounded((h - 1) as nat));
        assert(new_n.child_seq()[j + 1].bounded((h - 1) as nat));
        assert forall|t: int| 0 <= t < new_n.child_seq().len() implies (#[trigger] new_n.child_seq()[t]).bounded(
            (h - 1) as nat,
        ) by {
            if t != j && t != j + 1 {
                assert(new_n.child_seq()[t] == old_n.child_seq()[t]);
            }
        }
    }
}

} // verus!
