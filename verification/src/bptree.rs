use vstd::prelude::*;
use crate::contents::{
    derefs, erase, in_range, lemma_filter_none, lemma_filter_single, lemma_frame, lemma_key_ops_small,
    lemma_sorted_split, lemma_upsert_frame, lookup, rank_eq, rank_ne, records_of, upsert,
};
use crate::insertion::{
    lemma_interior_split, lemma_interior_split_bounded, lemma_interior_split_fits, lemma_leaf_insert, lemma_leaf_split,
    lemma_leaf_update, lemma_new_root, lemma_parent_insert, lemma_parent_insert_bounded, lemma_parent_insert_fits,
    lemma_replace_child_bounded, lemma_replace_child_fits,
};
use crate::node::{
    above, at_least, below, child_hi, child_lo, entries_of, entries_sorted, keys_sorted, lemma_entries_of_insert,
    lemma_child_slot, lemma_entries_of_push, lemma_entries_of_single, lemma_slot_for, min_leaf_keys, slot_for,
    splits_on_insert,
    zip_entries, Interior, Key, Leaf, Node, Record,
};
use crate::laws::law_remove_absent;
use crate::range::{
    lemma_derefs_push, lemma_in_range_add, lemma_in_range_empty, lemma_interior_range, lemma_leaf_range,
    lemma_records_push,
};

verus! {

broadcast use crate::node::group_node_slots;

/// A B+ tree mapping keys to records; a node splits when it reaches `FANOUT`
/// keys.
#[derive(Debug)]
pub struct BPTree<const FANOUT: usize, K: Key, V: Record> {
    root: Option<Node<FANOUT, K, V>>,
}

/// A root, if any, is a well-formed B+ tree over all keys.
pub open spec fn root_wf<const FANOUT: usize, K: Key, V: Record>(root: Option<Node<FANOUT, K, V>>) -> bool {
    &&& FANOUT > 1
    &&& match root {
        None => true,
        Some(n) => n.well_formed(None, None, n.height(), true),
    }
}

/// A root, if any, fits: see `Node::fits`; a root leaf holds a key.
pub open spec fn root_fits<const FANOUT: usize, K: Key, V: Record>(root: Option<Node<FANOUT, K, V>>) -> bool {
    match root {
        None => true,
        Some(n) => n.fits(n.height(), 1),
    }
}

pub open spec fn root_entries<const FANOUT: usize, K: Key, V: Record>(root: Option<Node<FANOUT, K, V>>) -> Seq<(K, V)> {
    match root {
        None => Seq::empty(),
        Some(n) => n.entries(),
    }
}

impl<const FANOUT: usize, K: Key, V: Record> View for BPTree<FANOUT, K, V> {
    type V = Seq<(K, V)>;

    /// The (key, record) pairs of the tree, in key order.
    closed spec fn view(&self) -> Seq<(K, V)> {
        root_entries(self.root)
    }
}

impl<const FANOUT: usize, K: Key, V: Record> BPTree<FANOUT, K, V> {
    /// The tree is a B+ tree: keys sorted in every node, separators bounding
    /// the keys of the subtrees around them, all leaves at the same depth.
    /// Every tree is one.
    #[verifier::type_invariant]
    pub closed spec fn wf(self) -> bool {
        root_wf(self.root)
    }

    /// No node holds more than `FANOUT - 1` keys, the nodes below the root
    /// (leaves and interior nodes) hold at least half of `FANOUT - 1` keys when
    /// the fanout is at least 3, and the root holds a key.
    pub closed spec fn within_capacity(self) -> bool {
        root_fits(self.root)
    }

    /// The tree holds a root node.
    pub closed spec fn has_root(self) -> bool {
        self.root is Some
    }

    /// The number of interior nodes on the way from the root to a leaf (0
    /// without a root).
    pub closed spec fn height(self) -> nat {
        match self.root {
            Some(n) => n.height(),
            None => 0,
        }
    }

    /// No node of the tree holds more than `FANOUT - 1` keys.
    pub closed spec fn keys_bounded(self) -> bool {
        match self.root {
            Some(n) => n.bounded(n.height()),
            None => true,
        }
    }

    /// A tree within capacity holds no more than `FANOUT - 1` keys in any node.
    pub proof fn lemma_capacity_bounded(self)
        requires
            self.within_capacity(),
        ensures
            self.keys_bounded(),
    {
        if let Some(n) = self.root {
            n.lemma_fits_bounded(n.height(), 1);
        }
    }

    /// Whether putting a new key of rank `r` into the tree splits its root:
    /// every node on the way down to the leaf the key goes to, the leaf
    /// included, already holds `FANOUT - 1` keys, and the key is not in it.
    pub closed spec fn insert_splits_root(self, r: int) -> bool {
        match self.root {
            Some(n) => splits_on_insert(n, r),
            None => false,
        }
    }

    /// The entries of a well-formed tree are in strictly ascending key order.
    pub proof fn lemma_view_sorted(self)
        requires
            self.wf(),
        ensures
            entries_sorted(self@),
    {
        if let Some(n) = self.root {
            n.lemma_entries_sorted_within(None, None, n.height(), true);
        }
    }

    /// With a fanout of at least 3, a tree within capacity has a root exactly
    /// when it holds entries.
    pub proof fn lemma_root_iff_entries(self)
        requires
            self.wf(),
            self.within_capacity(),
            FANOUT >= 3,
        ensures
            self.has_root() <==> self@.len() > 0,
    {
        if let Some(n) = self.root {
            n.lemma_entries_sorted_within(None, None, n.height(), true);
            n.lemma_fits_nonempty(None, None, n.height(), true, 1);
        }
    }

    pub fn new() -> (t: Self)
        requires
            FANOUT > 1,
        ensures
            t.wf(),
            t@ == Seq::<(K, V)>::empty(),
            !t.has_root(),
            t.within_capacity(),
            t.keys_bounded(),
    {
        BPTree { root: None }
    }

    /// A tree over the given root node, which must be a B+ tree.
    pub fn from_root(root: Option<Node<FANOUT, K, V>>) -> (t: Self)
        requires
            root_wf(root),
        ensures
            t.within_capacity() == root_fits(root),
            t@ == root_entries(root),
            t.has_root() == root is Some,
    {
        BPTree { root }
    }

    /// Whether the tree has no root node.
    pub fn is_empty(&self) -> (b: bool)
        ensures
            b == !self.has_root(),
            b ==> self@.len() == 0,
            self.within_capacity() && FANOUT >= 3 ==> (b <==> self@.len() == 0),
    {
        proof {
            use_type_invariant(self);
            if self.within_capacity() && FANOUT >= 3 {
                self.lemma_root_iff_entries();
            }
        }
        self.root.is_none()
    }

    /// The leaf in which `key` is found, if it is in the tree at all.
    fn get_leaf_node(&self, key: &K) -> (r: Option<&Leaf<FANOUT, K, V>>)
        requires
            self.wf(),
        ensures
            r is None <==> self.root is None,
            r matches Some(l) ==> l.slots_ok() && keys_sorted(l.key_seq()),
            r matches Some(l) ==> l.entries().filter(rank_eq(key.rank())) == self@.filter(
                rank_eq(key.rank()),
            ),
            // the leaf is the one whose separator bounds hold the key
            r matches Some(l) ==> leaf_holds_place(
                self@,
                *l,
                key.rank(),
                leaf_bounds(self.root->0, key.rank(), None, None),
            ),
    {
        let mut current = match &self.root {
            None => return None,
            Some(n) => n,
        };
        let ghost r = key.rank();
        let ghost mut lo: Option<int> = None;
        let ghost mut hi: Option<int> = None;
        let ghost mut h: nat = current.height();
        let ghost mut pre: Seq<(K, V)> = Seq::empty();
        let ghost mut suf: Seq<(K, V)> = Seq::empty();
        proof {
            assert(self@ =~= pre + current.entries() + suf);
        }
        loop
            invariant
                self.wf(),
                self.root is Some,
                current.well_formed(lo, hi, h, true),
                at_least(lo, r),
                below(r, hi),
                r == key.rank(),
                self@ == pre + current.entries() + suf,
                forall|t: int| 0 <= t < pre.len() ==> #[trigger] pre[t].0.rank() < r && below(pre[t].0.rank(), lo),
                forall|t: int| 0 <= t < suf.len() ==> #[trigger] suf[t].0.rank() > r && at_least(hi, suf[t].0.rank()),
                lo is None ==> pre.len() == 0,
                hi is None ==> suf.len() == 0,
                leaf_bounds(*current, r, lo, hi) == leaf_bounds(self.root->0, r, None, None),
            decreases h,
        {
            match current.interior() {
                None => {
                    let l = current.unwrap_leaf();
                    proof {
                        lemma_frame(pre, l.entries(), suf, r);
                        lemma_leaf_bounds_at_leaf(*current, r, lo, hi);
                        lemma_leaf_found(self@, *l, pre, suf, lo, hi, r);
                    }
                    return Some(l);
                },
                Some(n) => {
                    let mut i: usize = 0;
                    while i < n.num_keys && !key.less_than(n.key(i))
                        invariant
                            *n == current->Interior_0,
                            n.slots_ok(),
                            current.well_formed(lo, hi, h, true),
                            0 <= i <= n.key_seq().len(),
                            r == key.rank(),
                            forall|j: int| 0 <= j < i ==> #[trigger] n.key_seq()[j].rank() <= r,
                        decreases n.key_seq().len() - i,
                    {
                        i += 1;
                    }
                    proof {
                        let (p2, s2) = lemma_descend(*n, lo, hi, h, i as int, r, pre, suf);
                        pre = p2;
                        suf = s2;
                        lo = child_lo(lo, n.key_seq(), i as int);
                        hi = child_hi(hi, n.key_seq(), i as int);
                        h = (h - 1) as nat;
                    }
                    current = n.child(i);
                },
            }
        }
    }

    /// Adds separator `key` and the new child `right` after child `i` of `n`.
    /// A node that reaches `FANOUT` keys is split; its right half is returned
    /// with the separator pushed up between the halves.
    fn insert_into_parent(
        n: &mut Interior<FANOUT, K, V>,
        i: usize,
        key: K,
        right: Node<FANOUT, K, V>,
        Ghost(lo): Ghost<Option<int>>,
        Ghost(hi): Ghost<Option<int>>,
        Ghost(h): Ghost<nat>,
    ) -> (split: Option<(K, Node<FANOUT, K, V>)>)
        requires
            FANOUT > 1,
            h > 0,
            old(n).keys_ok(lo, hi),
            0 <= i < old(n).child_seq().len(),
            above(child_lo(lo, old(n).key_seq(), i as int), key.rank()),
            below(key.rank(), child_hi(hi, old(n).key_seq(), i as int)),
            forall|j: int|
                0 <= j < old(n).child_seq().len() && j != i ==> (#[trigger] old(n).child_seq()[j]).well_formed(
                    child_lo(lo, old(n).key_seq(), j),
                    child_hi(hi, old(n).key_seq(), j),
                    (h - 1) as nat,
                    true,
                ),
            old(n).child_seq()[i as int].well_formed(child_lo(lo, old(n).key_seq(), i as int), Some(key.rank()), (h - 1) as nat, true),
            right.well_formed(Some(key.rank()), child_hi(hi, old(n).key_seq(), i as int), (h - 1) as nat, true),
        ensures
            match split {
                None => {
                    &&& Node::Interior(*final(n)).well_formed(lo, hi, h, true)
                    &&& Node::Interior(*final(n)).entries() == entries_of(old(n).child_seq().insert(i + 1, right))
                },
                Some((k, r)) => {
                    &&& above(lo, k.rank())
                    &&& below(k.rank(), hi)
                    &&& Node::Interior(*final(n)).well_formed(lo, Some(k.rank()), h, true)
                    &&& r.well_formed(Some(k.rank()), hi, h, true)
                    &&& Node::Interior(*final(n)).entries() + r.entries() == entries_of(
                        old(n).child_seq().insert(i + 1, right),
                    )
                },
            },
            ({
                let lm = min_leaf_keys(FANOUT as int);
                (old(n).key_seq().len() <= FANOUT - 1 && right.fits((h - 1) as nat, lm) && forall|j: int|
                    0 <= j < old(n).child_seq().len() ==> (#[trigger] old(n).child_seq()[j]).fits((h - 1) as nat, lm))
                    ==> match split {
                    None => Node::Interior(*final(n)).fits(h, 0),
                    Some((k, r)) => Node::Interior(*final(n)).fits(h, lm) && r.fits(h, lm),
                }
            }),
            split is Some <==> old(n).key_seq().len() + 1 == FANOUT,
            // `key` becomes separator `i` and `right` child `i + 1`; a full
            // node keeps the separators before the middle one, and the rest
            // go to the new right node
            ({
                let ks = old(n).key_seq().insert(i as int, key);
                let cs = old(n).child_seq().insert(i + 1, right);
                let s = (FANOUT - 1) / 2;
                match split {
                    None => final(n).key_seq() == ks && final(n).child_seq() == cs,
                    Some((k, r)) => {
                        &&& k == ks[s]
                        &&& final(n).key_seq() == ks.take(s)
                        &&& final(n).child_seq() == cs.take(s + 1)
                        &&& r is Interior
                        &&& r->Interior_0.key_seq() == ks.skip(s + 1)
                        &&& r->Interior_0.child_seq() == cs.skip(s + 1)
                    },
                }
            }),
            (old(n).key_seq().len() <= FANOUT - 1 && right.bounded((h - 1) as nat) && forall|j: int|
                0 <= j < old(n).child_seq().len() ==> (#[trigger] old(n).child_seq()[j]).bounded((h - 1) as nat))
                ==> match split {
                None => Node::Interior(*final(n)).bounded(h),
                Some((k, r)) => Node::Interior(*final(n)).bounded(h) && r.bounded(h),
            },
    {
        let ghost old_n = *n;
        let ghost lm = min_leaf_keys(FANOUT as int);
        let (mut ks, mut cs) = n.take_parts();
        assert(i < cs.len());
        ks.insert(i, key);
        cs.insert(i + 1, right);
        n.put_parts(ks, cs);
        proof {
            lemma_parent_insert(old_n, *n, i as int, key, right, lo, hi, h);
        }
        if n.num_keys == FANOUT {
            let split = (FANOUT - 1) / 2;
            let ghost full = *n;
            let (mut ks, mut cs) = n.take_parts();
            let ks2 = ks.split_off(split + 1);
            let cs2 = cs.split_off(split + 1);
            let pushed = ks.pop().unwrap();
            n.put_parts(ks, cs);
            let mut new_interior: Interior<FANOUT, K, V> = Node::new_interior();
            new_interior.put_parts(ks2, cs2);
            proof {
                assert(n.key_seq() =~= full.key_seq().take(split as int));
                lemma_interior_split(full, *n, new_interior, split as int, lo, hi, h);
                lemma_parent_insert_fits(old_n, full, i as int, right, h);
                lemma_interior_split_fits(full, *n, new_interior, split as int, h);
                lemma_parent_insert_bounded(old_n, full, i as int, right, h);
                lemma_interior_split_bounded(full, *n, new_interior, split as int, h);
            }
            return Some((pushed, Node::Interior(new_interior)));
        }
        proof {
            lemma_parent_insert_fits(old_n, *n, i as int, right, h);
            lemma_parent_insert_bounded(old_n, *n, i as int, right, h);
        }
        None
    }

    /// A root over the two halves of a split node, with `key` between them.
    fn new_root(key: K, left: Node<FANOUT, K, V>, right: Node<FANOUT, K, V>) -> (n: Interior<FANOUT, K, V>)
        ensures
            n.slots_ok(),
            n.key_seq() == seq![key],
            n.child_seq() == seq![left, right],
    {
        let mut new_node: Interior<FANOUT, K, V> = Node::new_interior();
        let mut ks: Vec<K> = Vec::new();
        ks.push(key);
        let mut cs: Vec<Node<FANOUT, K, V>> = Vec::new();
        cs.push(left);
        cs.push(right);
        new_node.put_parts(ks, cs);
        proof {
            assert(new_node.key_seq() =~= seq![key]);
            assert(new_node.child_seq() =~= seq![left, right]);
        }
        new_node
    }

    /// Puts `(key, record)` into the subtree at `node`. A node that overflows
    /// is split, and its right half is returned with the separator to put
    /// in the parent.
    fn insert_into(
        node: &mut Node<FANOUT, K, V>,
        key: K,
        record: V,
        Ghost(lo): Ghost<Option<int>>,
        Ghost(hi): Ghost<Option<int>>,
        Ghost(h): Ghost<nat>,
        Ghost(m): Ghost<int>,
    ) -> (split: Option<(K, Node<FANOUT, K, V>)>)
        requires
            FANOUT > 1,
            old(node).well_formed(lo, hi, h, true),
            at_least(lo, key.rank()),
            below(key.rank(), hi),
        ensures
            match split {
                None => {
                    &&& final(node).well_formed(lo, hi, h, true)
                    &&& final(node).entries() == upsert(old(node).entries(), key, record)
                },
                Some((k, r)) => {
                    &&& above(lo, k.rank())
                    &&& below(k.rank(), hi)
                    &&& final(node).well_formed(lo, Some(k.rank()), h, true)
                    &&& r.well_formed(Some(k.rank()), hi, h, true)
                    &&& final(node).entries() + r.entries() == upsert(old(node).entries(), key, record)
                },
            },
            old(node).fits(h, m) ==> match split {
                None => final(node).fits(h, m),
                Some((k, r)) => final(node).fits(h, min_leaf_keys(FANOUT as int)) && r.fits(
                    h,
                    min_leaf_keys(FANOUT as int),
                ),
            },
            split is Some <==> splits_on_insert(*old(node), key.rank()),
            old(node).bounded(h) ==> match split {
                None => final(node).bounded(h),
                Some((k, r)) => final(node).bounded(h) && r.bounded(h),
            },
        decreases h, 1int,
    {
        match node {
            Node::Leaf(leaf) => {
                match Self::insert_into_leaf(leaf, key, record, Ghost(lo), Ghost(hi)) {
                    None => None,
                    Some((k, right)) => Some((k, Node::Leaf(right))),
                }
            },
            Node::Interior(n) => Self::insert_into_interior(n, key, record, Ghost(lo), Ghost(hi), Ghost(h), Ghost(m)),
            Node::Invalid => {
                None
            },
        }
    }

    /// Puts `(key, record)` into the subtree at interior node `n`; see
    /// `insert_into`.
    fn insert_into_interior(
        n: &mut Interior<FANOUT, K, V>,
        key: K,
        record: V,
        Ghost(lo): Ghost<Option<int>>,
        Ghost(hi): Ghost<Option<int>>,
        Ghost(h): Ghost<nat>,
        Ghost(m): Ghost<int>,
    ) -> (split: Option<(K, Node<FANOUT, K, V>)>)
        requires
            FANOUT > 1,
            Node::Interior(*old(n)).well_formed(lo, hi, h, true),
            at_least(lo, key.rank()),
            below(key.rank(), hi),
        ensures
            match split {
                None => {
                    &&& Node::Interior(*final(n)).well_formed(lo, hi, h, true)
                    &&& Node::Interior(*final(n)).entries() == upsert(Node::Interior(*old(n)).entries(), key, record)
                },
                Some((k, r)) => {
                    &&& above(lo, k.rank())
                    &&& below(k.rank(), hi)
                    &&& Node::Interior(*final(n)).well_formed(lo, Some(k.rank()), h, true)
                    &&& r.well_formed(Some(k.rank()), hi, h, true)
                    &&& Node::Interior(*final(n)).entries() + r.entries() == upsert(Node::Interior(*old(n)).entries(), key, record)
                },
            },
            Node::Interior(*old(n)).fits(h, m) ==> match split {
                None => Node::Interior(*final(n)).fits(h, m),
                Some((k, r)) => Node::Interior(*final(n)).fits(h, min_leaf_keys(FANOUT as int)) && r.fits(
                    h,
                    min_leaf_keys(FANOUT as int),
                ),
            },
            split is Some <==> splits_on_insert(Node::Interior(*old(n)), key.rank()),
            Node::Interior(*old(n)).bounded(h) ==> match split {
                None => Node::Interior(*final(n)).bounded(h),
                Some((k, r)) => Node::Interior(*final(n)).bounded(h) && r.bounded(h),
            },
        decreases h, 0int,
    {
        let ghost old_n = *n;
        let ghost r = key.rank();
        let mut i: usize = 0;
        while i < n.num_keys && !key.less_than(n.key(i))
            invariant
                *n == old_n,
                Node::Interior(old_n).well_formed(lo, hi, h, true),
                0 <= i <= n.key_seq().len(),
                r == key.rank(),
                forall|j: int| 0 <= j < i ==> #[trigger] n.key_seq()[j].rank() <= r,
            decreases n.key_seq().len() - i,
        {
            i += 1;
        }
        let ghost clo = child_lo(lo, old_n.key_seq(), i as int);
        let ghost chi = child_hi(hi, old_n.key_seq(), i as int);
        proof {
            Node::lemma_split_at(old_n, lo, hi, h, true, i as int);
            assert(old_n.child_seq()[i as int].well_formed(clo, chi, (h - 1) as nat, true));
            lemma_slot_for(old_n.key_seq(), r, i as int);
            lemma_child_slot(old_n, i as int);
        }
        let ghost a = entries_of(old_n.child_seq().take(i as int));
        let ghost c = old_n.child_seq()[i as int].entries();
        let ghost b = entries_of(old_n.child_seq().skip(i as int + 1));
        let ghost lm = min_leaf_keys(FANOUT as int);
        let mut child = n.replace_child(i, Node::Invalid);
        let res = Self::insert_into(
            &mut child,
            key,
            record,
            Ghost(clo),
            Ghost(chi),
            Ghost((h - 1) as nat),
            Ghost(lm),
        );
        let ghost new_child = child;
        let _ = n.replace_child(i, child);
        proof {
            assert(n.child_seq() =~= old_n.child_seq().update(i as int, new_child));
            lemma_upsert_frame(a, c, b, key, record);
        }
        match res {
            None => {
                proof {
                    Node::lemma_replace_child(old_n, *n, i as int, lo, hi, h, true);
                    lemma_replace_child_fits(old_n, *n, i as int, h, m);
                    lemma_replace_child_bounded(old_n, *n, i as int, h);
                }
                None
            },
            Some((k, right)) => {
                proof {
                    assert(n.key_seq() == old_n.key_seq());
                    assert forall|j: int|
                        0 <= j < n.child_seq().len() && j != i implies (#[trigger] n.child_seq()[j]).well_formed(
                            child_lo(lo, n.key_seq(), j),
                            child_hi(hi, n.key_seq(), j),
                            (h - 1) as nat,
                            true,
                        ) by {
                        assert(n.child_seq()[j] == old_n.child_seq()[j]);
                    }
                    lemma_entries_of_insert(old_n.child_seq(), i as int, n.child_seq()[i as int], right);
                    assert(n.child_seq() == old_n.child_seq().update(i as int, n.child_seq()[i as int]));
                    lemma_replace_child_fits(old_n, *n, i as int, h, m);
                    if Node::Interior(old_n).bounded(h) {
                        assert(old_n.child_seq()[i as int].bounded((h - 1) as nat));
                        assert forall|j: int| 0 <= j < n.child_seq().len() implies (#[trigger] n.child_seq()[j]).bounded(
                            (h - 1) as nat,
                        ) by {
                            if j != i {
                                assert(n.child_seq()[j] == old_n.child_seq()[j]);
                            }
                        }
                    }
                }
                Self::insert_into_parent(n, i, k, right, Ghost(lo), Ghost(hi), Ghost(h))
            },
        }
    }

    /// A leaf holding one entry.
    fn single_leaf(key: K, record: V) -> (n: Node<FANOUT, K, V>)
        requires
            FANOUT > 1,
        ensures
            n.well_formed(None, None, 0, true),
            n.fits(0, 1),
            n.height() == 0,
            n.entries() == upsert(Seq::<(K, V)>::empty(), key, record),
    {
        let mut new_node: Leaf<FANOUT, K, V> = Node::new_leaf();
        let mut ks: Vec<K> = Vec::new();
        ks.push(key);
        let mut rs: Vec<V> = Vec::new();
        rs.push(record);
        new_node.put_entries(ks, rs);
        proof {
            assert(upsert(Seq::<(K, V)>::empty(), key, record) == seq![(key, record)]) by {
                lemma_key_ops_small((key, record), key, record);
            }
            assert(zip_entries(new_node.key_seq(), new_node.record_seq()) =~= seq![(key, record)]);
            assert(keys_sorted(new_node.key_seq()));
        }
        Node::Leaf(new_node)
    }

    /// Stores `record` under `key`, in place of any record already there.
    pub fn insert(&mut self, key: K, record: V)
        ensures
            final(self)@ == upsert(old(self)@, key, record),
            final(self).has_root(),
            old(self).within_capacity() ==> final(self).within_capacity(),
            old(self).keys_bounded() ==> final(self).keys_bounded(),
            final(self).height() == if old(self).insert_splits_root(key.rank()) {
                old(self).height() + 1
            } else {
                old(self).height()
            },
    {
        proof {
            use_type_invariant(&*self);
        }
        if self.root.is_none() {
            self.root = Some(Self::single_leaf(key, record));
            return;
        }
        let mut slot: Option<Node<FANOUT, K, V>> = None;
        std::mem::swap(&mut slot, &mut self.root);
        let mut root = slot.unwrap();
        let ghost old_root = root;
        let ghost h = root.height();
        let split = Self::insert_into(&mut root, key, record, Ghost(None), Ghost(None), Ghost(h), Ghost(1));
        match split {
            None => {
                proof {
                    root.lemma_entries_sorted_within(None, None, h, true);
                    old_root.lemma_entries_sorted_within(None, None, h, true);
                }
                self.root = Some(root);
            },
            Some((k, right)) => {
                let ghost left = root;
                let ghost r0 = right;
                let new_node = Self::new_root(k, root, right);
                proof {
                    let root = left;
                    let right = r0;
                    lemma_new_root(root, right, k, new_node, h);
                    if old_root.bounded(h) {
                        assert(new_node.child_seq()[0] == root);
                        assert(new_node.child_seq()[1] == right);
                        assert(Node::Interior(new_node).bounded(h + 1));
                    }
                    if old_root.fits(h, 1) {
                        assert(new_node.child_seq()[0] == root);
                        assert(new_node.child_seq()[1] == right);
                        assert(Node::Interior(new_node).fits(h + 1, 1));
                    }
                }
                self.root = Some(Node::Interior(new_node));
            },
        }
    }

    /// Removes the entry of `key`, if any.
    pub fn remove(&mut self, key: &K)
        ensures
            final(self)@ == erase(old(self)@, key.rank()),
            old(self).within_capacity() ==> final(self).within_capacity(),
            old(self).keys_bounded() ==> final(self).keys_bounded(),
            old(self).height() == 0 && old(self)@.len() > 0 && final(self)@.len() == 0 ==> !final(self).has_root(),
            lookup(old(self)@, key.rank()) is None ==> *final(self) == *old(self),
    {
        proof {
            use_type_invariant(&*self);
        }
        if self.root.is_none() {
            proof {
                lemma_erase_empty::<K, V>(key.rank());
            }
            return;
        }
        if self.search(key).is_none() {
            // the key is not there: the tree stays as it is
            proof {
                law_remove_absent(self@, key.rank());
            }
            return;
        }
        let mut slot: Option<Node<FANOUT, K, V>> = None;
        std::mem::swap(&mut slot, &mut self.root);
        let mut root = slot.unwrap();
        let ghost h = root.height();
        let ghost old_root = root;
        let lost = Self::remove_from(&mut root, key, Ghost(None), Ghost(None), Ghost(h), Ghost(1));
        let shrink = lost && match &root {
            Node::Leaf(l) => l.num_keys == 0,
            Node::Interior(n) => n.num_keys == 0,
            Node::Invalid => false,
        };
        if !shrink {
            proof {
                root.lemma_entries_sorted_within(None, None, h, !lost);
                old_root.lemma_entries_sorted_within(None, None, h, true);
                if old_root.fits(h, 1) {
                    root.lemma_fits_rebound(h, if lost { 0 } else { 1 }, 1);
                }
            }
            self.root = Some(root);
            return;
        }
        match root {
            Node::Interior(mut n) => {
                // the root lost its last separator: its only child takes its place
                let ghost old_n = n;
                let (_, mut cs) = n.take_parts();
                let child = cs.remove(0);
                proof {
                    lemma_root_collapse(old_n, h);
                    old_root.lemma_entries_sorted_within(None, None, h, true);
                    if old_root.bounded(h) {
                        assert(old_n.child_seq()[0].bounded((h - 1) as nat));
                    }
                    if old_root.fits(h, 1) {
                        assert(old_n.child_seq()[0].fits((h - 1) as nat, min_leaf_keys(FANOUT as int)));
                        child.lemma_fits_rebound((h - 1) as nat, min_leaf_keys(FANOUT as int), 1);
                    }
                }
                self.root = Some(child);
            },
            _ => {
                proof {
                    assert(root.entries() =~= Seq::<(K, V)>::empty());
                }
                self.root = None;
            },
        }
    }

    /// Appends to `out` the records under `node` whose keys lie between
    /// `start` and `end`, in key order.
    fn range_into<'a>(
        node: &'a Node<FANOUT, K, V>,
        start: &K,
        end: &K,
        out: &mut Vec<&'a V>,
        Ghost(lo): Ghost<Option<int>>,
        Ghost(hi): Ghost<Option<int>>,
        Ghost(h): Ghost<nat>,
    )
        requires
            node.well_formed(lo, hi, h, true),
            start.rank() <= end.rank(),
        ensures
            derefs(final(out)@) == derefs(old(out)@) + records_of(in_range(node.entries(), start.rank(), end.rank())),
        decreases h,
    {
        let ghost a = start.rank();
        let ghost b = end.rank();
        match node {
            Node::Leaf(leaf) => {
                let ghost e = leaf.entries();
                let mut i: usize = 0;
                while i < leaf.num_keys && leaf.key(i).less_than(start)
                    invariant
                        leaf.well_formed(lo, hi),
                        0 <= i <= leaf.key_seq().len(),
                        a == start.rank(),
                        forall|j: int| 0 <= j < i ==> #[trigger] leaf.key_seq()[j].rank() < a,
                    decreases leaf.key_seq().len() - i,
                {
                    i += 1;
                }
                let ghost i0 = i as int;
                proof {
                    assert(derefs(out@) == derefs(old(out)@) + records_of(e.subrange(i0, i0)));
                }
                while i < leaf.num_keys && !end.less_than(leaf.key(i))
                    invariant
                        leaf.well_formed(lo, hi),
                        e == leaf.entries(),
                        0 <= i0 <= i <= leaf.key_seq().len(),
                        a == start.rank(),
                        b == end.rank(),
                        a <= b,
                        forall|j: int| 0 <= j < i0 ==> #[trigger] leaf.key_seq()[j].rank() < a,
                        i0 < leaf.key_seq().len() ==> leaf.key_seq()[i0].rank() >= a,
                        forall|j: int| i0 <= j < i ==> #[trigger] leaf.key_seq()[j].rank() <= b,
                        derefs(out@) == derefs(old(out)@) + records_of(e.subrange(i0, i as int)),
                    decreases leaf.key_seq().len() - i,
                {
                    let ghost before = out@;
                    proof {
                        if i > i0 {
                            assert(leaf.key_seq()[i0].rank() < leaf.key_seq()[i as int].rank());
                        }
                    }
                    if !leaf.key(i).less_than(start) {
                        out.push(leaf.record(i));
                    }
                    proof {
                        assert(e.subrange(i0, i as int + 1) =~= e.subrange(i0, i as int).push(e[i as int]));
                        lemma_records_push(e.subrange(i0, i as int), e[i as int]);
                        lemma_derefs_push(before, &leaf.record_seq()[i as int]);
                    }
                    i += 1;
                }
                proof {
                    lemma_leaf_range(e, i0, i as int, a, b);
                }
            },
            Node::Interior(n) => {
                let mut i: usize = 0;
                while i < n.num_keys && !start.less_than(n.key(i))
                    invariant
                        node.well_formed(lo, hi, h, true),
                        *n == node->Interior_0,
                        n.slots_ok(),
                        0 <= i <= n.key_seq().len(),
                        a == start.rank(),
                        forall|j: int| 0 <= j < i ==> #[trigger] n.key_seq()[j].rank() <= a,
                    decreases n.key_seq().len() - i,
                {
                    i += 1;
                }
                let first = i;
                let ghost j0 = i as int;
                proof {
                    Node::lemma_children_facts(*n, lo, hi, h, true);
                    assert(n.child_seq().subrange(j0, j0) =~= Seq::<Node<FANOUT, K, V>>::empty());
                    assert(entries_of(n.child_seq().subrange(j0, j0)) =~= Seq::<(K, V)>::empty());
                    lemma_in_range_empty::<K, V>(a, b);
                    assert(derefs(out@) =~= derefs(old(out)@) + records_of(Seq::<(K, V)>::empty()));
                }
                let nc = n.children.len();
                while i <= n.num_keys && (i == first || !end.less_than(n.key(i - 1)))
                    invariant
                        nc == n.children@.len(),
                        node.well_formed(lo, hi, h, true),
                        *n == node->Interior_0,
                        n.slots_ok(),
                        Node::Interior(*n).well_formed(lo, hi, h, true),
                        n.child_seq().len() == n.key_seq().len() + 1,
                        0 <= j0 <= i <= n.child_seq().len(),
                        j0 < n.child_seq().len(),
                        first == j0,
                        j0 < n.key_seq().len() ==> n.key_seq()[j0].rank() > a,
                        a == start.rank(),
                        b == end.rank(),
                        a <= b,
                        forall|j: int| 0 <= j < j0 ==> #[trigger] n.key_seq()[j].rank() <= a,
                        derefs(out@) == derefs(old(out)@) + records_of(
                            in_range(entries_of(n.child_seq().subrange(j0, i as int)), a, b),
                        ),
                    decreases n.child_seq().len() - i,
                {
                    let ghost before = out@;
                    proof {
                        assert(n.child_seq()[i as int].well_formed(
                            child_lo(lo, n.key_seq(), i as int),
                            child_hi(hi, n.key_seq(), i as int),
                            (h - 1) as nat,
                            true,
                        ));
                    }
                    Self::range_into(
                        n.child(i),
                        start,
                        end,
                        out,
                        Ghost(child_lo(lo, n.key_seq(), i as int)),
                        Ghost(child_hi(hi, n.key_seq(), i as int)),
                        Ghost((h - 1) as nat),
                    );
                    proof {
                        let s0 = n.child_seq().subrange(j0, i as int);
                        assert(n.child_seq().subrange(j0, i as int + 1) =~= s0.push(n.child_seq()[i as int]));
                        lemma_entries_of_push(s0, n.child_seq()[i as int]);
                        lemma_in_range_add(entries_of(s0), n.child_seq()[i as int].entries(), a, b);
                    }
                    i += 1;
                }
                proof {
                    lemma_interior_range(*n, lo, hi, h, j0, i as int, a, b);
                }
            },
            Node::Invalid => {},
        }
    }

    /// The records whose keys lie between `range.0` and `range.1`, both
    /// included, in key order.
    pub fn search_range(&self, range: (&K, &K)) -> (r: Vec<&V>)
        requires
            range.0.rank() <= range.1.rank(),
        ensures
            derefs(r@) == records_of(in_range(self@, range.0.rank(), range.1.rank())),
    {
        proof {
            use_type_invariant(self);
        }
        let (start, end) = range;
        let mut result: Vec<&V> = Vec::new();
        match &self.root {
            None => {
                proof {
                    lemma_in_range_empty::<K, V>(start.rank(), end.rank());
                    assert(derefs(result@) =~= records_of(Seq::<(K, V)>::empty()));
                }
            },
            Some(root) => {
                proof {
                    assert(derefs(result@) =~= Seq::<V>::empty());
                }
                Self::range_into(root, start, end, &mut result, Ghost(None), Ghost(None), Ghost(root.height()));
                proof {
                    assert(derefs(result@) =~= Seq::<V>::empty() + records_of(in_range(self@, start.rank(), end.rank())));
                }
            },
        }
        result
    }

    /// The record stored under `key`, if any.
    pub fn search(&self, key: &K) -> (r: Option<&V>)
        ensures
            match r {
                Some(v) => lookup(self@, key.rank()) == Some(*v),
                None => lookup(self@, key.rank()) is None,
            },
    {
        proof {
            use_type_invariant(self);
        }
        let leaf = self.get_leaf_node(key)?;
        let ghost e = leaf.entries();
        for i in 0..leaf.num_keys
            invariant
                leaf.slots_ok(),
                keys_sorted(leaf.key_seq()),
                e == leaf.entries(),
                e.filter(rank_eq(key.rank())) == self@.filter(rank_eq(key.rank())),
                forall|j: int| 0 <= j < i ==> #[trigger] leaf.key_seq()[j].rank() != key.rank(),
        {
            if key.same_key(leaf.key(i)) {
                proof {
                    lemma_sorted_split(e, i as int);
                    lemma_frame(e.take(i as int), seq![e[i as int]], e.skip(i as int + 1), key.rank());
                    lemma_filter_single(e[i as int], rank_eq::<K, V>(key.rank()));
                }
                return Some(leaf.record(i));
            }
        }
        proof {
            lemma_filter_none(e, rank_eq::<K, V>(key.rank()));
        }
        None
    }

    /// Puts `(key, record)` into a leaf; a leaf that reaches `FANOUT` keys is
    /// split in two, and the right half is returned with its first key.
    fn insert_into_leaf(leaf: &mut Leaf<FANOUT, K, V>, key: K, record: V, Ghost(lo): Ghost<Option<int>>, Ghost(hi): Ghost<Option<int>>) -> (split: Option<(K, Leaf<FANOUT, K, V>)>)
        requires
            FANOUT > 1,
            old(leaf).well_formed(lo, hi),
            at_least(lo, key.rank()),
            below(key.rank(), hi),
        ensures
            match split {
                None => final(leaf).well_formed(lo, hi) && final(leaf).entries() == upsert(
                    old(leaf).entries(),
                    key,
                    record,
                ),
                Some((k, right)) => {
                    &&& above(lo, k.rank())
                    &&& below(k.rank(), hi)
                    &&& final(leaf).well_formed(lo, Some(k.rank()))
                    &&& right.well_formed(Some(k.rank()), hi)
                    &&& final(leaf).entries() + right.entries() == upsert(old(leaf).entries(), key, record)
                },
            },
            split is None ==> final(leaf).key_seq().len() == old(leaf).key_seq().len() || (final(leaf).key_seq().len()
                == old(leaf).key_seq().len() + 1 && final(leaf).key_seq().len() != FANOUT),
            split matches Some((k, right)) ==> final(leaf).key_seq().len() == FANOUT / 2 && right.key_seq().len()
                == FANOUT - FANOUT / 2,
            split is Some <==> splits_on_insert(Node::Leaf(*old(leaf)), key.rank()),
    {
        let ghost r = key.rank();
        let mut idx: usize = 0;
        while idx < leaf.num_keys && leaf.key(idx).less_than(&key)
            invariant
                leaf.well_formed(lo, hi),
                *leaf == *old(leaf),
                0 <= idx <= leaf.key_seq().len(),
                r == key.rank(),
                forall|j: int| 0 <= j < idx ==> #[trigger] leaf.key_seq()[j].rank() < r,
            decreases leaf.key_seq().len() - idx,
        {
            idx += 1;
        }
        if idx < leaf.num_keys && leaf.key(idx).same_key(&key) {
            proof {
                lemma_leaf_update(leaf.key_seq(), leaf.record_seq(), idx as int, key, record);
            }
            leaf.set_record(idx, record);
            return None;
        }
        proof {
            lemma_leaf_insert(leaf.key_seq(), leaf.record_seq(), idx as int, key, record, lo, hi);
            assert forall|j: int| 0 <= j < leaf.key_seq().len() implies #[trigger] leaf.key_seq()[j].rank() != r by {
                if j > idx as int {
                    assert(leaf.key_seq()[idx as int].rank() < leaf.key_seq()[j].rank());
                }
            }
        }
        let (mut ks, mut rs) = leaf.take_entries();
        ks.insert(idx, key);
        rs.insert(idx, record);
        leaf.put_entries(ks, rs);
        if leaf.num_keys == FANOUT {
            let split = FANOUT / 2;
            proof {
                lemma_leaf_split(leaf.key_seq(), leaf.record_seq(), split as int, lo, hi);
            }
            let (mut ks, mut rs) = leaf.take_entries();
            let ks2 = ks.split_off(split);
            let rs2 = rs.split_off(split);
            leaf.put_entries(ks, rs);
            let mut new_leaf: Leaf<FANOUT, K, V> = Node::new_leaf();
            new_leaf.put_entries(ks2, rs2);
            let new_key = new_leaf.key(0).clone_key();
            return Some((new_key, new_leaf));
        }
        None
    }
}

/// The bounds of the leaf in which a key of rank `r` is looked for: the
/// separators on either side of the child taken at each level on the way
/// down from `node`, whose own bounds are `lo` and `hi`.
#[verifier::opaque]
pub open spec fn leaf_bounds<const FANOUT: usize, K: Key, V: Record>(
    node: Node<FANOUT, K, V>,
    r: int,
    lo: Option<int>,
    hi: Option<int>,
) -> (Option<int>, Option<int>)
    decreases node,
{
    match node {
        Node::Interior(n) => {
            let i = slot_for(n.key_seq(), r) as int;
            if 0 <= i < n.children@.len() {
                match n.children@[i] {
                    Some(c) => leaf_bounds(c, r, child_lo(lo, n.key_seq(), i), child_hi(hi, n.key_seq(), i)),
                    None => (lo, hi),
                }
            } else {
                (lo, hi)
            }
        },
        _ => (lo, hi),
    }
}

/// The leaf `l` holds the place of keys of rank `r` among the entries `s`:
/// `r` and the leaf's keys lie within its bounds `b`, and `s` is the entries
/// of the leaves before it, all below the bounds, then the leaf's own, then
/// those of the leaves after it, all at or above the bounds.
#[verifier::opaque]
pub open spec fn leaf_holds_place<const FANOUT: usize, K: Key, V: Record>(
    s: Seq<(K, V)>,
    l: Leaf<FANOUT, K, V>,
    r: int,
    b: (Option<int>, Option<int>),
) -> bool {
    &&& at_least(b.0, r)
    &&& below(r, b.1)
    &&& l.well_formed(b.0, b.1)
    &&& exists|pre: Seq<(K, V)>, suf: Seq<(K, V)>|
        #![trigger pre.len(), suf.len()]
        {
            &&& s == pre + l.entries() + suf
            &&& forall|t: int| 0 <= t < pre.len() ==> #[trigger] pre[t].0.rank() < r && below(pre[t].0.rank(), b.0)
            &&& forall|t: int| 0 <= t < suf.len() ==> #[trigger] suf[t].0.rank() > r && at_least(b.1, suf[t].0.rank())
        }
}

/// The leaf reached holds the key's place.
proof fn lemma_leaf_found<const FANOUT: usize, K: Key, V: Record>(
    s: Seq<(K, V)>,
    l: Leaf<FANOUT, K, V>,
    pre: Seq<(K, V)>,
    suf: Seq<(K, V)>,
    lo: Option<int>,
    hi: Option<int>,
    r: int,
)
    requires
        at_least(lo, r),
        below(r, hi),
        l.well_formed(lo, hi),
        s == pre + l.entries() + suf,
        forall|t: int| 0 <= t < pre.len() ==> #[trigger] pre[t].0.rank() < r && below(pre[t].0.rank(), lo),
        forall|t: int| 0 <= t < suf.len() ==> #[trigger] suf[t].0.rank() > r && at_least(hi, suf[t].0.rank()),
    ensures
        leaf_holds_place(s, l, r, (lo, hi)),
{
    reveal(leaf_holds_place);
    assert(pre.len() + suf.len() >= 0);
}

/// At a leaf, the bounds are those it was reached with.
proof fn lemma_leaf_bounds_at_leaf<const FANOUT: usize, K: Key, V: Record>(
    node: Node<FANOUT, K, V>,
    r: int,
    lo: Option<int>,
    hi: Option<int>,
)
    requires
        node is Leaf,
    ensures
        leaf_bounds(node, r, lo, hi) == (lo, hi),
{
    reveal(leaf_bounds);
}

/// Going down into child `i` of `n`, the child whose bounds hold `r`: the
/// entries left of it join those below `r`, and those right of it join those
/// above `r`.
proof fn lemma_descend<const FANOUT: usize, K: Key, V: Record>(
    n: Interior<FANOUT, K, V>,
    lo: Option<int>,
    hi: Option<int>,
    h: nat,
    i: int,
    r: int,
    pre: Seq<(K, V)>,
    suf: Seq<(K, V)>,
) -> (ps: (Seq<(K, V)>, Seq<(K, V)>))
    requires
        Node::Interior(n).well_formed(lo, hi, h, true),
        0 <= i <= n.key_seq().len(),
        forall|j: int| 0 <= j < i ==> #[trigger] n.key_seq()[j].rank() <= r,
        i < n.key_seq().len() ==> r < n.key_seq()[i].rank(),
        forall|t: int| 0 <= t < pre.len() ==> #[trigger] pre[t].0.rank() < r && below(pre[t].0.rank(), lo),
        forall|t: int| 0 <= t < suf.len() ==> #[trigger] suf[t].0.rank() > r && at_least(hi, suf[t].0.rank()),
        lo is None ==> pre.len() == 0,
        hi is None ==> suf.len() == 0,
    ensures
        pre + Node::Interior(n).entries() + suf == ps.0 + n.child_seq()[i].entries() + ps.1,
        forall|t: int|
            0 <= t < ps.0.len() ==> #[trigger] ps.0[t].0.rank() < r && below(ps.0[t].0.rank(), child_lo(lo, n.key_seq(), i)),
        forall|t: int|
            0 <= t < ps.1.len() ==> #[trigger] ps.1[t].0.rank() > r && at_least(child_hi(hi, n.key_seq(), i), ps.1[t].0.rank()),
        child_lo(lo, n.key_seq(), i) is None ==> ps.0.len() == 0,
        child_hi(hi, n.key_seq(), i) is None ==> ps.1.len() == 0,
        leaf_bounds(Node::Interior(n), r, lo, hi) == leaf_bounds(
            n.child_seq()[i],
            r,
            child_lo(lo, n.key_seq(), i),
            child_hi(hi, n.key_seq(), i),
        ),
{
    reveal(leaf_bounds);
    lemma_slot_for(n.key_seq(), r, i);
    lemma_child_slot(n, i);
    Node::lemma_split_at(n, lo, hi, h, true, i);
    let a = entries_of(n.child_seq().take(i));
    let c = n.child_seq()[i].entries();
    let b = entries_of(n.child_seq().skip(i + 1));
    let p2 = pre + a;
    let s2 = b + suf;
    let nlo = child_lo(lo, n.key_seq(), i);
    let nhi = child_hi(hi, n.key_seq(), i);
    assert forall|t: int| 0 <= t < p2.len() implies #[trigger] p2[t].0.rank() < r && below(p2[t].0.rank(), nlo) by {
        if t >= pre.len() {
            assert(p2[t] == a[t - pre.len()]);
            assert(a[t - pre.len()].0.rank() < n.key_seq()[i - 1].rank());
        } else {
            assert(p2[t] == pre[t]);
            if i > 0 {
                assert(above(lo, n.key_seq()[i - 1].rank()));
            }
        }
    }
    assert forall|t: int| 0 <= t < s2.len() implies #[trigger] s2[t].0.rank() > r && at_least(nhi, s2[t].0.rank()) by {
        if t < b.len() {
            assert(s2[t] == b[t]);
            assert(b[t].0.rank() >= n.key_seq()[i].rank());
        } else {
            assert(s2[t] == suf[t - b.len()]);
            if i < n.key_seq().len() {
                assert(below(n.key_seq()[i].rank(), hi));
            }
        }
    }
    assert(pre + (a + c + b) + suf =~= p2 + c + s2);
    (p2, s2)
}

pub proof fn lemma_erase_empty<K: Key, V>(r: int)
    ensures
        erase(Seq::<(K, V)>::empty(), r) == Seq::<(K, V)>::empty(),
{
    lemma_filter_none(Seq::<(K, V)>::empty(), rank_ne::<K, V>(r));
}

/// A root without separators hands its place to its only child.
pub proof fn lemma_root_collapse<const FANOUT: usize, K: Key, V: Record>(n: Interior<FANOUT, K, V>, h: nat)
    requires
        Node::Interior(n).well_formed(None, None, h, false),
        n.key_seq().len() == 0,
    ensures
        n.child_seq()[0].well_formed(None, None, n.child_seq()[0].height(), true),
        n.child_seq()[0].height() == h - 1,
        n.child_seq()[0].entries() == Node::Interior(n).entries(),
{
    assert(n.child_seq()[0].well_formed(child_lo(None, n.key_seq(), 0), child_hi(None, n.key_seq(), 0), (h - 1) as nat, true));
    n.child_seq()[0].lemma_entries_sorted_within(None, None, (h - 1) as nat, true);
    assert(n.child_seq() =~= seq![n.child_seq()[0]]);
    lemma_entries_of_single(n.child_seq()[0]);
}

} // verus!
