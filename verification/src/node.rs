use vstd::prelude::*;

verus! {

/// Keys of the tree. Keys are ordered by their rank, and two keys with the
/// same rank are the same key.
pub trait Key: Sized {
    spec fn rank(&self) -> int;

    proof fn lemma_rank_injective(a: &Self, b: &Self)
        requires
            a.rank() == b.rank(),
        ensures
            *a == *b,
    ;

    fn less_than(&self, other: &Self) -> (b: bool)
        ensures
            b == (self.rank() < other.rank()),
    ;

    fn same_key(&self, other: &Self) -> (b: bool)
        ensures
            b == (self.rank() == other.rank()),
    ;

    fn clone_key(&self) -> (k: Self)
        ensures
            k == *self,
    ;
}

/// Records stored in the tree.
pub trait Record {}

/// A leaf. The first `num_keys` slots hold its keys in ascending order, with
/// `records[i]` stored under `keys[i]`; the slots after them are empty.
#[derive(Debug)]
pub struct Leaf<const FANOUT: usize, K: Key, V: Record> {
    pub num_keys: usize,
    pub keys: Vec<Option<K>>,
    pub records: Vec<Option<V>>,
}

/// An interior node with `num_keys` separators in its first key slots and
/// `num_keys + 1` children in its first child slots: `keys[j]` separates the
/// keys under `children[j]` (below it) from those under `children[j + 1]` (at
/// or above it). The slots after them are empty.
#[derive(Debug)]
pub struct Interior<const FANOUT: usize, K: Key, V: Record> {
    pub num_keys: usize,
    pub keys: Vec<Option<K>>,
    pub children: Vec<Option<Node<FANOUT, K, V>>>,
}

/// A node of the tree. `Invalid` is the default value and never part of a
/// well-formed tree.
#[derive(Debug, Default)]
pub enum Node<const FANOUT: usize, K: Key, V: Record> {
    #[default]
    Invalid,
    Leaf(Leaf<FANOUT, K, V>),
    Interior(Interior<FANOUT, K, V>),
}

// ---------------------------------------------------------------------------
// Bounds and orderings
// ---------------------------------------------------------------------------

/// `x` is at or above the (inclusive) lower bound `lo`.
pub open spec fn at_least(lo: Option<int>, x: int) -> bool {
    match lo {
        Some(l) => l <= x,
        None => true,
    }
}

/// `x` is strictly above the lower bound `lo`.
pub open spec fn above(lo: Option<int>, x: int) -> bool {
    match lo {
        Some(l) => l < x,
        None => true,
    }
}

/// `x` is strictly below the (exclusive) upper bound `hi`.
pub open spec fn below(x: int, hi: Option<int>) -> bool {
    match hi {
        Some(h) => x < h,
        None => true,
    }
}

pub open spec fn keys_sorted<K: Key>(s: Seq<K>) -> bool {
    forall|i: int, j: int| 0 <= i < j < s.len() ==> s[i].rank() < s[j].rank()
}

pub open spec fn entries_sorted<K: Key, V>(s: Seq<(K, V)>) -> bool {
    forall|i: int, j: int| 0 <= i < j < s.len() ==> s[i].0.rank() < s[j].0.rank()
}

pub open spec fn entries_within<K: Key, V>(s: Seq<(K, V)>, lo: Option<int>, hi: Option<int>) -> bool {
    forall|i: int| 0 <= i < s.len() ==> at_least(lo, #[trigger] s[i].0.rank()) && below(s[i].0.rank(), hi)
}

/// Lower bound of the keys that may be found under child `j`.
pub open spec fn child_lo<K: Key>(lo: Option<int>, keys: Seq<K>, j: int) -> Option<int> {
    if j <= 0 {
        lo
    } else {
        Some(keys[j - 1].rank())
    }
}

/// Upper bound (exclusive) of the keys that may be found under child `j`.
pub open spec fn child_hi<K: Key>(hi: Option<int>, keys: Seq<K>, j: int) -> Option<int> {
    if j >= keys.len() {
        hi
    } else {
        Some(keys[j].rank())
    }
}

// ---------------------------------------------------------------------------
// Contents of a node
// ---------------------------------------------------------------------------

/// The pairs of keys and records at the same positions.
pub open spec fn zip_entries<K, V>(keys: Seq<K>, records: Seq<V>) -> Seq<(K, V)> {
    Seq::new(keys.len(), |i: int| (keys[i], records[i]))
}

/// The entries under a sequence of sibling nodes, left to right.
pub open spec fn entries_of<const FANOUT: usize, K: Key, V: Record>(s: Seq<Node<FANOUT, K, V>>) -> Seq<(K, V)>
    decreases s,
{
    if s.len() == 0 {
        Seq::empty()
    } else {
        entries_of(s.drop_last()) + s.last().entries()
    }
}

/// The entries under a sequence of child slots, left to right; an empty
/// slot holds none.
pub open spec fn entries_of_slots<const FANOUT: usize, K: Key, V: Record>(
    s: Seq<Option<Node<FANOUT, K, V>>>,
) -> Seq<(K, V)>
    decreases s,
{
    if s.len() == 0 {
        Seq::empty()
    } else {
        entries_of_slots(s.drop_last()) + match s.last() {
            Some(c) => c.entries(),
            None => Seq::empty(),
        }
    }
}

impl<const FANOUT: usize, K: Key, V: Record> Leaf<FANOUT, K, V> {
    /// The keys in use, in slot order.
    #[verifier::opaque]
    pub open spec fn key_seq(self) -> Seq<K> {
        Seq::new(self.num_keys as nat, |i: int| self.keys@[i]->0)
    }

    /// The records in use, in slot order.
    #[verifier::opaque]
    pub open spec fn record_seq(self) -> Seq<V> {
        Seq::new(self.num_keys as nat, |i: int| self.records@[i]->0)
    }

    /// The first `num_keys` key and record slots are filled, the rest empty.
    pub open spec fn slots_ok(self) -> bool {
        &&& self.num_keys <= self.keys@.len()
        &&& self.num_keys <= self.records@.len()
        &&& forall|i: int| 0 <= i < self.keys@.len() ==> ((#[trigger] self.keys@[i]) is Some <==> i < self.num_keys)
        &&& forall|i: int|
            0 <= i < self.records@.len() ==> ((#[trigger] self.records@[i]) is Some <==> i < self.num_keys)
    }

    /// The (key, record) pairs of the leaf, in slot order.
    pub open spec fn entries(self) -> Seq<(K, V)> {
        zip_entries(self.key_seq(), self.record_seq())
    }

    pub open spec fn well_formed(self, lo: Option<int>, hi: Option<int>) -> bool {
        &&& self.slots_ok()
        &&& self.key_seq().len() == self.record_seq().len()
        &&& keys_sorted(self.key_seq())
        &&& forall|i: int|
            0 <= i < self.key_seq().len() ==> at_least(lo, #[trigger] self.key_seq()[i].rank()) && below(
                self.key_seq()[i].rank(),
                hi,
            )
    }
}

impl<const FANOUT: usize, K: Key, V: Record> Interior<FANOUT, K, V> {
    /// The separators in use, in slot order.
    #[verifier::opaque]
    pub open spec fn key_seq(self) -> Seq<K> {
        Seq::new(self.num_keys as nat, |i: int| self.keys@[i]->0)
    }

    /// The children in use, in slot order.
    #[verifier::opaque]
    pub open spec fn child_seq(self) -> Seq<Node<FANOUT, K, V>> {
        Seq::new((self.num_keys + 1) as nat, |i: int| self.children@[i]->0)
    }

    /// The first `num_keys` key slots and `num_keys + 1` child slots are
    /// filled, the rest empty.
    pub open spec fn slots_ok(self) -> bool {
        &&& self.num_keys <= self.keys@.len()
        &&& self.num_keys < self.children@.len()
        &&& forall|i: int| 0 <= i < self.keys@.len() ==> ((#[trigger] self.keys@[i]) is Some <==> i < self.num_keys)
        &&& forall|i: int|
            0 <= i < self.children@.len() ==> ((#[trigger] self.children@[i]) is Some <==> i <= self.num_keys)
    }

    /// No slot is filled.
    pub open spec fn slots_empty(self) -> bool {
        &&& self.num_keys == 0
        &&& forall|i: int| 0 <= i < self.keys@.len() ==> (#[trigger] self.keys@[i]) is None
        &&& forall|i: int| 0 <= i < self.children@.len() ==> (#[trigger] self.children@[i]) is None
    }

    /// The separator keys are sorted and lie strictly inside the bounds,
    /// and there is one more child than keys.
    pub open spec fn keys_ok(self, lo: Option<int>, hi: Option<int>) -> bool {
        &&& self.slots_ok()
        &&& self.child_seq().len() == self.key_seq().len() + 1
        &&& keys_sorted(self.key_seq())
        &&& forall|i: int|
            0 <= i < self.key_seq().len() ==> above(lo, #[trigger] self.key_seq()[i].rank()) && below(
                self.key_seq()[i].rank(),
                hi,
            )
    }
}

impl<const FANOUT: usize, K: Key, V: Record> Node<FANOUT, K, V> {
    /// The (key, record) pairs stored under this node, left to right.
    pub open spec fn entries(self) -> Seq<(K, V)>
        decreases self,
    {
        match self {
            Node::Invalid => Seq::empty(),
            Node::Leaf(l) => zip_entries(l.key_seq(), l.record_seq()),
            Node::Interior(n) => entries_of_slots(n.children@),
        }
    }

    /// Length of the leftmost path from this node to a leaf.
    pub open spec fn height(self) -> nat
        decreases self,
    {
        match self {
            Node::Interior(n) => if n.children@.len() > 0 {
                match n.children@[0] {
                    Some(c) => 1 + c.height(),
                    None => 1,
                }
            } else {
                1
            },
            _ => 0,
        }
    }

    /// The node is a B+ tree of height `h` whose keys lie in `[lo, hi)`.
    /// With `min_keys`, an interior node has a key whenever the fanout is at
    /// least 3; nodes below are always held to that.
    pub open spec fn well_formed(self, lo: Option<int>, hi: Option<int>, h: nat, min_keys: bool) -> bool
        decreases h,
    {
        match self {
            Node::Invalid => false,
            Node::Leaf(l) => h == 0 && l.well_formed(lo, hi),
            Node::Interior(n) => {
                &&& h > 0
                &&& n.keys_ok(lo, hi)
                &&& (min_keys && FANOUT >= 3 ==> n.key_seq().len() >= 1)
                &&& forall|j: int|
                    0 <= j < n.child_seq().len() ==> (#[trigger] n.child_seq()[j]).well_formed(
                        child_lo(lo, n.key_seq(), j),
                        child_hi(hi, n.key_seq(), j),
                        (h - 1) as nat,
                        true,
                    )
            },
        }
    }

    /// No node holds more than `FANOUT - 1` keys, the node itself holds at
    /// least `min` keys, and the nodes below it, leaves and interior nodes
    /// alike, hold at least `min_leaf_keys(FANOUT)`: half of `FANOUT - 1`
    /// when the fanout is at least 3.
    pub open spec fn fits(self, h: nat, min: int) -> bool
        decreases h,
    {
        match self {
            Node::Invalid => false,
            Node::Leaf(l) => h == 0 && min <= l.key_seq().len() <= FANOUT - 1,
            Node::Interior(n) => {
                &&& h > 0
                &&& min <= n.key_seq().len() <= FANOUT - 1
                &&& forall|j: int|
                    0 <= j < n.child_seq().len() ==> (#[trigger] n.child_seq()[j]).fits(
                        (h - 1) as nat,
                        min_leaf_keys(FANOUT as int),
                    )
            },
        }
    }
}

/// The number of leading keys whose ranks are at most `r`: the child of an
/// interior node under which a key of rank `r` belongs.
pub open spec fn slot_for<K: Key>(keys: Seq<K>, r: int) -> nat
    decreases keys.len(),
{
    if keys.len() > 0 && keys[0].rank() <= r {
        1 + slot_for(keys.drop_first(), r)
    } else {
        0
    }
}

/// Whether putting a new key of rank `r` into the subtree at `node` splits
/// it: the key is not yet in the leaf it goes to, and that leaf and every
/// node on the way down to it hold `FANOUT - 1` keys, so that each reaches
/// `FANOUT`.
pub open spec fn splits_on_insert<const FANOUT: usize, K: Key, V: Record>(node: Node<FANOUT, K, V>, r: int) -> bool
    decreases node,
{
    match node {
        Node::Invalid => false,
        Node::Leaf(l) => {
            &&& forall|j: int| 0 <= j < l.key_seq().len() ==> #[trigger] l.key_seq()[j].rank() != r
            &&& l.key_seq().len() + 1 == FANOUT
        },
        Node::Interior(n) => {
            let i = slot_for(n.key_seq(), r) as int;
            &&& n.key_seq().len() + 1 == FANOUT
            &&& 0 <= i < n.children@.len()
            &&& match n.children@[i] {
                Some(c) => splits_on_insert(c, r),
                None => false,
            }
        },
    }
}

/// Slot `i` of a node with its slots in order holds child `i`.
pub proof fn lemma_child_slot<const FANOUT: usize, K: Key, V: Record>(n: Interior<FANOUT, K, V>, i: int)
    requires
        n.slots_ok(),
        0 <= i <= n.num_keys,
    ensures
        n.children@[i] == Some(n.child_seq()[i]),
{
    reveal(Interior::child_seq);
    assert(n.children@[i] is Some);
}

/// The loop that walks past the keys at or below `r` stops at `slot_for`.
pub proof fn lemma_slot_for<K: Key>(keys: Seq<K>, r: int, i: int)
    requires
        0 <= i <= keys.len(),
        forall|j: int| 0 <= j < i ==> #[trigger] keys[j].rank() <= r,
        i < keys.len() ==> keys[i].rank() > r,
    ensures
        slot_for(keys, r) == i,
    decreases i,
{
    if i > 0 {
        let t = keys.drop_first();
        assert forall|j: int| 0 <= j < i - 1 implies #[trigger] t[j].rank() <= r by {
            assert(t[j] == keys[j + 1]);
        }
        if i - 1 < t.len() {
            assert(t[i - 1] == keys[i]);
        }
        lemma_slot_for(t, r, i - 1);
        assert(keys[0].rank() <= r);
    }
}

impl<const FANOUT: usize, K: Key, V: Record> Node<FANOUT, K, V> {
    /// No node holds more than `FANOUT - 1` keys.
    pub open spec fn bounded(self, h: nat) -> bool
        decreases h,
    {
        match self {
            Node::Invalid => false,
            Node::Leaf(l) => h == 0 && l.key_seq().len() <= FANOUT - 1,
            Node::Interior(n) => {
                &&& h > 0
                &&& n.key_seq().len() <= FANOUT - 1
                &&& forall|j: int|
                    0 <= j < n.child_seq().len() ==> (#[trigger] n.child_seq()[j]).bounded((h - 1) as nat)
            },
        }
    }

    /// A node that fits holds no more than `FANOUT - 1` keys anywhere.
    pub proof fn lemma_fits_bounded(self, h: nat, m: int)
        requires
            self.fits(h, m),
        ensures
            self.bounded(h),
        decreases h,
    {
        if let Node::Interior(n) = self {
            assert forall|j: int| 0 <= j < n.child_seq().len() implies (#[trigger] n.child_seq()[j]).bounded(
                (h - 1) as nat,
            ) by {
                n.child_seq()[j].lemma_fits_bounded((h - 1) as nat, min_leaf_keys(FANOUT as int));
            }
        }
    }
}

/// The fewest keys a leaf other than the root holds.
pub open spec fn min_leaf_keys(fanout: int) -> int {
    if fanout >= 3 {
        (fanout - 1) / 2
    } else {
        0
    }
}

// ---------------------------------------------------------------------------
// Lemmas
// ---------------------------------------------------------------------------

/// Filled slots read as the sequence of their children.
proof fn lemma_slots_prefix<const FANOUT: usize, K: Key, V: Record>(s: Seq<Option<Node<FANOUT, K, V>>>, k: int)
    requires
        0 <= k <= s.len(),
        forall|i: int| 0 <= i < k ==> (#[trigger] s[i]) is Some,
    ensures
        entries_of_slots(s.take(k)) == entries_of(Seq::new(k as nat, |i: int| s[i]->0)),
    decreases k,
{
    let t = Seq::new(k as nat, |i: int| s[i]->0);
    if k == 0 {
        assert(s.take(0) =~= Seq::<Option<Node<FANOUT, K, V>>>::empty());
        assert(t =~= Seq::<Node<FANOUT, K, V>>::empty());
    } else {
        lemma_slots_prefix(s, k - 1);
        assert(s.take(k).drop_last() =~= s.take(k - 1));
        assert(t.drop_last() =~= Seq::new((k - 1) as nat, |i: int| s[i]->0));
        assert(s.take(k).last() == s[k - 1]);
        assert(s[k - 1] is Some);
    }
}

/// Empty slots at the end hold no entries.
proof fn lemma_slots_tail<const FANOUT: usize, K: Key, V: Record>(s: Seq<Option<Node<FANOUT, K, V>>>, k: int)
    requires
        0 <= k <= s.len(),
        forall|i: int| k <= i < s.len() ==> (#[trigger] s[i]) is None,
    ensures
        entries_of_slots(s) == entries_of_slots(s.take(k)),
    decreases s.len(),
{
    if s.len() == k {
        assert(s.take(k) =~= s);
    } else {
        let d = s.drop_last();
        assert forall|i: int| k <= i < d.len() implies (#[trigger] d[i]) is None by {
            assert(d[i] == s[i]);
        }
        lemma_slots_tail(d, k);
        assert(d.take(k) =~= s.take(k));
        assert(s.last() is None);
        assert(entries_of_slots(d) + Seq::<(K, V)>::empty() =~= entries_of_slots(d));
    }
}

/// The entries of an interior node are those of its children in use.
pub broadcast proof fn lemma_interior_entries<const FANOUT: usize, K: Key, V: Record>(n: Interior<FANOUT, K, V>)
    requires
        n.slots_ok(),
    ensures
        #[trigger] Node::Interior(n).entries() == entries_of(n.child_seq()),
{
    reveal(Interior::child_seq);
    let s = n.children@;
    let k = n.num_keys + 1;
    lemma_slots_tail(s, k);
    lemma_slots_prefix(s, k);
    assert(n.child_seq() =~= Seq::new(k as nat, |i: int| s[i]->0));
}

/// A leaf has `num_keys` keys in use.
pub broadcast proof fn lemma_leaf_key_count<const FANOUT: usize, K: Key, V: Record>(l: Leaf<FANOUT, K, V>)
    ensures
        #[trigger] l.key_seq().len() == l.num_keys,
{
    reveal(Leaf::key_seq);
}

/// A leaf has `num_keys` records in use.
pub broadcast proof fn lemma_leaf_record_count<const FANOUT: usize, K: Key, V: Record>(l: Leaf<FANOUT, K, V>)
    ensures
        #[trigger] l.record_seq().len() == l.num_keys,
{
    reveal(Leaf::record_seq);
}

/// An interior node has `num_keys` separators in use.
pub broadcast proof fn lemma_interior_key_count<const FANOUT: usize, K: Key, V: Record>(n: Interior<FANOUT, K, V>)
    ensures
        #[trigger] n.key_seq().len() == n.num_keys,
{
    reveal(Interior::key_seq);
}

/// An interior node has `num_keys + 1` children in use.
pub broadcast proof fn lemma_interior_child_count<const FANOUT: usize, K: Key, V: Record>(n: Interior<FANOUT, K, V>)
    ensures
        #[trigger] n.child_seq().len() == n.num_keys + 1,
{
    reveal(Interior::child_seq);
}

pub broadcast group group_node_slots {
    lemma_interior_entries,
    lemma_interior_height,
    lemma_leaf_key_count,
    lemma_leaf_record_count,
    lemma_interior_key_count,
    lemma_interior_child_count,
}

/// The height of an interior node is one more than that of its first child.
pub broadcast proof fn lemma_interior_height<const FANOUT: usize, K: Key, V: Record>(n: Interior<FANOUT, K, V>)
    requires
        n.slots_ok(),
    ensures
        #[trigger] Node::Interior(n).height() == 1 + n.child_seq()[0].height(),
{
    reveal(Interior::child_seq);
    assert(n.children@[0] is Some);
}

pub proof fn lemma_entries_of_push<const FANOUT: usize, K: Key, V: Record>(
    s: Seq<Node<FANOUT, K, V>>,
    x: Node<FANOUT, K, V>,
)
    ensures
        entries_of(s.push(x)) == entries_of(s) + x.entries(),
{
    broadcast use group_node_slots;

    assert(s.push(x).drop_last() =~= s);
}

pub proof fn lemma_entries_of_add<const FANOUT: usize, K: Key, V: Record>(
    a: Seq<Node<FANOUT, K, V>>,
    b: Seq<Node<FANOUT, K, V>>,
)
    ensures
        entries_of(a + b) == entries_of(a) + entries_of(b),
    decreases b.len(),
{
    broadcast use group_node_slots;

    if b.len() == 0 {
        assert(a + b =~= a);
        assert(entries_of(a) + entries_of(b) =~= entries_of(a));
    } else {
        lemma_entries_of_add(a, b.drop_last());
        assert((a + b).drop_last() =~= a + b.drop_last());
        assert((a + b).last() == b.last());
        assert(entries_of(a) + entries_of(b) =~= entries_of(a) + entries_of(b.drop_last())
            + b.last().entries());
    }
}

pub proof fn lemma_entries_of_single<const FANOUT: usize, K: Key, V: Record>(x: Node<FANOUT, K, V>)
    ensures
        entries_of(seq![x]) == x.entries(),
{
    broadcast use group_node_slots;

    assert(seq![x].drop_last() =~= Seq::<Node<FANOUT, K, V>>::empty());
    assert(entries_of(Seq::<Node<FANOUT, K, V>>::empty()) =~= Seq::<(K, V)>::empty());
    assert(Seq::<(K, V)>::empty() + x.entries() =~= x.entries());
}

/// Splitting the children at `j` splits the entries: those left of child `j`,
/// those of child `j`, and those right of it.
pub proof fn lemma_entries_of_split<const FANOUT: usize, K: Key, V: Record>(
    s: Seq<Node<FANOUT, K, V>>,
    j: int,
)
    requires
        0 <= j < s.len(),
    ensures
        entries_of(s) == entries_of(s.take(j)) + s[j].entries() + entries_of(s.skip(j + 1)),
{
    broadcast use group_node_slots;

    assert(s =~= s.take(j) + seq![s[j]] + s.skip(j + 1));
    lemma_entries_of_add(s.take(j) + seq![s[j]], s.skip(j + 1));
    lemma_entries_of_add(s.take(j), seq![s[j]]);
    lemma_entries_of_single(s[j]);
}

pub proof fn lemma_sorted_concat<K: Key, V>(a: Seq<(K, V)>, b: Seq<(K, V)>, m: int)
    requires
        entries_sorted(a),
        entries_sorted(b),
        forall|i: int| 0 <= i < a.len() ==> #[trigger] a[i].0.rank() < m,
        forall|i: int| 0 <= i < b.len() ==> m <= #[trigger] b[i].0.rank(),
    ensures
        entries_sorted(a + b),
{
    broadcast use group_node_slots;

    assert forall|i: int, j: int| 0 <= i < j < (a + b).len() implies (a + b)[i].0.rank() < (a
        + b)[j].0.rank() by {
        if j < a.len() {
        } else if i >= a.len() {
            assert((a + b)[i] == b[i - a.len()]);
            assert((a + b)[j] == b[j - a.len()]);
        } else {
            assert((a + b)[i] == a[i]);
            assert((a + b)[j] == b[j - a.len()]);
        }
    }
}

impl<const FANOUT: usize, K: Key, V: Record> Node<FANOUT, K, V> {
    /// The entries under a well-formed node are sorted and lie within its bounds.
    pub proof fn lemma_entries_sorted_within(self, lo: Option<int>, hi: Option<int>, h: nat, m: bool)
        requires
            self.well_formed(lo, hi, h, m),
        ensures
            entries_sorted(self.entries()),
            entries_within(self.entries(), lo, hi),
            self.height() == h,
        decreases h,
    {
        broadcast use group_node_slots;

        match self {
            Node::Leaf(l) => {
                assert(entries_sorted(self.entries()));
            },
            Node::Interior(n) => {
                assert forall|j: int| 0 <= j < n.child_seq().len() implies entries_sorted(
                    (#[trigger] n.child_seq()[j]).entries(),
                ) && entries_within(
                    n.child_seq()[j].entries(),
                    child_lo(lo, n.key_seq(), j),
                    child_hi(hi, n.key_seq(), j),
                ) && n.child_seq()[j].height() == h - 1 by {
                    n.child_seq()[j].lemma_entries_sorted_within(
                        child_lo(lo, n.key_seq(), j),
                        child_hi(hi, n.key_seq(), j),
                        (h - 1) as nat,
                        true,
                    );
                }
                Self::lemma_children_prefix(n, lo, hi, h, n.child_seq().len() as int);
                assert(n.child_seq().take(n.child_seq().len() as int) =~= n.child_seq());
            },
            Node::Invalid => {},
        }
    }

    /// The entries of the first `k` children are sorted and lie between `lo`
    /// and the upper bound of child `k - 1`.
    pub proof fn lemma_children_prefix(
        n: Interior<FANOUT, K, V>,
        lo: Option<int>,
        hi: Option<int>,
        h: nat,
        k: int,
    )
        requires
            n.keys_ok(lo, hi),
            forall|j: int|
                0 <= j < n.child_seq().len() ==> entries_sorted((#[trigger] n.child_seq()[j]).entries())
                    && entries_within(
                    n.child_seq()[j].entries(),
                    child_lo(lo, n.key_seq(), j),
                    child_hi(hi, n.key_seq(), j),
                ),
            0 <= k <= n.child_seq().len(),
        ensures
            entries_sorted(entries_of(n.child_seq().take(k))),
            entries_within(entries_of(n.child_seq().take(k)), lo, child_hi(hi, n.key_seq(), k - 1)),
        decreases k,
    {
        broadcast use group_node_slots;

        let s = n.child_seq().take(k);
        if k == 0 {
            assert(s.len() == 0);
            assert(entries_of(s) =~= Seq::<(K, V)>::empty());
        } else {
            Self::lemma_children_prefix(n, lo, hi, h, k - 1);
            assert(s.drop_last() =~= n.child_seq().take(k - 1));
            let c = n.child_seq()[k - 1];
            assert(s.last() == c);
            let a = entries_of(n.child_seq().take(k - 1));
            let b = c.entries();
            assert(entries_of(s) == a + b);
            if k == 1 {
                assert(n.child_seq().take(0) =~= Seq::<Node<FANOUT, K, V>>::empty());
                assert(a =~= Seq::<(K, V)>::empty());
                assert(a + b =~= b);
            } else {
                let m = n.key_seq()[k - 2].rank();
                assert forall|i: int| 0 <= i < b.len() implies m <= #[trigger] b[i].0.rank() by {
                    assert(at_least(child_lo(lo, n.key_seq(), k - 1), b[i].0.rank()));
                }
                assert forall|i: int| 0 <= i < a.len() implies #[trigger] a[i].0.rank() < m by {
                    assert(below(a[i].0.rank(), child_hi(hi, n.key_seq(), k - 2)));
                }
                lemma_sorted_concat(a, b, m);
                assert forall|i: int| 0 <= i < (a + b).len() implies at_least(
                    lo,
                    #[trigger] (a + b)[i].0.rank(),
                ) && below((a + b)[i].0.rank(), child_hi(hi, n.key_seq(), k - 1)) by {
                    if i < a.len() {
                        assert((a + b)[i] == a[i]);
                        assert(below(a[i].0.rank(), child_hi(hi, n.key_seq(), k - 2)));
                        if k - 1 < n.key_seq().len() {
                            assert(n.key_seq()[k - 2].rank() < n.key_seq()[k - 1].rank());
                        }
                    } else {
                        assert((a + b)[i] == b[i - a.len()]);
                        assert(at_least(child_lo(lo, n.key_seq(), k - 1), b[i - a.len()].0.rank()));
                        assert(above(lo, n.key_seq()[k - 2].rank()));
                    }
                }
            }
        }
    }
}

impl<const FANOUT: usize, K: Key, V: Record> Node<FANOUT, K, V> {
    /// The entries of the children from `k` on lie between the lower bound
    /// of child `k` and `hi`.
    pub proof fn lemma_children_suffix(
        n: Interior<FANOUT, K, V>,
        lo: Option<int>,
        hi: Option<int>,
        k: int,
    )
        requires
            n.keys_ok(lo, hi),
            forall|j: int|
                0 <= j < n.child_seq().len() ==> entries_within(
                    (#[trigger] n.child_seq()[j]).entries(),
                    child_lo(lo, n.key_seq(), j),
                    child_hi(hi, n.key_seq(), j),
                ),
            0 <= k <= n.child_seq().len(),
        ensures
            entries_within(entries_of(n.child_seq().skip(k)), child_lo(lo, n.key_seq(), k), hi),
        decreases n.child_seq().len() - k,
    {
        broadcast use group_node_slots;

        let s = n.child_seq().skip(k);
        if k == n.child_seq().len() {
            assert(s =~= Seq::<Node<FANOUT, K, V>>::empty());
            assert(entries_of(s) =~= Seq::<(K, V)>::empty());
        } else {
            Self::lemma_children_suffix(n, lo, hi, k + 1);
            assert(s =~= seq![n.child_seq()[k]] + n.child_seq().skip(k + 1));
            lemma_entries_of_add(seq![n.child_seq()[k]], n.child_seq().skip(k + 1));
            lemma_entries_of_single(n.child_seq()[k]);
            let a = n.child_seq()[k].entries();
            let b = entries_of(n.child_seq().skip(k + 1));
            assert forall|i: int| 0 <= i < (a + b).len() implies at_least(
                child_lo(lo, n.key_seq(), k),
                #[trigger] (a + b)[i].0.rank(),
            ) && below((a + b)[i].0.rank(), hi) by {
                if i < a.len() {
                    assert((a + b)[i] == a[i]);
                    if k < n.key_seq().len() {
                        assert(below(a[i].0.rank(), child_hi(hi, n.key_seq(), k)));
                    }
                } else {
                    assert((a + b)[i] == b[i - a.len()]);
                    assert(at_least(child_lo(lo, n.key_seq(), k + 1), b[i - a.len()].0.rank()));
                    if k > 0 {
                        assert(n.key_seq()[k - 1].rank() < n.key_seq()[k].rank());
                    } else {
                        assert(above(lo, n.key_seq()[0].rank()));
                    }
                }
            }
        }
    }

    /// Facts about the children of a well-formed interior node.
    pub proof fn lemma_children_facts(n: Interior<FANOUT, K, V>, lo: Option<int>, hi: Option<int>, h: nat, m: bool)
        requires
            Node::Interior(n).well_formed(lo, hi, h, m),
        ensures
            forall|j: int|
                0 <= j < n.child_seq().len() ==> entries_sorted((#[trigger] n.child_seq()[j]).entries())
                    && entries_within(
                    n.child_seq()[j].entries(),
                    child_lo(lo, n.key_seq(), j),
                    child_hi(hi, n.key_seq(), j),
                ) && n.child_seq()[j].height() == h - 1,
    {
        broadcast use group_node_slots;

        assert forall|j: int| 0 <= j < n.child_seq().len() implies entries_sorted(
            (#[trigger] n.child_seq()[j]).entries(),
        ) && entries_within(
            n.child_seq()[j].entries(),
            child_lo(lo, n.key_seq(), j),
            child_hi(hi, n.key_seq(), j),
        ) && n.child_seq()[j].height() == h - 1 by {
            n.child_seq()[j].lemma_entries_sorted_within(
                child_lo(lo, n.key_seq(), j),
                child_hi(hi, n.key_seq(), j),
                (h - 1) as nat,
                true,
            );
        }
    }

    /// The entries of a well-formed interior node, seen from child `i`: those
    /// of the children to its left lie below its lower bound, and those of the
    /// children to its right at or above its upper bound.
    pub proof fn lemma_split_at(n: Interior<FANOUT, K, V>, lo: Option<int>, hi: Option<int>, h: nat, m: bool, i: int)
        requires
            Node::Interior(n).well_formed(lo, hi, h, m),
            0 <= i < n.child_seq().len(),
        ensures
            Node::Interior(n).entries() == entries_of(n.child_seq().take(i)) + n.child_seq()[i].entries()
                + entries_of(n.child_seq().skip(i + 1)),
            i == 0 ==> entries_of(n.child_seq().take(i)).len() == 0,
            i == n.key_seq().len() ==> entries_of(n.child_seq().skip(i + 1)).len() == 0,
            i > 0 ==> forall|t: int|
                0 <= t < entries_of(n.child_seq().take(i)).len() ==> #[trigger] entries_of(
                    n.child_seq().take(i),
                )[t].0.rank() < n.key_seq()[i - 1].rank(),
            i < n.key_seq().len() ==> forall|t: int|
                0 <= t < entries_of(n.child_seq().skip(i + 1)).len() ==> #[trigger] entries_of(
                    n.child_seq().skip(i + 1),
                )[t].0.rank() >= n.key_seq()[i].rank(),
    {
        broadcast use group_node_slots;

        Self::lemma_children_facts(n, lo, hi, h, m);
        Self::lemma_children_prefix(n, lo, hi, h, i);
        Self::lemma_children_suffix(n, lo, hi, i + 1);
        lemma_entries_of_split(n.child_seq(), i);
        if i == 0 {
            assert(n.child_seq().take(0) =~= Seq::<Node<FANOUT, K, V>>::empty());
            assert(entries_of(n.child_seq().take(0)) =~= Seq::<(K, V)>::empty());
        }
        if i == n.key_seq().len() {
            assert(n.child_seq().skip(i + 1) =~= Seq::<Node<FANOUT, K, V>>::empty());
            assert(entries_of(n.child_seq().skip(i + 1)) =~= Seq::<(K, V)>::empty());
        }
    }
}

impl<const FANOUT: usize, K: Key, V: Record> Node<FANOUT, K, V> {
    /// Replacing child `i` of a well-formed interior node by a well-formed node
    /// with the same bounds keeps it well formed.
    pub proof fn lemma_replace_child(
        old_n: Interior<FANOUT, K, V>,
        new_n: Interior<FANOUT, K, V>,
        i: int,
        lo: Option<int>,
        hi: Option<int>,
        h: nat,
        m: bool,
    )
        requires
            Node::Interior(old_n).well_formed(lo, hi, h, m),
            0 <= i < old_n.child_seq().len(),
            new_n.slots_ok(),
            new_n.key_seq() == old_n.key_seq(),
            new_n.child_seq() == old_n.child_seq().update(i, new_n.child_seq()[i]),
            new_n.child_seq()[i].well_formed(child_lo(lo, old_n.key_seq(), i), child_hi(hi, old_n.key_seq(), i), (h - 1) as nat, true),
        ensures
            Node::Interior(new_n).well_formed(lo, hi, h, m),
            Node::Interior(new_n).entries() == entries_of(old_n.child_seq().take(i)) + new_n.child_seq()[i].entries()
                + entries_of(old_n.child_seq().skip(i + 1)),
    {
        broadcast use group_node_slots;

        assert forall|j: int| 0 <= j < new_n.child_seq().len() implies (#[trigger] new_n.child_seq()[j]).well_formed(
            child_lo(lo, new_n.key_seq(), j),
            child_hi(hi, new_n.key_seq(), j),
            (h - 1) as nat,
            true,
        ) by {
            if j != i {
                assert(new_n.child_seq()[j] == old_n.child_seq()[j]);
            }
        }
        lemma_entries_of_split(new_n.child_seq(), i);
        assert(new_n.child_seq().take(i) =~= old_n.child_seq().take(i));
        assert(new_n.child_seq().skip(i + 1) =~= old_n.child_seq().skip(i + 1));
    }
}

/// Entries after child `i` is replaced by `c` and `r` is put right after it.
pub proof fn lemma_entries_of_insert<const FANOUT: usize, K: Key, V: Record>(
    s: Seq<Node<FANOUT, K, V>>,
    i: int,
    c: Node<FANOUT, K, V>,
    r: Node<FANOUT, K, V>,
)
    requires
        0 <= i < s.len(),
    ensures
        entries_of(s.update(i, c).insert(i + 1, r)) == entries_of(s.take(i)) + c.entries() + r.entries()
            + entries_of(s.skip(i + 1)),
{
    broadcast use group_node_slots;

    let t = s.update(i, c).insert(i + 1, r);
    assert(t =~= (s.take(i) + seq![c]) + (seq![r] + s.skip(i + 1)));
    lemma_entries_of_add(s.take(i) + seq![c], seq![r] + s.skip(i + 1));
    lemma_entries_of_add(s.take(i), seq![c]);
    lemma_entries_of_add(seq![r], s.skip(i + 1));
    lemma_entries_of_single(c);
    lemma_entries_of_single(r);
    assert(entries_of(s.take(i)) + c.entries() + (r.entries() + entries_of(s.skip(i + 1))) =~= entries_of(
        s.take(i),
    ) + c.entries() + r.entries() + entries_of(s.skip(i + 1)));
}

/// The entries of siblings `j` and `j + 1` between those to their left and right.
pub proof fn lemma_entries_of_pair<const FANOUT: usize, K: Key, V: Record>(s: Seq<Node<FANOUT, K, V>>, j: int)
    requires
        0 <= j,
        j + 1 < s.len(),
    ensures
        entries_of(s) == entries_of(s.take(j)) + s[j].entries() + s[j + 1].entries() + entries_of(s.skip(j + 2)),
{
    broadcast use group_node_slots;

    assert(s =~= (s.take(j) + seq![s[j]]) + (seq![s[j + 1]] + s.skip(j + 2)));
    lemma_entries_of_add(s.take(j) + seq![s[j]], seq![s[j + 1]] + s.skip(j + 2));
    lemma_entries_of_add(s.take(j), seq![s[j]]);
    lemma_entries_of_add(seq![s[j + 1]], s.skip(j + 2));
    lemma_entries_of_single(s[j]);
    lemma_entries_of_single(s[j + 1]);
    assert(entries_of(s.take(j)) + s[j].entries() + (s[j + 1].entries() + entries_of(s.skip(j + 2)))
        =~= entries_of(s.take(j)) + s[j].entries() + s[j + 1].entries() + entries_of(s.skip(j + 2)));
}

impl<const FANOUT: usize, K: Key, V: Record> Node<FANOUT, K, V> {
    /// Siblings `j` and `j + 1` replaced by two well-formed nodes split at a
    /// new separator `kk` keep the interior node well formed.
    pub proof fn lemma_pair_replace(
        old_n: Interior<FANOUT, K, V>,
        new_n: Interior<FANOUT, K, V>,
        j: int,
        kk: K,
        lo: Option<int>,
        hi: Option<int>,
        h: nat,
    )
        requires
            h > 0,
            old_n.keys_ok(lo, hi),
            FANOUT >= 3 ==> old_n.key_seq().len() >= 1,
            0 <= j < old_n.key_seq().len(),
            forall|t: int|
                0 <= t < old_n.child_seq().len() && t != j && t != j + 1 ==> (#[trigger] old_n.child_seq()[t]).well_formed(
                    child_lo(lo, old_n.key_seq(), t),
                    child_hi(hi, old_n.key_seq(), t),
                    (h - 1) as nat,
                    true,
                ),
            new_n.slots_ok(),
            new_n.key_seq() == old_n.key_seq().update(j, kk),
            new_n.child_seq() == old_n.child_seq().update(j, new_n.child_seq()[j]).update(j + 1, new_n.child_seq()[j + 1]),
            above(child_lo(lo, old_n.key_seq(), j), kk.rank()),
            below(kk.rank(), child_hi(hi, old_n.key_seq(), j + 1)),
            new_n.child_seq()[j].well_formed(child_lo(lo, old_n.key_seq(), j), Some(kk.rank()), (h - 1) as nat, true),
            new_n.child_seq()[j + 1].well_formed(Some(kk.rank()), child_hi(hi, old_n.key_seq(), j + 1), (h - 1) as nat, true),
        ensures
            Node::Interior(new_n).well_formed(lo, hi, h, true),
            Node::Interior(new_n).entries() == entries_of(old_n.child_seq().take(j)) + new_n.child_seq()[j].entries()
                + new_n.child_seq()[j + 1].entries() + entries_of(old_n.child_seq().skip(j + 2)),
    {
        broadcast use group_node_slots;

        let ok = old_n.key_seq();
        let nk = new_n.key_seq();
        assert(above(lo, kk.rank())) by {
            if j > 0 {
                assert(above(lo, ok[j - 1].rank()));
            }
        }
        assert(below(kk.rank(), hi)) by {
            if j + 1 < ok.len() {
                assert(below(ok[j + 1].rank(), hi));
            }
        }
        assert(keys_sorted(nk)) by {
            assert forall|a: int, b: int| 0 <= a < b < nk.len() implies nk[a].rank() < nk[b].rank() by {
                if a == j {
                    if b > j + 1 {
                        assert(ok[j + 1].rank() < ok[b].rank());
                    }
                } else if b == j {
                    if a < j - 1 {
                        assert(ok[a].rank() < ok[j - 1].rank());
                    }
                }
            }
        }
        assert forall|j2: int| 0 <= j2 < new_n.child_seq().len() implies (#[trigger] new_n.child_seq()[j2]).well_formed(
            child_lo(lo, nk, j2),
            child_hi(hi, nk, j2),
            (h - 1) as nat,
            true,
        ) by {
            if j2 != j && j2 != j + 1 {
                assert(new_n.child_seq()[j2] == old_n.child_seq()[j2]);
                assert(child_lo(lo, nk, j2) == child_lo(lo, ok, j2));
                assert(child_hi(hi, nk, j2) == child_hi(hi, ok, j2));
            } else if j2 == j {
                assert(child_lo(lo, nk, j2) == child_lo(lo, ok, j2));
            } else {
                assert(child_hi(hi, nk, j2) == child_hi(hi, ok, j2));
            }
        }
        lemma_entries_of_pair(new_n.child_seq(), j);
        assert(new_n.child_seq().take(j) =~= old_n.child_seq().take(j));
        assert(new_n.child_seq().skip(j + 2) =~= old_n.child_seq().skip(j + 2));
    }

    /// Siblings `j` and `j + 1` merged into one well-formed node, with the
    /// separator between them removed, leave the interior node well formed
    /// but for its own number of keys.
    pub proof fn lemma_pair_merge(
        old_n: Interior<FANOUT, K, V>,
        new_n: Interior<FANOUT, K, V>,
        j: int,
        lo: Option<int>,
        hi: Option<int>,
        h: nat,
    )
        requires
            h > 0,
            old_n.keys_ok(lo, hi),
            0 <= j < old_n.key_seq().len(),
            forall|t: int|
                0 <= t < old_n.child_seq().len() && t != j && t != j + 1 ==> (#[trigger] old_n.child_seq()[t]).well_formed(
                    child_lo(lo, old_n.key_seq(), t),
                    child_hi(hi, old_n.key_seq(), t),
                    (h - 1) as nat,
                    true,
                ),
            new_n.slots_ok(),
            new_n.key_seq() == old_n.key_seq().remove(j),
            new_n.child_seq() == old_n.child_seq().update(j, new_n.child_seq()[j]).remove(j + 1),
            new_n.child_seq()[j].well_formed(child_lo(lo, old_n.key_seq(), j), child_hi(hi, old_n.key_seq(), j + 1), (h - 1) as nat, true),
        ensures
            Node::Interior(new_n).well_formed(lo, hi, h, false),
            Node::Interior(new_n).entries() == entries_of(old_n.child_seq().take(j)) + new_n.child_seq()[j].entries()
                + entries_of(old_n.child_seq().skip(j + 2)),
    {
        broadcast use group_node_slots;

        let ok = old_n.key_seq();
        let nk = new_n.key_seq();
        assert(keys_sorted(nk)) by {
            assert forall|a: int, b: int| 0 <= a < b < nk.len() implies nk[a].rank() < nk[b].rank() by {
                let a0 = if a < j { a } else { a + 1 };
                let b0 = if b < j { b } else { b + 1 };
                assert(nk[a] == ok[a0]);
                assert(nk[b] == ok[b0]);
            }
        }
        assert forall|a: int| 0 <= a < nk.len() implies above(lo, #[trigger] nk[a].rank()) && below(nk[a].rank(), hi) by {
            let a0 = if a < j { a } else { a + 1 };
            assert(nk[a] == ok[a0]);
        }
        assert forall|j2: int| 0 <= j2 < new_n.child_seq().len() implies (#[trigger] new_n.child_seq()[j2]).well_formed(
            child_lo(lo, nk, j2),
            child_hi(hi, nk, j2),
            (h - 1) as nat,
            true,
        ) by {
            if j2 < j {
                assert(new_n.child_seq()[j2] == old_n.child_seq()[j2]);
                assert(child_lo(lo, nk, j2) == child_lo(lo, ok, j2));
                assert(child_hi(hi, nk, j2) == child_hi(hi, ok, j2));
            } else if j2 == j {
                assert(child_lo(lo, nk, j2) == child_lo(lo, ok, j2));
                assert(child_hi(hi, nk, j2) == child_hi(hi, ok, j2 + 1));
            } else {
                assert(new_n.child_seq()[j2] == old_n.child_seq()[j2 + 1]);
                assert(child_lo(lo, nk, j2) == child_lo(lo, ok, j2 + 1));
                assert(child_hi(hi, nk, j2) == child_hi(hi, ok, j2 + 1));
            }
        }
        lemma_entries_of_split(new_n.child_seq(), j);
        assert(new_n.child_seq().take(j) =~= old_n.child_seq().take(j));
        assert(new_n.child_seq().skip(j + 1) =~= old_n.child_seq().skip(j + 2));
    }
}

impl<const FANOUT: usize, K: Key, V: Record> Node<FANOUT, K, V> {
    /// Only a node's own number of keys depends on the lower bound it is held to.
    pub proof fn lemma_fits_rebound(self, h: nat, a: int, b: int)
        requires
            self.fits(h, a),
            self is Leaf ==> b <= self->Leaf_0.key_seq().len(),
            self is Interior ==> b <= self->Interior_0.key_seq().len(),
        ensures
            self.fits(h, b),
    {
        broadcast use group_node_slots;

    }

    /// With a fanout of at least 3, a node that fits with leaves holding a
    /// key has entries.
    pub proof fn lemma_fits_nonempty(self, lo: Option<int>, hi: Option<int>, h: nat, mk: bool, m: int)
        requires
            FANOUT >= 3,
            self.well_formed(lo, hi, h, mk),
            self.fits(h, m),
            m >= 1,
        ensures
            self.entries().len() > 0,
        decreases h,
    {
        broadcast use group_node_slots;

        if let Node::Interior(n) = self {
            Self::lemma_split_at(n, lo, hi, h, mk, 0);
            let c = n.child_seq()[0];
            assert(c.fits((h - 1) as nat, min_leaf_keys(FANOUT as int)));
            c.lemma_fits_nonempty(child_lo(lo, n.key_seq(), 0), child_hi(hi, n.key_seq(), 0), (h - 1) as nat, true, min_leaf_keys(FANOUT as int));
        }
    }
}

// ---------------------------------------------------------------------------
// Slots
// ---------------------------------------------------------------------------

impl<const FANOUT: usize, K: Key, V: Record> Leaf<FANOUT, K, V> {
    /// Key `i` of the leaf.
    pub(crate) fn key(&self, i: usize) -> (k: &K)
        requires
            self.slots_ok(),
            i < self.num_keys,
        ensures
            *k == self.key_seq()[i as int],
    {
        reveal(Leaf::key_seq);
        reveal(Leaf::record_seq);
        self.keys[i].as_ref().unwrap()
    }

    /// Record `i` of the leaf.
    pub(crate) fn record(&self, i: usize) -> (r: &V)
        requires
            self.slots_ok(),
            i < self.num_keys,
        ensures
            *r == self.record_seq()[i as int],
    {
        reveal(Leaf::key_seq);
        reveal(Leaf::record_seq);
        self.records[i].as_ref().unwrap()
    }

    /// Puts `v` in place of record `i`.
    pub(crate) fn set_record(&mut self, i: usize, v: V)
        requires
            old(self).slots_ok(),
            i < old(self).num_keys,
        ensures
            final(self).slots_ok(),
            final(self).num_keys == old(self).num_keys,
            final(self).keys == old(self).keys,
            final(self).records@.len() == old(self).records@.len(),
            final(self).key_seq() == old(self).key_seq(),
            final(self).record_seq() == old(self).record_seq().update(i as int, v),
    {
        reveal(Leaf::key_seq);
        reveal(Leaf::record_seq);
        self.records[i] = Some(v);
        assert(self.record_seq() =~= old(self).record_seq().update(i as int, v));
    }

    /// Moves the entries out, in slot order, leaving every slot empty.
    #[verifier::loop_isolation(false)]
    pub(crate) fn take_entries(&mut self) -> (r: (Vec<K>, Vec<V>))
        requires
            old(self).slots_ok(),
        ensures
            r.0@ == old(self).key_seq(),
            r.1@ == old(self).record_seq(),
            final(self).num_keys == 0,
            final(self).slots_ok(),
            final(self).keys@.len() == old(self).keys@.len(),
            final(self).records@.len() == old(self).records@.len(),
    {
        reveal(Leaf::key_seq);
        reveal(Leaf::record_seq);
        let ghost l0 = *self;
        let n = self.num_keys;
        let mut ks: Vec<K> = Vec::new();
        let mut rs: Vec<V> = Vec::new();
        let mut i: usize = 0;
        while i < n
            invariant
                l0.slots_ok(),
                n == l0.num_keys,
                i <= n,
                self.num_keys == n,
                self.keys@.len() == l0.keys@.len(),
                self.records@.len() == l0.records@.len(),
                forall|j: int|
                    0 <= j < self.keys@.len() ==> (#[trigger] self.keys@[j]) == if j < i {
                        None
                    } else {
                        l0.keys@[j]
                    },
                forall|j: int|
                    0 <= j < self.records@.len() ==> (#[trigger] self.records@[j]) == if j < i {
                        None
                    } else {
                        l0.records@[j]
                    },
                ks@ == l0.key_seq().take(i as int),
                rs@ == l0.record_seq().take(i as int),
            decreases n - i,
        {
            assert(self.keys@[i as int] == l0.keys@[i as int]);
            assert(self.records@[i as int] == l0.records@[i as int]);
            let mut k: Option<K> = None;
            std::mem::swap(&mut k, &mut self.keys[i]);
            let mut r: Option<V> = None;
            std::mem::swap(&mut r, &mut self.records[i]);
            ks.push(k.unwrap());
            rs.push(r.unwrap());
            assert(ks@ =~= l0.key_seq().take(i as int + 1));
            assert(rs@ =~= l0.record_seq().take(i as int + 1));
            i += 1;
        }
        self.num_keys = 0;
        assert(ks@ =~= l0.key_seq());
        assert(rs@ =~= l0.record_seq());
        (ks, rs)
    }

    /// Fills the empty slots with the given entries, in order, adding slots
    /// where there are too few.
    #[verifier::loop_isolation(false)]
    pub(crate) fn put_entries(&mut self, ks: Vec<K>, rs: Vec<V>)
        requires
            old(self).slots_ok(),
            old(self).num_keys == 0,
            ks@.len() == rs@.len(),
        ensures
            final(self).slots_ok(),
            final(self).key_seq() == ks@,
            final(self).record_seq() == rs@,
            ks@.len() <= old(self).keys@.len() ==> final(self).keys@.len() == old(self).keys@.len(),
            ks@.len() <= old(self).records@.len() ==> final(self).records@.len() == old(self).records@.len(),
    {
        reveal(Leaf::key_seq);
        reveal(Leaf::record_seq);
        let ghost ks0 = ks@;
        let ghost rs0 = rs@;
        let mut ks = ks;
        let mut rs = rs;
        let m = ks.len();
        while self.keys.len() < m
            invariant
                self.num_keys == 0,
                ks@.len() == m,
                self.keys@.len() >= old(self).keys@.len(),
                self.records@ == old(self).records@,
                old(self).slots_ok(),
                old(self).num_keys == 0,
                forall|j: int| 0 <= j < self.keys@.len() ==> (#[trigger] self.keys@[j]) is None,
                ks@.len() <= old(self).keys@.len() ==> self.keys@.len() == old(self).keys@.len(),
            decreases m - self.keys@.len(),
        {
            self.keys.push(None);
        }
        while self.records.len() < m
            invariant
                self.num_keys == 0,
                self.records@.len() >= old(self).records@.len(),
                self.keys@.len() >= m,
                forall|j: int| 0 <= j < self.keys@.len() ==> (#[trigger] self.keys@[j]) is None,
                ks@.len() <= old(self).keys@.len() ==> self.keys@.len() == old(self).keys@.len(),
                forall|j: int| 0 <= j < self.records@.len() ==> (#[trigger] self.records@[j]) is None,
                ks@.len() <= old(self).records@.len() ==> self.records@.len() == old(self).records@.len(),
                ks@.len() == m,
            decreases m - self.records@.len(),
        {
            self.records.push(None);
        }
        let ghost lk = self.keys@.len();
        let ghost lr = self.records@.len();
        let mut i: usize = m;
        while i > 0
            invariant
                i <= m,
                m == ks0.len(),
                m == rs0.len(),
                m <= lk,
                m <= lr,
                ks@ == ks0.take(i as int),
                rs@ == rs0.take(i as int),
                self.num_keys == 0,
                self.keys@.len() == lk,
                self.records@.len() == lr,
                forall|j: int|
                    0 <= j < lk ==> (#[trigger] self.keys@[j]) == if i <= j < m {
                        Some(ks0[j])
                    } else {
                        None
                    },
                forall|j: int|
                    0 <= j < lr ==> (#[trigger] self.records@[j]) == if i <= j < m {
                        Some(rs0[j])
                    } else {
                        None
                    },
            decreases i,
        {
            i -= 1;
            let k = ks.pop().unwrap();
            let r = rs.pop().unwrap();
            self.keys[i] = Some(k);
            self.records[i] = Some(r);
            assert(ks@ =~= ks0.take(i as int));
            assert(rs@ =~= rs0.take(i as int));
        }
        self.num_keys = m;
        assert(self.key_seq() =~= ks0);
        assert(self.record_seq() =~= rs0);
    }
}

impl<const FANOUT: usize, K: Key, V: Record> Interior<FANOUT, K, V> {
    /// Separator `i` of the node.
    pub(crate) fn key(&self, i: usize) -> (k: &K)
        requires
            self.slots_ok(),
            i < self.num_keys,
        ensures
            *k == self.key_seq()[i as int],
    {
        reveal(Interior::key_seq);
        reveal(Interior::child_seq);
        self.keys[i].as_ref().unwrap()
    }

    /// Child `i` of the node.
    pub(crate) fn child(&self, i: usize) -> (c: &Node<FANOUT, K, V>)
        requires
            self.slots_ok(),
            i <= self.num_keys,
        ensures
            *c == self.child_seq()[i as int],
    {
        reveal(Interior::key_seq);
        reveal(Interior::child_seq);
        self.children[i].as_ref().unwrap()
    }

    /// Puts `k` in place of separator `i`.
    pub(crate) fn set_key(&mut self, i: usize, k: K)
        requires
            old(self).slots_ok(),
            i < old(self).num_keys,
        ensures
            final(self).slots_ok(),
            final(self).num_keys == old(self).num_keys,
            final(self).keys@.len() == old(self).keys@.len(),
            final(self).children == old(self).children,
            final(self).key_seq() == old(self).key_seq().update(i as int, k),
            final(self).child_seq() == old(self).child_seq(),
    {
        reveal(Interior::key_seq);
        reveal(Interior::child_seq);
        self.keys[i] = Some(k);
        assert(self.key_seq() =~= old(self).key_seq().update(i as int, k));
        assert(self.child_seq() =~= old(self).child_seq());
    }

    /// Puts `c` in place of child `i`, and returns the child that was there.
    pub(crate) fn replace_child(&mut self, i: usize, c: Node<FANOUT, K, V>) -> (r: Node<FANOUT, K, V>)
        requires
            old(self).slots_ok(),
            i <= old(self).num_keys,
        ensures
            r == old(self).child_seq()[i as int],
            final(self).slots_ok(),
            final(self).num_keys == old(self).num_keys,
            final(self).keys == old(self).keys,
            final(self).children@.len() == old(self).children@.len(),
            final(self).key_seq() == old(self).key_seq(),
            final(self).child_seq() == old(self).child_seq().update(i as int, c),
    {
        reveal(Interior::key_seq);
        reveal(Interior::child_seq);
        let mut slot = Some(c);
        std::mem::swap(&mut slot, &mut self.children[i]);
        assert(self.child_seq() =~= old(self).child_seq().update(i as int, c));
        slot.unwrap()
    }

    /// Moves the separators and children out, in slot order, leaving every
    /// slot empty.
    #[verifier::loop_isolation(false)]
    pub(crate) fn take_parts(&mut self) -> (r: (Vec<K>, Vec<Node<FANOUT, K, V>>))
        requires
            old(self).slots_ok(),
        ensures
            r.0@ == old(self).key_seq(),
            r.1@ == old(self).child_seq(),
            final(self).slots_empty(),
            final(self).keys@.len() == old(self).keys@.len(),
            final(self).children@.len() == old(self).children@.len(),
    {
        reveal(Interior::key_seq);
        reveal(Interior::child_seq);
        let ghost n0 = *self;
        let n = self.num_keys;
        let mut ks: Vec<K> = Vec::new();
        let mut cs: Vec<Node<FANOUT, K, V>> = Vec::new();
        let len = self.children.len();
        let mut i: usize = 0;
        while i <= n
            invariant
                len == n0.children@.len(),
                n0.slots_ok(),
                n == n0.num_keys,
                i <= n + 1,
                self.num_keys == n,
                self.keys@.len() == n0.keys@.len(),
                self.children@.len() == n0.children@.len(),
                forall|j: int|
                    0 <= j < self.keys@.len() ==> (#[trigger] self.keys@[j]) == if j < i {
                        None
                    } else {
                        n0.keys@[j]
                    },
                forall|j: int|
                    0 <= j < self.children@.len() ==> (#[trigger] self.children@[j]) == if j < i {
                        None
                    } else {
                        n0.children@[j]
                    },
                ks@ == n0.key_seq().take(if i <= n { i as int } else { n as int }),
                cs@ == n0.child_seq().take(i as int),
            decreases n + 1 - i,
        {
            assert(self.children@[i as int] == n0.children@[i as int]);
            let mut c: Option<Node<FANOUT, K, V>> = None;
            std::mem::swap(&mut c, &mut self.children[i]);
            cs.push(c.unwrap());
            assert(cs@ =~= n0.child_seq().take(i as int + 1));
            if i < n {
                assert(self.keys@[i as int] == n0.keys@[i as int]);
                let mut k: Option<K> = None;
                std::mem::swap(&mut k, &mut self.keys[i]);
                ks.push(k.unwrap());
                assert(ks@ =~= n0.key_seq().take(i as int + 1));
            }
            i += 1;
        }
        self.num_keys = 0;
        assert(ks@ =~= n0.key_seq());
        assert(cs@ =~= n0.child_seq());
        (ks, cs)
    }

    /// Fills the empty slots with the given separators and children, in
    /// order, adding slots where there are too few.
    #[verifier::loop_isolation(false)]
    pub(crate) fn put_parts(&mut self, ks: Vec<K>, cs: Vec<Node<FANOUT, K, V>>)
        requires
            old(self).slots_empty(),
            cs@.len() == ks@.len() + 1,
        ensures
            final(self).slots_ok(),
            final(self).key_seq() == ks@,
            final(self).child_seq() == cs@,
            ks@.len() <= old(self).keys@.len() ==> final(self).keys@.len() == old(self).keys@.len(),
            cs@.len() <= old(self).children@.len() ==> final(self).children@.len() == old(self).children@.len(),
    {
        reveal(Interior::key_seq);
        reveal(Interior::child_seq);
        let ghost ks0 = ks@;
        let ghost cs0 = cs@;
        let mut ks = ks;
        let mut cs = cs;
        let m = ks.len();
        while self.keys.len() < m
            invariant
                ks@.len() == m,
                self.keys@.len() >= old(self).keys@.len(),
                self.children@ == old(self).children@,
                old(self).slots_empty(),
                forall|j: int| 0 <= j < self.keys@.len() ==> (#[trigger] self.keys@[j]) is None,
                ks@.len() <= old(self).keys@.len() ==> self.keys@.len() == old(self).keys@.len(),
            decreases m - self.keys@.len(),
        {
            self.keys.push(None);
        }
        while self.children.len() < cs.len()
            invariant
                self.children@.len() >= old(self).children@.len(),
                self.keys@.len() >= m,
                m == ks0.len(),
                cs0.len() == m + 1,
                forall|j: int| 0 <= j < self.keys@.len() ==> (#[trigger] self.keys@[j]) is None,
                ks@.len() <= old(self).keys@.len() ==> self.keys@.len() == old(self).keys@.len(),
                forall|j: int| 0 <= j < self.children@.len() ==> (#[trigger] self.children@[j]) is None,
                cs@.len() <= old(self).children@.len() ==> self.children@.len() == old(self).children@.len(),
                cs@ == cs0,
            decreases cs0.len() - self.children@.len(),
        {
            self.children.push(None);
        }
        let ghost lk = self.keys@.len();
        let ghost lc = self.children@.len();
        let mut i: usize = m;
        let c = cs.pop().unwrap();
        self.children[m] = Some(c);
        assert(cs@ =~= cs0.take(m as int));
        while i > 0
            invariant
                i <= m,
                m == ks0.len(),
                m + 1 == cs0.len(),
                m <= lk,
                m < lc,
                ks@ == ks0.take(i as int),
                cs@ == cs0.take(i as int),
                self.keys@.len() == lk,
                self.children@.len() == lc,
                forall|j: int|
                    0 <= j < lk ==> (#[trigger] self.keys@[j]) == if i <= j < m {
                        Some(ks0[j])
                    } else {
                        None
                    },
                forall|j: int|
                    0 <= j < lc ==> (#[trigger] self.children@[j]) == if i <= j <= m {
                        Some(cs0[j])
                    } else {
                        None
                    },
            decreases i,
        {
            i -= 1;
            let k = ks.pop().unwrap();
            let c = cs.pop().unwrap();
            self.keys[i] = Some(k);
            self.children[i] = Some(c);
            assert(ks@ =~= ks0.take(i as int));
            assert(cs@ =~= cs0.take(i as int));
        }
        self.num_keys = m;
        assert(self.key_seq() =~= ks0);
        assert(self.child_seq() =~= cs0);
    }
}

// ---------------------------------------------------------------------------
// Construction and access
// ---------------------------------------------------------------------------

impl<const FANOUT: usize, K: Key, V: Record> Node<FANOUT, K, V> {
    /// An empty leaf: `FANOUT` key slots and `FANOUT + 1` record slots, all
    /// empty.
    pub fn new_leaf() -> (l: Leaf<FANOUT, K, V>)
        ensures
            l.num_keys == 0,
            l.keys@.len() == FANOUT,
            l.records@.len() == FANOUT + 1,
            forall|i: int| 0 <= i < l.keys@.len() ==> (#[trigger] l.keys@[i]) is None,
            forall|i: int| 0 <= i < l.records@.len() ==> (#[trigger] l.records@[i]) is None,
            l.slots_ok(),
    {
        let mut keys: Vec<Option<K>> = Vec::new();
        let mut records: Vec<Option<V>> = Vec::new();
        let mut i: usize = 0;
        while i < FANOUT
            invariant
                i <= FANOUT,
                keys@.len() == i,
                records@.len() == i,
                forall|j: int| 0 <= j < i ==> (#[trigger] keys@[j]) is None,
                forall|j: int| 0 <= j < i ==> (#[trigger] records@[j]) is None,
            decreases FANOUT - i,
        {
            keys.push(None);
            records.push(None);
            i += 1;
        }
        records.push(None);
        Leaf { num_keys: 0, keys, records }
    }

    /// An empty interior node: `FANOUT` key slots and `FANOUT + 1` child
    /// slots, all empty.
    pub fn new_interior() -> (n: Interior<FANOUT, K, V>)
        ensures
            n.num_keys == 0,
            n.keys@.len() == FANOUT,
            n.children@.len() == FANOUT + 1,
            n.slots_empty(),
    {
        let mut keys: Vec<Option<K>> = Vec::new();
        let mut children: Vec<Option<Node<FANOUT, K, V>>> = Vec::new();
        let mut i: usize = 0;
        while i < FANOUT
            invariant
                i <= FANOUT,
                keys@.len() == i,
                children@.len() == i,
                forall|j: int| 0 <= j < i ==> (#[trigger] keys@[j]) is None,
                forall|j: int| 0 <= j < i ==> (#[trigger] children@[j]) is None,
            decreases FANOUT - i,
        {
            keys.push(None);
            children.push(None);
            i += 1;
        }
        children.push(None);
        Interior { num_keys: 0, keys, children }
    }

    pub(crate) fn leaf(&self) -> (r: Option<&Leaf<FANOUT, K, V>>)
        requires
            !(self is Invalid),
        ensures
            self is Leaf ==> r is Some && *r->0 == self->Leaf_0,
            !(self is Leaf) ==> r is None,
    {
        match self {
            Node::Leaf(l) => Some(l),
            _ => None,
        }
    }

    pub(crate) fn leaf_mut(&mut self) -> (r: Option<&mut Leaf<FANOUT, K, V>>)
        requires
            !(*old(self) is Invalid),
        ensures
            *old(self) is Leaf ==> r is Some && *r->0 == (*old(self))->Leaf_0 && *final(self) == Node::Leaf(*final(r->0)),
            !(*old(self) is Leaf) ==> r is None && *final(self) == *old(self),
    {
        match self {
            Node::Leaf(l) => Some(l),
            _ => None,
        }
    }

    pub(crate) fn unwrap_leaf(&self) -> (l: &Leaf<FANOUT, K, V>)
        requires
            self is Leaf,
        ensures
            *l == self->Leaf_0,
    {
        self.leaf().unwrap()
    }

    pub(crate) fn unwrap_leaf_mut(&mut self) -> (l: &mut Leaf<FANOUT, K, V>)
        requires
            *old(self) is Leaf,
        ensures
            *l == (*old(self))->Leaf_0,
            *final(self) == Node::Leaf(*final(l)),
    {
        self.leaf_mut().unwrap()
    }

    pub(crate) fn interior(&self) -> (r: Option<&Interior<FANOUT, K, V>>)
        requires
            !(self is Invalid),
        ensures
            self is Interior ==> r is Some && *r->0 == self->Interior_0,
            !(self is Interior) ==> r is None,
    {
        match self {
            Node::Interior(n) => Some(n),
            _ => None,
        }
    }

    pub(crate) fn unwrap_interior(&self) -> (n: &Interior<FANOUT, K, V>)
        requires
            self is Interior,
        ensures
            *n == self->Interior_0,
    {
        self.interior().unwrap()
    }

    pub(crate) fn interior_mut(&mut self) -> (r: Option<&mut Interior<FANOUT, K, V>>)
        requires
            !(*old(self) is Invalid),
        ensures
            *old(self) is Interior ==> r is Some && *r->0 == (*old(self))->Interior_0 && *final(self)
                == Node::Interior(*final(r->0)),
            !(*old(self) is Interior) ==> r is None && *final(self) == *old(self),
    {
        match self {
            Node::Interior(n) => Some(n),
            _ => None,
        }
    }

    pub(crate) fn unwrap_interior_mut(&mut self) -> (n: &mut Interior<FANOUT, K, V>)
        requires
            *old(self) is Interior,
        ensures
            *n == (*old(self))->Interior_0,
            *final(self) == Node::Interior(*final(n)),
    {
        self.interior_mut().unwrap()
    }
}

} // verus!
