use bptree::bptree::BPTree;
use bptree::node::{Leaf, Node};

fn entries<const F: usize>(t: &BPTree<F, u64, u32>) -> Vec<u32> {
    t.search_range((&0, &u64::MAX)).into_iter().copied().collect()
}

#[test]
fn read_after_write_u64_keys() {
    let mut t: BPTree<5, u64, u32> = BPTree::new();
    for k in 0..200u64 {
        t.insert(k * 7 % 211, k as u32);
    }
    t.insert(14, 9999);
    assert_eq!(t.search(&14), Some(&9999));
}

#[test]
fn insert_keeps_other_keys() {
    let mut t: BPTree<4, u64, u32> = BPTree::new();
    for k in 0..50u64 {
        t.insert(k, k as u32);
    }
    t.insert(1000, 1);
    t.insert(25, 77);
    for k in 0..50u64 {
        let expected = if k == 25 { 77 } else { k as u32 };
        assert_eq!(t.search(&k), Some(&expected));
    }
}

#[test]
fn remove_undoes_insert_of_new_key() {
    let mut t: BPTree<3, u64, u32> = BPTree::new();
    for k in 0..60u64 {
        t.insert(2 * k, k as u32);
    }
    let before = entries(&t);
    t.insert(31, 5);
    assert_eq!(entries(&t).len(), before.len() + 1);
    t.remove(&31);
    assert_eq!(entries(&t), before);
}

#[test]
fn remove_keeps_other_keys() {
    let mut t: BPTree<6, u64, u32> = BPTree::new();
    for k in 0..80u64 {
        t.insert(k, (k + 1) as u32);
    }
    t.remove(&40);
    assert!(t.search(&40).is_none());
    assert_eq!(t.search(&39), Some(&40));
    assert_eq!(t.search(&41), Some(&42));
}

#[test]
fn range_is_exact_and_ordered() {
    let mut t: BPTree<3, u64, u32> = BPTree::new();
    for k in (0..100u64).rev() {
        t.insert(k * 10, k as u32);
    }
    let r: Vec<u32> = t.search_range((&95, &155)).into_iter().copied().collect();
    assert_eq!(r, vec![10, 11, 12, 13, 14, 15]);
    let r: Vec<u32> = t.search_range((&5, &5)).into_iter().copied().collect();
    assert!(r.is_empty());
}

#[test]
fn empty_iff_no_entries_fanout_3() {
    let mut t: BPTree<3, u64, u32> = BPTree::new();
    assert!(t.is_empty());
    for k in 0..30u64 {
        t.insert(k, 0);
        assert!(!t.is_empty());
    }
    for k in 0..30u64 {
        assert!(!t.is_empty());
        t.remove(&k);
    }
    assert!(t.is_empty());
    assert!(entries(&t).is_empty());
}

/// With a fanout of 2 leaves never merge, so removing every key can leave
/// a root over empty leaves: the tree is not empty, yet holds no entries.
#[test]
fn fanout_2_keeps_empty_leaves() {
    let mut t: BPTree<2, u64, u32> = BPTree::new();
    t.insert(1, 10);
    t.insert(2, 20);
    t.remove(&1);
    t.remove(&2);
    assert!(entries(&t).is_empty());
    assert!(!t.is_empty());
    assert!(t.search(&1).is_none());
    t.insert(1, 11);
    assert_eq!(t.search(&1), Some(&11));
}

#[test]
fn from_root_leaf_and_none() {
    let t: BPTree<4, u32, u32> = BPTree::from_root(None);
    assert!(t.is_empty());
    let leaf: Node<4, u32, u32> = Node::Leaf(Leaf {
        num_keys: 3,
        keys: vec![Some(1), Some(5), Some(9), None],
        records: vec![Some(10), Some(50), Some(90), None, None],
    });
    let t = BPTree::from_root(Some(leaf));
    assert!(!t.is_empty());
    assert_eq!(t.search(&5), Some(&50));
    assert!(t.search(&4).is_none());
    let r: Vec<u32> = t.search_range((&2, &9)).into_iter().copied().collect();
    assert_eq!(r, vec![50, 90]);
}

#[test]
fn new_leaf_and_interior_start_empty() {
    let l: Leaf<3, i32, i32> = Node::<3, i32, i32>::new_leaf();
    assert_eq!(l.num_keys, 0);
    assert_eq!(l.keys.len(), 3);
    assert_eq!(l.records.len(), 4);
    assert!(l.keys.iter().all(|k| k.is_none()));
    assert!(l.records.iter().all(|r| r.is_none()));
    let n = Node::<3, i32, i32>::new_interior();
    assert_eq!(n.num_keys, 0);
    assert_eq!(n.keys.len(), 3);
    assert_eq!(n.children.len(), 4);
    assert!(n.keys.iter().all(|k| k.is_none()));
    assert!(n.children.iter().all(|c| c.is_none()));
}

fn all_records(t: &BPTree<3, i64, i64>) -> Vec<i64> {
    t.search_range((&i64::MIN, &i64::MAX)).into_iter().copied().collect()
}

#[test]
fn repeated_insert_changes_nothing() {
    let mut t: BPTree<3, i64, i64> = BPTree::new();
    for k in 0..20i64 {
        t.insert(k * 3, k);
    }
    let before = all_records(&t);
    t.insert(9, 3);
    assert_eq!(all_records(&t), before);
    t.insert(10, 77);
    let once = all_records(&t);
    t.insert(10, 77);
    assert_eq!(all_records(&t), once);
    assert_eq!(once.len(), 21);
    assert_eq!(t.search(&10), Some(&77));
}

#[test]
fn inserts_of_different_keys_commute() {
    let mut a: BPTree<3, i64, i64> = BPTree::new();
    let mut b: BPTree<3, i64, i64> = BPTree::new();
    for k in [5i64, 1, 9, 3, 7, 11, 13] {
        a.insert(k, k * 10);
        b.insert(k, k * 10);
    }
    a.insert(4, 40);
    a.insert(8, 80);
    b.insert(8, 80);
    b.insert(4, 40);
    assert_eq!(all_records(&a), all_records(&b));
    assert_eq!(all_records(&a), vec![10, 30, 40, 50, 70, 80, 90, 110, 130]);
}

#[test]
fn narrower_range_is_a_run_of_wider_range() {
    let mut t: BPTree<3, i64, i64> = BPTree::new();
    for k in 0..15i64 {
        t.insert(k * 2, k * 2);
    }
    let wide: Vec<i64> = t.search_range((&3, &25)).into_iter().copied().collect();
    let narrow: Vec<i64> = t.search_range((&6, &14)).into_iter().copied().collect();
    assert_eq!(wide, vec![4, 6, 8, 10, 12, 14, 16, 18, 20, 22, 24]);
    assert_eq!(narrow, vec![6, 8, 10, 12, 14]);
    let start = wide.iter().position(|x| *x == narrow[0]).unwrap();
    assert_eq!(&wide[start..start + narrow.len()], &narrow[..]);
}

#[test]
fn removing_the_last_key_of_a_root_leaf_drops_the_root() {
    let mut t: BPTree<4, u32, u32> = BPTree::new();
    t.insert(7, 70);
    t.remove(&8);
    assert!(!t.is_empty());
    t.remove(&7);
    assert!(t.is_empty());
    assert!(t.search(&7).is_none());
}

#[test]
fn removing_an_absent_key_leaves_the_tree_alone() {
    let mut t: BPTree<3, i64, i64> = BPTree::new();
    for k in [4i64, 8, 15, 16, 23, 42] {
        t.insert(k, k + 100);
    }
    let before = all_records(&t);
    t.remove(&5);
    t.remove(&100);
    assert_eq!(all_records(&t), before);
    assert_eq!(t.search(&16), Some(&116));
}
