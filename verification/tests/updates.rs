use bptree::bptree::BPTree;

fn collect<const F: usize>(t: &BPTree<F, i64, i64>) -> Vec<i64> {
    t.search_range((&i64::MIN, &i64::MAX)).into_iter().copied().collect()
}

/// A small deterministic permutation of 0..n.
fn shuffled(n: i64) -> Vec<i64> {
    (0..n).map(|i| (i * 37 + 11) % n).collect()
}

fn check_insert_then_search<const F: usize>() {
    let mut t: BPTree<F, i64, i64> = BPTree::new();
    let keys = shuffled(101);
    for &k in &keys {
        t.insert(k, k * 10);
    }
    for k in 0..101 {
        assert_eq!(t.search(&k), Some(&(k * 10)));
    }
    assert!(t.search(&101).is_none());
    assert!(t.search(&-1).is_none());
    let all = collect(&t);
    assert_eq!(all, (0..101).map(|k| k * 10).collect::<Vec<_>>());
}

#[test]
fn insert_then_search_fanout_2() {
    check_insert_then_search::<2>();
}

#[test]
fn insert_then_search_fanout_3() {
    check_insert_then_search::<3>();
}

#[test]
fn insert_then_search_fanout_4() {
    check_insert_then_search::<4>();
}

#[test]
fn insert_then_search_fanout_7() {
    check_insert_then_search::<7>();
}

#[test]
fn insert_existing_key_replaces_record() {
    let mut t: BPTree<3, i64, i64> = BPTree::new();
    for k in 0..20 {
        t.insert(k, k);
    }
    t.insert(7, 700);
    assert_eq!(t.search(&7), Some(&700));
    assert_eq!(collect(&t).len(), 20);
}

fn check_remove<const F: usize>() {
    let mut t: BPTree<F, i64, i64> = BPTree::new();
    let keys = shuffled(97);
    for &k in &keys {
        t.insert(k, k + 1000);
    }
    // remove the even keys in a scrambled order
    for &k in &keys {
        if k % 2 == 0 {
            t.remove(&k);
            assert!(t.search(&k).is_none());
        }
    }
    for k in 0..97 {
        if k % 2 == 0 {
            assert!(t.search(&k).is_none());
        } else {
            assert_eq!(t.search(&k), Some(&(k + 1000)));
        }
    }
    let odd: Vec<i64> = (0..97).filter(|k| k % 2 == 1).map(|k| k + 1000).collect();
    assert_eq!(collect(&t), odd);
    // remove everything else
    for &k in keys.iter().rev() {
        t.remove(&k);
    }
    assert!(collect(&t).is_empty());
    for k in 0..97 {
        assert!(t.search(&k).is_none());
    }
}

#[test]
fn remove_fanout_3() {
    check_remove::<3>();
}

#[test]
fn remove_fanout_4() {
    check_remove::<4>();
}

#[test]
fn remove_fanout_5() {
    check_remove::<5>();
}

#[test]
fn remove_fanout_2_keeps_contents_right() {
    check_remove::<2>();
}

#[test]
fn remove_all_empties_tree_fanout_3() {
    let mut t: BPTree<3, i64, i64> = BPTree::new();
    for k in 0..50 {
        t.insert(k, k);
    }
    assert!(!t.is_empty());
    for k in 0..50 {
        t.remove(&k);
    }
    assert!(t.is_empty());
}

#[test]
fn remove_absent_key_changes_nothing() {
    let mut t: BPTree<4, i64, i64> = BPTree::new();
    for k in 0..30 {
        t.insert(2 * k, k);
    }
    let before = collect(&t);
    t.remove(&7);
    t.remove(&-3);
    t.remove(&1000);
    assert_eq!(collect(&t), before);
}

#[test]
fn remove_then_reinsert() {
    let mut t: BPTree<3, i64, i64> = BPTree::new();
    for k in 0..40 {
        t.insert(k, k);
    }
    for k in 10..30 {
        t.remove(&k);
    }
    for k in 10..30 {
        t.insert(k, -k);
    }
    for k in 0..40 {
        let expected = if (10..30).contains(&k) { -k } else { k };
        assert_eq!(t.search(&k), Some(&expected));
    }
}

#[test]
fn single_entry_tree() {
    let mut t: BPTree<3, i32, String> = BPTree::new();
    assert!(t.is_empty());
    t.insert(5, String::from("five"));
    assert!(!t.is_empty());
    assert_eq!(t.search(&5).map(|s| s.as_str()), Some("five"));
    t.remove(&5);
    assert!(t.is_empty());
    assert!(t.search(&5).is_none());
}

#[test]
fn range_search_after_updates() {
    let mut t: BPTree<4, i64, i64> = BPTree::new();
    for k in (0..60).rev() {
        t.insert(k * 3, k);
    }
    let res: Vec<i64> = t.search_range((&10, &30)).into_iter().copied().collect();
    // keys 12, 15, ..., 30
    assert_eq!(res, vec![4, 5, 6, 7, 8, 9, 10]);
    let res: Vec<i64> = t.search_range((&11, &11)).into_iter().copied().collect();
    assert!(res.is_empty());
}
