use bptree::bptree::BPTree;
use bptree::node::{Interior, Leaf, Node};

/// Leaves (0 = "John", 2 = "Adam"), (10 = "Emily", 12 = "Jessica"),
/// (20 = "Sam") under one interior node with separators 10 and 20.
fn sample_tree() -> BPTree<2, i32, String> {
    let node_leaf1: Node<2, i32, String> = Node::Leaf(Leaf {
        num_keys: 2,
        keys: vec![Some(0), Some(2)],
        records: vec![Some(String::from("John")), Some(String::from("Adam"))],
    });
    let node_leaf2: Node<2, i32, String> = Node::Leaf(Leaf {
        num_keys: 2,
        keys: vec![Some(10), Some(12)],
        records: vec![Some(String::from("Emily")), Some(String::from("Jessica"))],
    });
    let node_leaf3: Node<2, i32, String> = Node::Leaf(Leaf {
        num_keys: 1,
        keys: vec![Some(20), None],
        records: vec![Some(String::from("Sam")), None],
    });
    let node_interior1: Node<2, i32, String> = Node::Interior(Interior {
        num_keys: 2,
        keys: vec![Some(10), Some(20)],
        children: vec![Some(node_leaf1), Some(node_leaf2), Some(node_leaf3)],
    });
    BPTree::from_root(Some(node_interior1))
}

#[test]
fn test_search() {
    let bptree1 = sample_tree();

    let res = bptree1.search(&0).unwrap();
    assert_eq!(*res, "John");

    let res = bptree1.search(&2).unwrap();
    assert_eq!(*res, "Adam");

    let res = bptree1.search(&10).unwrap();
    assert_eq!(*res, "Emily");

    let res = bptree1.search(&12).unwrap();
    assert_eq!(*res, "Jessica");

    let res = bptree1.search(&20).unwrap();
    assert_eq!(*res, "Sam");

    let res = bptree1.search(&-4);
    assert!(res.is_none());

    let res = bptree1.search(&3);
    assert!(res.is_none());

    let res = bptree1.search(&14);
    assert!(res.is_none());

    let res = bptree1.search(&21);
    assert!(res.is_none());
}

#[test]
fn test_range_search() {
    let bptree1 = sample_tree();

    let res = bptree1.search_range((&1, &2));
    assert_eq!(*res[0], "Adam");

    let res = bptree1.search_range((&0, &2));
    assert_eq!(*res[0], "John");
    assert_eq!(*res[1], "Adam");

    let res = bptree1.search_range((&2, &12));
    assert_eq!(*res[0], "Adam");
    assert_eq!(*res[1], "Emily");
    assert_eq!(*res[2], "Jessica");
}

#[test]
fn range_search_exact_results_on_sample() {
    let t = sample_tree();
    let res: Vec<&String> = t.search_range((&-5, &100));
    let names: Vec<&str> = res.iter().map(|s| s.as_str()).collect();
    assert_eq!(names, vec!["John", "Adam", "Emily", "Jessica", "Sam"]);
    assert!(t.search_range((&3, &9)).is_empty());
    assert!(t.search_range((&21, &30)).is_empty());
    let res = t.search_range((&12, &20));
    assert_eq!(res.len(), 2);
    assert_eq!(*res[0], "Jessica");
    assert_eq!(*res[1], "Sam");
    let res = t.search_range((&20, &20));
    assert_eq!(res.len(), 1);
    assert_eq!(*res[0], "Sam");
}

#[test]
fn empty_tree_search_and_range() {
    let t: BPTree<3, i32, String> = BPTree::new();
    assert!(t.is_empty());
    assert!(t.search(&1).is_none());
    assert!(t.search_range((&0, &10)).is_empty());
}
