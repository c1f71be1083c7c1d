use bstree::Tree;

fn collect_keys(t: Tree<i64>) -> Vec<i64> {
    let mut c = t.iter_node();
    let mut ks: Vec<i64> = Vec::new();
    while let Some(k) = c.next() {
        ks.push(k);
    }
    ks
}

#[test]
fn empty_tree_behaviour() {
    let tree: Tree<i64> = Tree::new();
    assert_eq!(tree.len(), 0);
    assert!(tree.is_empty());
    assert!(tree.find_node(&0).is_none());
    assert!(tree.least_node().is_none());
    assert_eq!(collect_keys(tree), Vec::<i64>::new());
}

#[test]
fn replace_on_equal_key() {
    let mut tree: Tree<i64> = Tree::new();
    assert_eq!(tree.insert(0, 0), None);
    assert_eq!(tree.insert(0, 0), Some(0));
    assert_eq!(*tree.find_node(&0).unwrap().value(), 0);
    assert_eq!(tree.len(), 1);
}

#[test]
fn replace_keeps_latest_value() {
    let mut tree: Tree<i64> = Tree::new();
    assert_eq!(tree.insert(1, 23), None);
    assert_eq!(tree.insert(1, 20), Some(23));
    assert_eq!(*tree.find_node(&1).unwrap().value(), 20);
    assert_eq!(tree.len(), 1);
}

#[test]
fn in_order_nine_elements() {
    let mut tree: Tree<i64> = Tree::new();
    for k in [100, 50, 10, 70, 60, 99, 200, 115, 300] {
        tree.insert(k, k);
    }
    assert_eq!(tree.len(), 9);
    assert_eq!(collect_keys(tree), vec![10, 50, 60, 70, 99, 100, 115, 200, 300]);
}

#[test]
fn least_key() {
    let mut tree: Tree<i64> = Tree::new();
    for k in [100, 50, 10, 70, 60, 99, 200, 115, 300] {
        tree.insert(k, k);
    }
    assert_eq!(tree.least_node().unwrap().key(), 10);
}

#[test]
fn delete_root_successor_is_right_child() {
    let mut tree: Tree<i64> = Tree::new();
    for k in [100, 50, 200] {
        tree.insert(k, k);
    }
    let deleted = tree.delete(&100);
    assert_eq!(deleted.unwrap().key(), 100);
    assert_eq!(tree.len(), 2);
    assert_eq!(collect_keys(tree), vec![50, 200]);
}

#[test]
fn delete_root_successor_deeper() {
    let mut tree: Tree<i64> = Tree::new();
    for k in [100, 50, 200, 150] {
        tree.insert(k, k);
    }
    let deleted = tree.delete(&100);
    assert_eq!(deleted.unwrap().key(), 100);
    assert_eq!(tree.len(), 3);
    assert_eq!(collect_keys(tree), vec![50, 150, 200]);
}

#[test]
fn delete_internal_two_children() {
    let mut tree: Tree<i64> = Tree::new();
    for k in [100, 50, 10, 70, 60] {
        tree.insert(k, k);
    }
    let deleted = tree.delete(&50);
    assert_eq!(deleted.unwrap().key(), 50);
    assert_eq!(collect_keys(tree), vec![10, 60, 70, 100]);
}

#[test]
fn delete_missing_key_keeps_tree() {
    let mut tree: Tree<i64> = Tree::new();
    tree.insert(100, 100);
    assert!(tree.delete(&1000).is_none());
    assert_eq!(tree.len(), 1);
    assert_eq!(collect_keys(tree), vec![100]);
}

#[test]
fn detached_node_carries_pair() {
    let mut tree: Tree<i64> = Tree::new();
    tree.insert(7, 70);
    tree.insert(3, 30);
    let node = tree.delete(&7).unwrap();
    assert_eq!(node.key(), 7);
    assert_eq!(*node.value(), 70);
    assert!(tree.find_node(&7).is_none());
    assert_eq!(*tree.find_node(&3).unwrap().value(), 30);
}

#[test]
fn clear_then_clear_then_insert() {
    let mut tree: Tree<i64> = Tree::new();
    for k in [5, 1, 9] {
        tree.insert(k, k);
    }
    tree.clear();
    assert_eq!(tree.len(), 0);
    tree.clear();
    assert_eq!(tree.len(), 0);
    assert_eq!(tree.insert(5, 50), None);
    assert_eq!(tree.len(), 1);
    assert_eq!(*tree.find_node(&5).unwrap().value(), 50);
}

#[test]
fn cursor_peek_sees_values() {
    let mut tree: Tree<i64> = Tree::new();
    tree.insert(2, 20);
    tree.insert(1, 10);
    tree.insert(3, 30);
    let mut c = tree.iter_node();
    let mut pairs: Vec<(i64, i64)> = Vec::new();
    loop {
        let pair = match c.peek() {
            Some(n) => Some((n.key(), *n.value())),
            None => None,
        };
        match pair {
            Some(p) => {
                pairs.push(p);
                c.next();
            },
            None => break,
        }
    }
    assert_eq!(pairs, vec![(1, 10), (2, 20), (3, 30)]);
}

#[test]
fn negative_keys_order() {
    let mut tree: Tree<i64> = Tree::new();
    for k in [0, 1, -12] {
        tree.insert(k, k);
    }
    assert!(tree.find_node(&2).is_none());
    assert_eq!(tree.least_node().unwrap().key(), -12);
    assert_eq!(collect_keys(tree), vec![-12, 0, 1]);
}

#[test]
fn deletions_then_iteration_stays_sorted() {
    let mut tree: Tree<i64> = Tree::new();
    for k in [8, 4, 12, 2, 6, 10, 14, 1, 3, 5, 7] {
        tree.insert(k, k * 10);
    }
    assert!(tree.delete(&4).is_some());
    assert!(tree.delete(&12).is_some());
    assert!(tree.delete(&8).is_some());
    assert_eq!(tree.len(), 8);
    assert_eq!(collect_keys(tree), vec![1, 2, 3, 5, 6, 7, 10, 14]);
}

#[test]
fn reuse_after_delete() {
    let mut tree: Tree<i64> = Tree::new();
    for k in [50, 20, 80, 10, 30] {
        tree.insert(k, k);
    }
    assert!(tree.delete(&20).is_some());
    assert!(tree.delete(&80).is_some());
    assert_eq!(tree.insert(25, 250), None);
    assert_eq!(tree.insert(90, 900), None);
    assert_eq!(tree.len(), 5);
    assert_eq!(*tree.find_node(&25).unwrap().value(), 250);
    assert_eq!(*tree.find_node(&90).unwrap().value(), 900);
    assert_eq!(collect_keys(tree), vec![10, 25, 30, 50, 90]);
}
