use bstree::Tree;

fn drain_keys(t: Tree<i64>) -> Vec<i64> {
    let mut c = t.iter_node();
    let mut ks: Vec<i64> = Vec::new();
    while let Some(k) = c.next() {
        ks.push(k);
    }
    ks
}

#[test]
fn empty_tree() {
    let tree: Tree<i64> = Tree::new();
    assert_eq!(tree.len(), 0);
}

#[test]
fn insert_find() {
    let mut tree: Tree<i64> = Tree::new();
    assert_eq!(tree.insert(0, 0), None);
    assert_eq!(tree.insert(0, 0), Some(0));

    assert_eq!(*tree.find_node(&0).unwrap().value(), 0);
}

#[test]
fn iterate() {
    let mut paper_tree: Tree<i64> = Tree::new();
    paper_tree.insert(100, 100);
    paper_tree.insert(50, 50);
    paper_tree.insert(10, 10);
    paper_tree.insert(70, 70);
    paper_tree.insert(60, 60);
    paper_tree.insert(99, 99);

    paper_tree.insert(200, 200);
    paper_tree.insert(115, 115);
    paper_tree.insert(300, 300);

    let ppr_tree_size = paper_tree.len();
    let i = drain_keys(paper_tree).len();

    assert_eq!(ppr_tree_size, i);
    assert_eq!(ppr_tree_size, 9);
}

#[test]
fn delete_find() {
    let mut tree: Tree<i64> = Tree::new();
    assert_eq!(tree.insert(0, 0), None);
    assert!(tree.delete(&0).is_some());
    assert!(tree.delete(&0).is_none());
}

#[test]
fn delete_root_both_same() {
    let mut paper_tree: Tree<i64> = Tree::new();
    paper_tree.insert(100, 100);
    paper_tree.insert(50, 50);

    paper_tree.insert(200, 200);

    let deleted = paper_tree.delete(&100);
    let tree_cnt = paper_tree.len();
    let cnt = drain_keys(paper_tree).len();

    assert_eq!(true, deleted.is_some());
    assert_eq!(cnt, tree_cnt);
}

#[test]
fn delete_root_both_diff() {
    let mut paper_tree: Tree<i64> = Tree::new();
    paper_tree.insert(100, 100);
    paper_tree.insert(50, 50);

    paper_tree.insert(200, 200);
    paper_tree.insert(150, 150);

    let deleted = paper_tree.delete(&100);
    let tree_cnt = paper_tree.len();
    let cnt = drain_keys(paper_tree).len();
    assert_eq!(true, deleted.is_some());
    assert_eq!(cnt, tree_cnt);
}

#[test]
fn delete_root_l() {
    let mut paper_tree: Tree<i64> = Tree::new();
    paper_tree.insert(100, 100);
    paper_tree.insert(50, 50);

    let deleted = paper_tree.delete(&100);
    let tree_cnt = paper_tree.len();
    let cnt = drain_keys(paper_tree).len();
    assert_eq!(true, deleted.is_some());
    assert_eq!(cnt, tree_cnt);
}

#[test]
fn delete_root_r() {
    let mut paper_tree: Tree<i64> = Tree::new();
    paper_tree.insert(100, 100);
    paper_tree.insert(150, 150);

    let deleted = paper_tree.delete(&100);
    let tree_cnt = paper_tree.len();
    let cnt = drain_keys(paper_tree).len();
    assert_eq!(true, deleted.is_some());
    assert_eq!(cnt, tree_cnt);
}

#[test]
fn delete_root_none() {
    let mut paper_tree: Tree<i64> = Tree::new();
    paper_tree.insert(100, 100);

    let deleted = paper_tree.delete(&100);
    let tree_cnt = paper_tree.len();
    let cnt = drain_keys(paper_tree).len();
    assert_eq!(true, deleted.is_some());
    assert_eq!(cnt, tree_cnt);
}

#[test]
fn delete_miss() {
    let mut paper_tree: Tree<i64> = Tree::new();
    paper_tree.insert(100, 100);

    let deleted = paper_tree.delete(&1000);
    let tree_cnt = paper_tree.len();
    let cnt = drain_keys(paper_tree).len();
    assert_eq!(true, deleted.is_none());
    assert_eq!(cnt, tree_cnt);
}

#[test]
fn delete_node_none() {
    let mut paper_tree: Tree<i64> = Tree::new();
    paper_tree.insert(100, 100);
    paper_tree.insert(50, 50);

    let deleted = paper_tree.delete(&50);
    let tree_cnt = paper_tree.len();
    let cnt = drain_keys(paper_tree).len();

    assert_eq!(true, deleted.is_some());
    assert_eq!(cnt, tree_cnt);
}

#[test]
fn delete_node_l() {
    let mut paper_tree: Tree<i64> = Tree::new();
    paper_tree.insert(100, 100);
    paper_tree.insert(50, 50);
    paper_tree.insert(10, 10);

    let deleted = paper_tree.delete(&50);
    let tree_cnt = paper_tree.len();
    let cnt = drain_keys(paper_tree).len();

    assert_eq!(true, deleted.is_some());
    assert_eq!(cnt, tree_cnt);
}

#[test]
fn delete_node_r() {
    let mut paper_tree: Tree<i64> = Tree::new();
    paper_tree.insert(100, 100);
    paper_tree.insert(50, 50);
    paper_tree.insert(70, 70);

    let deleted = paper_tree.delete(&50);
    let tree_cnt = paper_tree.len();
    let cnt = drain_keys(paper_tree).len();

    assert_eq!(true, deleted.is_some());
    assert_eq!(cnt, tree_cnt);
}

#[test]
fn delete_node_both_l_same() {
    let mut paper_tree: Tree<i64> = Tree::new();
    paper_tree.insert(100, 100);
    paper_tree.insert(50, 50);
    paper_tree.insert(10, 10);
    paper_tree.insert(70, 70);

    let deleted = paper_tree.delete(&50);
    let tree_cnt = paper_tree.len();
    let cnt = drain_keys(paper_tree).len();

    assert_eq!(true, deleted.is_some());
    assert_eq!(cnt, tree_cnt);
}

#[test]
fn delete_node_both_r_same() {
    let mut paper_tree: Tree<i64> = Tree::new();
    paper_tree.insert(100, 100);
    paper_tree.insert(150, 150);
    paper_tree.insert(110, 110);
    paper_tree.insert(170, 170);

    let deleted = paper_tree.delete(&150);
    let tree_cnt = paper_tree.len();
    let cnt = drain_keys(paper_tree).len();

    assert_eq!(true, deleted.is_some());
    assert_eq!(cnt, tree_cnt);
}

#[test]
fn delete_node_both_l_diff() {
    let mut paper_tree: Tree<i64> = Tree::new();
    paper_tree.insert(100, 100);
    paper_tree.insert(50, 50);
    paper_tree.insert(10, 10);
    paper_tree.insert(70, 70);
    paper_tree.insert(60, 60);

    let deleted = paper_tree.delete(&50);
    let tree_cnt = paper_tree.len();
    let cnt = drain_keys(paper_tree).len();

    assert_eq!(true, deleted.is_some());
    assert_eq!(cnt, tree_cnt);
}

#[test]
fn delete_node_both_r_diff() {
    let mut paper_tree: Tree<i64> = Tree::new();
    paper_tree.insert(100, 100);
    paper_tree.insert(150, 150);
    paper_tree.insert(110, 110);
    paper_tree.insert(170, 170);
    paper_tree.insert(160, 160);

    let deleted = paper_tree.delete(&150);
    let tree_cnt = paper_tree.len();
    let cnt = drain_keys(paper_tree).len();

    assert_eq!(true, deleted.is_some());
    assert_eq!(cnt, tree_cnt);
}
