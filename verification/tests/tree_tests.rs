use ordered_tree::tree::Tree;

fn collect_preorder(t: &Tree) -> Vec<i64> {
    let mut it = t.preorder();
    let mut out = Vec::new();
    while let Some(k) = it.next() {
        out.push(k);
    }
    out
}

fn collect_inorder(t: &Tree) -> Vec<i64> {
    let mut it = t.inorder();
    let mut out = Vec::new();
    while let Some(k) = it.next() {
        out.push(k);
    }
    out
}

fn collect_postorder(t: &Tree) -> Vec<i64> {
    let mut it = t.postorder();
    let mut out = Vec::new();
    while let Some(k) = it.next() {
        out.push(k);
    }
    out
}

#[test]
fn it_works() {
}

#[test]
fn lib_it_works() {
}

#[test]
fn seven_keys_all_traversals() {
    let mut t = Tree::new();
    for k in [5i64, 3, 8, 1, 4, 7, 9] {
        assert!(t.insert(k));
    }
    assert_eq!(collect_inorder(&t), vec![1, 3, 4, 5, 7, 8, 9]);
    assert_eq!(collect_preorder(&t), vec![5, 3, 1, 4, 8, 7, 9]);
    assert_eq!(collect_postorder(&t), vec![1, 4, 3, 7, 9, 8, 5]);
    assert!(t.find(&4));
    assert!(!t.find(&6));
    assert!(!t.insert(5));
}

#[test]
fn single_key_traversals() {
    let mut t = Tree::new();
    assert!(t.insert(10));
    assert_eq!(collect_preorder(&t), vec![10]);
    assert_eq!(collect_inorder(&t), vec![10]);
    assert_eq!(collect_postorder(&t), vec![10]);
}

#[test]
fn right_skewed_traversals() {
    let mut t = Tree::new();
    for k in [1i64, 2, 3, 4] {
        assert!(t.insert(k));
    }
    assert_eq!(collect_preorder(&t), vec![1, 2, 3, 4]);
    assert_eq!(collect_postorder(&t), vec![4, 3, 2, 1]);
    assert_eq!(collect_inorder(&t), vec![1, 2, 3, 4]);
}

#[test]
fn left_skewed_traversals() {
    let mut t = Tree::new();
    for k in [4i64, 3, 2, 1] {
        assert!(t.insert(k));
    }
    assert_eq!(collect_preorder(&t), vec![4, 3, 2, 1]);
    assert_eq!(collect_postorder(&t), vec![1, 2, 3, 4]);
    assert_eq!(collect_inorder(&t), vec![1, 2, 3, 4]);
}

#[test]
fn empty_tree_traversals() {
    let t = Tree::new();
    assert_eq!(collect_preorder(&t), Vec::<i64>::new());
    assert_eq!(collect_inorder(&t), Vec::<i64>::new());
    assert_eq!(collect_postorder(&t), Vec::<i64>::new());
    assert!(!t.find(&0));
}

#[test]
fn duplicate_insert_changes_nothing() {
    let mut t = Tree::new();
    for k in [5i64, 3, 8] {
        assert!(t.insert(k));
    }
    assert!(!t.insert(3));
    assert!(!t.insert(5));
    assert_eq!(collect_preorder(&t), vec![5, 3, 8]);
    assert_eq!(collect_inorder(&t), vec![3, 5, 8]);
    assert_eq!(collect_postorder(&t), vec![3, 8, 5]);
}

#[test]
fn find_inserted_and_absent() {
    let mut t = Tree::new();
    let keys = [20i64, -4, 13, 0, 99, 7];
    for k in keys {
        assert!(t.insert(k));
    }
    for k in keys {
        assert!(t.find(&k));
    }
    for k in [1i64, -5, 100, 21] {
        assert!(!t.find(&k));
    }
}

#[test]
fn traversal_lengths_agree() {
    let mut t = Tree::new();
    for k in [8i64, 12, 2, 5, -3, 40, 9] {
        assert!(t.insert(k));
    }
    assert_eq!(collect_preorder(&t).len(), 7);
    assert_eq!(collect_inorder(&t).len(), 7);
    assert_eq!(collect_postorder(&t).len(), 7);
}

#[test]
fn exhausted_producers_stay_exhausted() {
    let mut t = Tree::new();
    assert!(t.insert(1));
    assert!(t.insert(2));
    let mut it = t.postorder();
    assert_eq!(it.next(), Some(2));
    assert_eq!(it.next(), Some(1));
    assert_eq!(it.next(), None);
    assert_eq!(it.next(), None);
    let mut it = t.preorder();
    assert_eq!(it.next(), Some(1));
    assert_eq!(it.next(), Some(2));
    assert_eq!(it.next(), None);
    assert_eq!(it.next(), None);
    let mut it = ordered_tree::tree::IterInorder::new(&t);
    assert_eq!(it.next(), Some(1));
    assert_eq!(it.next(), Some(2));
    assert_eq!(it.next(), None);
    assert_eq!(it.next(), None);
}

#[test]
fn inorder_is_sorted_on_mixed_order() {
    let mut t = Tree::new();
    for k in [50i64, 20, 70, 10, 30, 60, 80, 25, 35, 65] {
        assert!(t.insert(k));
    }
    let io = collect_inorder(&t);
    let mut sorted = io.clone();
    sorted.sort();
    assert_eq!(io, sorted);
    assert_eq!(io, vec![10, 20, 25, 30, 35, 50, 60, 65, 70, 80]);
}

#[test]
fn preorder_head_is_first_inserted() {
    let mut t = Tree::new();
    assert!(t.insert(42));
    assert!(t.insert(7));
    assert!(t.insert(100));
    let pre = collect_preorder(&t);
    assert_eq!(pre[0], 42);
}
