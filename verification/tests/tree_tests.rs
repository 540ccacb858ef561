use nary_tree::node_mut::NodeMut;
use nary_tree::tree::Tree;

#[test]
fn children_order_append_prepend() {
    let mut tree = Tree::new();
    let p = tree.set_root(0);
    let a = tree.append_child(p, 1);
    let b = tree.append_child(p, 2);
    assert_eq!(tree.children(p), vec![a, b]);
    let c = tree.prepend_child(p, 3);
    assert_eq!(tree.children(p), vec![c, a, b]);
}

#[test]
fn append_round_trip() {
    let mut tree = Tree::new();
    let p = tree.set_root(10);
    assert!(tree.is_leaf(p));
    let c = tree.append_child(p, 20);
    assert_eq!(tree.children_len(p), 1);
    assert!(!tree.is_leaf(p));
    assert!(tree.is_leaf(c));
    assert_eq!(*tree.data(c), 20);
}

#[test]
fn removal_completeness() {
    let mut tree = Tree::new();
    let root = tree.set_root(0);
    let n1 = tree.append_child(root, 1);
    let n2 = tree.append_child(root, 2);
    let n3 = tree.append_child(n2, 3);
    let n4 = tree.append_child(n3, 4);
    assert_eq!(tree.slab.len(), 5);
    let data = tree.remove(n2);
    assert_eq!(data, 2);
    assert_eq!(tree.slab.len(), 2);
    assert!(tree.node_exists(root));
    assert!(tree.node_exists(n1));
    assert!(!tree.node_exists(n2));
    assert!(!tree.node_exists(n3));
    assert!(!tree.node_exists(n4));
    assert_eq!(tree.children(root), vec![n1]);
}

#[test]
fn stale_handle_rejected_after_reuse() {
    let mut tree = Tree::new();
    let root = tree.set_root(0);
    let child = tree.append_child(root, 1);
    assert_eq!(tree.try_remove(child), Some(1));
    assert!(!tree.node_exists(child));
    let reused = tree.append_child(root, 2);
    assert_eq!(reused.index.key, child.index.key);
    assert_ne!(reused, child);
    assert!(!tree.node_exists(child));
    assert!(tree.try_relatives_of(child).is_none());
    assert!(tree.node_exists(reused));
}

#[test]
fn detach_and_discard() {
    let mut tree = Tree::new();
    let n0 = tree.set_root(0);
    let n1 = tree.append_child(n0, 1);
    let n2 = tree.append_child(n0, 2);
    let n3 = tree.append_child(n2, 3);
    let detached = tree.detach(n2);
    assert_eq!(detached.root_id(), n2);
    let level: Vec<i32> = detached
        .as_tree()
        .traversal_level_order(None)
        .iter()
        .map(|id| *detached.as_tree().data(*id))
        .collect();
    assert_eq!(level, vec![2, 3]);
    assert_eq!(detached.as_tree().children(n0), vec![n1]);
    let tree = detached.release();
    assert!(!tree.node_exists(n2));
    assert!(!tree.node_exists(n3));
    assert!(tree.node_exists(n0));
    assert!(tree.node_exists(n1));
    assert_eq!(tree.children(n0), vec![n1]);
}

#[test]
fn clone_is_independent() {
    let mut tree = Tree::new();
    let n0 = tree.set_root(0);
    let n1 = tree.append_child(n0, 1);
    let n2 = tree.append_child(n0, 2);
    tree.append_child(n2, 3);
    let mut copy = tree.clone_from_node(None);
    let copy_level: Vec<i32> = copy
        .traversal_level_order(None)
        .iter()
        .map(|id| *copy.data(*id))
        .collect();
    let src_level: Vec<i32> = tree
        .traversal_level_order(None)
        .iter()
        .map(|id| *tree.data(*id))
        .collect();
    assert_eq!(copy_level, src_level);
    assert_eq!(copy_level, vec![0, 1, 2, 3]);
    let copy_root = copy.root_id();
    *copy.data_mut(copy_root) = 99;
    assert_eq!(*tree.data(n0), 0);
    assert_eq!(*copy.data(copy_root), 99);
    *tree.data_mut(n1) = 41;
    let copy_level: Vec<i32> = copy
        .traversal_level_order(None)
        .iter()
        .map(|id| *copy.data(*id))
        .collect();
    assert_eq!(copy_level, vec![99, 1, 2, 3]);
}

#[test]
fn builder_walks_and_appends() {
    let tree = Tree::new();
    let mut tree = tree;
    let root = tree.set_root(0);
    let mut cursor = NodeMut::new(tree, root);
    cursor.append(1);
    let two = cursor.append_and_walk(2);
    cursor.append(3);
    assert!(cursor.try_walk(root).is_some());
    let tree = cursor.done();
    let level: Vec<i32> = tree
        .traversal_level_order(None)
        .iter()
        .map(|id| *tree.data(*id))
        .collect();
    assert_eq!(level, vec![0, 1, 2, 3]);
    assert_eq!(tree.children_len(two), 1);
}

#[test]
fn leftmost_and_rightmost_paths() {
    let mut tree = Tree::new();
    let n0 = tree.set_root(0);
    let n1 = tree.append_child(n0, 1);
    let n2 = tree.append_child(n0, 2);
    let n3 = tree.append_child(n1, 3);
    assert_eq!(tree.leftmost_path_to_leaf(None), vec![n0, n1, n3]);
    assert_eq!(tree.rightmost_path_to_leaf(None), vec![n0, n2]);
    assert_eq!(tree.leftmost_path_to_leaf(Some(n2)), vec![n2]);
}

#[test]
fn subtree_view_and_restore() {
    let mut tree = Tree::new();
    let n0 = tree.set_root(0);
    let n1 = tree.append_child(n0, 1);
    let n2 = tree.append_child(n0, 2);
    let n3 = tree.append_child(n1, 3);
    let before = *tree.relatives_of(n1);
    let view = nary_tree::subtree::SubTree::new(tree, n1);
    // while the guard lives, the container's logical root is the borrowed node
    assert_eq!(view.root_id(), n1);
    assert_eq!(view.as_tree().try_root_id(), Some(n1));
    assert!(view.as_tree().try_relatives_of(n1).unwrap().parent.is_none());
    let level: Vec<i32> = view
        .as_tree()
        .traversal_level_order(None)
        .iter()
        .map(|id| *view.as_tree().data(*id))
        .collect();
    assert_eq!(level, vec![1, 3]);
    // release restores the root, the parent link and the sibling position
    let tree = view.release();
    assert_eq!(tree.try_root_id(), Some(n0));
    assert!(tree.node_exists(n0));
    assert!(tree.node_exists(n1));
    assert!(tree.node_exists(n2));
    assert!(tree.node_exists(n3));
    assert_eq!(*tree.relatives_of(n1), before);
    assert_eq!(tree.children(n0), vec![n1, n2]);
    assert_eq!(tree.children(n1), vec![n3]);
}

#[test]
fn subtree_view_of_middle_child_restores_order() {
    let mut tree = Tree::new();
    let n0 = tree.set_root(0);
    let n1 = tree.append_child(n0, 1);
    let n2 = tree.append_child(n0, 2);
    let n3 = tree.append_child(n0, 3);
    let view = nary_tree::subtree::SubTree::new(tree, n2);
    assert_eq!(view.as_tree().children(n0), vec![n1, n3]);
    let tree = view.release();
    assert_eq!(tree.children(n0), vec![n1, n2, n3]);
}

#[test]
fn try_remove_stale_is_none() {
    let mut tree = Tree::new();
    let root = tree.set_root(5);
    let child = tree.append_child(root, 6);
    assert_eq!(tree.try_remove(child), Some(6));
    assert_eq!(tree.try_remove(child), None);
    assert_eq!(*tree.data(root), 5);
}

#[test]
fn remove_root_empties_tree() {
    let mut tree = Tree::new();
    let root = tree.set_root(1);
    tree.append_child(root, 2);
    let data = tree.remove(root);
    assert_eq!(data, 1);
    assert!(tree.try_root_id().is_none());
    assert_eq!(tree.slab.len(), 0);
    let new_root = tree.set_root(9);
    assert_eq!(*tree.data(new_root), 9);
}

#[test]
fn post_order_walk() {
    let mut tree = Tree::new();
    let n0 = tree.set_root(0);
    let n1 = tree.append_child(n0, 1);
    let n2 = tree.append_child(n0, 2);
    let n3 = tree.append_child(n2, 3);
    let post: Vec<i32> = tree
        .traversal_depth_first_post_order(None)
        .iter()
        .map(|id| *tree.data(*id))
        .collect();
    assert_eq!(post, vec![1, 3, 2, 0]);
    assert_eq!(tree.traversal_depth_first_post_order(Some(n2)), vec![n3, n2]);
    assert_eq!(tree.traversal_depth_first_post_order(Some(n1)), vec![n1]);
}

#[test]
fn removal_frees_in_post_order() {
    let mut tree = Tree::new();
    let n0 = tree.set_root(0);
    let n1 = tree.append_child(n0, 1);
    let n2 = tree.append_child(n1, 2);
    let n3 = tree.append_child(n1, 3);
    // children are freed before their parent, in sibling order, and the
    // free stack hands slots back most recently freed first
    assert_eq!(tree.remove(n1), 1);
    let r1 = tree.append_child(n0, 10);
    assert_eq!(r1.index.key, n1.index.key);
    let r2 = tree.append_child(n0, 11);
    assert_eq!(r2.index.key, n3.index.key);
    let r3 = tree.append_child(n0, 12);
    assert_eq!(r3.index.key, n2.index.key);
}
