use nary_tree::node::{NodeId, RelativeType, Relatives};
use nary_tree::slab::SlabIndex;
use nary_tree::tree::Tree;

#[test]
fn relative_type_get_id() {
    let parend_id = Some(NodeId::new(SlabIndex::new(0, 0)));
    let first_child_id = Some(NodeId::new(SlabIndex::new(1, 0)));
    let last_child_id = Some(NodeId::new(SlabIndex::new(2, 0)));
    let prev_sibling_id = Some(NodeId::new(SlabIndex::new(3, 0)));
    let next_sibling_id = Some(NodeId::new(SlabIndex::new(4, 0)));
    let relatives = Relatives {
        parent: parend_id,
        first_child: first_child_id,
        last_child: last_child_id,
        prev_sibling: prev_sibling_id,
        next_sibling: next_sibling_id,
    };
    assert_eq!(RelativeType::Parent.get_id(&relatives), parend_id);
    assert_eq!(RelativeType::FirstChild.get_id(&relatives), first_child_id);
    assert_eq!(RelativeType::LastChild.get_id(&relatives), last_child_id);
    assert_eq!(RelativeType::PrevSibling.get_id(&relatives), prev_sibling_id);
    assert_eq!(RelativeType::NextSibling.get_id(&relatives), next_sibling_id);
}

#[test]
fn relatives_of_root_are_empty() {
    let mut tree = Tree::new();
    let root_id = tree.set_root(0);
    let relatives = *tree.relatives_of(root_id);
    assert_eq!(relatives, Relatives::empty());
}

#[test]
fn nodeptr_node_id() {
    let mut tree = Tree::new();
    let root_id = tree.set_root(0);
    let nodeptr = tree.create_nodeptr(root_id);
    assert_eq!(nodeptr.node_id(), root_id);
}

#[test]
fn nodeptr_walk() {
    let mut tree = Tree::new();
    let root_id = tree.set_root(0);
    let first_child_id = tree.append_child(root_id, 1);
    let mut nodeptr = tree.create_nodeptr(root_id);
    assert_eq!(nodeptr.node_id(), root_id);
    nodeptr.walk(first_child_id);
    assert_eq!(nodeptr.node_id(), first_child_id);
}

#[test]
fn nodeptr_walk_to_relatives() {
    let mut tree = Tree::new();
    let root_id = tree.set_root(0);
    let first_child_id = tree.append_child(root_id, 1);
    let last_child_id = tree.append_child(root_id, 2);
    let mut nodeptr = tree.create_nodeptr(root_id);
    assert_eq!(nodeptr.node_id(), root_id);
    nodeptr.walk_to(RelativeType::FirstChild);
    assert_eq!(nodeptr.node_id(), first_child_id);
    nodeptr.walk_to(RelativeType::Parent);
    assert_eq!(nodeptr.node_id(), root_id);
    nodeptr.walk_to(RelativeType::LastChild);
    assert_eq!(nodeptr.node_id(), last_child_id);
    nodeptr.walk_to(RelativeType::PrevSibling);
    assert_eq!(nodeptr.node_id(), first_child_id);
    nodeptr.walk_to(RelativeType::NextSibling);
    assert_eq!(nodeptr.node_id(), last_child_id);
}

#[test]
fn nodeptr_data() {
    let mut tree = Tree::new();
    let root = 0;
    let first_child = 1;
    let last_child = 2;
    let root_id = tree.set_root(root);
    tree.append_child(root_id, first_child);
    tree.append_child(root_id, last_child);
    let mut nodeptr = tree.create_nodeptr(root_id);
    assert_eq!(nodeptr.data(), &root);
    nodeptr.walk_to(RelativeType::FirstChild);
    assert_eq!(nodeptr.data(), &first_child);
    nodeptr.walk_to(RelativeType::Parent);
    assert_eq!(nodeptr.data(), &root);
    nodeptr.walk_to(RelativeType::LastChild);
    assert_eq!(nodeptr.data(), &last_child);
    nodeptr.walk_to(RelativeType::PrevSibling);
    assert_eq!(nodeptr.data(), &first_child);
    nodeptr.walk_to(RelativeType::NextSibling);
    assert_eq!(nodeptr.data(), &last_child);
}

#[test]
fn nodeptr_relatives() {
    let mut tree = Tree::new();
    let root_id = tree.set_root(0);
    let relatives = *tree.relatives_of(root_id);
    let nodeptr = tree.create_nodeptr(root_id);
    assert_eq!(nodeptr.relatives(), &relatives);
}
