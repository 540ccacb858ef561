use nary_tree::node::Node;
use nary_tree::slab::Slab;
use nary_tree::slab::SlabIndex;

#[test]
fn create_with_capacity() {
    let capacity = 10usize;
    let slab: Slab<i32> = Slab::with_capacity(capacity);
    assert_eq!(capacity, slab.capacity());
}

#[test]
fn remove_increases_generation() {
    let mut slab = Slab::new();
    let index = slab.insert(Node::new(1, slab.generation()));
    let generation = slab.generation();
    slab.try_remove(index).unwrap();
    assert_eq!(generation + 1, slab.generation());
}

#[test]
fn insert_increases_len() {
    let mut slab = Slab::new();
    assert_eq!(slab.len(), 0);
    slab.insert(Node::new(1, slab.generation()));
    assert_eq!(slab.len(), 1);
}

#[test]
fn insert_and_get() {
    let mut slab = Slab::new();
    let index = slab.insert(Node::new(1, slab.generation()));
    let node = slab.try_get(index).unwrap();
    assert_eq!(node.data, 1);
}

#[test]
fn insert_and_get_mut() {
    let mut slab = Slab::new();
    let index = slab.insert(Node::new(1, slab.generation()));
    let node = slab.try_get_mut(index).unwrap();
    assert_eq!(node.data, 1);
    node.data = 2;
    let node = slab.try_get_mut(index).unwrap();
    assert_eq!(node.data, 2);
}

#[test]
fn insert_remove_get() {
    let mut slab = Slab::new();
    let index = slab.insert(Node::new(1, slab.generation()));
    assert!(slab.try_get(index).is_some());
    slab.try_remove(index);
    assert!(slab.try_get(index).is_none());
}

#[test]
fn remove_twice() {
    let mut slab = Slab::new();
    let index = slab.insert(Node::new(1, slab.generation()));
    assert!(slab.try_get(index).is_some());
    let removed = slab.try_remove(index);
    assert!(removed.is_some());
    let removed = slab.try_remove(index);
    assert!(removed.is_none());
}

#[test]
fn check_if_exists() {
    let mut slab = Slab::new();
    let index = slab.insert(Node::new(1, slab.generation()));
    assert!(slab.contains(index));
    slab.try_remove(index);
    assert!(!slab.contains(index));
}

#[test]
fn get_with_wrong_generation() {
    let mut slab = Slab::new();
    let mut index = slab.insert(Node::new(1, slab.generation()));
    assert!(slab.contains(index));
    index.generation += 1;
    assert!(!slab.contains(index));
}

#[test]
fn get_mut_with_wrong_generation() {
    let mut slab = Slab::new();
    let mut index = slab.insert(Node::new(1, slab.generation()));
    assert!(slab.try_get_mut(index).is_some());
    index.generation += 1;
    assert!(slab.try_get_mut(index).is_none());
}

#[test]
fn remove_with_wrong_generation() {
    let mut slab = Slab::new();
    let index = slab.insert(Node::new(1, slab.generation()));
    assert!(slab.try_remove(index).is_some());
    let mut index = slab.insert(Node::new(1, slab.generation()));
    index.generation += 1;
    assert!(slab.try_remove(index).is_none());
}

#[test]
fn reuse_keeps_old_handle_stale() {
    let mut slab = Slab::new();
    let first = slab.insert(Node::new(7, slab.generation()));
    assert!(slab.try_remove(first).is_some());
    let second = slab.insert(Node::new(8, slab.generation()));
    assert_eq!(first.key, second.key);
    assert!(slab.contains(second));
    assert!(!slab.contains(first));
    assert!(slab.try_get(first).is_none());
}

#[test]
fn next_index_matches_insert() {
    let mut slab = Slab::new();
    let predicted: SlabIndex = slab.next_index();
    let actual = slab.insert(Node::new(3, slab.generation()));
    assert_eq!(predicted, actual);
}
