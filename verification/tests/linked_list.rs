use linked_list::{LinkedListIterator, Node};

#[test]
fn test_new() {
    let node = Node::new("Test".to_string());
    assert_eq!(node.data, "Test".to_string());
}

#[test]
fn test_append() {
    let mut node = Node::new("Hello".to_string());
    node.append("World".to_string());
    let mut iter = node.iter();
    assert_eq!(iter.next(), Some(&"Hello".to_string()));
    assert_eq!(iter.next(), Some(&"World".to_string()));
    assert_eq!(iter.next(), None);
}

#[test]
fn test_insert_after() {
    let mut node = Node::new("Hello".to_string());
    node.append("World".to_string());
    assert_eq!(node.insert_after(&"Hello".to_string(), "Beautiful".to_string()), Ok(()));
    let mut iter = node.iter();
    assert_eq!(iter.next(), Some(&"Hello".to_string()));
    assert_eq!(iter.next(), Some(&"Beautiful".to_string()));
    assert_eq!(iter.next(), Some(&"World".to_string()));
    assert_eq!(iter.next(), None);
}

#[test]
fn test_insert_after_err() {
    let mut node = Node::new("Hello".to_string());
    node.append("World".to_string());
    assert_eq!(node.insert_after(&"Banana".to_string(), "Beautiful".to_string()), Err(()));
}

#[test]
fn test_insert_before() {
    let mut node = Node::new("Hello".to_string());
    node.append("World".to_string());
    assert_eq!(node.insert_before(&"Hello".to_string(), "Well".to_string()), Ok(()));
    let mut iter = node.iter();
    assert_eq!(iter.next(), Some(&"Well".to_string()));
    assert_eq!(iter.next(), Some(&"Hello".to_string()));
    assert_eq!(iter.next(), Some(&"World".to_string()));
    assert_eq!(iter.next(), None);
}

#[test]
fn test_insert_before_err() {
    let mut node = Node::new("Hello".to_string());
    node.append("World".to_string());
    assert_eq!(node.insert_before(&"Coconut".to_string(), "New".to_string()), Err(()));
}

#[test]
fn test_construct_then_iterate_yields_single_value() {
    let node = Node::new("Solo".to_string());
    let mut iter = node.iter();
    assert_eq!(iter.next(), Some(&"Solo".to_string()));
    assert_eq!(iter.next(), None);
    // exhaustion is terminal
    assert_eq!(iter.next(), None);
}

#[test]
fn test_iterator_new_starts_at_given_node() {
    let node = Node::new("Root".to_string());
    let mut iter = LinkedListIterator::new(&node);
    assert_eq!(iter.next(), Some(&"Root".to_string()));
    assert_eq!(iter.next(), None);
}

#[test]
fn test_append_keeps_call_order() {
    let mut node = Node::new("v0".to_string());
    node.append("v1".to_string());
    node.append("v2".to_string());
    node.append("v3".to_string());
    let mut iter = node.iter();
    assert_eq!(iter.next(), Some(&"v0".to_string()));
    assert_eq!(iter.next(), Some(&"v1".to_string()));
    assert_eq!(iter.next(), Some(&"v2".to_string()));
    assert_eq!(iter.next(), Some(&"v3".to_string()));
    assert_eq!(iter.next(), None);
}

#[test]
fn test_insert_after_err_leaves_chain_unchanged() {
    let mut node = Node::new("Hello".to_string());
    node.append("World".to_string());
    assert_eq!(node.insert_after(&"Banana".to_string(), "Beautiful".to_string()), Err(()));
    let mut iter = node.iter();
    assert_eq!(iter.next(), Some(&"Hello".to_string()));
    assert_eq!(iter.next(), Some(&"World".to_string()));
    assert_eq!(iter.next(), None);
}

#[test]
fn test_insert_before_err_leaves_chain_unchanged() {
    let mut node = Node::new("Hello".to_string());
    node.append("World".to_string());
    assert_eq!(node.insert_before(&"Coconut".to_string(), "New".to_string()), Err(()));
    let mut iter = node.iter();
    assert_eq!(iter.next(), Some(&"Hello".to_string()));
    assert_eq!(iter.next(), Some(&"World".to_string()));
    assert_eq!(iter.next(), None);
}

#[test]
fn test_insert_after_matches_first_of_duplicates() {
    let mut node = Node::new("X".to_string());
    node.append("X".to_string());
    assert_eq!(node.insert_after(&"X".to_string(), "Y".to_string()), Ok(()));
    let mut iter = node.iter();
    assert_eq!(iter.next(), Some(&"X".to_string()));
    assert_eq!(iter.next(), Some(&"Y".to_string()));
    assert_eq!(iter.next(), Some(&"X".to_string()));
    assert_eq!(iter.next(), None);
}

#[test]
fn test_insert_before_matches_first_of_duplicates() {
    let mut node = Node::new("X".to_string());
    node.append("X".to_string());
    assert_eq!(node.insert_before(&"X".to_string(), "Y".to_string()), Ok(()));
    let mut iter = node.iter();
    assert_eq!(iter.next(), Some(&"Y".to_string()));
    assert_eq!(iter.next(), Some(&"X".to_string()));
    assert_eq!(iter.next(), Some(&"X".to_string()));
    assert_eq!(iter.next(), None);
}

#[test]
fn test_insert_after_tail_anchor_appends() {
    let mut node = Node::new("Hello".to_string());
    node.append("World".to_string());
    assert_eq!(node.insert_after(&"World".to_string(), "Again".to_string()), Ok(()));
    let mut iter = node.iter();
    assert_eq!(iter.next(), Some(&"Hello".to_string()));
    assert_eq!(iter.next(), Some(&"World".to_string()));
    assert_eq!(iter.next(), Some(&"Again".to_string()));
    assert_eq!(iter.next(), None);
}

#[test]
fn test_insert_before_tail_anchor() {
    let mut node = Node::new("Hello".to_string());
    node.append("World".to_string());
    assert_eq!(node.insert_before(&"World".to_string(), "Big".to_string()), Ok(()));
    let mut iter = node.iter();
    assert_eq!(iter.next(), Some(&"Hello".to_string()));
    assert_eq!(iter.next(), Some(&"Big".to_string()));
    assert_eq!(iter.next(), Some(&"World".to_string()));
    assert_eq!(iter.next(), None);
}
