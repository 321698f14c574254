use custom_dag::Node;

#[test]
fn create_node_without_references() {
    let node = Node::new(0, None, None, None);
    assert_eq!(
        node,
        Node {
            id: 0,
            left: None,
            right: None,
            payload: None,
        }
    )
}

#[test]
fn node_is_equivalent_by_id() {
    let node = Node::new(0, None, None, None);
    assert_eq!(
        node,
        Node {
            id: 0,
            left: Some(1),
            right: Some(2),
            payload: None,
        }
    );
    assert_ne!(
        node,
        Node {
            id: 1,
            left: None,
            right: None,
            payload: None,
        }
    )
}

#[test]
fn create_node_zero_u32() {
    let node = Node::new(0, Some(0), Some(0), None);
    assert_eq!(
        node,
        Node {
            id: 0,
            left: Some(0),
            right: Some(0),
            payload: None,
        }
    )
}

#[test]
fn create_node_zero_u64() {
    let value = 0_u64;
    let node = Node::new(value, Some(0), Some(0), None);
    assert_eq!(
        node,
        Node {
            id: 0,
            left: Some(0),
            right: Some(0),
            payload: None,
        }
    )
}

#[test]
fn create_node_zero_usize() {
    let value = 0_usize;
    let node = Node::new(value as u64, Some(0), Some(0), None);
    assert_eq!(
        node,
        Node {
            id: 0,
            left: Some(0),
            right: Some(0),
            payload: None,
        }
    )
}

#[test]
fn has_same_fields_to() {
    let id: u64 = 0;
    let node_a = Node::new(id, Some(3), Some(5), None);
    let node_b = Node::new(id, Some(42), Some(43), None);

    let node_c = Node::new(id, Some(3), Some(5), None);

    assert!(node_a.has_same_fields_to(&node_a));
    assert!(node_a.has_same_fields_to(&node_c));
    assert!(!node_a.has_same_fields_to(&node_b));
}

#[test]
fn in_degree_counts_non_empty_references() {
    assert_eq!(Node::new(0, None, None, None).in_degree(), 0);
    assert_eq!(Node::new(1, Some(0), None, None).in_degree(), 1);
    assert_eq!(Node::new(2, None, Some(0), None).in_degree(), 1);
    assert_eq!(Node::new(3, Some(0), Some(1), None).in_degree(), 2);
    // a self-duplicated predecessor still counts twice
    assert_eq!(Node::new(4, Some(7), Some(7), None).in_degree(), 2);
}
