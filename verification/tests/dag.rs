use custom_dag::{collitions::CollidingNode, Dag, Node};

#[allow(non_snake_case)]
#[test]
fn create_1_000_000_random_nodes_unconnected_DAG() {
    let mut dag = Dag::new();
    for i in 0..1_000_000 {
        dag.insert(Node::new(i, None, None, None));
    }
    for i in 0..1_000_000 {
        assert!(dag.contains_id(&i));
    }
    assert!(dag.is_safe())
}

#[test]
fn dag_insert_existing_node_id_does_not_update() {
    let id: u64 = 0;
    let node_a = Node::new(id, None, None, None);
    let node_b = Node::new(id, Some(42), Some(43), None);
    let mut dag = Dag::new();
    // Nodes are considered equal by id, but they can contain different field values (other than id).
    assert_eq!(node_a, node_b);
    assert_ne!(node_a.left, node_b.left);
    // The new node was not present in the dag, so it gets inserted in the DAG.
    assert_eq!(dag.insert(node_a), None);
    assert!(dag
        .get(&node_a.id)
        .expect("Wrond type assumption.")
        .has_same_fields_to(&node_a));
    // When trying to insert a new node with the same id, it will return the present node and
    // will deflect the insertion to the collition collection.
    // The returned value of this action is the node already prensent, with the same id.
    let insert_result = dag.insert(node_b).expect("Wrond value assumption.");
    assert_eq!(insert_result, node_a);
    assert_eq!(insert_result.left, None);
    assert_eq!(insert_result.right, None);
    let node_in_dag = dag.get(&id);
    assert_eq!(
        node_in_dag,
        Some(&Node {
            id,
            left: node_a.left,
            right: node_a.right,
            payload: None,
        })
    );
    assert_ne!(node_in_dag.expect("Wrong value assumption.").left, node_b.left,);
    assert_ne!(
        node_in_dag.expect("Wrong value assumption.").right,
        node_b.right,
    );
    // Examine the DAG's collition collection.
    let collitions: &Vec<CollidingNode> = dag.get_collitions(&id).expect("Wrong value assumption.");
    let colliding_node = collitions
        .iter()
        .find(|cn| **cn == CollidingNode::from(node_b))
        .expect("Wrong value assumption.");
    // The colliding node corresponds to node_b.
    assert_eq!(colliding_node, &CollidingNode::from(node_b));
    // The collitions set contains a CollidingNode that corresponds to node_b.
    assert!(collitions.contains(&node_b.into()));
    // The collitions set does not contains node_a, even if it has the same id,
    // neither a CollidingNode that corresponds to node_a.
    assert!(!collitions.contains(&node_a.into()));
    assert!(!collitions.contains(&CollidingNode::from(node_a)));
    // The fields in the colliding node corresponds to node_b, but not to node_a.
    assert!(colliding_node.has_same_fields_to(&node_b));
    assert!(!colliding_node.has_same_fields_to(&node_a))
}

#[test]
fn dag_insert_existing_node_marks_dag_unsafe() {
    let id: u64 = 0;
    let node_a = Node::new(id, None, None, None);
    let node_b = Node::new(id, Some(42), Some(43), None);
    let mut dag = Dag::new();
    // Inserts node_a into the DAG.
    assert_eq!(dag.insert(node_a), None);
    assert!(dag
        .get(&node_a.id)
        .expect("Wrond value assumption.")
        .has_same_fields_to(&node_a));
    // Dag is still marked as safe (no cycles) after first insertion.
    assert!(dag.is_safe());
    // Trying to insert a node with the id of an already inserted node collects the collition
    // and returns the value of the previously inserted node, which will persist in the DAG.
    assert!(dag
        .insert(node_b)
        .expect("Wrong value assumption.")
        .has_same_fields_to(&node_a));
    // Examine the DAG's collition collection.
    let collitions: &Vec<CollidingNode> = dag.get_collitions(&id).expect("Wrong value assumption.");
    let colliding_node = collitions
        .iter()
        .find(|cn| **cn == CollidingNode::from(node_b))
        .expect("Wrong value assumption.");
    assert_eq!(colliding_node, &CollidingNode::from(node_b));
    assert_eq!(colliding_node, &CollidingNode::from(node_b));

    // Node in dag with id 0 is still node_a, but not node_b.
    let node_in_dag = dag.get(&node_a.id).expect("Wrond value assumption.");
    assert!(node_in_dag.has_same_fields_to(&node_a));
    assert!(!node_in_dag.has_same_fields_to(&node_b));

    // insert_or_update updates the dag values for the node id 0 and returns the previous values, node_a.
    // The final fields values for the node id 0 in the dag are equal to node_b but not node_a.
    assert!(dag
        .insert_or_update(node_b)
        .expect("Wrong value assumption.")
        .has_same_fields_to(&node_a));
    assert!(!dag
        .get(&node_a.id)
        .expect("Wrong value assumption.")
        .has_same_fields_to(&node_a));
    assert!(dag
        .get(&node_a.id)
        .expect("Wrong value assumption.")
        .has_same_fields_to(&node_b));
}

#[test]
fn dag_insert_a_node_with_non_existent_left_reference_marks_dag_unsafe() {
    let id: u64 = 0;
    let node_a = Node::new(id, Some(3), None, None);
    let mut dag = Dag::new();
    assert_eq!(dag.insert(node_a), Some(node_a));
    assert_eq!(dag.is_safe(), false);
}

#[test]
fn dag_insert_a_node_with_non_existent_right_reference_marks_dag_unsafe() {
    let id: u64 = 0;
    let node_a = Node::new(id, None, Some(5), None);
    let mut dag = Dag::new();
    assert_eq!(dag.insert(node_a), Some(node_a));
    assert_eq!(dag.is_safe(), false);
}

#[test]
fn dag_insert_non_existent_nodes_with_existent_references_is_safe() {
    let node_a = Node::new(0, None, None, None);
    let node_b = Node::new(1, Some(0), None, None);
    let node_c = Node::new(2, None, Some(0), None);
    let node_d = Node::new(3, Some(0), Some(1), None);
    let node_e = Node::new(4, Some(2), Some(1), None);
    let node_f = Node::new(5, Some(3), Some(4), None);
    let mut dag = Dag::new();
    assert_eq!(dag.insert(node_a), None);
    assert_eq!(dag.insert(node_b), None);
    assert_eq!(dag.insert(node_c), None);
    assert_eq!(dag.insert(node_d), None);
    assert_eq!(dag.insert(node_e), None);
    assert_eq!(dag.insert(node_f), None);
    assert!(dag.is_safe())
}
