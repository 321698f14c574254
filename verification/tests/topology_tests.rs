use custom_dag::error::TopologicalError;
use custom_dag::{collitions::CollidingNode, topological::Topology, Dag, Node};

#[test]
fn insert_nodes_in_topology_analysis() {
    let node_a = Node::new(0, None, None, None);
    let node_b = Node::new(1, Some(0), None, None);
    let node_c = Node::new(2, None, Some(0), None);
    let node_d = Node::new(3, Some(0), Some(1), None);
    let node_e = Node::new(4, Some(2), Some(1), None);
    let node_f = Node::new(5, Some(3), Some(4), None);
    let mut topology = Topology::new();
    let node_list = [node_a, node_b, node_c, node_d, node_e, node_f];
    for node in node_list.into_iter() {
        assert_eq!(topology.insert(node), None); // All nodes inserted are new nodes to the topology.
    }
    // tries to take an inexistent node
    assert!(!topology
        .all_nodes
        .contains(&Node::new(23, Some(42), Some(50), None).into()));
    for node in node_list.into_iter() {
        assert!(topology.all_nodes.contains(&node.into()));
    }
    for node in node_list.into_iter() {
        assert_eq!(
            topology
                .get_unique_node_by_id(node.id)
                .expect("Wrong value assumption."),
            node
        );
    }
    assert_eq!(topology.collitions.len(), 0);
    assert_eq!(topology.repeated_nodes.len(), 0);
    assert_eq!(topology.edge_sum(), 8);
    assert_eq!(topology.unique_nodes.len(), 6);
    assert_eq!(topology.get_unique_node_by_id(4), Some(node_e)); // Check existence for node_e
    for (from, to_list) in topology.outgoing_edges.iter() {
        for to in to_list.iter() {
            let compare_node = topology
                .get_unique_node_by_id(*to)
                .expect("Wrong value assumptions");
            // Checks that all edges corresponds to a node in the original node's list.
            assert!(compare_node.left == Some(*from) || compare_node.right == Some(*from));
        }
    }
    assert!(topology.is_consistent()); // Upto this stage, the topology is consistent.
    let colliding_node = Node::new(4, None, None, None);
    // Tries to insert a node with the same id of an already indexed node in the topology analysis.
    assert_eq!(topology.insert(colliding_node), Some(node_e.into()));
    assert_eq!(topology.collitions.len(), 1); // There's one collition.
    // Checks that the Node in the collection of unique nodes is still the first one added by the same id.
    assert_eq!(topology.get_unique_node_by_id(4), Some(node_e));
    // The first added node_e will not be present in the collitions set.
    assert!(!topology.collitions.contains(&node_e.into()));
    // The colliding node will be present in the collitions set.
    assert!(topology.collitions.contains(&colliding_node.into()));
    assert_eq!(topology.repeated_nodes.len(), 0); // There is no repeated nodes yet.
    assert_eq!(topology.insert(colliding_node), Some(node_e.into()));
    assert_eq!(topology.repeated_nodes.len(), 1); // There is one repeated node i.e. the colliding node.
    assert_eq!(topology.insert(node_b), Some(node_b.into())); // Tries to insert node_b again.
    assert_eq!(topology.collitions.len(), 1); // The number of collitions is still 1.
    assert_eq!(topology.repeated_nodes.len(), 2); // The number of repeated nodes is now 2.
    assert_eq!(topology.edge_sum(), 8); // The number of edges has not changed.
    assert_eq!(topology.unique_nodes.len(), 6); // The number of unique nodes has not changed.
    for node in node_list.into_iter() {
        // The map of unique_nodes is still the original list.
        assert_eq!(
            topology
                .get_unique_node_by_id(node.id)
                .expect("Wrong value assumption."),
            node
        );
    }
    for (from, to_list) in topology.outgoing_edges.iter() {
        for to in to_list.iter() {
            let compare_node = topology
                .get_unique_node_by_id(*to)
                .expect("Wrong value assumptions");
            // All edges still corresponds to a node in the original node's list.
            assert!(compare_node.left == Some(*from) || compare_node.right == Some(*from));
        }
    }
    assert!(!topology.is_consistent()); // At this stage, the topology is *NOT* consistent.
}

#[test]
fn insert_node_with_inexistent_references_is_inconsistent() {
    let mut topology = Topology::new();
    let node = Node::new(1, None, Some(2), None);
    topology.insert(node);
    assert_eq!(topology.collitions.len(), 0);
    assert_eq!(topology.repeated_nodes.len(), 0);
    assert!(!topology.is_consistent());
}

#[test]
fn topological_order() {
    let node_a = Node::new(0, None, None, None);
    let node_b = Node::new(1, Some(0), None, None);
    let node_c = Node::new(2, None, Some(0), None);
    let node_d = Node::new(3, Some(0), Some(1), None);
    let node_e = Node::new(4, Some(2), Some(1), None);
    let node_f = Node::new(5, Some(3), Some(4), None);
    let node_list = vec![node_a, node_b, node_c, node_d, node_e, node_f];
    let ordering = Topology::sort(&node_list)
        .expect("Wrong value assumptions.")
        .expect("Wrong value assumptions.");
    assert!(ordering.len() > 0);
    let mut dag = Dag::new();
    for node in ordering {
        dag.insert(node);
    }
    assert!(dag.is_safe());
}

#[test]
fn another_topological_order() {
    let node_a = Node::new(35, None, None, None);
    let node_b = Node::new(42, Some(35), None, None);
    let node_c = Node::new(32, None, Some(35), None);
    let node_d = Node::new(51, Some(42), None, None);
    let node_e = Node::new(101, Some(32), Some(51), None);
    let node_f = Node::new(52, Some(51), Some(32), None);
    let node_g = Node::new(50, Some(42), None, None);
    let node_h = Node::new(1, Some(50), Some(52), None);
    let node_i = Node::new(0, Some(50), Some(1), None);
    let node_list = vec![
        node_a, node_b, node_c, node_d, node_e, node_f, node_g, node_h, node_i,
    ];
    let ordering = Topology::sort(&node_list)
        .expect("Wrong value assumptions.")
        .expect("Wrong value assumptions.");
    assert!(ordering.len() == node_list.len());
    assert!(ordering.len() > 0);
    let mut dag = Dag::new();
    for node in ordering {
        dag.insert(node);
    }
    assert!(dag.is_safe());
}

#[test]
fn non_dag_topological_order() {
    let node_a = Node::new(35, None, None, None);
    let node_b = Node::new(42, Some(35), None, None);
    let node_c = Node::new(32, None, Some(35), None);
    let node_d = Node::new(51, Some(42), Some(0), None);
    let node_e = Node::new(101, Some(32), Some(51), None);
    let node_f = Node::new(52, Some(51), Some(32), None);
    let node_g = Node::new(50, Some(42), None, None);
    let node_h = Node::new(1, Some(50), Some(52), None);
    let node_i = Node::new(0, Some(50), Some(1), None);
    let node_list = vec![
        node_a, node_b, node_c, node_d, node_e, node_f, node_g, node_h, node_i,
    ];
    let ordering = Topology::sort(&node_list).expect("Wrong value assumptions.");
    assert_eq!(ordering, None);
}

#[test]
fn shortest_and_longest_paths() {
    let node_prime = Node::new(1, None, None, None);
    let node_a = Node::new(2, Some(1), Some(1), None);
    let node_b = Node::new(3, Some(1), Some(2), None);
    let node_c = Node::new(4, Some(2), Some(2), None);
    let node_d = Node::new(5, Some(3), Some(6), None);
    let node_e = Node::new(6, Some(3), Some(3), None);
    let Ok(Some(sorted)) =
        Topology::sort(&vec![node_prime, node_a, node_b, node_c, node_d, node_e])
    else {
        panic!("Wrong topological assumptions for this test data.")
    };
    let Ok(Some(shortest_and_longest)) = Topology::shortest_and_longest_paths(&sorted) else {
        panic!("Wrong topological assumptions for this test data.")
    };
    let printable: Vec<&(u64, (Option<usize>, Option<usize>))> =
        shortest_and_longest.iter().collect();
    assert_eq!(printable.len(), 6);
}

#[test]
fn another_shortest_and_longest_paths() {
    let node_a = Node::new(35, None, None, None);
    let node_b = Node::new(42, Some(35), None, None);
    let node_c = Node::new(32, None, Some(35), None);
    let node_d = Node::new(51, Some(42), None, None);
    let node_e = Node::new(101, Some(32), Some(51), None);
    let node_f = Node::new(52, Some(51), Some(101), None);
    let node_g = Node::new(50, Some(42), None, None);
    let node_h = Node::new(1, Some(72), Some(52), None);
    let node_i = Node::new(0, Some(50), Some(1), None);
    let node_j = Node::new(333, Some(50), Some(101), None);
    let node_k = Node::new(72, Some(35), Some(50), None);
    let node_list = vec![
        node_a, node_b, node_c, node_d, node_e, node_f, node_g, node_h, node_i, node_j, node_k,
    ];
    let Ok(Some(sorted)) = Topology::sort(&node_list) else {
        panic!("Wrong topological assumptions for this test data.")
    };
    let Ok(Some(shortest_and_longest)) = Topology::shortest_and_longest_paths(&sorted) else {
        panic!("Wrong topological assumptions for this test data.")
    };
    let printable: Vec<&(u64, (Option<usize>, Option<usize>))> =
        shortest_and_longest.iter().collect();
    assert_eq!(printable.len(), node_list.len());
}

#[test]
fn bfs_threads() {
    let node_prime = Node::new(1, None, None, None);
    let node_a = Node::new(2, Some(1), Some(1), None);
    let node_b = Node::new(3, Some(1), Some(2), None);
    let node_c = Node::new(4, Some(2), Some(2), None);
    let node_d = Node::new(5, Some(3), Some(6), None);
    let node_e = Node::new(6, Some(3), Some(3), None);
    let node_list = vec![node_prime, node_a, node_b, node_c, node_d, node_e];
    let Some(topology) = Topology::from_slice(&node_list) else {
        panic!("Wrong topological assumptions for this test data.")
    };

    let Some(bfs_all_paths) = Topology::bfs_all_paths(&topology, node_prime.id) else {
        panic!("Wrong topological assumptions for this test data.")
    };
    let all_paths_size_sum: usize = bfs_all_paths.iter().map(|path| path.len()).sum();
    let average_node_size = all_paths_size_sum as f32 / bfs_all_paths.len() as f32;
    assert_eq!(bfs_all_paths.len(), 24);
    assert_eq!(all_paths_size_sum, 85);
    assert_eq!((average_node_size * 10_000.0).round(), 35417.0); // compares truncated significant
}

#[test]
fn bfs_threads_no_double_edges() {
    let node_prime = Node::new(1, None, None, None);
    let node_a = Node::new(2, Some(1), None, None);
    let node_b = Node::new(3, Some(1), Some(2), None);
    let node_c = Node::new(4, Some(2), None, None);
    let node_d = Node::new(5, Some(3), Some(6), None);
    let node_e = Node::new(6, Some(3), None, None);
    let node_list = vec![node_prime, node_a, node_b, node_c, node_d, node_e];
    let Some(topology) = Topology::from_slice(&node_list) else {
        panic!("Wrong topological assumptions for this test data.")
    };

    let Some(bfs_all_paths) = Topology::bfs_all_paths(&topology, node_prime.id) else {
        panic!("Wrong topological assumptions for this test data.")
    };
    let all_paths_size_sum: usize = bfs_all_paths.iter().map(|path| path.len()).sum();
    let average_node_size = all_paths_size_sum as f32 / bfs_all_paths.len() as f32;
    assert_eq!(bfs_all_paths.len(), 10);
    assert_eq!(all_paths_size_sum, 33);
    assert_eq!((average_node_size * 10_000.0).round(), 33000.0); // compares truncated significant
}

#[test]
fn reinserting_identical_node_changes_nothing_but_repeats() {
    let node_a = Node::new(0, None, None, None);
    let node_b = Node::new(1, Some(0), Some(0), None);
    let mut topology = Topology::new();
    assert_eq!(topology.insert(node_a), None);
    assert_eq!(topology.insert(node_b), None);
    assert_eq!(topology.unique_nodes.len(), 2);
    assert_eq!(topology.edge_sum(), 2);
    assert_eq!(topology.repeated_nodes.len(), 0);
    // second occurrence: canonical records and edges unchanged, the
    // submission lands in the repeated set of its id
    assert_eq!(topology.insert(node_b), Some(CollidingNode(node_b)));
    assert_eq!(topology.unique_nodes.len(), 2);
    assert_eq!(topology.edge_sum(), 2);
    assert_eq!(topology.repeated_nodes.len(), 1);
    assert_eq!(topology.repeated_nodes[0].0, 1);
    assert_eq!(topology.repeated_nodes[0].1.len(), 1);
    assert!(topology.repeated_nodes[0].1.contains(&CollidingNode(node_b)));
    // third occurrence: the repeated set already holds the view
    assert_eq!(topology.insert(node_b), Some(CollidingNode(node_b)));
    assert_eq!(topology.unique_nodes.len(), 2);
    assert_eq!(topology.edge_sum(), 2);
    assert_eq!(topology.repeated_nodes.len(), 1);
    assert_eq!(topology.repeated_nodes[0].1.len(), 1);
}

#[test]
fn colliding_insert_returns_original_and_keeps_it_canonical() {
    let original = Node::new(7, None, None, None);
    let newcomer = Node::new(7, Some(3), Some(4), None);
    let mut topology = Topology::new();
    assert_eq!(topology.insert(Node::new(3, None, None, None)), None);
    assert_eq!(topology.insert(Node::new(4, None, None, None)), None);
    assert_eq!(topology.insert(original), None);
    // the insertion reports the ORIGINAL record, field for field
    let reported = topology.insert(newcomer).expect("collision expected");
    assert!(reported.has_same_fields_to(&original));
    assert!(!reported.has_same_fields_to(&newcomer));
    // the canonical record is untouched ...
    let canonical = topology.get_unique_node_by_id(7).expect("canonical expected");
    assert!(canonical.has_same_fields_to(&original));
    // ... and the newcomer is retrievable only from the collision set
    assert!(topology.collitions.contains(&CollidingNode(newcomer)));
    assert!(!topology.collitions.contains(&CollidingNode(original)));
}

#[test]
fn shortest_and_longest_paths_exact_values() {
    let node_prime = Node::new(1, None, None, None);
    let node_a = Node::new(2, Some(1), Some(1), None);
    let node_b = Node::new(3, Some(1), Some(2), None);
    let node_c = Node::new(4, Some(2), Some(2), None);
    let node_d = Node::new(5, Some(3), Some(6), None);
    let node_e = Node::new(6, Some(3), Some(3), None);
    let node_list = vec![node_prime, node_a, node_b, node_c, node_d, node_e];
    let Ok(Some(table)) = Topology::shortest_and_longest_paths(&node_list) else {
        panic!("Wrong topological assumptions for this test data.")
    };
    // keys follow first-seen order
    let ids: Vec<u64> = table.iter().map(|entry| entry.0).collect();
    assert_eq!(ids, vec![1, 2, 3, 4, 5, 6]);
    // the root gets (0, 0)
    assert_eq!(table[0].1, (Some(0), Some(0)));
    assert_eq!(table[1].1, (Some(1), Some(1))); // 2: only 1 -> 2
    assert_eq!(table[2].1, (Some(1), Some(2))); // 3: 1 -> 3 or 1 -> 2 -> 3
    assert_eq!(table[3].1, (Some(2), Some(2))); // 4: via 2 only
    assert_eq!(table[4].1, (Some(2), Some(4))); // 5: via 3, or via 3 -> 6
    assert_eq!(table[5].1, (Some(2), Some(3))); // 6: via 3
    // the shortest length never exceeds the longest
    for entry in table.iter() {
        if let (Some(s), Some(l)) = entry.1 {
            assert!(s <= l);
        }
    }
}

#[test]
fn shortest_and_longest_paths_unreachable_nodes_stay_unset() {
    // 9 is disconnected from the root 1
    let node_list = vec![
        Node::new(1, None, None, None),
        Node::new(9, None, None, None),
        Node::new(2, Some(1), None, None),
    ];
    let Ok(Some(table)) = Topology::shortest_and_longest_paths(&node_list) else {
        panic!("Wrong topological assumptions for this test data.")
    };
    assert_eq!(table[0].1, (Some(0), Some(0)));
    assert_eq!(table[1].1, (None, None));
    assert_eq!(table[2].1, (Some(1), Some(1)));
}

#[test]
fn shortest_and_longest_paths_rejects_root_with_predecessors() {
    let node_list = vec![Node::new(1, Some(0), None, None)];
    let result = Topology::shortest_and_longest_paths(&node_list);
    assert!(matches!(
        result,
        Err(TopologicalError::FirstNodeHasIncomingEdges)
    ));
    let other_list = vec![Node::new(1, None, Some(5), None)];
    let other = Topology::shortest_and_longest_paths(&other_list);
    assert!(matches!(
        other,
        Err(TopologicalError::FirstNodeHasIncomingEdges)
    ));
}

#[test]
fn shortest_and_longest_paths_empty_input_gives_no_result() {
    let node_list: Vec<Node> = vec![];
    let result = Topology::shortest_and_longest_paths(&node_list);
    assert!(matches!(result, Ok(None)));
}

#[test]
fn bfs_chain_and_leaf() {
    // chain 1 -> 2 -> 3
    let node_list = vec![
        Node::new(1, None, None, None),
        Node::new(2, Some(1), None, None),
        Node::new(3, Some(2), None, None),
    ];
    let Some(topology) = Topology::from_slice(&node_list) else {
        panic!("Wrong topological assumptions for this test data.")
    };
    let paths = Topology::bfs_all_paths(&topology, 1).expect("paths expected");
    assert_eq!(paths, vec![vec![1, 2], vec![1, 2, 3]]);
    // a start id without outgoing edges yields exactly one path: itself
    let leaf_paths = Topology::bfs_all_paths(&topology, 3).expect("paths expected");
    assert_eq!(leaf_paths, vec![vec![3]]);
}

#[test]
fn sort_places_predecessors_before_successors() {
    let node_a = Node::new(0, None, None, None);
    let node_b = Node::new(1, Some(0), None, None);
    let node_c = Node::new(2, None, Some(0), None);
    let node_d = Node::new(3, Some(0), Some(1), None);
    let node_e = Node::new(4, Some(2), Some(1), None);
    let node_f = Node::new(5, Some(3), Some(4), None);
    let node_list = vec![node_a, node_b, node_c, node_d, node_e, node_f];
    let ordering = Topology::sort(&node_list)
        .expect("Wrong value assumptions.")
        .expect("Wrong value assumptions.");
    let position = |id: u64| ordering.iter().position(|n| n.id == id).expect("id expected");
    // A before {B, C}; {B, C} before {D, E}; {D, E} before F
    assert!(position(0) < position(1) && position(0) < position(2));
    assert!(position(1) < position(3) && position(1) < position(4));
    assert!(position(2) < position(3) && position(2) < position(4));
    assert!(position(3) < position(5) && position(4) < position(5));
    // the ordering is a permutation of the distinct-by-id nodes
    assert_eq!(ordering.len(), node_list.len());
    let mut ids: Vec<u64> = ordering.iter().map(|n| n.id).collect();
    ids.sort();
    assert_eq!(ids, vec![0, 1, 2, 3, 4, 5]);
    // the total forward-edge count of this topology is 8
    let Some(topology) = Topology::from_slice(&node_list) else {
        panic!("Wrong topological assumptions for this test data.")
    };
    assert_eq!(topology.edge_sum(), 8);
}

#[test]
fn sort_reports_no_order_for_duplicate_ids() {
    let node_list = vec![
        Node::new(0, None, None, None),
        Node::new(0, Some(7), None, None),
        Node::new(1, Some(0), None, None),
    ];
    let ordering = Topology::sort(&node_list).expect("Wrong value assumptions.");
    assert_eq!(ordering, None);
}

#[test]
fn sort_reports_no_order_for_missing_references() {
    let node_list = vec![
        Node::new(0, None, None, None),
        Node::new(1, Some(0), Some(99), None),
    ];
    let ordering = Topology::sort(&node_list).expect("Wrong value assumptions.");
    assert_eq!(ordering, None);
}

#[test]
fn sort_reports_no_order_for_self_reference() {
    let node_list = vec![
        Node::new(0, None, None, None),
        Node::new(1, Some(1), None, None),
    ];
    let ordering = Topology::sort(&node_list).expect("Wrong value assumptions.");
    assert_eq!(ordering, None);
}

#[test]
fn second_distinct_collision_is_also_repeated() {
    let original = Node::new(7, None, None, None);
    let first_collision = Node::new(7, Some(1), None, None);
    let second_collision = Node::new(7, None, Some(2), None);
    let third_collision = Node::new(7, Some(1), Some(2), None);
    let mut topology = Topology::new();
    assert_eq!(topology.insert(original), None);
    // the first collision joins the collision set only
    assert_eq!(
        topology.insert(first_collision),
        Some(CollidingNode(original))
    );
    assert_eq!(topology.collitions.len(), 1);
    assert_eq!(topology.repeated_nodes.len(), 0);
    // a second, distinct collision for the same id joins the collision
    // set and is also accumulated under the id's repeated submissions
    assert_eq!(
        topology.insert(second_collision),
        Some(CollidingNode(original))
    );
    assert_eq!(topology.collitions.len(), 2);
    assert!(topology.collitions.contains(&CollidingNode(first_collision)));
    assert!(topology.collitions.contains(&CollidingNode(second_collision)));
    assert_eq!(topology.repeated_nodes.len(), 1);
    assert_eq!(topology.repeated_nodes[0].0, 7);
    assert!(topology.repeated_nodes[0]
        .1
        .contains(&CollidingNode(second_collision)));
    assert!(!topology.repeated_nodes[0]
        .1
        .contains(&CollidingNode(first_collision)));
    // and so does every further distinct collision
    assert_eq!(
        topology.insert(third_collision),
        Some(CollidingNode(original))
    );
    assert_eq!(topology.collitions.len(), 3);
    assert_eq!(topology.repeated_nodes.len(), 1);
    assert_eq!(topology.repeated_nodes[0].1.len(), 2);
    assert!(topology.repeated_nodes[0]
        .1
        .contains(&CollidingNode(third_collision)));
}
