use custom_dag::error::TopologicalError;
use custom_dag::{topological::Topology, Node};

#[test]
fn parse_int_error() {
    if let Err(error) = i32::from_str_radix("g12", 10) {
        let topological_error: TopologicalError = error.into();
        assert!(matches!(
            topological_error,
            TopologicalError::ParseIntError(_)
        ));
    };
}

#[test]
fn describe_names_each_failure() {
    assert_eq!(TopologicalError::Custom.describe(), "Custom error");
    assert_eq!(
        TopologicalError::RepeatedNodes.describe(),
        "The list has repeated nodes."
    );
    assert_eq!(
        TopologicalError::InvalidTopologicalAssumptions.describe(),
        "Invalid topological assumptions."
    );
    assert_eq!(
        TopologicalError::NotADag.describe(),
        "Provided list does not conform to a DAG."
    );
    assert_eq!(
        TopologicalError::FirstNodeHasIncomingEdges.describe(),
        "List assumptions are not met, i.e. first node should not have incoming edges."
    );
    let rooted = vec![Node::new(1, Some(0), None, None)];
    let error = Topology::shortest_and_longest_paths(&rooted).unwrap_err();
    assert_eq!(
        error.describe(),
        "List assumptions are not met, i.e. first node should not have incoming edges."
    );
}
