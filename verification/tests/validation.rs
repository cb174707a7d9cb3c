use sieve::model::{ExpressionGraph, ExpressionNode};

fn node(id: usize, kind: &str, children: Vec<usize>, name: Option<&str>) -> ExpressionNode {
    ExpressionNode {
        id,
        kind: kind.into(),
        children,
        name: name.map(|n| n.into()),
        index: None,
        value: None,
        binder_info: None,
        universe_levels: vec![],
    }
}

#[test]
fn reconstructs_dag_multiplicity() {
    let graph = ExpressionGraph {
        root: 2,
        nodes: vec![
            node(0, "constant", vec![], Some("x")),
            node(1, "application", vec![0, 0], None),
            node(2, "application", vec![1, 0], None),
        ],
    };
    assert_eq!(graph.occurrence_multiplicities(), vec![3, 1, 1]);
    assert_eq!(graph.occurrence_node_count(), 5);
    let occurrences = graph.constant_occurrences();
    let x = occurrences.iter().find(|(name, _)| name == "x").map(|(_, count)| *count);
    assert_eq!(x, Some(3));
}

#[test]
fn rejects_children_that_do_not_precede_their_parent() {
    let graph = ExpressionGraph {
        root: 0,
        nodes: vec![node(0, "application", vec![1], None), node(1, "constant", vec![], Some("y"))],
    };
    assert!(graph.validate().is_err());
    let empty = ExpressionGraph { root: 0, nodes: vec![] };
    assert!(empty.validate().is_err());
}

#[test]
fn unreachable_constants_count_zero() {
    let graph = ExpressionGraph {
        root: 1,
        nodes: vec![node(0, "constant", vec![], Some("y")), node(1, "constant", vec![], Some("x"))],
    };
    let occurrences = graph.constant_occurrences();
    assert_eq!(occurrences, vec![("x".to_string(), 1), ("y".to_string(), 0)]);
}
