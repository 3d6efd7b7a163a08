use circom::constraint_generation::structure::{build_structure_nodes, tree_structure, NodeInfo};
use circom::constraint_generation::template_info::TreeConstraints;
use std::collections::{BTreeMap, HashMap};

fn component(
    node_id: usize,
    name: &str,
    number_constraints: usize,
    initial_signal: usize,
    subcomponents: Vec<TreeConstraints>,
) -> TreeConstraints {
    TreeConstraints {
        node_id,
        template_name: name.to_string(),
        component_name: format!("c_{}", name),
        number_constraints,
        number_non_linear_constraints: 0,
        number_linear_constraints: number_constraints,
        number_signals: 3,
        number_inputs: 1,
        number_outputs: 1,
        initial_signal,
        is_custom: false,
        is_deterministic: true,
        subcomponents,
    }
}

fn circuit() -> TreeConstraints {
    component(
        10,
        "Main",
        1,
        0,
        vec![component(11, "A", 2, 3, vec![]), component(12, "B", 0, 6, vec![component(11, "C", 3, 9, vec![])])],
    )
}

#[test]
fn nodes_numbered_before_their_subcomponents() {
    let (nodes, _, _) = tree_structure(&circuit());
    let ids: Vec<usize> = nodes.iter().map(|n| n.node_id).collect();
    assert_eq!(ids, vec![0, 1, 2, 3]);
    let names: Vec<&str> = nodes.iter().map(|n| n.node_name.as_str()).collect();
    assert_eq!(names, vec!["Main", "A", "B", "C"]);
    assert_eq!(nodes[0].component_name, "c_Main");
}

#[test]
fn constraints_numbered_in_node_order() {
    let (nodes, _, _) = tree_structure(&circuit());
    let constraints: Vec<Vec<usize>> = nodes.iter().map(|n| n.constraints.clone()).collect();
    assert_eq!(constraints, vec![vec![0], vec![1, 2], vec![], vec![3, 4, 5]]);
}

#[test]
fn signals_of_a_node() {
    let (nodes, _, _) = tree_structure(&circuit());
    let c: &NodeInfo = &nodes[3];
    assert_eq!(c.output_signals, vec![9]);
    assert_eq!(c.input_signals, vec![10]);
    assert_eq!(c.signals, vec![9, 10, 11]);
}

#[test]
fn successors_and_predecessors() {
    let (nodes, _, _) = tree_structure(&circuit());
    let successors: Vec<Vec<usize>> = nodes.iter().map(|n| n.successors.clone()).collect();
    let predecessors: Vec<Vec<usize>> = nodes.iter().map(|n| n.predecessors.clone()).collect();
    assert_eq!(successors, vec![vec![1, 2], vec![], vec![3], vec![]]);
    assert_eq!(predecessors, vec![vec![], vec![0], vec![0], vec![2]]);
}

#[test]
fn classes_of_equal_instances() {
    let (_, classes, _) = tree_structure(&circuit());
    assert_eq!(classes.len(), 3);
    assert_eq!(classes[&10], vec![0]);
    assert_eq!(classes[&11], vec![1, 3]);
    assert_eq!(classes[&12], vec![2]);
}

#[test]
fn later_start_stands() {
    let (_, _, starts) = tree_structure(&circuit());
    let expected: BTreeMap<usize, String> =
        vec![(0, "Main".to_string()), (1, "A".to_string()), (3, "C".to_string())].into_iter().collect();
    assert_eq!(starts, expected);
}

#[test]
fn numbering_continues_from_given_counters() {
    let mut node_id = 0;
    let mut init_c = 7;
    let mut nodes = Vec::new();
    let mut classes = HashMap::new();
    let mut starts = BTreeMap::new();
    let first = build_structure_nodes(&circuit(), &mut node_id, &mut init_c, &mut nodes, &mut classes, &mut starts, Some(5));
    assert_eq!(first, 0);
    assert_eq!(node_id, 4);
    assert_eq!(init_c, 13);
    assert_eq!(nodes[0].predecessors, vec![5]);
    assert_eq!(nodes[1].constraints, vec![8, 9]);
}
