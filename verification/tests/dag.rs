use circom::dag::template_info::{ConstraintStats, Cost, SignalStats};
use circom::dag::witness_producer::produce_witness;
use circom::dag::statistics_porting::{node_statistics, statistics_text};
use circom::dag::{map_edge_to_encoding, split_signal_name_index, Edge, DAG};

fn two_node_dag() -> DAG {
    let mut dag = DAG::new(&"bn128".to_string());
    let sub = dag.add_node("A(1)".to_string(), vec![vec![1u8]], vec![], false, false);
    assert_eq!(sub, 0);
    dag.add_input("in".to_string(), false);
    dag.add_output("out".to_string());
    dag.add_intermediate("tmp".to_string());
    let main = dag.add_node("Main".to_string(), vec![], vec![], false, false);
    assert_eq!(main, 1);
    dag.add_input("x".to_string(), true);
    dag
}

fn number_of(dag: &DAG, node: usize, name: &str) -> Option<usize> {
    let n = dag.get_node(node).unwrap();
    n.correspondence().iter().find(|(s, _)| s == name).map(|(_, id)| *id)
}

#[test]
fn signals_are_numbered_in_order() {
    let dag = two_node_dag();
    let sub = dag.get_node(0).unwrap();
    assert_eq!(sub.number_of_signals(), 3);
    assert_eq!(sub.number_of_inputs(), 1);
    assert_eq!(sub.number_of_outputs(), 1);
    assert_eq!(sub.number_of_intermediates(), 1);
    assert_eq!(sub.io_signals(), &vec![1usize, 2]);
    assert_eq!(number_of(&dag, 0, "in"), Some(1));
    assert_eq!(number_of(&dag, 0, "out"), Some(2));
    assert_eq!(number_of(&dag, 0, "tmp"), Some(3));
    assert!(sub.is_local_signal(3));
    assert!(!sub.is_local_signal(4));
    assert_eq!(sub.get_entry().get_out(), 3);
    assert_eq!(sub.parameters(), &vec![vec![1u8]]);
}

#[test]
fn edge_numbers_subcomponent_signals_after_the_parent() {
    let mut dag = two_node_dag();
    let edge = dag.add_edge(0, "a", false).unwrap();
    assert_eq!(edge.get_goes_to(), 0);
    assert_eq!(edge.get_label(), "a");
    assert_eq!(edge.get_in(), 1);
    assert_eq!(edge.get_out(), 4);
    assert_eq!(edge.get_in_component(), 1);
    assert_eq!(edge.get_out_component(), 2);
    assert_eq!(edge.get_signal_range(), 2..5);
    assert_eq!(edge.reach(10), 11);
    let main = dag.get_main().unwrap();
    assert_eq!(main.number_of_signals(), 4);
    assert_eq!(number_of(&dag, 1, "x"), Some(1));
    assert_eq!(number_of(&dag, 1, "a.in"), Some(2));
    assert_eq!(number_of(&dag, 1, "a.out"), Some(3));
    assert_eq!(number_of(&dag, 1, "a.tmp"), Some(4));
    assert!(main.is_reachable_signal(2));
    assert!(main.is_reachable_signal(3));
    assert!(!main.is_reachable_signal(4));
    dag.add_intermediate("y".to_string());
    let second = dag.add_edge(0, "b", true).unwrap();
    assert_eq!(second.get_in(), 5);
    assert_eq!(second.get_out(), 8);
    assert_eq!(second.get_in_component(), 2);
    assert_eq!(second.get_out_component(), 3);
    assert_eq!(number_of(&dag, 1, "b.out"), Some(7));
    assert!(dag.get_main().unwrap().has_parallel_sub_cmp());
    assert_eq!(dag.get_edges(1).unwrap().len(), 2);
    assert_eq!(dag.get_connexion(1, 0).unwrap().get_label(), "a");
    assert!(dag.get_connexion(0, 1).is_none());
}

#[test]
fn edge_to_the_main_node_is_refused() {
    let mut dag = two_node_dag();
    assert!(dag.add_edge(1, "self", false).is_none());
    assert!(dag.add_edge(7, "none", false).is_none());
    assert_eq!(dag.get_edges(1).unwrap().len(), 0);
}

#[test]
fn inputs_and_outputs_of_main() {
    let mut dag = two_node_dag();
    dag.add_input("y".to_string(), false);
    dag.add_output("z".to_string());
    assert_eq!(dag.public_inputs(), 1);
    assert_eq!(dag.private_inputs(), 1);
    assert_eq!(dag.public_outputs(), 1);
    assert_eq!(dag.main_id(), 1);
    assert_eq!(dag.number_of_nodes(), 2);
    assert_eq!(dag.get_entry().unwrap().get_goes_to(), 1);
    let empty = DAG::new(&"bn128".to_string());
    assert_eq!(empty.public_inputs(), 0);
    assert_eq!(empty.private_inputs(), 0);
    assert_eq!(empty.public_outputs(), 0);
    assert!(empty.get_main().is_none());
    assert!(empty.get_entry().is_none());
}

#[test]
fn main_node_bookkeeping() {
    let mut dag = two_node_dag();
    dag.add_underscored_signal(1);
    dag.set_number_of_subcomponents_indexes(4);
    dag.add_constraint(circom::dag::Constraint {
        a: Default::default(),
        b: Default::default(),
        c: Default::default(),
    });
    let main = dag.get_main().unwrap();
    assert_eq!(main.number_of_subcomponents_indexes(), 4);
    assert_eq!(main.constraints().len(), 1);
    assert!(!main.is_custom_gate());
}

#[test]
fn entry_edge() {
    let entry = Edge::new_entry(5);
    assert_eq!(entry.get_label(), "main");
    assert_eq!(entry.get_goes_to(), 5);
    assert_eq!(entry.get_in(), 0);
    assert_eq!(entry.get_out(), 0);
    assert_eq!(entry.get_signal_range(), 1..1);
}

#[test]
fn encoding_edge_of_an_edge() {
    let mut dag = two_node_dag();
    let edge = dag.add_edge(0, "sub", false).unwrap();
    let encoded = map_edge_to_encoding(edge);
    assert_eq!(encoded.goes_to, 0);
    assert_eq!(encoded.path, "sub");
    assert_eq!(encoded.offset, 1);
}

#[test]
fn signal_names_without_array_index() {
    assert_eq!(split_signal_name_index(&"a.b[2].c[3][4]".to_string()), "a.b[2].c");
    assert_eq!(split_signal_name_index(&"x".to_string()), "x");
    assert_eq!(split_signal_name_index(&"x[1]".to_string()), "x");
    assert_eq!(split_signal_name_index(&"a.b".to_string()), "a.b");
    assert_eq!(split_signal_name_index(&"".to_string()), "");
    assert_eq!(split_signal_name_index(&"a.".to_string()), "a.");
}

fn cost(total: usize, components: usize) -> Cost {
    Cost {
        constraints: ConstraintStats {
            total,
            non_linear: total / 2,
            linear: total - total / 2,
            signal_equalities: 0,
            constant_equalities: 1,
        },
        signals: SignalStats { total: 3, inputs: 1, public_inputs: 1, outputs: 1, intermediates: 1 },
        components,
    }
}

#[test]
fn costs_add_and_scale_saturating() {
    let mut a = cost(3, 1);
    a.add(&cost(4, 2));
    assert_eq!(a.constraints.total, 7);
    assert_eq!(a.constraints.non_linear, 3);
    assert_eq!(a.constraints.constant_equalities, 2);
    assert_eq!(a.signals.total, 6);
    assert_eq!(a.components, 3);
    let mut big = cost(usize::MAX, usize::MAX);
    big.add(&cost(1, 1));
    assert_eq!(big.constraints.total, usize::MAX);
    assert_eq!(big.components, usize::MAX);
    let scaled = cost(3, 2).scale(4);
    assert_eq!(scaled.constraints.total, 12);
    assert_eq!(scaled.signals.inputs, 4);
    assert_eq!(scaled.components, 8);
    assert_eq!(cost(usize::MAX / 2 + 1, 1).scale(2).constraints.total, usize::MAX);
    assert_eq!(cost(5, 5).scale(0), Cost::default());
}

#[test]
fn cost_sum_does_not_depend_on_order() {
    let (x, y, z) = (cost(3, 1), cost(usize::MAX - 1, 2), cost(9, 0));
    let mut xy = x;
    xy.add(&y);
    let mut yx = y;
    yx.add(&x);
    assert_eq!(xy, yx);
    let mut xy_z = xy;
    xy_z.add(&z);
    let mut yz = y;
    yz.add(&z);
    let mut x_yz = x;
    x_yz.add(&yz);
    assert_eq!(xy_z, x_yz);
    let mut scaled_sum = x;
    scaled_sum.add(&z);
    let scaled_sum = scaled_sum.scale(3);
    let mut sum_scaled = x.scale(3);
    sum_scaled.add(&z.scale(3));
    assert_eq!(scaled_sum, sum_scaled);
    assert_eq!(x.scale(1), x);
}

#[test]
fn statistics_count_reaches_and_components() {
    let mut dag = two_node_dag();
    dag.add_edge(0, "a", false).unwrap();
    dag.add_edge(0, "b", false).unwrap();
    let stats = node_statistics(&dag);
    assert_eq!(stats.len(), 2);
    assert_eq!(stats[0].times_reached, 2);
    assert_eq!(stats[0].number_of_components, 0);
    assert_eq!(stats[1].times_reached, 0);
    assert_eq!(stats[1].number_of_components, 2);
    let text = statistics_text(&dag);
    let expected = "***************************************\n\
NODE NUMBER: 0\n\
Number of constraints: 0\n\
Number of intermediates: 1\n\
Number of inputs: 1\n\
Number of outputs: 1\n\
Number of components: 0\n\
Times reached: 2\n\
***************************************\n\
NODE NUMBER: 1\n\
Number of constraints: 0\n\
Number of intermediates: 0\n\
Number of inputs: 1\n\
Number of outputs: 0\n\
Number of components: 2\n\
Times reached: 0\n";
    assert_eq!(text, expected);
}

#[test]
fn witness_lists_signals_component_by_component() {
    let mut dag = two_node_dag();
    dag.add_edge(0, "a", false).unwrap();
    dag.add_intermediate("late".to_string());
    dag.add_edge(0, "b", false).unwrap();
    // main: x = 1, a.* = 2..=4, late = 5, b.* = 6..=8
    assert_eq!(dag.produce_witness(), vec![0, 1, 5, 2, 3, 4, 6, 7, 8]);
    assert_eq!(produce_witness(&dag), dag.produce_witness());
}

#[test]
fn edge_after_signals_numbers_the_subcomponent() {
    let mut d = DAG::new(&"p".to_string());
    d.add_node("A".to_string(), vec![], vec![], false, false);
    d.add_input("a".to_string(), true);
    d.add_output("b".to_string());
    d.add_node("M".to_string(), vec![], vec![], false, false);
    d.add_intermediate("x".to_string());
    let e = d.add_edge(0, "sub", false).unwrap();
    assert_eq!(e.get_in(), 1);
    assert_eq!(e.get_out(), 3);
    assert_eq!(e.get_in_component(), 1);
    assert_eq!(e.get_out_component(), 2);
    assert_eq!(e.get_goes_to(), 0);
    assert_eq!(e.get_label(), "sub");
    assert_eq!(e.get_signal_range(), 2..4);
    let m = d.get_main().unwrap();
    assert_eq!(m.number_of_signals(), 3);
    let mut names: Vec<(String, usize)> = m.correspondence().clone();
    names.sort();
    assert_eq!(
        names,
        vec![("sub.a".to_string(), 2usize), ("sub.b".to_string(), 3usize), ("x".to_string(), 1usize)]
    );
    assert_eq!(d.get_entry().unwrap().get_out(), 3);
    assert_eq!(d.get_entry().unwrap().get_out_component(), 1);
    assert_eq!(d.get_edges(1).unwrap().len(), 1);
}
