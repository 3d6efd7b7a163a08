use circom::constraint_list::r1cs_porting::{custom_gate_name, find_indexes};
use circom::constraint_list::{
    build_non_linear_signal_map, get_witness_as_vec, rebuild_witness, IteratorSignal, SignalInfo,
};
use std::collections::{HashMap, HashSet};

#[test]
fn kept_signals_take_the_first_positions() {
    let mut deleted: HashSet<usize> = [1usize, 3].into_iter().collect();
    let forbidden = HashSet::new();
    let map = rebuild_witness(6, &mut deleted, &forbidden, HashMap::new(), false);
    let expected: HashMap<usize, usize> = [(0, 0), (2, 1), (4, 2), (5, 3)].into_iter().collect();
    assert_eq!(map, expected);
    assert_eq!(deleted, [1usize, 3].into_iter().collect());
    assert_eq!(get_witness_as_vec(&map), vec![0usize, 2, 4, 5]);
}

#[test]
fn unused_signals_are_removed() {
    let mut deleted: HashSet<usize> = [1usize, 3].into_iter().collect();
    let forbidden: HashSet<usize> = [0usize].into_iter().collect();
    let mut non_linear = HashMap::new();
    non_linear.insert(2usize, vec![0usize]);
    non_linear.insert(5usize, vec![1usize]);
    let map = rebuild_witness(6, &mut deleted, &forbidden, non_linear, true);
    let expected: HashMap<usize, usize> = [(0, 0), (2, 1), (5, 2)].into_iter().collect();
    assert_eq!(map, expected);
    assert_eq!(deleted, [1usize, 3, 4].into_iter().collect());
    assert_eq!(get_witness_as_vec(&map), vec![0usize, 2, 5]);
}

#[test]
fn nothing_deleted_keeps_every_number() {
    let mut deleted = HashSet::new();
    let map = rebuild_witness(3, &mut deleted, &HashSet::new(), HashMap::new(), false);
    let expected: HashMap<usize, usize> = [(0, 0), (1, 1), (2, 2)].into_iter().collect();
    assert_eq!(map, expected);
    let empty = rebuild_witness(0, &mut deleted, &HashSet::new(), HashMap::new(), true);
    assert!(empty.is_empty());
}

#[test]
fn iterator_signal_positions() {
    let map: HashMap<usize, usize> = [(0, 0), (2, 1), (5, 2)].into_iter().collect();
    let kept = IteratorSignal::new(SignalInfo { name: "main.x".to_string(), id: 5 }, &map);
    assert_eq!(kept.name, "main.x");
    assert_eq!(kept.original, 5);
    assert_eq!(kept.witness, 2);
    let removed = IteratorSignal::new(SignalInfo { name: "main.y".to_string(), id: 4 }, &map);
    assert_eq!(removed.witness, 3);
}

#[test]
fn signals_of_non_linear_constraints() {
    let map = build_non_linear_signal_map(&vec![(0usize, vec![1usize, 2]), (7usize, vec![2usize, 3])]);
    assert_eq!(map.len(), 3);
    assert_eq!(map.get(&1), Some(&vec![0usize]));
    assert_eq!(map.get(&2), Some(&vec![0usize, 7]));
    assert_eq!(map.get(&3), Some(&vec![7usize]));
    assert!(build_non_linear_signal_map(&vec![]).is_empty());
}

#[test]
fn custom_gate_name_drops_arguments() {
    assert_eq!(custom_gate_name("CMul(2,3)"), "CMul");
    assert_eq!(custom_gate_name("A(B(1))"), "A(B");
    assert_eq!(custom_gate_name("(x)"), "");
}

#[test]
fn applications_point_to_first_template_of_their_name() {
    let order = vec!["A(1)".to_string(), "B(2)".to_string(), "A(1)".to_string()];
    let applications = vec![("B(2)".to_string(), vec![3usize, 4]), ("A(1)".to_string(), vec![])];
    assert_eq!(find_indexes(order, applications), vec![(1, vec![3, 4]), (0, vec![])]);
}
