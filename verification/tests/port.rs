use circom::constraint_list::r1cs_porting::{field_bits, field_size_of, port_r1cs, write_r1cs, PortCounts};
use circom::constraint_list::EncodingNode;
use circom::constraint_writers::r1cs_reader::read_r1cs;
use circom::dag::Constraint;
use std::collections::HashMap;

fn lc(entries: &[(usize, u8)]) -> HashMap<usize, Vec<u8>> {
    entries.iter().map(|(k, v)| (*k, vec![*v])).collect()
}

fn padded(bytes: &[u8], n: usize) -> Vec<u8> {
    let mut v = bytes.to_vec();
    while v.len() < n {
        v.push(0);
    }
    v
}

fn counts() -> PortCounts {
    PortCounts { public_outputs: 1, public_inputs: 1, private_inputs: 0, no_labels: 6 }
}

fn node(name: &str, custom: bool, parameters: Vec<Vec<u8>>) -> EncodingNode {
    EncodingNode {
        id: 0,
        name: name.to_string(),
        parameters,
        signals: vec![],
        ordered_signals: vec![],
        is_custom_gate: custom,
    }
}

#[test]
fn bits_and_field_size_of_primes() {
    assert_eq!(field_bits(&[]), 0);
    assert_eq!(field_bits(&[0, 0]), 0);
    assert_eq!(field_bits(&[7]), 3);
    assert_eq!(field_bits(&[0, 1]), 9);
    assert_eq!(field_bits(&[255, 255, 255, 255, 255, 255, 255, 127]), 63);
    assert_eq!(field_bits(&[0, 0, 0, 0, 0, 0, 0, 128, 0]), 64);
    assert_eq!(field_size_of(&[7]), 8);
    assert_eq!(field_size_of(&[255, 255, 255, 255, 255, 255, 255, 127]), 8);
    assert_eq!(field_size_of(&[0, 0, 0, 0, 0, 0, 0, 128]), 16);
    // the BN254 prime has 254 bits: 32 bytes.
    let mut bn = vec![0u8; 31];
    bn.push(0x30);
    assert_eq!(field_bits(&bn), 254);
    assert_eq!(field_size_of(&bn), 32);
}

#[test]
fn ported_file_reads_back() {
    let constraints = vec![
        Constraint { a: lc(&[(1, 2)]), b: lc(&[(2, 3)]), c: lc(&[(3, 1)]) },
        Constraint { a: lc(&[]), b: lc(&[]), c: lc(&[(1, 1), (2, 5)]) },
    ];
    let is_linear = vec![false, true];
    let witness = vec![0usize, 1, 2, 3];
    let (r1cs, log) =
        write_r1cs(&vec![7], &counts(), &constraints, &is_linear, &witness, false, &vec![], vec![]);
    let data = read_r1cs(r1cs.bytes()).unwrap();
    assert_eq!(data.header_data.field_size, 8);
    assert_eq!(data.header_data.field, padded(&[7], 8));
    assert_eq!(data.header_data.total_wires, 4);
    assert_eq!(data.header_data.public_outputs, 1);
    assert_eq!(data.header_data.public_inputs, 1);
    assert_eq!(data.header_data.private_inputs, 0);
    assert_eq!(data.header_data.number_of_labels, 6);
    assert_eq!(data.header_data.number_of_constraints, 2);
    assert_eq!(data.constraints.len(), 2);
    assert_eq!(data.constraints[0].0.get(&1), Some(&padded(&[2], 8)));
    assert_eq!(data.constraints[1].2.get(&2), Some(&padded(&[5], 8)));
    assert_eq!(data.signals, witness);
    assert!(!data.custom_gates);
    assert_eq!(log.no_linear, 1);
    assert_eq!(log.no_non_linear, 1);
    assert_eq!(log.no_wires, 4);
    assert_eq!(log.no_labels, 6);
    assert_eq!(log.no_public_inputs, 1);
    assert_eq!(log.no_public_outputs, 1);
    assert_eq!(log.no_private_inputs, 0);
    assert_eq!(log.no_private_outputs, 0);
}

#[test]
fn ported_file_with_custom_templates() {
    let nodes = vec![
        node("Main()", false, vec![]),
        node("Gate(1,2)", true, vec![vec![1], vec![2]]),
        node("Other()", true, vec![]),
    ];
    let applications = vec![("Other()".to_string(), vec![4usize]), ("Gate(1,2)".to_string(), vec![1usize, 2])];
    let (r1cs, _) = write_r1cs(&vec![7], &counts(), &vec![], &vec![], &vec![0usize], true, &nodes, applications);
    let data = read_r1cs(r1cs.bytes()).unwrap();
    assert!(data.custom_gates);
    let used = data.custom_gates_used_data.unwrap();
    assert_eq!(used.len(), 2);
    assert_eq!(used[0].0, "Gate");
    assert_eq!(used[0].1, vec![padded(&[1], 8), padded(&[2], 8)]);
    assert_eq!(used[1].0, "Other");
    assert!(used[1].1.is_empty());
    assert_eq!(data.custom_gates_applied_data.unwrap(), vec![(1usize, vec![4usize]), (0usize, vec![1usize, 2])]);
    assert_eq!(data.signals, vec![0usize]);
}

#[test]
fn port_uses_the_signal_map_for_the_witness() {
    let mut map = HashMap::new();
    map.insert(0usize, 0usize);
    map.insert(5usize, 1usize);
    map.insert(9usize, 2usize);
    let (r1cs, log) = port_r1cs(&vec![7], &counts(), &vec![], &vec![], &map, false, &vec![], vec![]);
    let data = read_r1cs(r1cs.bytes()).unwrap();
    assert_eq!(data.signals, vec![0usize, 5, 9]);
    assert_eq!(data.header_data.total_wires, 3);
    assert_eq!(log.no_wires, 3);
}
