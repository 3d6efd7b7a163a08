use circom::constraint_list::json_porting::{hashmap_as_json, le_decimal, port_constraints, transform_constraint_to_json};
use circom::constraint_writers::debug_writer::DebugWriter;
use circom::dag::Constraint;
use std::collections::HashMap;

fn lc(entries: &[(usize, Vec<u8>)]) -> HashMap<usize, Vec<u8>> {
    entries.iter().cloned().collect()
}

#[test]
fn decimal_of_little_endian_bytes() {
    assert_eq!(le_decimal(&vec![]), "0");
    assert_eq!(le_decimal(&vec![0, 0]), "0");
    assert_eq!(le_decimal(&vec![7]), "7");
    assert_eq!(le_decimal(&vec![0x2c, 0x01]), "300");
    assert_eq!(le_decimal(&vec![0, 0, 0, 0, 0, 0, 0, 0, 1]), "18446744073709551616");
}

#[test]
fn linear_combination_as_json() {
    assert_eq!(hashmap_as_json(&lc(&[])), "{}");
    assert_eq!(
        hashmap_as_json(&lc(&[(12, vec![7]), (3, vec![0x2c, 0x01]), (0, vec![1])])),
        "{\"0\":\"1\",\"3\":\"300\",\"12\":\"7\"}"
    );
}

#[test]
fn constraint_as_json() {
    let c = Constraint { a: lc(&[(1, vec![2])]), b: lc(&[]), c: lc(&[(2, vec![5]), (1, vec![1])]) };
    assert_eq!(transform_constraint_to_json(&c), "[{\"1\":\"2\"},{},{\"1\":\"1\",\"2\":\"5\"}]");
}

#[test]
fn constraints_document() {
    let cs = vec![
        Constraint { a: lc(&[(1, vec![2])]), b: lc(&[]), c: lc(&[]) },
        Constraint { a: lc(&[]), b: lc(&[(4, vec![9])]), c: lc(&[]) },
    ];
    let json = port_constraints(&cs, &DebugWriter::new());
    assert_eq!(
        String::from_utf8(json.data).unwrap(),
        "{\n\"constraints\": [\n[{\"1\":\"2\"},{},{}],\n[{},{\"4\":\"9\"},{}]\n]\n}"
    );
    let empty = port_constraints(&vec![], &DebugWriter::new());
    assert_eq!(String::from_utf8(empty.data).unwrap(), "{\n\"constraints\": [\n]\n}");
}
