use circom::constraint_writers::debug_writer::DebugWriter;
use circom::constraint_writers::json_writer::{ConstraintJSON, SignalsJSON, SubstitutionJSON};
use circom::constraint_writers::log_writer::Log;
use circom::constraint_writers::name_to_signal_writer::Name2Signal;
use circom::constraint_writers::r1cs_writer::{
    end_section, initialize_file, initialize_section, into_format, obtain_linear_combination_block,
    usize_as_bytes, write_constraint, HeaderData, R1CSWriter,
};
use circom::constraint_writers::sym_writer::{SymElem, SymFile};
use circom::encoding::{le_u64, lex_less, minimal_le_bytes};
use circom::text::{push_i64, usize_to_string};
use std::collections::HashMap;

#[test]
fn minimal_bytes_of_numbers() {
    assert_eq!(minimal_le_bytes(0), vec![0u8]);
    assert_eq!(minimal_le_bytes(255), vec![255u8]);
    assert_eq!(minimal_le_bytes(256), vec![0u8, 1]);
    assert_eq!(minimal_le_bytes(300), vec![44u8, 1]);
}

#[test]
fn little_endian_numbers_read_back() {
    assert_eq!(le_u64(&[1, 2]), 513);
    assert_eq!(le_u64(&[]), 0);
    assert_eq!(le_u64(&[255, 255, 255, 255, 255, 255, 255, 255]), u64::MAX);
}

#[test]
fn byte_strings_compare_lexicographically() {
    assert!(lex_less(&[1], &[44, 1]));
    assert!(lex_less(&[0, 1], &[2]));
    assert!(lex_less(&[1], &[1, 0]));
    assert!(!lex_less(&[1, 0], &[1]));
    assert!(!lex_less(&[3], &[3]));
}

#[test]
fn decimal_text() {
    assert_eq!(usize_to_string(0), "0");
    assert_eq!(usize_to_string(1234), "1234");
    let mut s = String::from("x=");
    push_i64(&mut s, -42);
    assert_eq!(s, "x=-42");
    let mut t = String::new();
    push_i64(&mut t, i64::MIN);
    assert_eq!(t, i64::MIN.to_string());
}

#[test]
fn into_format_pads_with_zeros() {
    assert_eq!(into_format(&[1, 2], 4), (vec![1u8, 2, 0, 0], 4));
    assert_eq!(into_format(&[1, 2, 3], 2), (vec![1u8, 2, 3], 3));
    assert_eq!(usize_as_bytes(300, 4), (vec![44u8, 1, 0, 0], 4));
    assert_eq!(usize_as_bytes(0, 8), (vec![0u8; 8], 8));
}

#[test]
fn section_size_goes_over_the_place_holder() {
    let mut data = vec![9u8];
    let go_back = initialize_section(&mut data, &[2, 0, 0, 0]);
    assert_eq!(go_back, 5);
    assert_eq!(data, vec![9u8, 2, 0, 0, 0, 3, 3, 3, 3, 3, 3, 3, 3]);
    data.extend_from_slice(&[7, 7, 7, 7, 7]);
    end_section(&mut data, go_back, 5);
    assert_eq!(data, vec![9u8, 2, 0, 0, 0, 5, 0, 0, 0, 0, 0, 0, 0, 7, 7, 7, 7, 7]);
}

#[test]
fn file_start() {
    let mut data = Vec::new();
    initialize_file(&mut data, 5);
    assert_eq!(data, b"r1cs\x01\x00\x00\x00\x05\x00\x00\x00".to_vec());
    let writer = R1CSWriter::new(32, false);
    assert_eq!(writer.data, b"r1cs\x01\x00\x00\x00\x03\x00\x00\x00".to_vec());
}

#[test]
fn linear_combination_block_orders_signals_by_their_bytes() {
    let mut lc = HashMap::new();
    lc.insert(2usize, vec![7u8]);
    lc.insert(256usize, vec![9u8]);
    let (block, size) = obtain_linear_combination_block(&lc, 4);
    assert_eq!(size, 20);
    assert_eq!(
        block,
        vec![2u8, 0, 0, 0, 0, 1, 0, 0, 9, 0, 0, 0, 2, 0, 0, 0, 7, 0, 0, 0]
    );
}

#[test]
fn empty_linear_combination_block() {
    let lc: HashMap<usize, Vec<u8>> = HashMap::new();
    assert_eq!(obtain_linear_combination_block(&lc, 8), (vec![0u8, 0, 0, 0], 4));
}

#[test]
fn constraint_is_three_blocks() {
    let mut a = HashMap::new();
    a.insert(1usize, vec![1u8]);
    let b: HashMap<usize, Vec<u8>> = HashMap::new();
    let mut c = HashMap::new();
    c.insert(3usize, vec![2u8, 1]);
    let mut data = vec![0xaau8];
    let size = write_constraint(&mut data, &a, &b, &c, 2);
    assert_eq!(size, 24);
    let mut expected = vec![0xaau8];
    expected.extend_from_slice(&[1, 0, 0, 0, 1, 0, 0, 0, 1, 0]);
    expected.extend_from_slice(&[0, 0, 0, 0]);
    expected.extend_from_slice(&[1, 0, 0, 0, 3, 0, 0, 0, 2, 1]);
    assert_eq!(data, expected);
}

#[test]
fn whole_file_bytes() {
    let writer = R1CSWriter::new(4, false);
    let mut header = R1CSWriter::start_header_section(writer);
    header.write_section(HeaderData {
        field: vec![7],
        total_wires: 2,
        public_outputs: 1,
        public_inputs: 0,
        private_inputs: 0,
        number_of_labels: 2,
        number_of_constraints: 0,
    });
    let writer = header.end_section();
    let mut expected = b"r1cs\x01\x00\x00\x00\x03\x00\x00\x00".to_vec();
    expected.extend_from_slice(&[1, 0, 0, 0, 36, 0, 0, 0, 0, 0, 0, 0]);
    expected.extend_from_slice(&[4, 0, 0, 0, 7, 0, 0, 0]);
    expected.extend_from_slice(&[2, 0, 0, 0, 1, 0, 0, 0, 0, 0, 0, 0, 0, 0, 0, 0]);
    expected.extend_from_slice(&[2, 0, 0, 0, 0, 0, 0, 0, 0, 0, 0, 0]);
    assert_eq!(writer.data, expected);
    let mut signals = R1CSWriter::start_signal_section(writer);
    signals.write_signal_usize(0);
    signals.write_signal_usize(258);
    let writer = signals.end_section();
    expected.extend_from_slice(&[3, 0, 0, 0, 16, 0, 0, 0, 0, 0, 0, 0]);
    expected.extend_from_slice(&[0, 0, 0, 0, 0, 0, 0, 0, 2, 1, 0, 0, 0, 0, 0, 0]);
    assert_eq!(writer.data, expected);
}

#[test]
fn custom_gates_sections_bytes() {
    let writer = R1CSWriter::new(2, true);
    let mut used = R1CSWriter::start_custom_gates_used_section(writer);
    used.write_custom_gates_usages(vec![("G".to_string(), vec![vec![5u8]])]);
    let writer = used.end_section();
    let mut applied = R1CSWriter::start_custom_gates_applied_section(writer);
    applied.write_custom_gates_applications(vec![(0usize, vec![1usize, 2])]);
    let writer = applied.end_section();
    let mut expected = b"r1cs\x01\x00\x00\x00\x05\x00\x00\x00".to_vec();
    expected.extend_from_slice(&[4, 0, 0, 0, 12, 0, 0, 0, 0, 0, 0, 0]);
    expected.extend_from_slice(&[1, 0, 0, 0, b'G', 0, 1, 0, 0, 0, 5, 0]);
    expected.extend_from_slice(&[5, 0, 0, 0, 28, 0, 0, 0, 0, 0, 0, 0]);
    expected.extend_from_slice(&[1, 0, 0, 0, 0, 0, 0, 0, 2, 0, 0, 0]);
    expected.extend_from_slice(&[1, 0, 0, 0, 0, 0, 0, 0, 2, 0, 0, 0, 0, 0, 0, 0]);
    assert_eq!(writer.data, expected);
}

#[test]
fn constraints_written_counts() {
    let writer = R1CSWriter::new(1, false);
    let mut section = R1CSWriter::start_constraints_section(writer);
    assert_eq!(section.constraints_written(), 0);
    let empty: HashMap<usize, Vec<u8>> = HashMap::new();
    section.write_constraint_usize(&empty, &empty, &empty);
    section.write_constraint_usize(&empty, &empty, &empty);
    assert_eq!(section.constraints_written(), 2);
    let writer = section.end_section();
    let mut expected = b"r1cs\x01\x00\x00\x00\x03\x00\x00\x00".to_vec();
    expected.extend_from_slice(&[2, 0, 0, 0, 24, 0, 0, 0, 0, 0, 0, 0]);
    expected.extend_from_slice(&[0u8; 24]);
    assert_eq!(writer.data, expected);
}

#[test]
fn constraint_json_document() {
    let mut json = DebugWriter::new().build_constraints_file();
    assert_eq!(String::from_utf8(json.data.clone()).unwrap(), "{\n\"constraints\": [");
    json.write_constraint("[1]");
    json.write_constraint("[2]");
    json.end();
    assert_eq!(String::from_utf8(json.data.clone()).unwrap(), "{\n\"constraints\": [\n[1],\n[2]\n]\n}");
    let mut empty = ConstraintJSON::new();
    empty.end();
    assert_eq!(String::from_utf8(empty.data).unwrap(), "{\n\"constraints\": [\n]\n}");
}

#[test]
fn signals_json_document() {
    let mut json = SignalsJSON::new();
    json.write_correspondence("main.a".to_string(), "1".to_string());
    assert_eq!(
        String::from_utf8(json.bytes().clone()).unwrap(),
        "{\n\"signalName2Idx\": {\n\"one\" : \"0\",\n\"main.a\" : 1"
    );
    json.end();
}

#[test]
fn substitution_json_document() {
    let mut json = SubstitutionJSON::new();
    json.write_substitution("s", "t");
    json.write_substitution("u", "v");
    json.end();
    assert_eq!(String::from_utf8(json.data).unwrap(), "{\n\"s\" : t,\n\"u\" : v\n}");
}

#[test]
fn symbol_lines() {
    let elem = SymElem { original: 1, witness: -1, node_id: 3, symbol: "main.x".to_string() };
    assert_eq!(elem.to_string(), "1,-1,3,main.x");
    let mut file = SymFile::new();
    SymFile::write_sym_elem(&mut file, elem);
    SymFile::write_sym_elem(
        &mut file,
        SymElem { original: 2, witness: 1, node_id: 0, symbol: "main.y".to_string() },
    );
    assert_eq!(String::from_utf8(file.data).unwrap(), "1,-1,3,main.x\n2,1,0,main.y\n");
}

#[test]
fn name_to_signal_entry() {
    let entry = Name2Signal { witness: 5, symbol: "main.a".to_string() };
    assert_eq!(entry.to_string(), " \"main.a\" : 5");
}

#[test]
fn new_log_is_zero() {
    let log = Log::new();
    assert_eq!(log.no_linear, 0);
    assert_eq!(log.no_non_linear, 0);
    assert_eq!(log.no_labels, 0);
    assert_eq!(log.no_wires, 0);
    assert_eq!(log.no_public_inputs, 0);
    assert_eq!(log.no_private_inputs, 0);
    assert_eq!(log.no_public_outputs, 0);
    assert_eq!(log.no_private_outputs, 0);
}
