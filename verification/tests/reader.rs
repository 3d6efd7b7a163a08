use circom::constraint_writers::r1cs_reader::{
    read_linear_combination_block, read_name, read_r1cs, seek, R1CSData, R1CSParsingError, ReadError,
};
use circom::constraint_writers::r1cs_writer::{HeaderData, R1CSWriter};
use std::collections::HashMap;

fn small_circuit(custom_gates: bool) -> Vec<u8> {
    let writer = R1CSWriter::new(8, custom_gates);
    let mut constraints = R1CSWriter::start_constraints_section(writer);
    let mut a = HashMap::new();
    a.insert(1usize, vec![1u8]);
    a.insert(300usize, vec![2u8, 1]);
    let mut b = HashMap::new();
    b.insert(2usize, vec![3u8]);
    let mut c = HashMap::new();
    c.insert(3usize, vec![4u8]);
    constraints.write_constraint_usize(&a, &b, &c);
    let empty: HashMap<usize, Vec<u8>> = HashMap::new();
    constraints.write_constraint_usize(&empty, &empty, &c);
    let writer = constraints.end_section();
    let mut header = R1CSWriter::start_header_section(writer);
    header.write_section(HeaderData {
        field: vec![1, 2, 3],
        total_wires: 4,
        public_outputs: 1,
        public_inputs: 1,
        private_inputs: 1,
        number_of_labels: 5,
        number_of_constraints: 2,
    });
    let writer = header.end_section();
    let mut signals = R1CSWriter::start_signal_section(writer);
    for s in [0usize, 1, 2, 4] {
        signals.write_signal_usize(s);
    }
    let writer = signals.end_section();
    if !custom_gates {
        return writer.data;
    }
    let mut used = R1CSWriter::start_custom_gates_used_section(writer);
    used.write_custom_gates_usages(vec![
        ("Gate".to_string(), vec![vec![9u8], vec![1u8, 1]]),
        ("Other".to_string(), vec![]),
    ]);
    let writer = used.end_section();
    let mut applied = R1CSWriter::start_custom_gates_applied_section(writer);
    applied.write_custom_gates_applications(vec![(1usize, vec![2usize, 3]), (0usize, vec![])]);
    applied.end_section().data
}

fn padded(bytes: &[u8], width: usize) -> Vec<u8> {
    let mut v = bytes.to_vec();
    while v.len() < width {
        v.push(0);
    }
    v
}

#[test]
fn reading_back_a_written_file() {
    let data = read_r1cs(&small_circuit(false)).unwrap();
    assert_eq!(data.header_data.field, padded(&[1, 2, 3], 8));
    assert_eq!(data.header_data.field_size, 8);
    assert_eq!(data.header_data.total_wires, 4);
    assert_eq!(data.header_data.public_outputs, 1);
    assert_eq!(data.header_data.public_inputs, 1);
    assert_eq!(data.header_data.private_inputs, 1);
    assert_eq!(data.header_data.number_of_labels, 5);
    assert_eq!(data.header_data.number_of_constraints, 2);
    assert_eq!(data.constraints.len(), 2);
    let (a, b, c) = &data.constraints[0];
    assert_eq!(a.len(), 2);
    assert_eq!(a.get(&1), Some(&padded(&[1], 8)));
    assert_eq!(a.get(&300), Some(&padded(&[2, 1], 8)));
    assert_eq!(b.get(&2), Some(&padded(&[3], 8)));
    assert_eq!(c.get(&3), Some(&padded(&[4], 8)));
    let (a2, b2, c2) = &data.constraints[1];
    assert!(a2.is_empty() && b2.is_empty());
    assert_eq!(c2.len(), 1);
    assert_eq!(data.signals, vec![0usize, 1, 2, 4]);
    assert!(!data.custom_gates);
    assert!(data.custom_gates_used_data.is_none());
    assert!(data.custom_gates_applied_data.is_none());
}

#[test]
fn reading_back_custom_gates() {
    let data = read_r1cs(&small_circuit(true)).unwrap();
    assert!(data.custom_gates);
    let used = data.custom_gates_used_data.unwrap();
    assert_eq!(used.len(), 2);
    assert_eq!(used[0].0, "Gate");
    assert_eq!(used[0].1, vec![padded(&[9], 8), padded(&[1, 1], 8)]);
    assert_eq!(used[1].0, "Other");
    assert!(used[1].1.is_empty());
    let applied = data.custom_gates_applied_data.unwrap();
    assert_eq!(applied, vec![(1usize, vec![2usize, 3]), (0usize, vec![])]);
}

#[test]
fn new_data_is_empty() {
    let data = R1CSData::new();
    assert!(data.header_data.field.is_empty());
    assert_eq!(data.header_data.field_size, 0);
    assert!(data.constraints.is_empty());
    assert!(data.signals.is_empty());
    assert!(!data.custom_gates);
}

#[test]
fn wrong_magic_number() {
    let mut bytes = small_circuit(false);
    bytes[3] = b'x';
    assert_eq!(read_r1cs(&bytes).err(), Some(ReadError::Parsing(R1CSParsingError::InvalidMagicNumber)));
}

#[test]
fn wrong_version() {
    let mut bytes = small_circuit(false);
    bytes[4] = 2;
    assert_eq!(read_r1cs(&bytes).err(), Some(ReadError::Parsing(R1CSParsingError::InvalidVersion)));
}

#[test]
fn file_too_short() {
    assert_eq!(read_r1cs(b"r1c").err(), Some(ReadError::UnexpectedEof));
    let bytes = small_circuit(false);
    assert_eq!(read_r1cs(&bytes[..bytes.len() - 1]).err(), Some(ReadError::UnexpectedEof));
}

#[test]
fn section_type_out_of_range() {
    let mut bytes = b"r1cs\x01\x00\x00\x00\x01\x00\x00\x00".to_vec();
    bytes.extend_from_slice(&[2, 0, 0, 0, 0, 0, 0, 0, 0, 0, 0, 0]);
    assert_eq!(read_r1cs(&bytes).err(), Some(ReadError::Parsing(R1CSParsingError::InvalidSectionType)));
}

#[test]
fn header_section_missing() {
    let mut bytes = b"r1cs\x01\x00\x00\x00\x02\x00\x00\x00".to_vec();
    bytes.extend_from_slice(&[2, 0, 0, 0, 0, 0, 0, 0, 0, 0, 0, 0]);
    bytes.extend_from_slice(&[2, 0, 0, 0, 0, 0, 0, 0, 0, 0, 0, 0]);
    assert_eq!(
        read_r1cs(&bytes).err(),
        Some(ReadError::Parsing(R1CSParsingError::SectionNotPresent("Header".to_string())))
    );
}

#[test]
fn custom_gates_sections_missing() {
    let plain = small_circuit(false);
    let mut bytes = plain.clone();
    bytes[8] = 5;
    assert_eq!(read_r1cs(&bytes).err(), Some(ReadError::UnexpectedEof));
    let mut bytes = plain;
    bytes[8] = 2;
    assert_eq!(
        read_r1cs(&bytes).err(),
        Some(ReadError::Parsing(R1CSParsingError::SectionNotPresent("Signals".to_string())))
    );
}

#[test]
fn section_header_checked_in_full() {
    let mut bytes = small_circuit(false);
    bytes[13] = 7;
    assert_eq!(read_r1cs(&bytes).err(), Some(ReadError::Parsing(R1CSParsingError::InvalidSectionHeader)));
}

#[test]
fn section_size_moving_before_the_start() {
    let mut bytes = b"r1cs\x01\x00\x00\x00\x02\x00\x00\x00".to_vec();
    bytes.extend_from_slice(&[1, 0, 0, 0, 0, 0, 0, 0, 0, 0, 0, 0x80]);
    assert_eq!(read_r1cs(&bytes).err(), Some(ReadError::InvalidSeek));
    assert_eq!(seek(24, 1u64 << 63), Err(ReadError::InvalidSeek));
    assert_eq!(seek(24, u64::MAX), Ok(23));
    assert_eq!(seek(24, 16), Ok(40));
    assert_eq!(seek(i64::MAX as u64, 1), Err(ReadError::InvalidSeek));
}

#[test]
fn names_end_with_a_zero_byte() {
    assert_eq!(read_name(b"ab\x00cd", 0), Ok(("ab".to_string(), 3)));
    assert_eq!(read_name(b"ab", 0), Err(ReadError::UnexpectedEof));
    assert_eq!(read_name(&[0xff, 0], 0), Err(ReadError::InvalidUtf8));
    assert_eq!(read_name(b"\x00", 0), Ok((String::new(), 1)));
}

#[test]
fn linear_combination_later_entry_stands() {
    let bytes = vec![2u8, 0, 0, 0, 5, 0, 0, 0, 1, 5, 0, 0, 0, 2];
    let (lc, end) = read_linear_combination_block(&bytes, 0, 1).unwrap();
    assert_eq!(end, 14);
    assert_eq!(lc.len(), 1);
    assert_eq!(lc.get(&5), Some(&vec![2u8]));
    assert_eq!(read_linear_combination_block(&bytes[..13], 0, 1).err(), Some(ReadError::UnexpectedEof));
}

#[test]
fn parsing_error_texts() {
    assert_eq!(R1CSParsingError::InvalidMagicNumber.to_string(), "Invalid magic number");
    assert_eq!(R1CSParsingError::InvalidVersion.to_string(), "Invalid version");
    assert_eq!(R1CSParsingError::InvalidSectionHeader.to_string(), "Invalid section header");
    assert_eq!(R1CSParsingError::InvalidSectionType.to_string(), "Invalid section type");
    assert_eq!(
        R1CSParsingError::SectionNotPresent("Signals".to_string()).to_string(),
        "Section \"Signals\" not present"
    );
}
