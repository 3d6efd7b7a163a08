use circom::constraint_generation::assignment_utils::{
    compute_propagated_tags, compute_propagated_tags_bus, generate_tags_data, perform_tag_propagation,
    perform_tag_propagation_bus,
    BusTagInfo, NameMap, TagDefinitions, TagInfo, TagState, TagWire,
};

fn name(s: &str) -> String {
    s.to_string()
}

fn signal_tags() -> (TagInfo, TagDefinitions) {
    let mut values: TagInfo = NameMap::new();
    values.insert(name("a"), Some(vec![1]));
    values.insert(name("b"), Some(vec![2]));
    values.insert(name("c"), Some(vec![3]));
    let mut defs: TagDefinitions = NameMap::new();
    defs.insert(name("a"), TagState { defined: true, value_defined: true });
    defs.insert(name("b"), TagState { defined: true, value_defined: false });
    defs.insert(name("c"), TagState { defined: false, value_defined: false });
    (values, defs)
}

fn assigned() -> TagInfo {
    let mut a: TagInfo = NameMap::new();
    a.insert(name("b"), Some(vec![2]));
    a.insert(name("c"), Some(vec![4]));
    a.insert(name("d"), Some(vec![5]));
    a
}

#[test]
fn second_assignment_keeps_agreeing_tags() {
    let (mut values, mut defs) = signal_tags();
    perform_tag_propagation(&mut values, &mut defs, &assigned(), true);
    assert_eq!(values.get(&name("a")), Some(&Some(vec![1])));
    assert_eq!(values.get(&name("b")), Some(&Some(vec![2])));
    assert!(!values.contains_key(&name("c")));
    assert!(!values.contains_key(&name("d")));
    assert!(!defs.contains_key(&name("d")));
}

#[test]
fn second_assignment_loses_value_that_differs() {
    let (mut values, mut defs) = signal_tags();
    let mut other: TagInfo = NameMap::new();
    other.insert(name("b"), Some(vec![9]));
    perform_tag_propagation(&mut values, &mut defs, &other, true);
    assert_eq!(values.get(&name("b")), Some(&None));
}

#[test]
fn first_assignment_brings_new_tags() {
    let (mut values, mut defs) = signal_tags();
    perform_tag_propagation(&mut values, &mut defs, &assigned(), false);
    assert_eq!(values.get(&name("a")), Some(&Some(vec![1])));
    assert_eq!(values.get(&name("b")), Some(&Some(vec![2])));
    assert_eq!(values.get(&name("c")), Some(&Some(vec![4])));
    assert_eq!(values.get(&name("d")), Some(&Some(vec![5])));
    assert_eq!(defs.get(&name("c")), Some(&TagState { defined: false, value_defined: false }));
    assert_eq!(defs.get(&name("d")), Some(&TagState { defined: false, value_defined: false }));
    assert_eq!(defs.get(&name("a")), Some(&TagState { defined: true, value_defined: true }));
}

#[test]
fn propagation_depends_on_remaining_inserts() {
    let (values, defs) = signal_tags();
    let some_left = compute_propagated_tags(&values, &defs, 1);
    assert_eq!(some_left.get(&name("a")), Some(&Some(vec![1])));
    assert_eq!(some_left.get(&name("b")), Some(&None));
    assert!(!some_left.contains_key(&name("c")));
    let none_left = compute_propagated_tags(&values, &defs, 0);
    assert_eq!(none_left.get(&name("c")), Some(&Some(vec![3])));
    assert_eq!(none_left.get(&name("b")), Some(&Some(vec![2])));
}

#[test]
fn name_map_insert_replaces_and_remove_drops() {
    let mut m: TagInfo = NameMap::new();
    m.insert(name("x"), None);
    m.insert(name("x"), Some(vec![7]));
    assert_eq!(m.entries().len(), 1);
    assert_eq!(m.get(&name("x")), Some(&Some(vec![7])));
    m.remove(&name("x"));
    assert!(!m.contains_key(&name("x")));
    m.remove(&name("y"));
    assert_eq!(m.entries().len(), 0);
}

fn one_tag(tag: &str, value: Option<Vec<u8>>) -> TagInfo {
    let mut m: TagInfo = NameMap::new();
    m.insert(name(tag), value);
    m
}

fn one_state(tag: &str, defined: bool, value_defined: bool) -> TagDefinitions {
    let mut m: TagDefinitions = NameMap::new();
    m.insert(name(tag), TagState { defined, value_defined });
    m
}

fn bus() -> BusTagInfo {
    let field = BusTagInfo {
        tags: one_tag("u", Some(vec![2])),
        definitions: one_state("u", false, false),
        remaining_inserts: 4,
        size: 2,
        is_init: false,
        fields: vec![],
    };
    BusTagInfo {
        tags: one_tag("t", Some(vec![1])),
        definitions: one_state("t", true, false),
        remaining_inserts: 4,
        size: 1,
        is_init: false,
        fields: vec![(name("f"), field)],
    }
}

fn assigned_bus() -> TagWire {
    let mut field_tags = one_tag("u", Some(vec![2]));
    field_tags.insert(name("v"), Some(vec![3]));
    TagWire {
        tags: one_tag("t", Some(vec![7])),
        fields: Some(vec![(name("f"), TagWire { tags: field_tags, fields: None })]),
    }
}

#[test]
fn bus_assignment_reaches_fields() {
    let mut b = bus();
    perform_tag_propagation_bus(&mut b, &assigned_bus(), 2);
    assert_eq!(b.tags.get(&name("t")), Some(&Some(vec![7])));
    assert_eq!(b.remaining_inserts, 2);
    assert!(b.is_init);
    let f = &b.fields[0].1;
    assert_eq!(f.remaining_inserts, 0);
    assert!(f.is_init);
    assert_eq!(f.tags.get(&name("u")), Some(&Some(vec![2])));
    assert_eq!(f.tags.get(&name("v")), Some(&Some(vec![3])));
    assert_eq!(f.definitions.get(&name("v")), Some(&TagState { defined: false, value_defined: false }));
}

#[test]
fn bus_propagation_field_by_field() {
    let mut b = bus();
    perform_tag_propagation_bus(&mut b, &assigned_bus(), 2);
    let wire = compute_propagated_tags_bus(&b);
    assert_eq!(wire.tags.get(&name("t")), Some(&None));
    let fields = wire.fields.unwrap();
    assert_eq!(fields.len(), 1);
    assert_eq!(fields[0].0, "f");
    assert_eq!(fields[0].1.tags.get(&name("u")), Some(&Some(vec![2])));
    assert_eq!(fields[0].1.tags.get(&name("v")), Some(&Some(vec![3])));
    assert!(fields[0].1.fields.as_ref().unwrap().is_empty());
}

#[test]
fn tags_data_from_a_wire() {
    let data = generate_tags_data(&assigned_bus());
    assert_eq!(data.definitions.get(&name("t")), Some(&TagState { defined: true, value_defined: true }));
    assert_eq!(data.tags.get(&name("t")), Some(&Some(vec![7])));
    assert_eq!(data.remaining_inserts, 0);
    assert!(data.is_init);
    assert_eq!(data.fields.len(), 1);
    let f = &data.fields[0].1;
    assert_eq!(f.definitions.get(&name("v")), Some(&TagState { defined: true, value_defined: true }));
    assert!(f.fields.is_empty());
    let no_value = TagWire { tags: one_tag("w", None), fields: None };
    let d = generate_tags_data(&no_value);
    assert_eq!(d.definitions.get(&name("w")), Some(&TagState { defined: true, value_defined: false }));
}
