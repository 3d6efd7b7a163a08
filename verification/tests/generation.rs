use circom::constraint_generation::symbols::{
    build_name, call_trace_note, create_array_accessed_symbol, create_component_symbol, create_index_appendix,
    create_symbol, create_symbol_bus, unfold_signals, AccessingInformation, AccessingInformationBus,
};
use circom::constraint_generation::template_info::{
    build_template_info, center, collect_template_info, shorten, sort_names, template_of, ConstraintStats,
    Cost, SignalStats, TreeConstraints, NAME_LIMIT,
};

#[test]
fn index_appendix() {
    assert_eq!(create_index_appendix(&[1, 23]), "[1][23]");
    assert_eq!(create_index_appendix(&[]), "");
    assert_eq!(create_array_accessed_symbol("a", &vec![0]), "a[0]");
    assert_eq!(create_component_symbol("comp", &vec![2, 10]), "comp[2][10]");
}

#[test]
fn symbol_of_an_access() {
    let access = AccessingInformation {
        undefined: false,
        before_signal: vec![1],
        signal_access: Some("out".to_string()),
        after_signal: vec![2, 3],
        tag_access: None,
    };
    assert_eq!(create_symbol("c", &access), "c[1].out[2][3]");
    let plain = AccessingInformation {
        undefined: false,
        before_signal: vec![4],
        signal_access: None,
        after_signal: vec![],
        tag_access: Some("maxbit".to_string()),
    };
    assert_eq!(create_symbol("s", &plain), "s[4]");
}

fn bus_access() -> AccessingInformationBus {
    AccessingInformationBus {
        undefined: false,
        array_access: vec![0],
        field_access: Some("x".to_string()),
        remaining_access: Some(Box::new(AccessingInformationBus {
            undefined: false,
            array_access: vec![1],
            field_access: Some("y".to_string()),
            remaining_access: None,
        })),
    }
}

#[test]
fn symbol_of_a_bus_access() {
    assert_eq!(create_symbol_bus("b", &bus_access()), "b[0].x[1].y");
    let mut names = vec!["b".to_string()];
    build_name(&mut names, &bus_access());
    assert_eq!(names, vec!["b".to_string(), "x".to_string(), "y".to_string()]);
}

#[test]
fn unfolding_an_array_of_signals() {
    let mut result = Vec::new();
    unfold_signals("s".to_string(), 0, &[2, 2], &mut result);
    assert_eq!(result, vec!["s[0][0]", "s[0][1]", "s[1][0]", "s[1][1]"]);
    let mut single = vec!["before".to_string()];
    unfold_signals("t".to_string(), 0, &[], &mut single);
    assert_eq!(single, vec!["before", "t"]);
    let mut empty = Vec::new();
    unfold_signals("u".to_string(), 0, &[3, 0], &mut empty);
    assert!(empty.is_empty());
    let mut from_second = Vec::new();
    unfold_signals("v[1]".to_string(), 1, &[4, 3], &mut from_second);
    assert_eq!(from_second, vec!["v[1][0]", "v[1][1]", "v[1][2]"]);
}

#[test]
fn call_trace() {
    assert_eq!(call_trace_note(&["main".to_string(), "A".to_string()]), "call trace:\n->main\n ->A\n");
    assert_eq!(call_trace_note(&[]), "call trace:\n");
}

#[test]
fn template_names() {
    assert_eq!(template_of("Num2Bits(254)"), "Num2Bits");
    assert_eq!(template_of("Main"), "Main");
    assert_eq!(template_of("(x)"), "");
}

#[test]
fn shortened_names() {
    let long = "CompConstant(21888242871839275222246405745257275088548364400416034343698204186575808495616)";
    assert_eq!(shorten(long, NAME_LIMIT), "CompConstant(218882428...98204186575808495616)");
    assert_eq!(shorten(long, NAME_LIMIT).chars().count(), NAME_LIMIT);
    assert_eq!(shorten("Short", NAME_LIMIT), "Short");
    assert_eq!(shorten("abcdefgh", 4), "abcdefgh");
    assert_eq!(shorten("abcdefgh", 5), "a...h");
}

#[test]
fn centered_text() {
    assert_eq!(center("ab", 7), "  ab   ");
    assert_eq!(center("abcdef", 3), "abcdef");
    assert_eq!(center("", 2), "  ");
}

#[test]
fn names_sorted_as_strings() {
    let sorted = sort_names(vec!["b".to_string(), "a(2)".to_string(), "a".to_string(), "a(10)".to_string()]);
    assert_eq!(sorted, vec!["a", "a(10)", "a(2)", "b"]);
}

fn leaf(node_id: usize, name: &str) -> TreeConstraints {
    TreeConstraints {
        node_id,
        template_name: name.to_string(),
        component_name: "sub".to_string(),
        number_constraints: 2,
        number_non_linear_constraints: 1,
        number_linear_constraints: 1,
        number_signals: 3,
        number_inputs: 1,
        number_outputs: 1,
        initial_signal: 0,
        is_custom: false,
        is_deterministic: true,
        subcomponents: vec![],
    }
}

fn circuit() -> TreeConstraints {
    TreeConstraints {
        node_id: 2,
        template_name: "Main".to_string(),
        component_name: "main".to_string(),
        number_constraints: 1,
        number_non_linear_constraints: 0,
        number_linear_constraints: 1,
        number_signals: 2,
        number_inputs: 1,
        number_outputs: 1,
        initial_signal: 0,
        is_custom: false,
        is_deterministic: true,
        subcomponents: vec![leaf(1, "A(1)"), leaf(1, "A(1)")],
    }
}

fn cost(c: (usize, usize, usize), s: (usize, usize, usize, usize), components: usize) -> Cost {
    Cost {
        constraints: ConstraintStats { total: c.0, non_linear: c.1, linear: c.2 },
        signals: SignalStats { total: s.0, inputs: s.1, outputs: s.2, intermediates: s.3 },
        components,
    }
}

#[test]
fn cost_of_a_tree() {
    let mut instances = Vec::new();
    let tree = collect_template_info(&circuit(), &mut instances);
    assert_eq!(tree, cost((5, 2, 3), (8, 3, 3, 2), 2));
    assert_eq!(instances.len(), 2);
    let a = instances.iter().find(|i| i.node_id == 1).unwrap();
    assert_eq!(a.components, 2);
    assert_eq!(a.own, cost((2, 1, 1), (3, 1, 1, 1), 0));
    assert_eq!(a.total_own, cost((4, 2, 2), (6, 2, 2, 2), 0));
    assert_eq!(a.template, "A");
    let main = instances.iter().find(|i| i.node_id == 2).unwrap();
    assert_eq!(main.components, 1);
    assert_eq!(main.own, cost((1, 0, 1), (2, 1, 1, 0), 2));
    assert_eq!(main.tree, cost((5, 2, 3), (8, 3, 3, 2), 2));
}

#[test]
fn template_table() {
    let info = build_template_info(&circuit(), &"bn128".to_string());
    assert_eq!(info.main, "Main");
    assert_eq!(info.prime, "bn128");
    assert_eq!(info.number_of_components, 3);
    assert_eq!(info.number_of_instances, 2);
    assert_eq!(info.circuit, cost((5, 2, 3), (8, 3, 3, 2), 3));
    assert_eq!(info.instances[0].name, "A(1)");
    assert_eq!(info.instances[1].name, "Main");
    assert_eq!(info.templates.len(), 2);
    assert_eq!(info.templates[0].template, "A");
    assert_eq!(info.templates[0].instances, 1);
    assert_eq!(info.templates[0].components, 2);
    assert_eq!(info.templates[0].instance_names, vec!["A(1)".to_string()]);
    assert_eq!(info.templates[1].template, "Main");
    assert!(info.note.starts_with("Constraints and signals are counted"));
}
