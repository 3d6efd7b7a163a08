use circom::parser::include_logic::IncludesGraph;
use circom::parser::parser_logic::{preprocess, UnclosedComment};
use circom::parser::{check_custom_gates_version, check_number_version, parse_number_version, VersionReport};

#[test]
fn versions_are_read() {
    assert_eq!(parse_number_version("2.1.5"), (2, 1, 5));
    assert_eq!(parse_number_version("+2.0.10.7"), (2, 0, 10));
    assert_eq!(parse_number_version("0.0.0"), (0, 0, 0));
}

#[test]
fn compiler_version_check() {
    assert!(matches!(check_number_version("f".to_string(), Some((2, 0, 5)), (2, 1, 0)), Ok(w) if w.is_empty()));
    assert!(matches!(check_number_version("f".to_string(), Some((2, 1, 0)), (2, 1, 0)), Ok(w) if w.is_empty()));
    match check_number_version("f.circom".to_string(), Some((2, 2, 0)), (2, 1, 0)) {
        Err(VersionReport::CompilerVersion { file_path, required, compiler }) => {
            assert_eq!(file_path, "f.circom");
            assert_eq!(required, (2, 2, 0));
            assert_eq!(compiler, (2, 1, 0));
        },
        _ => panic!("expected a version error"),
    }
    assert!(matches!(
        check_number_version("f".to_string(), Some((1, 0, 0)), (2, 1, 0)),
        Err(VersionReport::CompilerVersion { .. })
    ));
    match check_number_version("g.circom".to_string(), None, (2, 1, 0)) {
        Ok(warnings) => {
            assert_eq!(warnings.len(), 1);
            assert!(matches!(&warnings[0], VersionReport::NoVersionPragma { file_path, compiler }
                if file_path == "g.circom" && *compiler == (2, 1, 0)));
        },
        Err(_) => panic!("expected a warning"),
    }
}

#[test]
fn custom_gates_version_check() {
    match check_custom_gates_version("f.circom".to_string(), Some((2, 0, 5)), (2, 1, 0)) {
        Err(VersionReport::CustomGatesVersion { message }) => assert_eq!(
            message,
            "File f.circom requires at least version (2, 0, 6) to use custom templates (currently (2, 0, 5))"
        ),
        _ => panic!("expected an error"),
    }
    match check_custom_gates_version("f.circom".to_string(), None, (2, 0, 5)) {
        Err(VersionReport::CustomGatesVersion { message }) => assert_eq!(
            message,
            "File f.circom does not include pragma version and the compiler version (currently (2, 0, 5)) should be at least (2, 0, 6) to use custom templates"
        ),
        _ => panic!("expected an error"),
    }
    assert!(check_custom_gates_version("f".to_string(), Some((2, 0, 6)), (2, 0, 0)).is_ok());
    assert!(check_custom_gates_version("f".to_string(), None, (2, 1, 0)).is_ok());
}

#[test]
fn line_comment_blanked_newline_kept() {
    assert_eq!(preprocess("a // c\nb", 0).unwrap(), "a     \nb");
}

#[test]
fn block_comment_blanked() {
    assert_eq!(preprocess("x/*ab*/y", 0).unwrap(), "x      y");
    assert_eq!(preprocess("x/**/y", 0).unwrap(), "x    y");
    assert_eq!(preprocess("x/***/y", 0).unwrap(), "x     y");
}

#[test]
fn lone_slash_kept() {
    assert_eq!(preprocess("a/b", 0).unwrap(), "a/b");
    assert_eq!(preprocess("a/", 0).unwrap(), "a/");
}

#[test]
fn comment_keeps_byte_length() {
    let text = "s <== 1; /* é ∀ */ t // ü\n";
    let out = preprocess(text, 0).unwrap();
    assert_eq!(out.len(), text.len());
    assert_eq!(out, format!("s <== 1; {} t {}\n", " ".repeat(12), " ".repeat(5)));
}

#[test]
fn unclosed_block_comment() {
    assert_eq!(preprocess("ab/* x", 7), Err(UnclosedComment { file_id: 7, location: 4 }));
    assert_eq!(preprocess("a/*/", 1), Err(UnclosedComment { file_id: 1, location: 3 }));
}

fn paths(v: &[&[&str]]) -> Vec<Vec<String>> {
    v.iter().map(|p| p.iter().map(|s| s.to_string()).collect()).collect()
}

fn includes() -> IncludesGraph {
    let mut g = IncludesGraph::new();
    g.add_node("main.circom".to_string(), true, true);
    g.add_node("lib/b.circom".to_string(), true, false);
    g.add_edge("main.circom".to_string());
    g.add_node("lib/a.circom".to_string(), false, false);
    g.add_edge("main.circom".to_string());
    g.add_edge("lib/b.circom".to_string());
    g
}

#[test]
fn problematic_paths_reach_files_without_pragma() {
    let g = includes();
    assert_eq!(
        g.get_problematic_paths(),
        paths(&[&["main.circom", "lib/b.circom", "lib/a.circom"], &["main.circom", "lib/a.circom"]])
    );
}

#[test]
fn problematic_paths_take_each_include_once_per_path() {
    let mut g = includes();
    g.add_node("main.circom".to_string(), true, false);
    g.add_edge("lib/a.circom".to_string());
    let (m, a, b) = ("main.circom", "lib/a.circom", "lib/b.circom");
    assert_eq!(
        g.get_problematic_paths(),
        paths(&[&[m, b, a], &[m, b, a, m, a], &[m, a], &[m, a, m, b, a], &[m, a, m, a]])
    );
}

#[test]
fn no_paths_without_custom_templates() {
    let mut g = IncludesGraph::new();
    g.add_node("main.circom".to_string(), false, false);
    assert!(g.get_problematic_paths().is_empty());
}

#[test]
fn path_shown_by_file_names() {
    let p = vec!["main.circom".to_string(), "lib/b.circom".to_string(), "/x/y/a.circom".to_string()];
    assert_eq!(IncludesGraph::display_path(&p), "main.circom -> b.circom -> a.circom");
    assert_eq!(IncludesGraph::display_path(&vec![]), "");
}
