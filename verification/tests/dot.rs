//! Graphs as text.
use tup::graph::dot::{node_style, rules_to_dot};
use tup::types::NodeType;

#[test]
fn test_rules_to_dot_basic() {
    let rules = vec![(
        "".to_string(),
        vec!["main.c".to_string()],
        "gcc -c main.c -o main.o".to_string(),
        vec!["main.o".to_string()],
    )];

    let dot = rules_to_dot(&rules);
    assert!(dot.contains("digraph G"));
    assert!(dot.contains("main.c"));
    assert!(dot.contains("main.o"));
    assert!(dot.contains("gcc"));
    assert!(dot.contains("rectangle")); // command shape
    assert!(dot.contains("ellipse")); // file shape
}

#[test]
fn test_rules_to_dot_shared_files() {
    let rules = vec![
        (
            "".to_string(),
            vec!["a.c".to_string()],
            "gcc -c a.c -o a.o".to_string(),
            vec!["a.o".to_string()],
        ),
        (
            "".to_string(),
            vec!["a.o".to_string()],
            "gcc a.o -o app".to_string(),
            vec!["app".to_string()],
        ),
    ];

    let dot = rules_to_dot(&rules);
    // a.o should appear only once as a node (shared between rules)
    let count = dot.matches("a.o").count();
    // label + two edge references = 3 mentions
    assert!(count >= 2, "a.o should be shared, got {count} mentions");
}

#[test]
fn test_rules_to_dot_long_command() {
    let long_cmd = "gcc -c -Wall -Werror -O2 -I/usr/include -I/usr/local/include -DFOO=bar very_long_source_file.c -o output.o";
    let rules = vec![(
        "".to_string(),
        vec!["input.c".to_string()],
        long_cmd.to_string(),
        vec!["output.o".to_string()],
    )];

    let dot = rules_to_dot(&rules);
    assert!(dot.contains("...")); // Long command truncated
}

#[test]
fn test_rules_to_dot_with_dir() {
    let rules = vec![(
        "src".to_string(),
        vec!["main.c".to_string()],
        "gcc -c main.c".to_string(),
        vec!["main.o".to_string()],
    )];

    let dot = rules_to_dot(&rules);
    assert!(dot.contains("src/main.c"));
    assert!(dot.contains("src/main.o"));
}

#[test]
fn test_node_style() {
    let (shape, _) = node_style(NodeType::Cmd);
    assert_eq!(shape, "rectangle");
    let (shape, _) = node_style(NodeType::File);
    assert_eq!(shape, "ellipse");
    let (shape, _) = node_style(NodeType::Dir);
    assert_eq!(shape, "folder");
}
