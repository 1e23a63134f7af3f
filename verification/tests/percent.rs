//! `%`-flags.
#![allow(non_snake_case)]
use tup::parser::percent::{expand_output_pattern, expand_percent, InputFile};

fn make_inputs(paths: &[&str]) -> Vec<InputFile> {
    paths.iter().map(|p| InputFile::new(p)).collect()
}

#[test]
fn test_input_file_simple() {
    let f = InputFile::new("foo.c");
    assert_eq!(f.path, "foo.c");
    assert_eq!(f.base, "foo.c");
    assert_eq!(f.base_no_ext, "foo");
    assert_eq!(f.ext, "c");
    assert_eq!(f.dir, "");
}

#[test]
fn test_input_file_with_dir() {
    let f = InputFile::new("src/lib/main.c");
    assert_eq!(f.path, "src/lib/main.c");
    assert_eq!(f.base, "main.c");
    assert_eq!(f.base_no_ext, "main");
    assert_eq!(f.ext, "c");
    assert_eq!(f.dir, "src/lib");
}

#[test]
fn test_input_file_no_extension() {
    let f = InputFile::new("Makefile");
    assert_eq!(f.base, "Makefile");
    assert_eq!(f.base_no_ext, "Makefile");
    assert_eq!(f.ext, "");
}

#[test]
fn test_expand_percent_f() {
    let inputs = make_inputs(&["a.c", "b.c", "c.c"]);
    let result = expand_percent("gcc %f -o out", &inputs, &[], &[], ".");
    assert_eq!(result, "gcc a.c b.c c.c -o out");
}

#[test]
fn test_expand_percent_b() {
    let inputs = make_inputs(&["src/a.c", "src/b.c"]);
    let result = expand_percent("gcc %b", &inputs, &[], &[], ".");
    assert_eq!(result, "gcc a.c b.c");
}

#[test]
fn test_expand_percent_B() {
    let inputs = make_inputs(&["foo.c", "bar.c"]);
    let result = expand_percent("%B.o", &inputs, &[], &[], ".");
    assert_eq!(result, "foo bar.o");
}

#[test]
fn test_expand_percent_o() {
    let inputs = make_inputs(&["foo.c"]);
    let outputs = vec!["foo.o".to_string()];
    let result = expand_percent("gcc -c %f -o %o", &inputs, &outputs, &[], ".");
    assert_eq!(result, "gcc -c foo.c -o foo.o");
}

#[test]
fn test_expand_percent_O() {
    let outputs = vec!["build/foo.o".to_string()];
    let result = expand_percent("%O.d", &[], &outputs, &[], ".");
    assert_eq!(result, "build/foo.d");
}

#[test]
fn test_expand_percent_e() {
    let inputs = make_inputs(&["test.cpp"]);
    let result = expand_percent("ext=%e", &inputs, &[], &[], ".");
    assert_eq!(result, "ext=cpp");
}

#[test]
fn test_expand_percent_d() {
    let result = expand_percent("dir=%d", &[], &[], &[], "myproject");
    assert_eq!(result, "dir=myproject");
}

#[test]
fn test_expand_percent_i() {
    let oo = vec!["config.h".to_string(), "types.h".to_string()];
    let result = expand_percent("gcc %f %i", &[], &[], &oo, ".");
    assert_eq!(result, "gcc  config.h types.h");
}

#[test]
fn test_expand_literal_percent() {
    let result = expand_percent("echo 100%%", &[], &[], &[], ".");
    assert_eq!(result, "echo 100%");
}

#[test]
fn test_expand_full_command() {
    let inputs = make_inputs(&["main.c"]);
    let outputs = vec!["main.o".to_string()];
    let result = expand_percent("gcc -c %f -o %o -MD -MF %O.d", &inputs, &outputs, &[], ".");
    assert_eq!(result, "gcc -c main.c -o main.o -MD -MF main.d");
}

#[test]
fn test_expand_output_pattern_B() {
    let input = InputFile::new("src/hello.c");
    let result = expand_output_pattern("%B.o", &input);
    assert_eq!(result, "hello.o");
}

#[test]
fn test_expand_output_pattern_b() {
    let input = InputFile::new("hello.c");
    let result = expand_output_pattern("%b.bak", &input);
    assert_eq!(result, "hello.c.bak");
}

#[test]
fn test_expand_no_inputs() {
    let result = expand_percent("echo hello > %o", &[], &["out.txt".to_string()], &[], ".");
    assert_eq!(result, "echo hello > out.txt");
}

#[test]
fn test_expand_unknown_percent() {
    let result = expand_percent("%z test", &[], &[], &[], ".");
    assert_eq!(result, "%z test");
}

#[test]
fn test_expand_trailing_percent() {
    let result = expand_percent("test%", &[], &[], &[], ".");
    assert_eq!(result, "test%");
}

#[test]
fn test_foreach_output_expansion() {
    // Simulate foreach: for each .c input, produce a .o output
    let inputs = vec![
        InputFile::new("a.c"),
        InputFile::new("b.c"),
        InputFile::new("sub/c.c"),
    ];

    for input in &inputs {
        let output = expand_output_pattern("%B.o", input);
        let cmd = expand_percent(
            "gcc -c %f -o %o",
            std::slice::from_ref(input),
            std::slice::from_ref(&output),
            &[],
            ".",
        );
        assert!(cmd.contains(&input.path));
        assert!(cmd.contains(&output));
    }
}
