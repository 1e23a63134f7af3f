//! Lines of a Tupfile and what they come to.
use tup::parser::line::{join_continuation_lines, TupfileLine};
use tup::parser::reader::TupfileReader;

#[test]
fn test_parse_basic_tupfile() {
    let content = r#"
CC = gcc
CFLAGS = -Wall -O2

: foreach *.c |> $(CC) $(CFLAGS) -c %f -o %o |> %B.o
: *.o |> $(CC) %f -o myapp |> myapp
"#;
    let reader = TupfileReader::parse(content, "Tupfile").unwrap();
    let lines = reader.parsed_lines();
    assert_eq!(lines.len(), 4); // 2 var assigns + 2 rules
}

#[test]
fn test_parse_comments() {
    let content = "# This is a comment\nCC = gcc\n# Another comment\n";
    let reader = TupfileReader::parse(content, "Tupfile").unwrap();
    let lines = reader.parsed_lines();
    assert_eq!(lines.len(), 1); // Only the variable assignment
}

#[test]
fn test_parse_empty_lines() {
    let content = "\n\n\nCC = gcc\n\n\n";
    let reader = TupfileReader::parse(content, "Tupfile").unwrap();
    let lines = reader.parsed_lines();
    assert_eq!(lines.len(), 1);
}

#[test]
fn test_parse_line_continuation() {
    let content = "CFLAGS = -Wall \\\n  -O2 \\\n  -g\n";
    let joined = join_continuation_lines(content);
    assert!(joined.contains("-Wall  -O2  -g"));
}

#[test]
fn test_parse_variable_assign() {
    let content = "CC = gcc\nCFLAGS = -Wall -O2\n";
    let mut reader = TupfileReader::parse(content, "Tupfile").unwrap();
    reader.evaluate().unwrap();
    assert_eq!(reader.vars().get("CC"), Some("gcc"));
    assert_eq!(reader.vars().get("CFLAGS"), Some("-Wall -O2"));
}

#[test]
fn test_parse_variable_append() {
    let content = "CFLAGS = -Wall\nCFLAGS += -O2\n";
    let mut reader = TupfileReader::parse(content, "Tupfile").unwrap();
    reader.evaluate().unwrap();
    assert_eq!(reader.vars().get("CFLAGS"), Some("-Wall -O2"));
}

#[test]
fn test_parse_variable_expansion_in_assign() {
    let content = "CC = gcc\nCMD = $(CC) -c\n";
    let mut reader = TupfileReader::parse(content, "Tupfile").unwrap();
    reader.evaluate().unwrap();
    assert_eq!(reader.vars().get("CMD"), Some("gcc -c"));
}

#[test]
fn test_parse_ifdef_true() {
    let content = "DEBUG = yes\nifdef DEBUG\nCFLAGS = -g\nendif\n";
    let mut reader = TupfileReader::parse(content, "Tupfile").unwrap();
    reader.evaluate().unwrap();
    assert_eq!(reader.vars().get("CFLAGS"), Some("-g"));
}

#[test]
fn test_parse_ifdef_false() {
    let content = "ifdef DEBUG\nCFLAGS = -g\nendif\n";
    let mut reader = TupfileReader::parse(content, "Tupfile").unwrap();
    reader.evaluate().unwrap();
    assert_eq!(reader.vars().get("CFLAGS"), None);
}

#[test]
fn test_parse_ifndef() {
    let content = "ifndef RELEASE\nCFLAGS = -g\nendif\n";
    let mut reader = TupfileReader::parse(content, "Tupfile").unwrap();
    reader.evaluate().unwrap();
    assert_eq!(reader.vars().get("CFLAGS"), Some("-g"));
}

#[test]
fn test_parse_ifdef_else() {
    let content = "ifdef DEBUG\nMODE = debug\nelse\nMODE = release\nendif\n";
    let mut reader = TupfileReader::parse(content, "Tupfile").unwrap();
    reader.evaluate().unwrap();
    assert_eq!(reader.vars().get("MODE"), Some("release"));
}

#[test]
fn test_parse_ifeq() {
    let content = "CC = gcc\nifeq ($(CC), gcc)\nIS_GCC = yes\nendif\n";
    let mut reader = TupfileReader::parse(content, "Tupfile").unwrap();
    reader.evaluate().unwrap();
    assert_eq!(reader.vars().get("IS_GCC"), Some("yes"));
}

#[test]
fn test_parse_ifneq() {
    let content = "CC = clang\nifneq ($(CC), gcc)\nNOT_GCC = yes\nendif\n";
    let mut reader = TupfileReader::parse(content, "Tupfile").unwrap();
    reader.evaluate().unwrap();
    assert_eq!(reader.vars().get("NOT_GCC"), Some("yes"));
}

#[test]
fn test_parse_directives() {
    let content = "export PATH\nimport HOME\ninclude rules.tup\ninclude_rules\n.gitignore\n";
    let reader = TupfileReader::parse(content, "Tupfile").unwrap();
    let lines = reader.parsed_lines();
    assert_eq!(lines.len(), 5);

    assert!(matches!(lines[0].1, TupfileLine::Export(_)));
    assert!(matches!(lines[1].1, TupfileLine::Import(_)));
    assert!(matches!(lines[2].1, TupfileLine::Include(_)));
    assert!(matches!(lines[3].1, TupfileLine::IncludeRules));
    assert!(matches!(lines[4].1, TupfileLine::GitIgnore));
}

#[test]
fn test_parse_bang_definition() {
    let content = "!cc = |> gcc -c %f -o %o |> %B.o\n";
    let reader = TupfileReader::parse(content, "Tupfile").unwrap();
    let lines = reader.parsed_lines();
    assert_eq!(lines.len(), 1);
    if let TupfileLine::BangDef { name, definition } = &lines[0].1 {
        assert_eq!(name, "cc");
        assert!(definition.contains("gcc"));
    } else {
        panic!("expected BangDef");
    }
}

#[test]
fn test_parse_rules_extracted() {
    let content = ": foo.c |> gcc -c foo.c -o foo.o |> foo.o\n";
    let mut reader = TupfileReader::parse(content, "Tupfile").unwrap();
    let rules = reader.evaluate().unwrap();
    assert_eq!(rules.len(), 1);
    assert_eq!(rules[0].inputs, vec!["foo.c"]);
    assert_eq!(rules[0].command.command, "gcc -c foo.c -o foo.o");
    assert_eq!(rules[0].outputs, vec!["foo.o"]);
}

#[test]
fn test_parse_error_directive() {
    let content = "error Something went wrong\n";
    let reader = TupfileReader::parse(content, "Tupfile").unwrap();
    let lines = reader.parsed_lines();
    if let TupfileLine::Error(msg) = &lines[0].1 {
        assert_eq!(msg, "Something went wrong");
    } else {
        panic!("expected Error");
    }
}

#[test]
fn test_full_tupfile() {
    let content = r#"
# Build configuration
CC = gcc
CFLAGS = -Wall

ifdef DEBUG
CFLAGS += -g -O0
else
CFLAGS += -O2
endif

# Compile all C files
: foreach *.c |> $(CC) $(CFLAGS) -c %f -o %o |> %B.o

# Link
: *.o |> $(CC) %f -o myapp |> myapp

.gitignore
"#;
    let mut reader = TupfileReader::parse(content, "Tupfile").unwrap();
    let rules = reader.evaluate().unwrap();
    assert_eq!(rules.len(), 2);
    assert_eq!(reader.vars().get("CC"), Some("gcc"));
    assert_eq!(reader.vars().get("CFLAGS"), Some("-Wall -O2"));
}

#[test]
fn test_bang_macro_definition_and_use() {
    let content = r#"
!cc = |> gcc -c %f -o %o |> %B.o
: foreach *.c |> !cc |>
"#;
    let mut reader = TupfileReader::parse(content, "Tupfile").unwrap();
    let rules = reader.evaluate().unwrap();

    assert_eq!(rules.len(), 1);
    assert_eq!(rules[0].command.command, "gcc -c %f -o %o");
    assert_eq!(rules[0].outputs, vec!["%B.o"]);
    // foreach comes from the macro
    assert!(!rules[0].foreach); // The rule itself isn't foreach, macro isn't either
}

#[test]
fn test_bang_macro_foreach() {
    let content = r#"
!cc = foreach |> gcc -c %f -o %o |> %B.o
: *.c |> !cc |>
"#;
    let mut reader = TupfileReader::parse(content, "Tupfile").unwrap();
    let rules = reader.evaluate().unwrap();

    assert_eq!(rules.len(), 1);
    assert!(rules[0].foreach);
}

#[test]
fn test_bang_macro_with_variable() {
    let content = r#"
CC = clang
!cc = |> $(CC) -c %f -o %o |> %B.o
: main.c |> !cc |>
"#;
    let mut reader = TupfileReader::parse(content, "Tupfile").unwrap();
    let rules = reader.evaluate().unwrap();

    assert_eq!(rules.len(), 1);
    // Variable should be expanded in the macro definition
    assert_eq!(rules[0].command.command, "clang -c %f -o %o");
}

#[test]
fn what_is_inside_an_inactive_conditional_does_nothing() {
    let text = "ifdef A\nifndef B\nbogus\nendif\nendif\n";
    let rules = TupfileReader::parse(text, "T").unwrap().evaluate().unwrap();
    assert!(rules.is_empty());
    let text = "ifdef A\nifndef B\nX = 1\nelse\nX = 2\nendif\nendif\n: |> echo $(X) |> out\n";
    let rules = TupfileReader::parse(text, "T").unwrap().evaluate().unwrap();
    assert_eq!(rules[0].command.command.trim(), "echo");
}
