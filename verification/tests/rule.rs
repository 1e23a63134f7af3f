//! Rules.
use tup::parser::rule::Rule;

#[test]
fn test_parse_basic_rule() {
    let rule = Rule::parse("foo.c |> gcc -c foo.c -o foo.o |> foo.o", 1).unwrap();
    assert!(!rule.foreach);
    assert_eq!(rule.inputs, vec!["foo.c"]);
    assert_eq!(rule.command.command, "gcc -c foo.c -o foo.o");
    assert_eq!(rule.outputs, vec!["foo.o"]);
    assert!(rule.order_only_inputs.is_empty());
    assert!(rule.extra_outputs.is_empty());
}

#[test]
fn test_parse_foreach_rule() {
    let rule = Rule::parse("foreach *.c |> gcc -c %f -o %o |> %B.o", 1).unwrap();
    assert!(rule.foreach);
    assert_eq!(rule.inputs, vec!["*.c"]);
    assert_eq!(rule.command.command, "gcc -c %f -o %o");
    assert_eq!(rule.outputs, vec!["%B.o"]);
}

#[test]
fn test_parse_multiple_inputs() {
    let rule = Rule::parse("a.c b.c c.c |> gcc %f -o out |> out", 1).unwrap();
    assert_eq!(rule.inputs, vec!["a.c", "b.c", "c.c"]);
}

#[test]
fn test_parse_order_only_inputs() {
    let rule =
        Rule::parse("main.c | config.h |> gcc -c main.c -o main.o |> main.o", 1).unwrap();
    assert_eq!(rule.inputs, vec!["main.c"]);
    assert_eq!(rule.order_only_inputs, vec!["config.h"]);
}

#[test]
fn test_parse_extra_outputs() {
    let rule = Rule::parse(
        "foo.c |> gcc -c %f -o %o -MD -MF %o.d |> foo.o | foo.o.d",
        1,
    )
    .unwrap();
    assert_eq!(rule.outputs, vec!["foo.o"]);
    assert_eq!(rule.extra_outputs, vec!["foo.o.d"]);
}

#[test]
fn test_parse_command_with_display() {
    let rule = Rule::parse("|> ^CC foo.c^ gcc -c foo.c -o foo.o |> foo.o", 1).unwrap();
    assert_eq!(rule.command.display, Some("CC foo.c".to_string()));
    assert_eq!(rule.command.command, "gcc -c foo.c -o foo.o");
}

#[test]
fn test_parse_command_with_flags_and_display() {
    let rule = Rule::parse("|> ^t CC foo.c^ gcc -c foo.c -o foo.o |> foo.o", 1).unwrap();
    assert_eq!(rule.command.flags, Some("t".to_string()));
    assert_eq!(rule.command.display, Some("CC foo.c".to_string()));
    assert_eq!(rule.command.command, "gcc -c foo.c -o foo.o");
}

#[test]
fn test_parse_empty_input() {
    let rule = Rule::parse("|> echo hello > %o |> greeting.txt", 1).unwrap();
    assert!(rule.inputs.is_empty());
    assert_eq!(rule.command.command, "echo hello > %o");
    assert_eq!(rule.outputs, vec!["greeting.txt"]);
}

#[test]
fn test_parse_too_few_sections() {
    let result = Rule::parse("foo.c |> gcc foo.c", 1);
    assert!(result.is_err());
}
