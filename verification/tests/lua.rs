//! Rules that a script defines.
use std::cell::RefCell;
use std::rc::Rc;

use mlua::{Lua, Table};
use tup::parser::glob::{expand_globs, Listing, Listings};
use tup::parser::lua::{
    definerule, lua_foreach_rule, lua_rule, lua_value_to_string_vec, preprocess_lua_plus_equals,
    LuaArg,
};
use tup::parser::rule::Rule;

fn items(table: &Table, field: &str) -> Vec<String> {
    match table.get::<_, Table>(field) {
        Ok(t) => t.sequence_values::<String>().flatten().collect(),
        Err(_) => vec![],
    }
}

/// Runs a script with `tup.definerule`, `tup.getcwd` and `tup.glob`.
fn run(content: &str, there: &[&str]) -> Result<Vec<Rule>, mlua::Error> {
    let rules = Rc::new(RefCell::new(Vec::new()));
    let lua = Lua::new();
    let tup = lua.create_table()?;
    let out = rules.clone();
    tup.set(
        "definerule",
        lua.create_function(move |_, t: Table| {
            out.borrow_mut().push(definerule(
                t.get("foreach").unwrap_or(false),
                items(&t, "inputs"),
                items(&t, "extra_inputs"),
                t.get("command").unwrap_or_default(),
                items(&t, "outputs"),
                items(&t, "extra_outputs"),
            ));
            Ok(())
        })?,
    )?;
    tup.set("getcwd", lua.create_function(|_, ()| Ok("/p".to_string()))?)?;
    let names: Vec<String> = there.iter().map(|n| n.to_string()).collect();
    tup.set(
        "glob",
        lua.create_function(move |_, pattern: String| {
            let mut listings = Listings::new();
            listings.insert(String::new(), Listing::Names(names.clone()));
            Ok(expand_globs(&[pattern], &listings).unwrap_or_default())
        })?,
    )?;
    lua.globals().set("tup", tup)?;
    lua.load(preprocess_lua_plus_equals(content)).exec()?;
    drop(lua);
    let found = rules.take();
    Ok(found)
}

#[test]
fn test_lua_definerule() {
    let content = r#"
tup.definerule{
    inputs = {"main.c"},
    command = "gcc -c main.c -o main.o",
    outputs = {"main.o"},
}
"#;
    let rules = run(content, &[]).unwrap();
    assert_eq!(rules.len(), 1);
    assert_eq!(rules[0].inputs, vec!["main.c"]);
    assert_eq!(rules[0].command.command, "gcc -c main.c -o main.o");
    assert_eq!(rules[0].outputs, vec!["main.o"]);
}

#[test]
fn test_lua_multiple_rules() {
    let content = r#"
tup.definerule{inputs={"a.c"}, command="gcc -c a.c -o a.o", outputs={"a.o"}}
tup.definerule{inputs={"b.c"}, command="gcc -c b.c -o b.o", outputs={"b.o"}}
"#;
    let rules = run(content, &[]).unwrap();
    assert_eq!(rules.len(), 2);
}

#[test]
fn test_lua_foreach() {
    let content = r#"
tup.definerule{
    inputs = {"a.c", "b.c"},
    command = "gcc -c %f -o %o",
    outputs = {"%B.o"},
    foreach = true,
}
"#;
    let rules = run(content, &[]).unwrap();
    assert_eq!(rules.len(), 1);
    assert!(rules[0].foreach);
}

#[test]
fn test_lua_getcwd() {
    let content = r#"
local cwd = tup.getcwd()
tup.definerule{inputs={}, command="echo " .. cwd, outputs={}}
"#;
    let rules = run(content, &[]).unwrap();
    assert_eq!(rules.len(), 1);
    assert!(rules[0].command.command.starts_with("echo "));
}

#[test]
fn test_lua_glob() {
    let content = r#"
local srcs = tup.glob("*.c")
for _, f in ipairs(srcs) do
    tup.definerule{inputs={f}, command="gcc -c " .. f, outputs={}}
end
"#;
    let rules = run(content, &["x.c", "y.c", "z.h"]).unwrap();
    assert_eq!(rules.len(), 2); // x.c and y.c, not z.h
}

#[test]
fn test_lua_variables() {
    let content = r#"
CC = "gcc"
CFLAGS = "-Wall -O2"
tup.definerule{
    inputs = {"main.c"},
    command = CC .. " " .. CFLAGS .. " -c main.c -o main.o",
    outputs = {"main.o"},
}
"#;
    let rules = run(content, &[]).unwrap();
    assert_eq!(
        rules[0].command.command,
        "gcc -Wall -O2 -c main.c -o main.o"
    );
}

#[test]
fn test_lua_error() {
    let content = "this is not valid lua {{{";
    let result = run(content, &[]);
    assert!(result.is_err());
}

#[test]
fn test_lua_no_rules() {
    let content = "-- just a comment\nlocal x = 1\n";
    let rules = run(content, &[]).unwrap();
    assert!(rules.is_empty());
}

fn table(names: &[&str]) -> LuaArg {
    LuaArg::Table {
        items: names.iter().map(|n| n.to_string()).collect(),
        inputs: vec!["i".to_string()],
        command: "c".to_string(),
        outputs: vec!["o".to_string()],
    }
}

fn text(s: &str) -> LuaArg {
    LuaArg::Text(s.to_string())
}

#[test]
fn the_forms_of_a_rule_call() {
    let r = lua_rule(&[text("date")]);
    assert_eq!((r.command.command.as_str(), r.had_inputs), ("date", false));
    let r = lua_rule(&[table(&["x"])]);
    assert_eq!(r.inputs, vec!["i"]);
    assert_eq!(r.command.command, "c");
    assert_eq!(r.outputs, vec!["o"]);
    let r = lua_rule(&[table(&["a.c"]), text("cc")]);
    assert_eq!(r.inputs, vec!["a.c"]);
    assert!(r.had_inputs && r.outputs.is_empty());
    let r = lua_rule(&[text("cc"), table(&["a.o"])]);
    assert_eq!(r.outputs, vec!["a.o"]);
    let r = lua_rule(&[text("a.c"), text("cc"), table(&["a.o", "a.d"])]);
    assert_eq!(r.inputs, vec!["a.c"]);
    assert_eq!(r.outputs, vec!["a.o", "a.d"]);
    assert!(!r.foreach);
    assert_eq!(lua_rule(&[]).command.command, "");
}

#[test]
fn the_forms_of_a_foreach_call() {
    let r = lua_foreach_rule(&[table(&["a.c", "b.c"]), text("cc %f")]);
    assert!(r.foreach && r.outputs.is_empty());
    assert_eq!(r.inputs, vec!["a.c", "b.c"]);
    let r = lua_foreach_rule(&[text("a.c"), text("cc %f"), text("%B.o")]);
    assert_eq!(r.outputs, vec!["%B.o"]);
    assert_eq!(lua_value_to_string_vec(&text("")), Vec::<String>::new());
    assert_eq!(lua_value_to_string_vec(&LuaArg::Other), Vec::<String>::new());
}

#[test]
fn appending_becomes_a_call() {
    assert_eq!(
        preprocess_lua_plus_equals("flags += \"-O2\"\n-- a += b\ns = \"x += y\"\n"),
        "flags = tup_append_assignment(flags, \"-O2\")\n-- a += b\ns = \"x += y\"\n"
    );
}
