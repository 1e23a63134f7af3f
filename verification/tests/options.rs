//! Options of a project.
use tup::platform::options::{is_valid_option, TupOptions};

#[test]
fn test_defaults() {
    let opts = TupOptions::new(3);
    assert_eq!(opts.get_string("updater.keep_going"), Some("0"));
    assert_eq!(opts.get_string("db.sync"), Some("1"));
    assert_eq!(opts.get_string("display.color"), Some("auto"));

    // num_jobs should be auto-detected
    let num_jobs = opts.get_int("updater.num_jobs").unwrap();
    assert!(num_jobs >= 1);
}

#[test]
fn test_get_flag() {
    let opts = TupOptions::new(3);
    assert!(!opts.get_flag("updater.keep_going"));
    assert!(opts.get_flag("db.sync"));
}

#[test]
fn test_set_override() {
    let mut opts = TupOptions::new(3);
    opts.set("updater.keep_going", "1");
    assert!(opts.get_flag("updater.keep_going"));
}

#[test]
fn test_parse_ini() {
    let mut opts = TupOptions::new(3);
    opts.parse_ini(
        "[updater]\n\
         num_jobs = 4\n\
         keep_going = 1\n\
         \n\
         # Comment\n\
         [display]\n\
         color = never\n",
    );

    assert_eq!(opts.get_int("updater.num_jobs"), Some(4));
    assert!(opts.get_flag("updater.keep_going"));
    assert_eq!(opts.get_string("display.color"), Some("never"));
}

#[test]
fn test_parse_ini_ignores_unknown() {
    let mut opts = TupOptions::new(3);
    opts.parse_ini("unknown.option = value\n");
    assert!(opts.get_string("unknown.option").is_none());
}

#[test]
fn test_parse_ini_comments_and_blanks() {
    let mut opts = TupOptions::new(3);
    opts.parse_ini(
        "# Full line comment\n\
         ; Semicolon comment\n\
         \n\
         [db]\n\
         sync = 0\n",
    );
    assert!(!opts.get_flag("db.sync"));
}

#[test]
fn test_show() {
    let opts = TupOptions::new(3);
    let items = opts.show();
    assert!(!items.is_empty());

    // All defined options should appear
    let names: Vec<&str> = items.iter().map(|(n, _)| n.as_str()).collect();
    assert!(names.contains(&"updater.num_jobs"));
    assert!(names.contains(&"db.sync"));
}

#[test]
fn test_is_valid_option() {
    assert!(is_valid_option("updater.num_jobs"));
    assert!(is_valid_option("db.sync"));
    assert!(!is_valid_option("foo.bar"));
}

#[test]
fn options_that_were_set_are_read_back() {
    let mut opts = TupOptions::new(3);
    assert_eq!(opts.get_string("updater.num_jobs"), Some("3"));
    opts.set("updater.num_jobs", "12");
    assert_eq!(opts.get_int("updater.num_jobs"), Some(12));
    opts.set("updater.num_jobs", "many");
    assert_eq!(opts.get_int("updater.num_jobs"), None);
}

#[test]
fn reading_options_sets_known_ones_only() {
    let mut opts = TupOptions::new(3);
    opts.parse_ini("[no]\nsuch = 1\n[db]\nsync = 0\nother\n");
    assert_eq!(opts.get_string("no.such"), None);
    assert!(!opts.get_flag("db.sync"));
    assert!(opts.get_flag("updater.warnings"));
}

#[test]
fn the_last_assignment_of_an_option_wins() {
    let mut opts = TupOptions::new(3);
    opts.parse_ini("updater.num_jobs = 4\n[updater]\nnum_jobs = 5\n[db]\nnum_jobs = 6\n");
    assert_eq!(opts.get_string("updater.num_jobs"), Some("5"));
    opts.parse_ini("[updater]\nnum_jobs = 7\n; num_jobs = 8\n");
    assert_eq!(opts.get_string("updater.num_jobs"), Some("7"));
}
