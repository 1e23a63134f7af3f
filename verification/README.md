# tup

The logic of a file-based build system as a library whose behaviour is stated in
contracts and proved with Verus.

A build is described by `Tupfile`s. The library reads them into rules, expands
the rules of a directory against the files that are there, stores the commands
that result in a database of nodes and links, and says which of them have to run
when a file changes.

* `src/parser/` reads `Tupfile`s: lines, variables, macros, rules, patterns and
  `%`-flags.
* `src/graph/` is the graph of dependencies: its order, its cycles, its drawing.
* `src/db/` is the database: nodes, links, marks, variants, and how files and
  commands are kept in step with it.
* `src/build/` holds the steps of an update.
* `src/platform/` and `src/monitor.rs` hold options, the scan of a tree, the order
  of locks, and the changes that a monitor reports.
* `src/text.rs`, `src/paths.rs`, `src/numbers.rs`, `src/ordmap.rs` and
  `src/sorting.rs` are what the rest is built on.
* `app/` is the program: it reads and writes files, keeps the database in SQLite,
  runs commands and Lua scripts, and asks the library what to do.

Properties that relate several functions are public proof functions, in the module
of the functions or in a module whose name ends in `laws`.
