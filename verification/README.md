# n2o5

A build system as a library, verified with Verus: build graphs, an
incremental executor, a build database, and a reader for Ninja build files
that turns them into build graphs.

## Layout

- `src/graph.rs`: build graphs, their builder, and (in `graph/`) the hashes
  that identify a build and its input set, and the readable form of a
  command.
- `src/exec.rs`: the executor's state machine (which builds are tracked,
  ready, running, finished, failed or skipped), the check of whether a build
  is up to date, and the run of one build.
- `src/db.rs` and `src/db/`: the build database as a trait, a database held
  in memory, one that keeps a journal of its changes, and the handle of a
  database file.
- `src/world.rs`: how the executor asks the outside world about files and
  has it run commands.
- `src/ninja/`: the lexer, the parser, the expansion of variables, the
  conversion into a build graph, and the choice of builds for targets.
- `src/progress.rs`, `src/cli.rs`: progress reporting and the command line.
- `app/`: the command-line tool: argument parsing, reading files, the local
  world, and storing the database in a `redb` file.
- `tests/`: tests of the library.
