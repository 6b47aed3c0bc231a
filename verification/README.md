# jpm

`jpm` is a command-line front end to Julia's package manager. This crate holds its
logic as a library verified with Verus, and a thin program around it.

## Layout

- `src/` — the verified library.
  - `cli.rs`: reading the command line into a `Config` and `Command`.
  - `julia.rs`: Julia string literals, `Pkg.PackageSpec`s, `Pkg` expressions, the
    arguments Julia is started with, and reading what Julia reports back.
  - `insights.rs`: the resolved dependency graph: reading it, drawing it as a tree
    (`jpm tree`) and explaining why a package is installed (`jpm why`).
  - `shell.rs`: printing a command line for `--dry-run`.
  - `toolchain.rs`: selecting a Julia channel with Juliaup (`jpm use`).
  - `project.rs`: finding the project a command works on.
  - `doctor.rs`: the `jpm doctor` report.
  - `paths.rs`: making a typed path absolute (`~/` and the working directory).
  - `text.rs`: character-sequence helpers shared by the modules above.
- `tests/` — tests of the library on concrete values.
- `app/` — the program: the environment, the file system, starting Julia and Juliaup,
  and printing.

## What is proved

Every public function states its result exactly in its contract. Beyond that, the
library proves:

- a Julia string literal made for a value reads back as exactly that value, so
  package names, versions, URLs and arguments cannot break out of the expressions
  they are placed in;
- every `Pkg` command starts Julia in the project without the user's startup file or
  history;
- a command line printed by `--dry-run` is split by a POSIX shell into exactly the
  program and its arguments (when none is empty);
- the environment report Julia prints reads back as the values it was printed from,
  a registry count that is not a number is refused and other lines are passed over,
  wherever they stand;
- the graph data Julia prints describes exactly one graph;
- `jpm why` follows the first of the shortest chains from the project, and there is
  only one such chain.
