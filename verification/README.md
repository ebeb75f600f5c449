# wae

A verified core for analysing the dependency architecture of JavaScript and TypeScript
projects: the project model, stable diagnostic identities, the module, runtime and package
graphs, configuration validation, suppressions, the baseline, and the answers of the command
line and editor tools. Functions under `src/` carry contracts that Verus proves; the few that
state nothing (the clock, and a cancellation flag shared between clones) say so in their doc
comments.

## Layout

- `src/` — the verified library. Graph modules (`module_graph`, `runtime_graph`,
  `package_graph`) prove reachability, breadth-first shortest walks, strongly connected components and the
  one cycle reported for each cyclic component; `architecture` keeps the ownership index and
  its counts; `config`, `validation`, `suppression`, `baseline`, `regression` and
  `check_command` hold the rules and answers of a check; `session`, `tools`, `trace` and
  `manifest` decide what an editor session, the editor tools, a traced resolution and a
  package manifest give.
- Calls into outside crates (glob matching, JSON, the Tree-sitter parser, the clock) stand
  behind small trusted wrappers whose doc comments say what is assumed of them.
- `tests/` — ordinary Rust tests that run the library with the real outside crates.
- `app/` — the command-line program: argument handling, file and process I/O, and rendering,
  around the library. It answers `init`, `discover`, `baseline list`, `explain`, `--version`
  and `--help`; the commands that need a full project analysis (rule evaluation and module
  resolution) report that this build lacks it.
