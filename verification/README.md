# harmont_cli

The core of `hm`, the command-line client of the Harmont CI platform,
written in Verus with its behaviour stated in contracts and proved.

- `src/` is the verified library: the step graph of a rendered pipeline
  (`orchestrator::graph`, with the cycle search in `orchestrator::cycle`),
  the pipeline and plugin-manifest types (`protocol`), the CLI errors and
  their exit codes (`error`), and what the commands decide and print
  (`builtin`, `commands`, `output`, `fs_util`, `plugin::pool`).
- `app/` is the ordinary Rust around it: argument parsing with clap, the
  Python renderer subprocess, file writes, terminal output, and the
  Extism plugin runtime. It converts to and from the library's types.
- `tests/` runs the library on concrete values.

Running the planned chains (the scheduler) and the plugin registry,
installer and host functions are not part of this crate.
