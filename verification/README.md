# inspequte

A static analyzer core for JVM class files, written in Verus. The library
takes classes already parsed into its IR (`src/ir.rs`) and runs a set of
rules over them, each returning findings with SARIF-shaped locations.

Layout:

- `src/ir.rs`, `src/bytecode.rs`, `src/descriptor.rs`: the class model, instruction
  lengths and method descriptors (the latter parsed through the `jdescriptor` crate).
- `src/callgraph.rs`, `src/classpath.rs`, `src/flatten.rs`: the call graph by class
  hierarchy analysis and the class-path tables.
- `src/dataflow/`: the operand-stack machine, opcode semantics and the worklist engine.
- `src/rules/`: one module per rule, and `registry.rs` listing them.
- `src/engine.rs`, `src/report.rs`: running the rules and ordering their findings.
- `src/inputs.rs`: expanding `@file` input lists: listing contents are parsed and
  references followed step by step, the caller resolving and reading the files
  the expansion asks for; then missing paths are filtered.

`app/main.rs` is the command-line front end: it runs the `@file` expansion
against the file system and prints the expanded input and classpath paths.

The functions in `src/` are verified by Verus against their `requires`/`ensures`,
except the few marked `#[verifier::external_body]`, which call `jdescriptor` or
read the clock and whose contracts are trusted.
The tests under `tests/` exercise the library on hand-built class models.
