# arghda-core

A proof-workspace manager for provers and solvers (Agda, Idris2, Lean 4,
Coq, Isabelle, Mizar, Z3, CVC5), with its engine verified in Verus.

- `src/` is the verified library: the lint packs, module naming and import
  parsing per backend, the import graph and DAG document, the demote-only
  reasoning fold, verdicts from tool output, the four-state workspace
  machine and its proven-hash manifest, configuration, SHA-256, and
  RFC 3339 timestamps. Each public function has an `ensures` clause over
  spec functions; several laws that span functions are public proof
  functions, and others stand in the `ensures` of the functions they
  concern. What a tool run, the clock or an outside crate decides is
  stated only as far as the outside source supports.
- `app/` is the `arghda` command line: argument handling, the file
  system, running the tools, and JSON output through serialisable copies
  of the library's types.
- `tests/` exercises the library on concrete inputs.

Run Verus on `src/lib.rs` to check the library.
