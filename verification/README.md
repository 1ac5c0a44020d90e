# lib: a verified bytecode compiler core

This crate holds the core of a script-to-bytecode compiler, written in Verus
and proved against its contracts. It covers lowering of literals, names,
operators (with `&&` and `||` short-circuiting), tuples, arrays, maps, field
and index reads, interpolated strings, blocks, `let`, `return`, `if`,
`match` and `for`, and the MIR backend's ordinary units. It does not lower
calls, method calls, closures, record constructors, `?` or whole assignment
expressions (those are refused with an `UnsupportedSyntax` error), its
errors carry no source location, and selection emits every block as an
ordinary unit (no superinstruction or scalar-block recipes).

Layout of `src/`:

- `hir.rs`, `compiler.rs`: the lowered syntax tree the compiler reads, the
  instructions it emits, and the compiler state (registers, locals, facts).
- `hir_lowering.rs`, `match_lowering.rs`, `loops.rs`, `assignments.rs`:
  lowering of expressions, statements, `if`, `match`, `for`, patterns and
  the write-back code of field and index assignments. An operator's code lowers its operands in order and
  applies itself to their registers; `return` returns the register its
  value was lowered into. Every
  lowering step leaves jumps closed within the code it emitted, keeps the
  bindings of the enclosing scope, and fails exactly on the constructs that
  `lowerable.rs` describes (or when registers run out).
- `logical_lowering.rs`: `&&` and `||` chains with their short-circuit
  tests.
- `lowering_semantics.rs`: a reading of straight-line code as the terms it
  computes, and the law that the code lowered for an expression built from
  literals, names, operators, tuples, arrays, field reads and index reads
  computes that expression's value in its result register without touching
  the registers handed out before it; and, reading code with jumps, the law
  that the code lowered for an `&&` or `||` chain of such operands ends with
  the short-circuit conjunction or disjunction of their truth in its
  result register.
- `record_shapes.rs`, `expr_shapes.rs`, `hir_shapes.rs`,
  `record_reflection_shapes.rs`, `syntax_shapes.rs`: the shapes of values
  (records with sorted field slots, collections, options, results).
- `field_slots.rs`, `script_types.rs`, `value_types.rs`, `patterns.rs`:
  field slots of script records and enums, and type facts.
- `options.rs`, `host_paths.rs`: compiler options and host index access rules.
- `mir.rs`, `coverage.rs`, `mir_graph.rs`, `dominators.rs`: the mid-level IR
  handed to the backend, selection of lowering units with their coverage and
  its verifier, reachability, predecessors and dominators.
- `mir_backend.rs`: the per-function backend that gives each MIR local and
  temporary its own register and lowers statements and aggregates to
  bytecode.
- `operators.rs`, `text.rs`, `param_defaults.rs`: operator tables, text
  helpers, parameter-default helpers.

`tests/` runs the library on concrete programs.
