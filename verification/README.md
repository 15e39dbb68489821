# csolver

A verified library for finding and excluding memory errors in compiled code.

Modules of LLVM IR or Rust MIR are lowered into a small intermediate representation. A
symbolic executor explores each function of it and decides, for every memory access and every
explicit check, whether it is safe on all paths. Its questions are answered by a SAT solver
over bit-vectors. Summaries carry what is known of a function to its callers, within a module
and across modules.

## Layout

- `src/ir.rs`: the intermediate representation, with the layout of types.
- `src/llvm/`: parsed LLVM IR, its debug information and metadata, and its lowering.
- `src/mir/`: the tokens, the grammar and the parser of MIR dumps, and their lowering.
- `src/summary/`: function summaries and their composition over calls.
- `src/exec/`: symbolic execution. `machine.rs` asks the questions, `solver.rs` answers them,
  `drive.rs` does both, `report.rs` gathers the outcome, `laws.rs` states what holds of every
  exploration, and `replay.rs` relates an exploration to the questions that led to it.
- `src/expr.rs`, `src/blast.rs`, `src/bitblast.rs`, `src/gates.rs`: expressions, what they
  mean, circuits for them, and the clauses that gates emit.
- `src/sat.rs`, `src/sat/`: a conflict-driven SAT solver.
- `src/smt.rs`: the interface to further solvers.
- `app/`: explorations with a solver of the caller's, and impls of standard traits.

## What is proved

Contracts say what functions return or change, over mathematical models of their arguments.
What depends on the clock is stated for every reading of it: a search gives up only when its
time or its budget is spent, and the default budget decides every small formula. Laws that
span functions are proof functions: a model that the SAT solver returns satisfies every clause
and a refutation means that there is none; circuits compute what their expressions mean, and
constants fold away; summaries of separate modules are those of the linked module; a truncated
exploration decides nothing, and nothing is both proved and refuted. With the answers of the
exact solver, what is reported as proven follows from the premises of each path to it, and what
is reported as refuted has a model that takes a path to it and violates it.
