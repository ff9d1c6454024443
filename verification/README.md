# meadow

The parts of a small functional language that are worth proving, in Verus.

- `src/scc` -- dependency analysis: strongly connected components, the order of modules and
  of the bindings in them.
- `src/span.rs`, `src/text.rs`, `src/terms` -- source positions, text, and the core language:
  terms, patterns, types, descriptors, primitives, and integers of any size.
- `src/seq` -- the sequent intermediate form: its statements, how they are printed and which
  names they still use, the lowering of core terms to it, the descriptor pass, and the abstract
  machine that says what it means.
- `src/eval` -- the reference evaluator, with one-shot deep handlers.
- `src/glade` -- the runtime: object headers, pauses, the marker's bookkeeping, what programs
  ask of the system, and the code generator: the plan of a vector loop and the AArch64
  instructions it is.
- `src/installer` -- the rules of the toolchain's installer.

Floats are held as their bits. Arithmetic on them, and everything that touches the system, is
asked for by the library and done in `app`.
