# powdr (verified core)

The logic of a zk toolchain, written in Verus. Verus proves the contracts of the
functions in `src/`, except four small trusted wrappers (`string_push` in
`text.rs`, `goldilocks_inverse` in `field.rs`, and the two `ubig_*` wrappers in
`number.rs`), whose contracts are taken from what `std`, `p3_goldilocks` and
`ibig` document and do.

Layout of `src/`:

- `field.rs`: arithmetic in the Goldilocks field (inversion through `p3_goldilocks`).
- `text.rs`: decimal text, joining, lexicographic order of names.
- `range.rs`, `affine.rs`, `eval.rs`: range constraints, affine expressions and
  how they are solved.
- `witgen.rs`, `columns.rs`, `interpreter.rs`, `identity.rs`: witness generation
  bookkeeping, the compiled-effects interpreter, and identities as bus
  interactions.
- `codegen.rs`: code generation for compiled symbols of an analyzed program.
- `display.rs`: text of types, expressions and machine statements.
- `reachability.rs`: which labels and data of RISC-V assembly are reachable.
- `bootloader.rs`: the continuation bootloader's inputs.
- `riscv.rs`, `riscv_cli.rs`, `cli.rs`, `precompiles.rs`, `backend.rs`,
  `profiling.rs`, `number.rs`: command-line values, cargo invocations, block
  selection for precompiles, profiling summaries, and big-number helpers.
- `continuations.rs`, `condenser.rs`: the bookkeeping between continuation chunks,
  and the statement order and definitions after condensing.

`app/` holds the command-line program and the parts that do I/O; `tests/` holds
the tests.
