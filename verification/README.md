# midenc

A verified library of parts of the Miden compiler, written in Verus. Every function in `src/`
carries a contract; Verus proves each one, except for the few small trusted wrappers (marked
`#[verifier::external_body]`) that call `miden_processor`, `miden_core`, `smallvec` or the
standard library, whose contracts restate what those libraries document.

Modules of `src/`:

- `felt`, `felt_conv`, `encoding`, `layout`, `repr`, `repr_laws`: field elements of the Miden
  VM, their conversions from and to integers and text, and the byte, field element, word and
  operand-stack representations of values, with the laws of converting back and forth.
- `ir`, `builders`, `ops`, `arith`: an arena of IR operations with symbol tables; the world,
  component, module and operation builders; the builtin, test, HIR and arithmetic dialect
  operations with their result-type inference and memory effects.
- `function_text`: the printed form of a function operation, laid out from the texts of its
  parts.
- `component_init`: what lowering a component decides from its layout, the instructions its
  `init` procedure starts with, and the Miden Assembly component record that lowering builds,
  with an RPO-256 commitment to each data segment.
- `dispatch`: the binary search that lowers a switch over case values into nested branches,
  with the laws on which selectors reach which case.
- `cfg`: control-flow graph edges, the edges out of a block, and the entry, exit and back
  edges of a cycle.
- `cfg_to_scf`: preparing a region's control flow for lifting to structured form: combining
  return-like exits, edge multiplexers, single-entry blocks, single exiting latches and
  single-exit branch regions, and preparing a cycle to become a loop, with the laws that each
  redirected edge still reaches its original target with its original operands.
- `branch_regions`: what structuring the conditional control flow at the end of a region entry
  block decides: its branch regions, the edges to the continuation, and which case applies.
- `reduce_loop`: bringing a structured loop into reduce form, where no value defined in the
  loop is used outside it and the exit block takes the values of the last iteration.
- `spills`: splitting the control-flow edges that spills and reloads need a block on, and
  rewriting spill and reload pseudo-instructions in a straight-line block.
- `pass`, `print`: pass identifiers, passes, pass execution state, and when the IR printer
  prints around pass executions.
- `test_attrs`: the attributes of harness tests: defaults, validation, emission order and help.
- `intrinsics`, `miden_abi`, `variables`: intrinsic functions and their paths, the Miden
  modules and functions behind component imports, and variable errors.
- `wasm_config`: the configuration of building IR from WebAssembly, with its defaults.

`app/` holds what stays outside verification: command-line, serde and property-test support
for field elements, the `miden_test` attribute expansion (parsing with darling, code emission
with quote), and error types implementing `std::error::Error`.
