# ebpf-lab

An eBPF laboratory: decode, disassemble, graph, interpret, verify and optimize
eBPF programs. The library under `src/` is written in Verus: its functions have
contracts over mathematical models, and the contracts are proved. Calls into
`petgraph`, `object` and a few functions of `std` go through declarations whose
contracts are trusted; each says so where it stands.

## Layout

| Path | What it holds |
|------|---------------|
| `src/isa` | instruction words, decoding, encoding, the meaning of ALU operations |
| `src/cfg.rs`, `src/graph.rs` | control-flow graphs, kept in `petgraph` |
| `src/disasm.rs`, `src/report.rs` | text for people |
| `src/vm` | interpreter, memory, maps, packet programs |
| `src/verify` | abstract interpretation over intervals |
| `src/ssa` | SSA construction, optimization, register allocation, lowering |
| `src/elf.rs` | object files, read with the `object` crate |
| `app/` | the command line program |
| `tests/` | tests of the library |

## What is proved

Each stage has a mathematical model (`VmModel`, `StateModel`, `Prog`, ...) and
its functions are proved to compute it. `build_ssa` is proved to give an SSA form
of the program, in which a block that is reached over a single edge has phis only
where control comes back from it; which of several such forms it is, and how its
values are numbered, is left open. Laws that span functions are public proof functions next
to what they speak of, for instance that decoding undoes encoding, or that the
blocks of a graph partition the program.

These laws speak of whole runs and whole passes:

- `src/verify/sound.rs`: a program that the verifier accepts runs without a
  memory fault. The verifier takes the result of a map update or delete to be 0,
  so of programs that call helpers this is stated for runs that do not read the
  result of a failed one before they write its register again. Packets are up to
  64 KiB long.
- `src/ssa/sound.rs`: a program that was built into SSA form, optimized and
  lowered ends if and only if it did before, with the same exit code or fault,
  memory and maps. It holds of every program whose byte swaps have immediate
  widths, as those of decoded programs do. Lowering checks the registers that it
  chose (`src/ssa/tables.rs`) and refuses a program rather than give out code
  that writes a register while its value is needed.
- `src/ssa/effects.rs`: optimizing keeps the loads, stores, calls, branches and
  exits of the blocks that stay live, in order.
- `src/ssa/progress.rs`: where every value is defined on every way to its uses,
  as in what `build_ssa` gives, every value that is read after optimizing has its
  definition, and optimizing again changes nothing.
