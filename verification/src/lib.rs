//! A verified eBPF laboratory: decoding, disassembly, control-flow graphs,
//! execution, static verification and optimization of eBPF programs.
pub mod bytes;
pub mod cfg;
pub mod disasm;
pub mod elf;
pub mod graph;
pub mod isa;
pub mod report;
pub mod slots;
pub mod ssa;
pub mod text;
pub mod verify;
pub mod vm;
